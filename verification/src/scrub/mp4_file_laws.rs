//! What a scrub makes of an MP4, M4V or MOV file that is put together from its boxes.
use vstd::prelude::*;
use crate::bytes::{
    be32, be32_bytes, be32_from_bytes, be32_range, be32_same, be64, be64_bytes, be64_same,
};
use crate::error::ScrubError;
use crate::scrub::edit::{changed, lemma_rebuilt_front, rebuilt, Edit, Piece};
use crate::scrub::mp4::{
    body, box_len, box_type, boxes, child_edit, child_edits, container_edit, header_len,
    is_container, is_dropped, is_largesize, is_time_box, is_xmp, rewrapped, scrubbed, times_end,
    times_start, top_edit, top_edits, xmp_uuid, zeroed_times, MOOV, UUID,
};
use crate::scrub::mp4_laws::{is_open_ended, is_sized};

verus! {

/// "moov"
pub open spec fn moov() -> Seq<u8> {
    seq![0x6Du8, 0x6F, 0x6F, 0x76]
}

/// "trak"
pub open spec fn trak() -> Seq<u8> {
    seq![0x74u8, 0x72, 0x61, 0x6B]
}

/// "udta"
pub open spec fn udta() -> Seq<u8> {
    seq![0x75u8, 0x64, 0x74, 0x61]
}

/// "meta"
pub open spec fn meta() -> Seq<u8> {
    seq![0x6Du8, 0x65, 0x74, 0x61]
}

/// "keys"
pub open spec fn keys() -> Seq<u8> {
    seq![0x6Bu8, 0x65, 0x79, 0x73]
}

/// "ilst"
pub open spec fn ilst() -> Seq<u8> {
    seq![0x69u8, 0x6C, 0x73, 0x74]
}

/// "uuid"
pub open spec fn uuid() -> Seq<u8> {
    seq![0x75u8, 0x75, 0x69, 0x64]
}

/// The user type of XMP.
pub open spec fn xmp_type() -> Seq<u8> {
    seq![
        0xBEu8, 0x7A, 0xCF, 0xCB, 0x97, 0xA9, 0x42, 0xE8, 0x9C, 0x71, 0x99, 0x94, 0x91, 0xE3, 0xAF,
        0xAC,
    ]
}

/// Whether a box of type `typ` is private in one of type `parent`: `udta`, `meta`, `keys` or `ilst`
/// directly in `moov`, and `udta` or `meta` directly in `trak`.
pub open spec fn is_private(parent: Seq<u8>, typ: Seq<u8>) -> bool {
    ||| parent == moov() && (typ == udta() || typ == meta() || typ == keys() || typ == ilst())
    ||| parent == trak() && (typ == udta() || typ == meta())
}

/// Whether a box of this type says when the media was made: `mvhd`, `tkhd` or `mdhd`.
pub open spec fn tells_time(typ: Seq<u8>) -> bool {
    ||| typ == seq![0x6Du8, 0x76, 0x68, 0x64]
    ||| typ == seq![0x74u8, 0x6B, 0x68, 0x64]
    ||| typ == seq![0x6Du8, 0x64, 0x68, 0x64]
}

/// Whether a box of this type holds boxes to look at: `moov`, `trak`, `mdia`, `minf`, `stbl`,
/// `edts` or `mvex`.
pub open spec fn holds_boxes(typ: Seq<u8>) -> bool {
    ||| typ == moov()
    ||| typ == trak()
    ||| typ == seq![0x6Du8, 0x64, 0x69, 0x61]
    ||| typ == seq![0x6Du8, 0x69, 0x6E, 0x66]
    ||| typ == seq![0x73u8, 0x74, 0x62, 0x6C]
    ||| typ == seq![0x65u8, 0x64, 0x74, 0x73]
    ||| typ == seq![0x6Du8, 0x76, 0x65, 0x78]
}

proof fn lemma_tag(t: Seq<u8>, a: u8, b: u8, c: u8, d: u8)
    requires
        t.len() == 4,
    ensures
        be32(t, 0) == a * 0x100_0000 + b * 0x1_0000 + c * 0x100 + d <==> t == seq![a, b, c, d],
{
    reveal(be32);
    if t == seq![a, b, c, d] {
        assert(t[0] == a && t[1] == b && t[2] == c && t[3] == d);
    }
    if be32(t, 0) == a * 0x100_0000 + b * 0x1_0000 + c * 0x100 + d {
        assert(t =~= seq![a, b, c, d]);
    }
}

/// What is done with a box goes by the four letters of its type and of the type of what holds it.
pub proof fn boxes_change_by_their_type(parent: Seq<u8>, typ: Seq<u8>)
    requires
        parent.len() == 4,
        typ.len() == 4,
    ensures
        is_dropped(be32(parent, 0), be32(typ, 0)) <==> is_private(parent, typ),
        is_time_box(be32(typ, 0)) <==> tells_time(typ),
        is_container(be32(typ, 0)) <==> holds_boxes(typ),
        be32(typ, 0) == MOOV <==> typ == moov(),
        be32(typ, 0) == UUID <==> typ == uuid(),
{
    lemma_tag(parent, 0x6D, 0x6F, 0x6F, 0x76);
    lemma_tag(parent, 0x74, 0x72, 0x61, 0x6B);
    lemma_tag(typ, 0x6D, 0x6F, 0x6F, 0x76);
    lemma_tag(typ, 0x74, 0x72, 0x61, 0x6B);
    lemma_tag(typ, 0x75, 0x64, 0x74, 0x61);
    lemma_tag(typ, 0x6D, 0x65, 0x74, 0x61);
    lemma_tag(typ, 0x6B, 0x65, 0x79, 0x73);
    lemma_tag(typ, 0x69, 0x6C, 0x73, 0x74);
    lemma_tag(typ, 0x75, 0x75, 0x69, 0x64);
    lemma_tag(typ, 0x6D, 0x76, 0x68, 0x64);
    lemma_tag(typ, 0x74, 0x6B, 0x68, 0x64);
    lemma_tag(typ, 0x6D, 0x64, 0x68, 0x64);
    lemma_tag(typ, 0x6D, 0x64, 0x69, 0x61);
    lemma_tag(typ, 0x6D, 0x69, 0x6E, 0x66);
    lemma_tag(typ, 0x73, 0x74, 0x62, 0x6C);
    lemma_tag(typ, 0x65, 0x64, 0x74, 0x73);
    lemma_tag(typ, 0x6D, 0x76, 0x65, 0x78);
}

/// How a box gives its size: in 32 bits, in 64 bits, or as running to the end of what holds it.
pub enum Size {
    Short,
    Long,
    Open,
}

/// `n` in four bytes, most significant first.
pub open spec fn four_bytes(n: int) -> Seq<u8> {
    seq![
        (n / 0x100_0000 % 0x100) as u8,
        (n / 0x1_0000 % 0x100) as u8,
        (n / 0x100 % 0x100) as u8,
        (n % 0x100) as u8,
    ]
}

/// `n` in eight bytes, most significant first.
pub open spec fn eight_bytes(n: int) -> Seq<u8> {
    four_bytes(n / 0x1_0000_0000 % 0x1_0000_0000) + four_bytes(n % 0x1_0000_0000)
}

/// The header of a box that holds `n` bytes.
pub open spec fn header(typ: Seq<u8>, size: Size, n: int) -> Seq<u8> {
    match size {
        Size::Short => four_bytes(8 + n) + typ,
        Size::Long => four_bytes(1) + typ + eight_bytes(16 + n),
        Size::Open => four_bytes(0) + typ,
    }
}

/// How long a header with such a size is.
pub open spec fn size_len(size: Size) -> int {
    if size is Long {
        16
    } else {
        8
    }
}

/// A box: one that is not looked into, or one that holds boxes, and up to seven bytes more.
pub enum Node {
    Leaf { typ: Seq<u8>, size: Size, content: Seq<u8> },
    Container { typ: Seq<u8>, size: Size, inside: Seq<Node>, slack: Seq<u8> },
}

/// The type of the box.
pub open spec fn node_type(node: Node) -> Seq<u8> {
    match node {
        Node::Leaf { typ, .. } => typ,
        Node::Container { typ, .. } => typ,
    }
}

/// How the box gives its size.
pub open spec fn node_size(node: Node) -> Size {
    match node {
        Node::Leaf { size, .. } => size,
        Node::Container { size, .. } => size,
    }
}

/// What the box holds.
pub open spec fn node_content(node: Node) -> Seq<u8>
    decreases node,
{
    match node {
        Node::Leaf { content, .. } => content,
        Node::Container { inside, slack, .. } => nodes_bytes(inside) + slack,
    }
}

/// The box with the given header and content.
pub open spec fn box_bytes(typ: Seq<u8>, size: Size, content: Seq<u8>) -> Seq<u8> {
    header(typ, size, content.len() as int) + content
}

/// The boxes as they stand in a file, one after the other.
pub open spec fn nodes_bytes(nodes: Seq<Node>) -> Seq<u8>
    decreases nodes,
{
    if nodes.len() == 0 {
        Seq::empty()
    } else {
        box_bytes(node_type(nodes[0]), node_size(nodes[0]), node_content(nodes[0]))
            + nodes_bytes(nodes.drop_first())
    }
}

/// The box as it stands in a file.
pub open spec fn node_bytes(node: Node) -> Seq<u8> {
    box_bytes(node_type(node), node_size(node), node_content(node))
}

/// That a box of this type can give the length of this content so.
pub open spec fn fits(typ: Seq<u8>, size: Size, content: Seq<u8>) -> bool {
    &&& typ.len() == 4
    &&& size is Short ==> 8 + content.len() <= 0xFFFF_FFFF
    &&& size is Long ==> 16 + content.len() <= 0xFFFF_FFFF_FFFF_FFFF
}

/// That there can be such a box in a movie.
pub open spec fn is_node(node: Node) -> bool
    decreases node,
{
    &&& fits(node_type(node), node_size(node), node_content(node))
    &&& match node {
        Node::Leaf { typ, .. } => !holds_boxes(typ),
        Node::Container { typ, inside, slack, .. } => {
            &&& holds_boxes(typ)
            &&& slack.len() < 8
            &&& are_nodes(inside, slack)
        },
    }
}

/// That there can be such boxes in a movie, with `slack` after them. Only the last can run to the
/// end, and then nothing comes after it.
pub open spec fn are_nodes(nodes: Seq<Node>, slack: Seq<u8>) -> bool
    decreases nodes,
{
    nodes.len() > 0 ==> {
        &&& is_node(nodes[0])
        &&& node_size(nodes[0]) is Open ==> nodes.len() == 1 && slack.len() == 0
        &&& are_nodes(nodes.drop_first(), slack)
    }
}

/// Where the times end in what a time box holds; they start after four bytes. The first byte is a
/// version: with 0 there are eight bytes of times, with 1 sixteen.
pub open spec fn clock_end(content: Seq<u8>) -> int {
    if content.len() >= 12 && content[0] == 0 {
        12
    } else if content.len() >= 20 && content[0] == 1 {
        20
    } else {
        4
    }
}

/// Whether what a time box holds gives a time.
pub open spec fn gives_time(content: Seq<u8>) -> bool {
    exists|i: int| 4 <= i < clock_end(content) && content[i] != 0
}

/// What a time box holds, without the times.
pub open spec fn without_times(content: Seq<u8>) -> Seq<u8> {
    Seq::new(
        content.len(),
        |i: int|
            if 4 <= i < clock_end(content) {
                0u8
            } else {
                content[i]
            },
    )
}

/// Whether there is anything private in a box that stands in one of type `parent`.
pub open spec fn is_touched(parent: Seq<u8>, node: Node) -> bool
    decreases node,
{
    ||| is_private(parent, node_type(node))
    ||| match node {
        Node::Leaf { typ, content, .. } => tells_time(typ) && gives_time(content),
        Node::Container { typ, inside, .. } => any_touched(typ, inside),
    }
}

/// Whether there is anything private in any of these boxes, which stand in one of type `parent`.
pub open spec fn any_touched(parent: Seq<u8>, nodes: Seq<Node>) -> bool
    decreases nodes,
{
    nodes.len() > 0 && (is_touched(parent, nodes[0]) || any_touched(parent, nodes.drop_first()))
}

/// How a box that held with `size` gives the size of `n` bytes: in 64 bits only if it did before
/// and 32 bits are too few.
pub open spec fn new_size(size: Size, n: int) -> Size {
    if size_len(size) + n > 0xFFFF_FFFF {
        Size::Long
    } else {
        Size::Short
    }
}

/// A box that is not private itself, without what is private in it.
pub open spec fn cleaned(node: Node) -> Node
    decreases node, 0int,
{
    match node {
        Node::Leaf { typ, size, content } => if tells_time(typ) && gives_time(content) {
            Node::Leaf { typ, size, content: without_times(content) }
        } else {
            node
        },
        Node::Container { typ, size, inside, .. } => if any_touched(typ, inside) {
            Node::Container {
                typ,
                size: new_size(size, nodes_bytes(left(typ, inside)).len() as int),
                inside: left(typ, inside),
                slack: Seq::empty(),
            }
        } else {
            node
        },
    }
}

/// The boxes in one of type `parent`, without what is private.
pub open spec fn left(parent: Seq<u8>, nodes: Seq<Node>) -> Seq<Node>
    decreases nodes, 1int,
{
    if nodes.len() == 0 {
        Seq::empty()
    } else if is_private(parent, node_type(nodes[0])) {
        left(parent, nodes.drop_first())
    } else {
        seq![cleaned(nodes[0])] + left(parent, nodes.drop_first())
    }
}

proof fn lemma_four_bytes(n: int)
    requires
        0 <= n <= 0xFFFF_FFFF,
    ensures
        four_bytes(n).len() == 4,
        be32(four_bytes(n), 0) == n,
{
    reveal(be32);
}

proof fn lemma_eight_bytes(n: int)
    requires
        0 <= n <= 0xFFFF_FFFF_FFFF_FFFF,
    ensures
        eight_bytes(n).len() == 8,
        be64(eight_bytes(n), 0) == n,
{
    let high = n / 0x1_0000_0000 % 0x1_0000_0000;
    let low = n % 0x1_0000_0000;
    let s = eight_bytes(n);
    lemma_four_bytes(high);
    lemma_four_bytes(low);
    be32_same(s, 0, four_bytes(high), 0);
    be32_same(s, 4, four_bytes(low), 0);
    reveal(be64);
}

proof fn lemma_box_bytes(typ: Seq<u8>, size: Size, content: Seq<u8>)
    requires
        fits(typ, size, content),
    ensures
        ({
            let raw = box_bytes(typ, size, content);
            &&& raw.len() == size_len(size) + content.len()
            &&& header_len(raw) == size_len(size)
            &&& is_largesize(raw) == (size is Long)
            &&& is_open_ended(raw) == (size is Open)
            &&& box_type(raw) == be32(typ, 0)
            &&& body(raw) == content
            &&& raw.len() <= usize::MAX ==> is_sized(raw)
        }),
{
    let raw = box_bytes(typ, size, content);
    let n = content.len() as int;
    lemma_four_bytes(0);
    lemma_four_bytes(1);
    match size {
        Size::Short => {
            lemma_four_bytes(8 + n);
            be32_same(raw, 0, four_bytes(8 + n), 0);
        },
        Size::Long => {
            lemma_eight_bytes(16 + n);
            be32_same(raw, 0, four_bytes(1), 0);
            assert forall|k: int| 0 <= k < 8 implies #[trigger] raw[8 + k] == eight_bytes(
                16 + n,
            )[0 + k] by {}
            be64_same(raw, 8, eight_bytes(16 + n), 0);
        },
        Size::Open => {
            be32_same(raw, 0, four_bytes(0), 0);
        },
    }
    be32_same(raw, 4, typ, 0);
    assert(body(raw) =~= content);
}

proof fn lemma_box_first(typ: Seq<u8>, size: Size, content: Seq<u8>, after: Seq<u8>, at: int)
    requires
        fits(typ, size, content),
        size is Open ==> after.len() == 0,
        0 <= at,
        at + box_bytes(typ, size, content).len() <= usize::MAX,
        boxes(after, at + box_bytes(typ, size, content).len()) is Ok,
    ensures
        boxes(box_bytes(typ, size, content) + after, at) == Ok::<_, ScrubError>(
            seq![Piece { at, bytes: box_bytes(typ, size, content) }] + boxes(
                after,
                at + box_bytes(typ, size, content).len(),
            )->Ok_0,
        ),
{
    let raw = box_bytes(typ, size, content);
    let s = raw + after;
    let n = raw.len() as int;
    lemma_box_bytes(typ, size, content);
    be32_same(s, 0, raw, 0);
    if size is Long {
        be64_same(s, 8, raw, 8);
    }
    assert(s.take(n) =~= raw);
    assert(s.skip(n) =~= after);
    assert(box_len(s, at) == Ok::<int, ScrubError>(n));
}

proof fn lemma_times(typ: Seq<u8>, size: Size, content: Seq<u8>)
    requires
        fits(typ, size, content),
    ensures
        zeroed_times(box_bytes(typ, size, content)) == if gives_time(content) {
            Some(box_bytes(typ, size, without_times(content)))
        } else {
            None
        },
{
    let raw = box_bytes(typ, size, content);
    let h = size_len(size);
    lemma_box_bytes(typ, size, content);
    assert(raw.skip(h) == content);
    assert forall|i: int| 0 <= i < content.len() implies raw[h + i] == #[trigger] content[i] by {
        assert(raw.skip(h)[i] == content[i]);
    }
    let new = box_bytes(typ, size, without_times(content));
    assert forall|i: int| 0 <= i < h implies raw[i] == #[trigger] new[i] by {}
    if let Some(end) = times_end(raw) {
        assert(end == h + clock_end(content));
        if gives_time(content) {
            let i = choose|i: int| 4 <= i < clock_end(content) && content[i] != 0;
            assert(raw[h + i] != 0);
            assert(zeroed_times(raw).unwrap() =~= new);
        } else {
            assert forall|k: int| times_start(raw) <= k < end implies raw[k] == 0 by {
                assert(raw[h + (k - h)] == content[k - h]);
            }
        }
    }
}

proof fn lemma_child_edits_front(parent: int, p: Piece, rest: Seq<Piece>)
    requires
        child_edit(parent, p) is Ok,
        child_edits(parent, rest) is Ok,
    ensures
        child_edits(parent, seq![p] + rest) == Ok::<_, ScrubError>(
            seq![child_edit(parent, p)->Ok_0] + child_edits(parent, rest)->Ok_0,
        ),
        child_edits(parent, rest)->Ok_0.len() == rest.len(),
    decreases rest.len(),
{
    let list = seq![p] + rest;
    let e = child_edit(parent, p)->Ok_0;
    let none = Seq::<Piece>::empty();
    assert(child_edits(parent, none) == Ok::<_, ScrubError>(Seq::<Edit<Seq<u8>>>::empty()));
    if rest.len() == 0 {
        assert(rest =~= none);
        assert(list.drop_last() =~= none);
        assert(list.last() == p);
        assert(Seq::<Edit<Seq<u8>>>::empty().push(e) =~= seq![e] + child_edits(
            parent,
            rest,
        )->Ok_0);
    } else {
        let rest1 = rest.drop_last();
        assert(child_edits(parent, rest1) is Ok);
        lemma_child_edits_front(parent, p, rest1);
        assert(list.drop_last() =~= seq![p] + rest1);
        assert(list.last() == rest.last());
        let es1 = child_edits(parent, rest1)->Ok_0;
        let x = child_edit(parent, rest.last())->Ok_0;
        assert(child_edits(parent, rest) == Ok::<_, ScrubError>(es1.push(x)));
        assert((seq![e] + es1).push(x) =~= seq![e] + es1.push(x));
    }
}

proof fn lemma_rewrapped_node(typ: Seq<u8>, size: Size, content: Seq<u8>, held: Seq<u8>)
    requires
        fits(typ, size, content),
    ensures
        rewrapped(box_bytes(typ, size, content), held) == box_bytes(
            typ,
            new_size(size, held.len() as int),
            held,
        ),
{
    let raw = box_bytes(typ, size, content);
    let n = held.len() as int;
    lemma_box_bytes(typ, size, content);
    assert(raw.subrange(4, 8) =~= typ) by {
        lemma_four_bytes(0);
        lemma_four_bytes(1);
        if size is Short {
            lemma_four_bytes(8 + content.len() as int);
        }
    }
    assert(be32_bytes(8 + n) =~= four_bytes(8 + n) && be32_bytes(1) =~= four_bytes(1)) by {
        reveal(be32_bytes);
    }
    assert(be64_bytes(16 + n) =~= eight_bytes(16 + n)) by {
        reveal(be64_bytes);
        reveal(be32_bytes);
    }
}

/// What becomes of a container wherever it stands.
proof fn lemma_container(node: Node, at: int)
    requires
        is_node(node),
        node is Container,
        0 <= at,
        at + node_bytes(node).len() <= usize::MAX,
    ensures
        container_edit(Piece { at, bytes: node_bytes(node) }) == Ok::<_, ScrubError>(
            if any_touched(node->Container_typ, node->inside) {
                Edit::Replace(node_bytes(cleaned(node)))
            } else {
                Edit::Keep
            },
        ),
    decreases node, 0int,
{
    if let Node::Container { typ, size, inside, slack } = node {
        let raw = node_bytes(node);
        let b = Piece { at, bytes: raw };
        let h = size_len(size);
        let content = node_content(node);
        lemma_box_bytes(typ, size, content);
        assert(content == nodes_bytes(inside) + slack);
        lemma_nodes(typ, inside, slack, at + h);
        let found = boxes(body(raw), at + h)->Ok_0;
        let edits = child_edits(be32(typ, 0), found)->Ok_0;
        assert(child_edits(box_type(raw), found) == Ok::<_, ScrubError>(edits));
        let held = nodes_bytes(left(typ, inside));
        assert(rebuilt(found, edits) == held);
        lemma_rewrapped_node(typ, size, content, held);
        if any_touched(typ, inside) {
            let new = cleaned(node);
            assert(node_content(new) =~= held);
            assert(node_bytes(new) == rewrapped(raw, held));
        }
    }
}

proof fn lemma_node(parent: Seq<u8>, node: Node, at: int)
    requires
        parent.len() == 4,
        is_node(node),
        0 <= at,
        at + node_bytes(node).len() <= usize::MAX,
    ensures
        child_edit(be32(parent, 0), Piece { at, bytes: node_bytes(node) }) == Ok::<_, ScrubError>(
            if is_private(parent, node_type(node)) {
                Edit::Drop
            } else if is_touched(parent, node) {
                Edit::Replace(node_bytes(cleaned(node)))
            } else {
                Edit::Keep
            },
        ),
        !is_touched(parent, node) ==> cleaned(node) == node,
    decreases node, 1int,
{
    let typ = node_type(node);
    let raw = node_bytes(node);
    lemma_box_bytes(typ, node_size(node), node_content(node));
    boxes_change_by_their_type(parent, typ);
    match node {
        Node::Leaf { typ, size, content } => {
            lemma_times(typ, size, content);
            assert(node_content(node) == content);
            if tells_time(typ) && gives_time(content) {
                assert(node_content(cleaned(node)) == without_times(content));
            }
        },
        Node::Container { typ, inside, .. } => {
            assert(!tells_time(typ)) by {
                lemma_kinds(typ);
            }
            lemma_container(node, at);
        },
    }
}

proof fn lemma_kinds(typ: Seq<u8>)
    requires
        holds_boxes(typ),
    ensures
        !tells_time(typ),
{
    assert(typ[0] == 0x6D || typ[0] == 0x74 || typ[0] == 0x73 || typ[0] == 0x65);
    if tells_time(typ) {
        assert(typ[2] == 0x68);
        assert(typ[2] == 0x6F || typ[2] == 0x61 || typ[2] == 0x69 || typ[2] == 0x6E || typ[2]
            == 0x62 || typ[2] == 0x74 || typ[2] == 0x65);
    }
}

proof fn lemma_nodes(parent: Seq<u8>, nodes: Seq<Node>, slack: Seq<u8>, at: int)
    requires
        parent.len() == 4,
        are_nodes(nodes, slack),
        slack.len() < 8,
        0 <= at,
        at + nodes_bytes(nodes).len() <= usize::MAX,
    ensures
        ({
            &&& boxes(nodes_bytes(nodes) + slack, at) matches Ok(found)
            &&& child_edits(be32(parent, 0), found) matches Ok(edits)
            &&& edits.len() == found.len()
            &&& rebuilt(found, edits) == nodes_bytes(left(parent, nodes))
            &&& changed(edits) == any_touched(parent, nodes)
        }),
    decreases nodes, 2int,
{
    let code = be32(parent, 0);
    if nodes.len() == 0 {
        assert(nodes_bytes(nodes) + slack =~= slack);
        assert(child_edits(code, Seq::<Piece>::empty()) == Ok::<_, ScrubError>(
            Seq::<Edit<Seq<u8>>>::empty(),
        ));
    } else {
        let node = nodes[0];
        let rest = nodes.drop_first();
        let raw = node_bytes(node);
        let after = nodes_bytes(rest) + slack;
        assert(nodes_bytes(nodes) == raw + nodes_bytes(rest));
        assert(nodes_bytes(nodes) + slack =~= raw + after);
        assert(is_node(node) && are_nodes(rest, slack));
        lemma_nodes(parent, rest, slack, at + raw.len());
        if node_size(node) is Open {
            assert(rest =~= Seq::<Node>::empty());
            assert(after =~= Seq::<u8>::empty());
        }
        lemma_box_first(node_type(node), node_size(node), node_content(node), after, at);
        lemma_node(parent, node, at);
        let p = Piece { at, bytes: raw };
        let found = boxes(after, at + raw.len())->Ok_0;
        let edits = child_edits(code, found)->Ok_0;
        let e = child_edit(code, p)->Ok_0;
        lemma_child_edits_front(code, p, found);
        lemma_rebuilt_front(p, e, found, edits);
        let kept = left(parent, rest);
        let held = nodes_bytes(kept);
        let new = cleaned(node);
        assert(Seq::<u8>::empty() + held =~= held);
        assert((seq![new] + kept).drop_first() =~= kept);
        assert(nodes_bytes(seq![new] + kept) == node_bytes(new) + held);
        assert(any_touched(parent, nodes) == (is_touched(parent, node) || any_touched(
            parent,
            rest,
        )));
    }
}

/// Whether a box at the top level is XMP.
pub open spec fn is_xmp_node(node: Node) -> bool {
    node matches Node::Leaf { typ, content, .. } && typ == uuid() && xmp_type().is_prefix_of(
        content,
    )
}

/// That there can be such a box at the top level: the movie box is looked into, all others are not.
pub open spec fn is_top(node: Node) -> bool {
    match node {
        Node::Leaf { typ, size, content } => typ != moov() && fits(typ, size, content),
        Node::Container { typ, .. } => typ == moov() && is_node(node),
    }
}

/// That there can be such boxes at the top level, with `slack` after them.
pub open spec fn are_tops(nodes: Seq<Node>, slack: Seq<u8>) -> bool
    decreases nodes.len(),
{
    nodes.len() > 0 ==> {
        &&& is_top(nodes[0])
        &&& node_size(nodes[0]) is Open ==> nodes.len() == 1 && slack.len() == 0
        &&& are_tops(nodes.drop_first(), slack)
    }
}

/// Whether there is anything private in a box at the top level.
pub open spec fn top_is_touched(node: Node) -> bool {
    is_xmp_node(node) || (node matches Node::Container { inside, .. } && any_touched(
        moov(),
        inside,
    ))
}

/// Whether there is anything private in any of these boxes at the top level.
pub open spec fn any_top_touched(nodes: Seq<Node>) -> bool
    decreases nodes.len(),
{
    nodes.len() > 0 && (top_is_touched(nodes[0]) || any_top_touched(nodes.drop_first()))
}

/// The boxes at the top level, without what is private.
pub open spec fn tops_left(nodes: Seq<Node>) -> Seq<Node>
    decreases nodes.len(),
{
    if nodes.len() == 0 {
        Seq::empty()
    } else if is_xmp_node(nodes[0]) {
        tops_left(nodes.drop_first())
    } else if nodes[0] is Container {
        seq![cleaned(nodes[0])] + tops_left(nodes.drop_first())
    } else {
        seq![nodes[0]] + tops_left(nodes.drop_first())
    }
}

/// That a `uuid` box is long enough for a user type.
pub open spec fn user_type_is_whole(node: Node) -> bool {
    match node {
        Node::Leaf { typ, content, .. } => typ == uuid() ==> content.len() >= 16,
        _ => true,
    }
}

/// That every `uuid` box among these is long enough for a user type.
pub open spec fn user_types_are_whole(nodes: Seq<Node>) -> bool {
    forall|k: int| 0 <= k < nodes.len() ==> user_type_is_whole(#[trigger] nodes[k])
}

proof fn lemma_top_edits_front(input: Seq<u8>, p: Piece, rest: Seq<Piece>)
    requires
        top_edit(input, p) is Ok,
        top_edits(input, rest) is Ok,
    ensures
        top_edits(input, seq![p] + rest) == Ok::<_, ScrubError>(
            seq![top_edit(input, p)->Ok_0] + top_edits(input, rest)->Ok_0,
        ),
        top_edits(input, rest)->Ok_0.len() == rest.len(),
    decreases rest.len(),
{
    let list = seq![p] + rest;
    let e = top_edit(input, p)->Ok_0;
    let none = Seq::<Piece>::empty();
    assert(top_edits(input, none) == Ok::<_, ScrubError>(Seq::<Edit<Seq<u8>>>::empty()));
    if rest.len() == 0 {
        assert(rest =~= none);
        assert(list.drop_last() =~= none);
        assert(list.last() == p);
        assert(Seq::<Edit<Seq<u8>>>::empty().push(e) =~= seq![e] + top_edits(input, rest)->Ok_0);
    } else {
        let rest1 = rest.drop_last();
        assert(top_edits(input, rest1) is Ok);
        lemma_top_edits_front(input, p, rest1);
        assert(list.drop_last() =~= seq![p] + rest1);
        assert(list.last() == rest.last());
        let es1 = top_edits(input, rest1)->Ok_0;
        let x = top_edit(input, rest.last())->Ok_0;
        assert(top_edits(input, rest) == Ok::<_, ScrubError>(es1.push(x)));
        assert((seq![e] + es1).push(x) =~= seq![e] + es1.push(x));
    }
}

proof fn lemma_top(input: Seq<u8>, node: Node, at: int)
    requires
        is_top(node),
        user_type_is_whole(node),
        0 <= at,
        at + node_bytes(node).len() <= input.len(),
        input.len() <= usize::MAX,
        input.subrange(at, at + node_bytes(node).len()) == node_bytes(node),
    ensures
        top_edit(input, Piece { at, bytes: node_bytes(node) }) == Ok::<_, ScrubError>(
            if is_xmp_node(node) {
                Edit::Drop
            } else if top_is_touched(node) {
                Edit::Replace(node_bytes(cleaned(node)))
            } else {
                Edit::Keep
            },
        ),
        node is Container && !top_is_touched(node) ==> cleaned(node) == node,
{
    let raw = node_bytes(node);
    let typ = node_type(node);
    lemma_box_bytes(typ, node_size(node), node_content(node));
    boxes_change_by_their_type(typ, typ);
    match node {
        Node::Leaf { typ, size, content } => {
            if typ == uuid() {
                let h = size_len(size);
                assert(moov()[0] != uuid()[0]);
                assert(input.skip(at + h).subrange(0, 16) =~= content.subrange(0, 16)) by {
                    assert forall|i: int| 0 <= i < 16 implies input[at + h + i] == content[i] by {
                        assert(input.subrange(at, at + raw.len())[h + i] == raw[h + i]);
                        assert(body(raw)[i] == raw[h + i]);
                    }
                }
                assert(xmp_uuid() =~= xmp_type());
            }
        },
        Node::Container { .. } => {
            lemma_container(node, at);
        },
    }
}

proof fn lemma_tops(input: Seq<u8>, nodes: Seq<Node>, slack: Seq<u8>, at: int)
    requires
        are_tops(nodes, slack),
        user_types_are_whole(nodes),
        slack.len() < 8,
        0 <= at <= input.len() <= usize::MAX,
        input.skip(at) == nodes_bytes(nodes) + slack,
    ensures
        ({
            &&& boxes(input.skip(at), at) matches Ok(found)
            &&& top_edits(input, found) matches Ok(edits)
            &&& edits.len() == found.len()
            &&& rebuilt(found, edits) == nodes_bytes(tops_left(nodes))
            &&& changed(edits) == any_top_touched(nodes)
        }),
    decreases nodes.len(),
{
    if nodes.len() == 0 {
        assert(nodes_bytes(nodes) + slack =~= slack);
        assert(top_edits(input, Seq::<Piece>::empty()) == Ok::<_, ScrubError>(
            Seq::<Edit<Seq<u8>>>::empty(),
        ));
    } else {
        let node = nodes[0];
        let rest = nodes.drop_first();
        let raw = node_bytes(node);
        let n = raw.len() as int;
        let after = nodes_bytes(rest) + slack;
        assert(nodes_bytes(nodes) == raw + nodes_bytes(rest));
        assert(nodes_bytes(nodes) + slack =~= raw + after);
        assert(input.skip(at + n) =~= input.skip(at).skip(n));
        assert((raw + after).skip(n) =~= after);
        assert(input.subrange(at, at + n) =~= input.skip(at).take(n));
        assert((raw + after).take(n) =~= raw);
        assert forall|k: int| 0 <= k < rest.len() implies user_type_is_whole(
            #[trigger] rest[k],
        ) by {
            assert(rest[k] == nodes[k + 1]);
        }
        lemma_tops(input, rest, slack, at + n);
        if node_size(node) is Open {
            assert(rest =~= Seq::<Node>::empty());
            assert(after =~= Seq::<u8>::empty());
        }
        lemma_box_first(node_type(node), node_size(node), node_content(node), after, at);
        lemma_top(input, node, at);
        let p = Piece { at, bytes: raw };
        let found = boxes(after, at + n)->Ok_0;
        let edits = top_edits(input, found)->Ok_0;
        let e = top_edit(input, p)->Ok_0;
        lemma_top_edits_front(input, p, found);
        lemma_rebuilt_front(p, e, found, edits);
        let kept = tops_left(rest);
        let held = nodes_bytes(kept);
        let new = cleaned(node);
        assert(Seq::<u8>::empty() + held =~= held);
        assert((seq![new] + kept).drop_first() =~= kept);
        assert((seq![node] + kept).drop_first() =~= kept);
        assert(nodes_bytes(seq![new] + kept) == node_bytes(new) + held);
        assert(nodes_bytes(seq![node] + kept) == raw + held);
    }
}

/// A scrub of an MP4 file takes out what is private in its movie box, at any depth, and XMP, gives
/// what held it its new size, and leaves all else as it is, in its place and order. It finds
/// nothing where there is nothing private. Fewer than eight bytes after the last box go.
pub proof fn scrub_takes_out_the_private_boxes(nodes: Seq<Node>, slack: Seq<u8>)
    requires
        are_tops(nodes, slack),
        user_types_are_whole(nodes),
        slack.len() < 8,
        8 <= nodes_bytes(nodes).len() + slack.len() <= usize::MAX,
    ensures
        scrubbed(nodes_bytes(nodes) + slack) == Ok::<_, ScrubError>(
            if any_top_touched(nodes) {
                Some(nodes_bytes(tops_left(nodes)))
            } else {
                None
            },
        ),
{
    let input = nodes_bytes(nodes) + slack;
    assert(input.skip(0) =~= input);
    lemma_tops(input, nodes, slack, 0);
}

/// That `new` is what must be left of a box that is not private itself. One that neither tells a
/// time nor holds boxes is the same byte for byte. One that tells a time can have lost sixteen
/// bytes of times and nothing else. One that holds boxes keeps its type, and holds what is left of
/// them.
pub open spec fn stands_for(new: Node, node: Node) -> bool {
    match node {
        Node::Leaf { typ, size, content } => {
            &&& !tells_time(typ) ==> new == node
            &&& new matches Node::Leaf { typ: new_typ, size: same_size, content: new_content }
            &&& new_typ == typ
            &&& same_size == size
            &&& new_content.len() == content.len()
            &&& forall|i: int|
                0 <= i < content.len() && !(4 <= i < 20) ==> new_content[i] == content[i]
        },
        Node::Container { typ, inside, .. } => {
            &&& new matches Node::Container { typ: new_typ, inside: new_inside, .. }
            &&& new_typ == typ
            &&& new_inside == left(typ, inside)
        },
    }
}

/// In every container of the movie, each box that is not `udta`, `meta`, `keys` or `ilst` directly
/// in `moov`, nor `udta` or `meta` directly in `trak`, is still there, in its place, after what is
/// left of the boxes before it.
pub proof fn all_other_boxes_are_kept(parent: Seq<u8>, nodes: Seq<Node>, k: int)
    requires
        0 <= k < nodes.len(),
        !(parent == moov() && (node_type(nodes[k]) == udta() || node_type(nodes[k]) == meta()
            || node_type(nodes[k]) == keys() || node_type(nodes[k]) == ilst())),
        !(parent == trak() && (node_type(nodes[k]) == udta() || node_type(nodes[k]) == meta())),
    ensures
        ({
            let before = left(parent, nodes.take(k));
            let all = left(parent, nodes);
            &&& before.len() < all.len()
            &&& all.take(before.len() as int) == before
            &&& stands_for(all[before.len() as int], nodes[k])
        }),
    decreases k,
{
    let all = left(parent, nodes);
    let rest = nodes.drop_first();
    if k == 0 {
        assert(nodes.take(0) =~= Seq::<Node>::empty());
        assert(left(parent, nodes.take(0)) =~= Seq::<Node>::empty());
        assert(all.take(0) =~= left(parent, nodes.take(0)));
        if let Node::Container { typ, inside, .. } = nodes[0] {
            if !any_touched(typ, inside) {
                lemma_untouched(typ, inside);
            }
        }
        assert(all[0] == cleaned(nodes[0]));
        assert(stands_for(cleaned(nodes[0]), nodes[0]));
    } else {
        assert(rest[k - 1] == nodes[k]);
        all_other_boxes_are_kept(parent, rest, k - 1);
        assert(nodes.take(k).drop_first() =~= rest.take(k - 1));
        assert(nodes.take(k)[0] == nodes[0]);
        let before = left(parent, nodes.take(k));
        assert(all.take(before.len() as int) =~= before);
    }
}

proof fn lemma_untouched(parent: Seq<u8>, nodes: Seq<Node>)
    requires
        !any_touched(parent, nodes),
    ensures
        left(parent, nodes) == nodes,
    decreases nodes,
{
    if nodes.len() > 0 {
        let rest = nodes.drop_first();
        assert(any_touched(parent, nodes) == (is_touched(parent, nodes[0]) || any_touched(
            parent,
            rest,
        )));
        lemma_untouched(parent, rest);
        assert(seq![nodes[0]] + rest =~= nodes);
        assert(cleaned(nodes[0]) == nodes[0]);
    } else {
        assert(left(parent, nodes) =~= nodes);
    }
}

/// Nothing private is left in what a scrub leaves of boxes.
pub proof fn nothing_private_is_left(parent: Seq<u8>, nodes: Seq<Node>)
    ensures
        !any_touched(parent, left(parent, nodes)),
    decreases nodes, 1int,
{
    if nodes.len() > 0 {
        let rest = nodes.drop_first();
        let kept = left(parent, rest);
        nothing_private_is_left(parent, rest);
        if !is_private(parent, node_type(nodes[0])) {
            let new = cleaned(nodes[0]);
            let all = seq![new] + kept;
            assert(all.drop_first() =~= kept);
            lemma_cleaned(nodes[0]);
            assert(!is_touched(parent, new));
            assert(any_touched(parent, all) == (is_touched(parent, new) || any_touched(
                parent,
                kept,
            )));
        }
    }
}

proof fn lemma_cleaned(node: Node)
    ensures
        node_type(cleaned(node)) == node_type(node),
        cleaned(node) matches Node::Leaf { typ, content, .. } ==> !(tells_time(typ) && gives_time(
            content,
        )),
        cleaned(node) matches Node::Container { typ, inside, .. } ==> !any_touched(typ, inside),
    decreases node, 0int,
{
    match node {
        Node::Leaf { typ, content, .. } => {
            let new = without_times(content);
            if gives_time(new) {
                let i = choose|i: int| 4 <= i < clock_end(new) && new[i] != 0;
                assert(clock_end(new) <= clock_end(content));
            }
        },
        Node::Container { typ, inside, .. } => {
            nothing_private_is_left(typ, inside);
        },
    }
}

proof fn lemma_box_apart(s: Seq<u8>, at: int) -> (r: (Seq<u8>, Size, Seq<u8>))
    requires
        s.len() >= 8,
        box_len(s, at) is Ok,
    ensures
        fits(r.0, r.1, r.2),
        box_bytes(r.0, r.1, r.2) == s.take(box_len(s, at)->Ok_0),
        r.1 is Open ==> box_len(s, at)->Ok_0 == s.len(),
{
    let n = box_len(s, at)->Ok_0;
    let typ = s.subrange(4, 8);
    let w = be32(s, 0);
    be32_from_bytes(s, 0);
    assert(be32_bytes(w) =~= four_bytes(w)) by {
        reveal(be32_bytes);
    }
    assert(s =~= s.subrange(0, 4) + typ + s.skip(8));
    if w == 1 {
        let content = s.subrange(16, n);
        let big = be64(s, 8);
        assert(eight_bytes(big) =~= s.subrange(8, 16)) by {
            be32_from_bytes(s, 8);
            be32_from_bytes(s, 12);
            be32_range(s, 8);
            be32_range(s, 12);
            reveal(be64);
            let high = be32(s, 8);
            let low = be32(s, 12);
            assert(big / 0x1_0000_0000 == high && big % 0x1_0000_0000 == low);
            assert(be32_bytes(high) =~= four_bytes(high) && be32_bytes(low)
                =~= four_bytes(low)) by {
                reveal(be32_bytes);
            }
            assert(s.subrange(8, 16) =~= s.subrange(8, 12) + s.subrange(12, 16));
        }
        assert(big <= 0xFFFF_FFFF_FFFF_FFFF) by {
            be32_range(s, 8);
            be32_range(s, 12);
            reveal(be64);
        }
        assert(16 + content.len() == big);
        assert(box_bytes(typ, Size::Long, content) =~= s.take(n));
        (typ, Size::Long, content)
    } else {
        let content = s.subrange(8, n);
        be32_range(s, 0);
        if w == 0 {
            assert(box_bytes(typ, Size::Open, content) =~= s.take(n));
            (typ, Size::Open, content)
        } else {
            assert(box_bytes(typ, Size::Short, content) =~= s.take(n));
            (typ, Size::Short, content)
        }
    }
}

proof fn lemma_child_edits_parts(parent: int, p: Piece, rest: Seq<Piece>)
    requires
        child_edits(parent, seq![p] + rest) is Ok,
    ensures
        child_edit(parent, p) is Ok,
        child_edits(parent, rest) is Ok,
    decreases rest.len(),
{
    let list = seq![p] + rest;
    assert(child_edits(parent, Seq::<Piece>::empty()) is Ok);
    if rest.len() == 0 {
        assert(rest =~= Seq::<Piece>::empty());
        assert(list.last() == p);
    } else {
        assert(list.drop_last() =~= seq![p] + rest.drop_last());
        assert(list.last() == rest.last());
        lemma_child_edits_parts(parent, p, rest.drop_last());
    }
}

proof fn lemma_top_edits_parts(input: Seq<u8>, p: Piece, rest: Seq<Piece>)
    requires
        top_edits(input, seq![p] + rest) is Ok,
    ensures
        top_edit(input, p) is Ok,
        top_edits(input, rest) is Ok,
    decreases rest.len(),
{
    let list = seq![p] + rest;
    assert(top_edits(input, Seq::<Piece>::empty()) is Ok);
    if rest.len() == 0 {
        assert(rest =~= Seq::<Piece>::empty());
        assert(list.last() == p);
    } else {
        assert(list.drop_last() =~= seq![p] + rest.drop_last());
        assert(list.last() == rest.last());
        lemma_top_edits_parts(input, p, rest.drop_last());
    }
}

proof fn lemma_container_apart(typ: Seq<u8>, size: Size, content: Seq<u8>, at: int) -> (node: Node)
    requires
        fits(typ, size, content),
        holds_boxes(typ),
        container_edit(Piece { at, bytes: box_bytes(typ, size, content) }) is Ok,
    ensures
        node is Container,
        is_node(node),
        node_type(node) == typ,
        node_size(node) == size,
        node_content(node) == content,
    decreases content.len(), 2int,
{
    lemma_box_bytes(typ, size, content);
    let (inside, slack) = lemma_nodes_apart(typ, content, at + size_len(size));
    let node = Node::Container { typ, size, inside, slack };
    assert(node_content(node) == content);
    node
}

proof fn lemma_nodes_apart(parent: Seq<u8>, s: Seq<u8>, at: int) -> (r: (Seq<Node>, Seq<u8>))
    requires
        parent.len() == 4,
        boxes(s, at) is Ok,
        child_edits(be32(parent, 0), boxes(s, at)->Ok_0) is Ok,
    ensures
        are_nodes(r.0, r.1),
        r.1.len() < 8,
        s == nodes_bytes(r.0) + r.1,
    decreases s.len(), 1int,
{
    if s.len() < 8 {
        assert(s =~= nodes_bytes(Seq::empty()) + s);
        (Seq::empty(), s)
    } else {
        let n = box_len(s, at)->Ok_0;
        let (typ, size, content) = lemma_box_apart(s, at);
        let raw = s.take(n);
        let after = s.skip(n);
        let code = be32(parent, 0);
        let p = Piece { at, bytes: raw };
        assert(boxes(s, at)->Ok_0 =~= seq![p] + boxes(after, at + n)->Ok_0);
        lemma_child_edits_parts(code, p, boxes(after, at + n)->Ok_0);
        let (rest, slack) = lemma_nodes_apart(parent, after, at + n);
        lemma_box_bytes(typ, size, content);
        boxes_change_by_their_type(parent, typ);
        let node = if holds_boxes(typ) {
            lemma_kinds(typ);
            lemma_no_container_is_private(parent, typ);
            lemma_container_apart(typ, size, content, at)
        } else {
            Node::Leaf { typ, size, content }
        };
        assert(node_content(node) == content);
        let nodes = seq![node] + rest;
        assert(nodes.drop_first() =~= rest);
        if size is Open {
            assert(after.len() == 0);
            assert(rest.len() == 0) by {
                if rest.len() > 0 {
                    let first = rest[0];
                    assert(is_node(first));
                    lemma_box_bytes(node_type(first), node_size(first), node_content(first));
                    assert(nodes_bytes(rest).len() >= 8);
                }
            }
        }
        assert(is_node(node));
        assert(nodes[0] == node);
        assert(are_nodes(nodes, slack));
        assert(nodes_bytes(nodes) == raw + nodes_bytes(rest));
        assert(s =~= raw + after);
        assert(raw + (nodes_bytes(rest) + slack) =~= nodes_bytes(nodes) + slack);
        (nodes, slack)
    }
}

proof fn lemma_no_container_is_private(parent: Seq<u8>, typ: Seq<u8>)
    requires
        holds_boxes(typ),
    ensures
        !is_private(parent, typ),
{
    assert(typ[3] == 0x76 || typ[3] == 0x6B || typ[3] == 0x61 || typ[3] == 0x66 || typ[3] == 0x6C
        || typ[3] == 0x73 || typ[3] == 0x78);
    assert(typ[0] == 0x6D || typ[0] == 0x74 || typ[0] == 0x73 || typ[0] == 0x65);
    assert(typ[1] == 0x6F || typ[1] == 0x72 || typ[1] == 0x64 || typ[1] == 0x69 || typ[1] == 0x74
        || typ[1] == 0x76);
    if typ == meta() {
        assert(typ[1] == 0x65);
    }
    if typ == udta() {
        assert(typ[0] == 0x75);
    }
    if typ == keys() {
        assert(typ[0] == 0x6B);
    }
    if typ == ilst() {
        assert(typ[0] == 0x69);
    }
}

proof fn lemma_tops_apart(input: Seq<u8>, s: Seq<u8>, at: int) -> (r: (Seq<Node>, Seq<u8>))
    requires
        boxes(s, at) is Ok,
        top_edits(input, boxes(s, at)->Ok_0) is Ok,
    ensures
        are_tops(r.0, r.1),
        r.1.len() < 8,
        s == nodes_bytes(r.0) + r.1,
    decreases s.len(),
{
    if s.len() < 8 {
        assert(s =~= nodes_bytes(Seq::empty()) + s);
        (Seq::empty(), s)
    } else {
        let n = box_len(s, at)->Ok_0;
        let (typ, size, content) = lemma_box_apart(s, at);
        let raw = s.take(n);
        let after = s.skip(n);
        let p = Piece { at, bytes: raw };
        assert(boxes(s, at)->Ok_0 =~= seq![p] + boxes(after, at + n)->Ok_0);
        lemma_top_edits_parts(input, p, boxes(after, at + n)->Ok_0);
        let (rest, slack) = lemma_tops_apart(input, after, at + n);
        lemma_box_bytes(typ, size, content);
        boxes_change_by_their_type(typ, typ);
        let node = if typ == moov() {
            lemma_container_apart(typ, size, content, at)
        } else {
            Node::Leaf { typ, size, content }
        };
        assert(node_content(node) == content);
        let nodes = seq![node] + rest;
        assert(nodes.drop_first() =~= rest);
        if size is Open {
            assert(after.len() == 0);
            assert(rest.len() == 0) by {
                if rest.len() > 0 {
                    let first = rest[0];
                    assert(is_top(first));
                    lemma_box_bytes(node_type(first), node_size(first), node_content(first));
                    assert(nodes_bytes(rest).len() >= 8);
                }
            }
        }
        assert(nodes_bytes(nodes) == raw + nodes_bytes(rest));
        assert(s =~= raw + after);
        assert(raw + (nodes_bytes(rest) + slack) =~= nodes_bytes(nodes) + slack);
        (nodes, slack)
    }
}

/// A scrub goes along with nothing but such files.
pub proof fn accepted_files_are_put_together_so(input: Seq<u8>) -> (r: (Seq<Node>, Seq<u8>))
    requires
        scrubbed(input) is Ok,
    ensures
        are_tops(r.0, r.1),
        r.1.len() < 8,
        input == nodes_bytes(r.0) + r.1,
{
    lemma_tops_apart(input, input, 0)
}

/// What is wrong with eight or more bytes that are no box.
pub open spec fn flaw(bad: Seq<u8>) -> Option<ScrubError> {
    let first = bad.take(4);
    if first == four_bytes(1) {
        if bad.len() < 16 {
            Some(ScrubError::Mp4TruncatedLargesize)
        } else if exists|n: int| 0 <= n < 16 && bad.subrange(8, 16) == #[trigger] eight_bytes(n) {
            Some(ScrubError::Mp4BoxTooSmall)
        } else {
            None
        }
    } else if exists|n: int| 1 < n < 8 && first == #[trigger] four_bytes(n) {
        Some(ScrubError::Mp4BoxTooSmall)
    } else if exists|n: int|
        bad.len() < n <= 0xFFFF_FFFF && first == #[trigger] four_bytes(n) {
        Some(ScrubError::Mp4BoxPastEnd)
    } else {
        None
    }
}

/// A file with eight or more bytes that are no box after its boxes is refused, and told why.
pub proof fn broken_files_are_refused(nodes: Seq<Node>, bad: Seq<u8>, why: ScrubError)
    requires
        are_tops(nodes, bad),
        bad.len() >= 8,
        flaw(bad) == Some(why),
        nodes_bytes(nodes).len() + 0xFFFF_FFFF <= usize::MAX,
    ensures
        scrubbed(nodes_bytes(nodes) + bad) == Err::<Option<Seq<u8>>, _>(why),
{
    lemma_flaw(bad, why, nodes_bytes(nodes).len() as int);
    lemma_broken(nodes, bad, why, 0);
}

proof fn lemma_flaw(bad: Seq<u8>, why: ScrubError, at: int)
    requires
        bad.len() >= 8,
        flaw(bad) == Some(why),
        0 <= at,
        at + 0xFFFF_FFFF <= usize::MAX,
    ensures
        boxes(bad, at) == Err::<Seq<Piece>, _>(why),
{
    let first = bad.take(4);
    be32_same(bad, 0, first, 0);
    lemma_four_bytes(1);
    if first == four_bytes(1) {
        if bad.len() >= 16 {
            let n = choose|n: int|
                0 <= n < 16 && bad.subrange(8, 16) == #[trigger] eight_bytes(n);
            lemma_eight_bytes(n);
            assert forall|k: int| 0 <= k < 8 implies #[trigger] bad[8 + k] == eight_bytes(n)[0
                + k] by {
                assert(bad.subrange(8, 16)[k] == bad[8 + k]);
            }
            be64_same(bad, 8, eight_bytes(n), 0);
        }
    } else if exists|n: int| 1 < n < 8 && first == #[trigger] four_bytes(n) {
        let n = choose|n: int| 1 < n < 8 && first == #[trigger] four_bytes(n);
        lemma_four_bytes(n);
    } else {
        let n = choose|n: int|
            bad.len() < n <= 0xFFFF_FFFF && first == #[trigger] four_bytes(n);
        lemma_four_bytes(n);
    }
}

proof fn lemma_broken(nodes: Seq<Node>, bad: Seq<u8>, why: ScrubError, at: int)
    requires
        are_tops(nodes, bad),
        bad.len() > 0,
        0 <= at,
        at + nodes_bytes(nodes).len() <= usize::MAX,
        boxes(bad, at + nodes_bytes(nodes).len()) == Err::<Seq<Piece>, _>(why),
    ensures
        boxes(nodes_bytes(nodes) + bad, at) == Err::<Seq<Piece>, _>(why),
    decreases nodes.len(),
{
    if nodes.len() == 0 {
        assert(nodes_bytes(nodes) + bad =~= bad);
    } else {
        let node = nodes[0];
        let rest = nodes.drop_first();
        let raw = node_bytes(node);
        let after = nodes_bytes(rest) + bad;
        let s = nodes_bytes(nodes) + bad;
        let n = raw.len() as int;
        let typ = node_type(node);
        let size = node_size(node);
        let content = node_content(node);
        assert(nodes_bytes(nodes) == raw + nodes_bytes(rest));
        assert(s =~= raw + after);
        lemma_broken(rest, bad, why, at + n);
        lemma_box_bytes(typ, size, content);
        be32_same(s, 0, raw, 0);
        if size is Long {
            be64_same(s, 8, raw, 8);
        }
        assert(box_len(s, at) == Ok::<int, ScrubError>(n));
        assert(s.skip(n) =~= after);
    }
}

/// What holds less than eight bytes is refused.
pub proof fn other_files_are_refused(input: Seq<u8>)
    requires
        input.len() < 8,
    ensures
        scrubbed(input) == Err::<Option<Seq<u8>>, _>(ScrubError::NotMp4),
{
}

/// Whether a `uuid` box is XMP goes by the sixteen bytes from its content on.
pub proof fn xmp_is_told_by_sixteen_bytes(input: Seq<u8>, b: Piece)
    requires
        0 <= b.at,
        b.at + header_len(b.bytes) <= input.len(),
    ensures
        is_xmp(input, b) <==> {
            let from = b.at + header_len(b.bytes);
            from + 16 <= input.len() && input.subrange(from, from + 16) == xmp_type()
        },
{
    let from = b.at + header_len(b.bytes);
    assert(xmp_uuid() =~= xmp_type());
    if from + 16 <= input.len() {
        assert(input.skip(from).subrange(0, 16) =~= input.subrange(from, from + 16));
    }
}

} // verus!
