//! What a scrub makes of an AVI file that is put together from its chunks and lists.
use vstd::prelude::*;
use crate::bytes::{be32, be32_bytes, be32_from_bytes, be32_spells, le32_bytes};
use crate::error::ScrubError;
use crate::scrub::edit::{changed, lemma_rebuilt_front, rebuilt, Edit, Piece};
use crate::scrub::riff::{avi_edit, avi_edits, avi_scrubbed, chunks, wrapped, AVI, LIST};
use crate::scrub::riff_file_laws::{
    avi_form, chunk_bytes, exif_code, is_chunk, lemma_chunk_bytes, lemma_chunk_first, lemma_riff,
    lemma_taken_apart, lemma_wrapped_riff, riff_file, size_bytes, written, xmp_code, Chunk,
};

verus! {

/// "LIST"
pub open spec fn list_code() -> Seq<u8> {
    seq![0x4Cu8, 0x49, 0x53, 0x54]
}

/// "IDIT"
pub open spec fn date_code() -> Seq<u8> {
    seq![0x49u8, 0x44, 0x49, 0x54]
}

/// "INFO"
pub open spec fn info_type() -> Seq<u8> {
    seq![0x49u8, 0x4E, 0x46, 0x4F]
}

/// "movi"
pub open spec fn frames_type() -> Seq<u8> {
    seq![0x6Du8, 0x6F, 0x76, 0x69]
}

/// Whether a chunk is private: a date, EXIF, XMP, or a list of type `INFO`.
pub open spec fn is_private(chunk: Chunk) -> bool {
    ||| chunk.code == date_code()
    ||| chunk.code == exif_code()
    ||| chunk.code == xmp_code()
    ||| chunk.code == list_code() && chunk.body.len() >= 4 && chunk.body.take(4) == info_type()
}

/// Whether a chunk is a list that holds chunks to look at: of another type than `INFO` and `movi`.
pub open spec fn is_open_list(chunk: Chunk) -> bool {
    &&& chunk.code == list_code()
    &&& chunk.body.len() >= 4
    &&& chunk.body.take(4) != info_type()
    &&& chunk.body.take(4) != frames_type()
}

/// A chunk of an AVI file, or a list of such, with up to seven bytes more, of which with `odd` the
/// last is padding.
pub enum Node {
    Leaf(Chunk),
    List { form: Seq<u8>, inside: Seq<Node>, slack: Seq<u8>, odd: bool },
}

/// The node as a chunk.
pub open spec fn node_chunk(node: Node) -> Chunk
    decreases node,
{
    match node {
        Node::Leaf(chunk) => chunk,
        Node::List { form, inside, slack, odd } => Chunk {
            code: list_code(),
            body: form + nodes_bytes(inside) + slack,
            odd,
        },
    }
}

/// The nodes as they stand in a file, one after the other.
pub open spec fn nodes_bytes(nodes: Seq<Node>) -> Seq<u8>
    decreases nodes,
{
    if nodes.len() == 0 {
        Seq::empty()
    } else {
        chunk_bytes(node_chunk(nodes[0])) + nodes_bytes(nodes.drop_first())
    }
}

/// That there can be such a node.
pub open spec fn is_node(node: Node) -> bool
    decreases node,
{
    &&& is_chunk(node_chunk(node))
    &&& match node {
        Node::Leaf(chunk) => !is_open_list(chunk),
        Node::List { form, inside, slack, .. } => {
            &&& form.len() == 4
            &&& form != info_type()
            &&& form != frames_type()
            &&& slack.len() < 8
            &&& are_nodes(inside)
        },
    }
}

/// That there can be such nodes.
pub open spec fn are_nodes(nodes: Seq<Node>) -> bool
    decreases nodes,
{
    nodes.len() > 0 ==> is_node(nodes[0]) && are_nodes(nodes.drop_first())
}

/// Whether there is anything private in the node.
pub open spec fn is_touched(node: Node) -> bool
    decreases node,
{
    match node {
        Node::Leaf(chunk) => is_private(chunk),
        Node::List { inside, .. } => any_touched(inside),
    }
}

/// Whether there is anything private in any of the nodes.
pub open spec fn any_touched(nodes: Seq<Node>) -> bool
    decreases nodes,
{
    nodes.len() > 0 && (is_touched(nodes[0]) || any_touched(nodes.drop_first()))
}

/// The nodes without what is private in them.
pub open spec fn left(nodes: Seq<Node>) -> Seq<Node>
    decreases nodes,
{
    if nodes.len() == 0 {
        Seq::empty()
    } else {
        let rest = left(nodes.drop_first());
        match nodes[0] {
            Node::Leaf(chunk) if is_private(chunk) => rest,
            Node::List { form, inside, .. } if any_touched(inside) => seq![
                Node::List { form, inside: left(inside), slack: Seq::empty(), odd: false },
            ] + rest,
            _ => seq![nodes[0]] + rest,
        }
    }
}

/// A chunk is dropped by its four letters: `IDIT`, `EXIF`, `XMP `, or a `LIST` of type `INFO`. Any
/// other chunk that is not a list, and a list of frames, is kept as it is.
pub proof fn avi_chunks_are_dropped_by_their_code(chunk: Chunk)
    requires
        is_chunk(chunk),
    ensures
        avi_edit(chunk_bytes(chunk)) == Ok::<_, ScrubError>(Edit::<Seq<u8>>::Drop) <==> is_private(
            chunk,
        ),
        !is_private(chunk) && !is_open_list(chunk) ==> avi_edit(chunk_bytes(chunk)) == Ok::<
            _,
            ScrubError,
        >(Edit::<Seq<u8>>::Keep),
{
    let raw = chunk_bytes(chunk);
    lemma_chunk_bytes(chunk, Seq::empty());
    assert(raw.take(4) =~= raw.subrange(0, 4));
    be32_spells(raw, 0, 0x49, 0x44, 0x49, 0x54);
    be32_spells(raw, 0, 0x45, 0x58, 0x49, 0x46);
    be32_spells(raw, 0, 0x58, 0x4D, 0x50, 0x20);
    be32_spells(raw, 0, 0x4C, 0x49, 0x53, 0x54);
    if raw.len() >= 12 {
        assert(raw.subrange(8, 12) =~= chunk.body.take(4));
        be32_spells(raw, 8, 0x49, 0x4E, 0x46, 0x4F);
        be32_spells(raw, 8, 0x6D, 0x6F, 0x76, 0x69);
    }
}

proof fn lemma_avi_edits_front(p: Piece, rest: Seq<Piece>)
    requires
        avi_edit(p.bytes) is Ok,
        avi_edits(rest) is Ok,
    ensures
        avi_edits(seq![p] + rest) == Ok::<_, ScrubError>(
            seq![avi_edit(p.bytes)->Ok_0] + avi_edits(rest)->Ok_0,
        ),
        avi_edits(rest)->Ok_0.len() == rest.len(),
    decreases rest.len(),
{
    let list = seq![p] + rest;
    let e = avi_edit(p.bytes)->Ok_0;
    let none = Seq::<Piece>::empty();
    assert(avi_edits(none) == Ok::<_, ScrubError>(Seq::<Edit<Seq<u8>>>::empty()));
    if rest.len() == 0 {
        assert(rest =~= none);
        assert(list.drop_last() =~= none);
        assert(list.last() == p);
        assert(Seq::<Edit<Seq<u8>>>::empty().push(e) =~= seq![e] + avi_edits(rest)->Ok_0);
    } else {
        let rest1 = rest.drop_last();
        assert(avi_edits(rest1) is Ok);
        lemma_avi_edits_front(p, rest1);
        assert(list.drop_last() =~= seq![p] + rest1);
        assert(list.last() == rest.last());
        let es1 = avi_edits(rest1)->Ok_0;
        let x = avi_edit(rest.last().bytes)->Ok_0;
        assert(avi_edits(rest) == Ok::<_, ScrubError>(es1.push(x)));
        assert((seq![e] + es1).push(x) =~= seq![e] + es1.push(x));
    }
}

proof fn lemma_node(node: Node)
    requires
        is_node(node),
        chunk_bytes(node_chunk(node)).len() <= usize::MAX,
    ensures
        avi_edit(chunk_bytes(node_chunk(node))) == Ok::<_, ScrubError>(
            match node {
                Node::Leaf(chunk) => if is_private(chunk) {
                    Edit::Drop
                } else {
                    Edit::Keep
                },
                Node::List { form, inside, .. } => if any_touched(inside) {
                    Edit::Replace(
                        chunk_bytes(
                            node_chunk(
                                Node::List {
                                    form,
                                    inside: left(inside),
                                    slack: Seq::empty(),
                                    odd: false,
                                },
                            ),
                        ),
                    )
                } else {
                    Edit::Keep
                },
            },
        ),
    decreases node,
{
    match node {
        Node::Leaf(chunk) => {
            avi_chunks_are_dropped_by_their_code(chunk);
        },
        Node::List { form, inside, slack, odd } => {
            let chunk = node_chunk(node);
            let raw = chunk_bytes(chunk);
            lemma_chunk_bytes(chunk, Seq::empty());
            assert(raw.subrange(0, 4) =~= list_code());
            be32_spells(raw, 0, 0x4C, 0x49, 0x53, 0x54);
            assert(raw.subrange(8, 12) =~= form);
            be32_spells(raw, 8, 0x49, 0x4E, 0x46, 0x4F);
            be32_spells(raw, 8, 0x6D, 0x6F, 0x76, 0x69);
            assert(raw.skip(12) =~= nodes_bytes(inside) + slack);
            lemma_nodes(inside, slack, 0);
            let found = chunks(raw.skip(12), 0)->Ok_0;
            let edits = avi_edits(found)->Ok_0;
            let held = nodes_bytes(left(inside));
            assert(avi_edits(found) == Ok::<_, ScrubError>(edits));
            assert(rebuilt(found, edits) == held);
            be32_from_bytes(raw, 8);
            let new = Node::List { form, inside: left(inside), slack: Seq::empty(), odd: false };
            assert(node_chunk(new).body =~= form + held);
            assert(be32_bytes(LIST as int) =~= list_code()) by {
                reveal(be32_bytes);
            }
            assert(le32_bytes(4 + held.len() as int) =~= size_bytes(4 + held.len() as int)) by {
                reveal(le32_bytes);
            }
            assert(wrapped(LIST, be32(raw, 8), held) =~= chunk_bytes(node_chunk(new)));
        },
    }
}

proof fn lemma_nodes(nodes: Seq<Node>, slack: Seq<u8>, at: int)
    requires
        are_nodes(nodes),
        slack.len() < 8,
        0 <= at,
        at + nodes_bytes(nodes).len() <= usize::MAX,
    ensures
        ({
            &&& chunks(nodes_bytes(nodes) + slack, at) matches Ok(found)
            &&& avi_edits(found) matches Ok(edits)
            &&& edits.len() == found.len()
            &&& rebuilt(found, edits) == nodes_bytes(left(nodes))
            &&& changed(edits) == any_touched(nodes)
        }),
    decreases nodes,
{
    if nodes.len() == 0 {
        assert(nodes_bytes(nodes) + slack =~= slack);
        assert(avi_edits(Seq::<Piece>::empty()) == Ok::<_, ScrubError>(
            Seq::<Edit<Seq<u8>>>::empty(),
        ));
    } else {
        let node = nodes[0];
        let rest = nodes.drop_first();
        let raw = chunk_bytes(node_chunk(node));
        let after = nodes_bytes(rest) + slack;
        assert(nodes_bytes(nodes) == raw + nodes_bytes(rest));
        assert(nodes_bytes(nodes) + slack =~= raw + after);
        assert(is_node(node) && are_nodes(rest));
        lemma_nodes(rest, slack, at + raw.len());
        lemma_chunk_first(node_chunk(node), after, at);
        lemma_node(node);
        let p = Piece { at, bytes: raw };
        let found = chunks(after, at + raw.len())->Ok_0;
        let edits = avi_edits(found)->Ok_0;
        let e = avi_edit(raw)->Ok_0;
        lemma_avi_edits_front(p, found);
        lemma_rebuilt_front(p, e, found, edits);
        let kept = left(rest);
        let held = nodes_bytes(kept);
        assert(Seq::<u8>::empty() + held =~= held);
        assert((seq![node] + kept).drop_first() =~= kept);
        assert(nodes_bytes(seq![node] + kept) == raw + held);
        assert(any_touched(nodes) == (is_touched(node) || any_touched(rest)));
        if let Node::List { form, inside, .. } = node {
            let new = Node::List { form, inside: left(inside), slack: Seq::empty(), odd: false };
            assert((seq![new] + kept).drop_first() =~= kept);
            assert(nodes_bytes(seq![new] + kept) == chunk_bytes(node_chunk(new)) + held);
            assert(is_touched(node) == any_touched(inside));
        }
    }
}

/// A scrub of an AVI file takes out its dates, EXIF and XMP chunks and `INFO` lists, wherever they
/// stand outside the frames, corrects the sizes of what held them, and leaves all else as it is, in
/// its place and order. It finds nothing where there are none. Fewer than eight bytes after the
/// last chunk go.
pub proof fn avi_scrub_takes_out_the_private_chunks(
    size: Seq<u8>,
    nodes: Seq<Node>,
    slack: Seq<u8>,
)
    requires
        size.len() == 4,
        slack.len() < 8,
        are_nodes(nodes),
        nodes_bytes(nodes).len() <= usize::MAX,
    ensures
        avi_scrubbed(riff_file(size, avi_form(), nodes_bytes(nodes) + slack)) == Ok::<
            _,
            ScrubError,
        >(
            if any_touched(nodes) {
                let held = nodes_bytes(left(nodes));
                Some(riff_file(size_bytes(4 + held.len() as int), avi_form(), held))
            } else {
                None
            },
        ),
{
    lemma_riff(size, avi_form(), nodes_bytes(nodes) + slack);
    be32_spells(avi_form(), 0, 0x41, 0x56, 0x49, 0x20);
    assert(avi_form().subrange(0, 4) =~= avi_form());
    lemma_nodes(nodes, slack, 0);
    lemma_wrapped_riff(AVI, 0x41, 0x56, 0x49, 0x20, nodes_bytes(left(nodes)));
}

/// Nothing private is left in what a scrub leaves.
pub proof fn nothing_private_is_left(nodes: Seq<Node>)
    ensures
        !any_touched(left(nodes)),
    decreases nodes,
{
    if nodes.len() > 0 {
        let rest = nodes.drop_first();
        let kept = left(rest);
        nothing_private_is_left(rest);
        let same = seq![nodes[0]] + kept;
        assert(same.drop_first() =~= kept);
        assert(any_touched(same) == (is_touched(nodes[0]) || any_touched(kept)));
        if let Node::List { form, inside, .. } = nodes[0] {
            nothing_private_is_left(inside);
            let new = Node::List { form, inside: left(inside), slack: Seq::empty(), odd: false };
            let all = seq![new] + kept;
            assert(all.drop_first() =~= kept);
            assert(!is_touched(new));
            assert(is_touched(nodes[0]) == any_touched(inside));
            assert(any_touched(all) == (is_touched(new) || any_touched(kept)));
        }
    }
}

/// Every node that is not private is still there, in its place: as it was if there is nothing
/// private in it, and else as a list of the same type with what is left of what it held.
pub proof fn all_else_is_kept(nodes: Seq<Node>, k: int)
    requires
        0 <= k < nodes.len(),
        !(nodes[k] matches Node::Leaf(chunk) && is_private(chunk)),
    ensures
        ({
            let before = left(nodes.take(k));
            let all = left(nodes);
            &&& before.len() < all.len()
            &&& all.take(before.len() as int) == before
            &&& if is_touched(nodes[k]) {
                &&& nodes[k] matches Node::List { form, inside, .. }
                &&& all[before.len() as int] == Node::List {
                    form,
                    inside: left(inside),
                    slack: Seq::empty(),
                    odd: false,
                }
            } else {
                all[before.len() as int] == nodes[k]
            }
        }),
    decreases k,
{
    let all = left(nodes);
    let rest = nodes.drop_first();
    if k == 0 {
        assert(nodes.take(0) =~= Seq::<Node>::empty());
        assert(all.take(0) =~= left(nodes.take(0)));
    } else {
        assert(rest[k - 1] == nodes[k]);
        all_else_is_kept(rest, k - 1);
        assert(nodes.take(k).drop_first() =~= rest.take(k - 1));
        assert(nodes.take(k)[0] == nodes[0]);
        let before = left(rest.take(k - 1));
        assert(all.take(left(nodes.take(k)).len() as int) =~= left(nodes.take(k)));
    }
}

/// A scrub goes along with nothing but such files: where it gives a result, the file is put
/// together from nodes.
pub proof fn accepted_avi_files_are_put_together_so(input: Seq<u8>) -> (r: (
    Seq<u8>,
    Seq<Node>,
    Seq<u8>,
))
    requires
        avi_scrubbed(input) is Ok,
    ensures
        r.0.len() == 4,
        are_nodes(r.1),
        r.2.len() < 8,
        input == riff_file(r.0, avi_form(), nodes_bytes(r.1) + r.2),
{
    let (nodes, slack) = lemma_nodes_apart(input.skip(12), 0);
    be32_spells(input, 0, 0x52, 0x49, 0x46, 0x46);
    be32_spells(input, 8, 0x41, 0x56, 0x49, 0x20);
    assert(input =~= input.subrange(0, 4) + input.subrange(4, 8) + input.subrange(8, 12)
        + input.skip(12));
    (input.subrange(4, 8), nodes, slack)
}

proof fn lemma_first_apart(s: Seq<u8>, at: int) -> (r: (Chunk, Seq<u8>))
    requires
        s.len() >= 8,
        chunks(s, at) is Ok,
        avi_edits(chunks(s, at)->Ok_0) is Ok,
    ensures
        is_chunk(r.0),
        s == chunk_bytes(r.0) + r.1,
        chunk_bytes(r.0).len() >= 8,
        avi_edit(chunk_bytes(r.0)) is Ok,
        chunks(r.1, at + chunk_bytes(r.0).len()) is Ok,
        avi_edits(chunks(r.1, at + chunk_bytes(r.0).len())->Ok_0) is Ok,
{
    let found = chunks(s, at)->Ok_0;
    let (list, slack) = lemma_taken_apart(s, at);
    let chunk = list[0];
    let after = written(list.skip(1)) + slack;
    let raw = chunk_bytes(chunk);
    let n = raw.len() as int;
    lemma_chunk_bytes(chunk, after);
    assert(s =~= raw + after);
    assert(s.take(n) =~= raw);
    assert(s.skip(n) =~= after);
    assert(found =~= seq![Piece { at, bytes: raw }] + chunks(after, at + n)->Ok_0);
    lemma_avi_edits_parts(Piece { at, bytes: raw }, chunks(after, at + n)->Ok_0);
    (chunk, after)
}

proof fn lemma_nodes_apart(s: Seq<u8>, at: int) -> (r: (Seq<Node>, Seq<u8>))
    requires
        chunks(s, at) is Ok,
        avi_edits(chunks(s, at)->Ok_0) is Ok,
    ensures
        are_nodes(r.0),
        r.1.len() < 8,
        s == nodes_bytes(r.0) + r.1,
    decreases s.len(), 1int,
{
    if s.len() < 8 {
        assert(s =~= nodes_bytes(Seq::empty()) + s);
        (Seq::empty(), s)
    } else {
        let (chunk, after) = lemma_first_apart(s, at);
        let raw = chunk_bytes(chunk);
        let (rest, end) = lemma_nodes_apart(after, at + raw.len());
        let node = lemma_node_apart(chunk);
        let nodes = seq![node] + rest;
        assert(nodes.drop_first() =~= rest);
        assert(nodes_bytes(nodes) == raw + nodes_bytes(rest));
        assert(raw + (nodes_bytes(rest) + end) =~= nodes_bytes(nodes) + end);
        (nodes, end)
    }
}

proof fn lemma_node_apart(chunk: Chunk) -> (node: Node)
    requires
        is_chunk(chunk),
        avi_edit(chunk_bytes(chunk)) is Ok,
    ensures
        is_node(node),
        node_chunk(node) == chunk,
    decreases chunk_bytes(chunk).len(), 0int,
{
    if !is_open_list(chunk) {
        Node::Leaf(chunk)
    } else {
        let raw = chunk_bytes(chunk);
        let form = chunk.body.take(4);
        lemma_chunk_bytes(chunk, Seq::empty());
        assert(raw.subrange(0, 4) =~= list_code());
        be32_spells(raw, 0, 0x4C, 0x49, 0x53, 0x54);
        assert(raw.subrange(8, 12) =~= form);
        be32_spells(raw, 8, 0x49, 0x4E, 0x46, 0x4F);
        be32_spells(raw, 8, 0x6D, 0x6F, 0x76, 0x69);
        lemma_list_is_looked_into(raw);
        let (inside, slack) = lemma_nodes_apart(raw.skip(12), 0);
        let node = Node::List { form, inside, slack, odd: chunk.odd };
        assert(raw.skip(12) =~= chunk.body.skip(4));
        assert(chunk.body =~= form + chunk.body.skip(4));
        assert(form + (nodes_bytes(inside) + slack) =~= form + nodes_bytes(inside) + slack);
        assert(node_chunk(node) == chunk);
        node
    }
}

proof fn lemma_list_is_looked_into(raw: Seq<u8>)
    requires
        raw.len() >= 12,
        be32(raw, 0) == LIST,
        be32(raw, 8) != 0x494E464F,
        be32(raw, 8) != 0x6D6F7669,
        avi_edit(raw) is Ok,
    ensures
        chunks(raw.skip(12), 0) is Ok,
        avi_edits(chunks(raw.skip(12), 0)->Ok_0) is Ok,
{
}

proof fn lemma_avi_edits_parts(p: Piece, rest: Seq<Piece>)
    requires
        avi_edits(seq![p] + rest) is Ok,
    ensures
        avi_edit(p.bytes) is Ok,
        avi_edits(rest) is Ok,
    decreases rest.len(),
{
    let list = seq![p] + rest;
    assert(avi_edits(Seq::<Piece>::empty()) is Ok);
    if rest.len() == 0 {
        assert(rest =~= Seq::<Piece>::empty());
        assert(list.last() == p);
    } else {
        assert(list.drop_last() =~= seq![p] + rest.drop_last());
        assert(list.last() == rest.last());
        lemma_avi_edits_parts(p, rest.drop_last());
    }
}

} // verus!
