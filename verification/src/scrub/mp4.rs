//! MP4, M4V and MOV: a file of nested boxes.
//!
//! A box is a 32-bit size, a four-letter type and a body. A size of one says that a 64-bit size
//! follows the type, a size of zero that the box runs to the end of what holds it.
use vstd::prelude::*;
use vstd::slice::slice_subrange;
use crate::bytes::{
    be32, be32_bytes, be32_from_bytes, be32_range, be32_same, be64, be64_bytes, be64_same, prepend,
    push_all, push_be32, push_be64, push_range, read_be32, read_be64, starts_with,
};
use crate::error::ScrubError;
use crate::scrub::edit::{
    bytes_view, changed, edit_view, lemma_changed_push, rebuilt, scrub_view, total, Edit, Piece,
};

verus! {

/// "moov"
pub const MOOV: u32 = 0x6d6f6f76;

/// "trak"
pub const TRAK: u32 = 0x7472616b;

/// "udta"
pub const UDTA: u32 = 0x75647461;

/// "meta"
pub const META: u32 = 0x6d657461;

/// "keys"
pub const KEYS: u32 = 0x6b657973;

/// "ilst"
pub const ILST: u32 = 0x696c7374;

/// "mdia"
pub const MDIA: u32 = 0x6d646961;

/// "minf"
pub const MINF: u32 = 0x6d696e66;

/// "stbl"
pub const STBL: u32 = 0x7374626c;

/// "edts"
pub const EDTS: u32 = 0x65647473;

/// "mvex"
pub const MVEX: u32 = 0x6d766578;

/// "mvhd"
pub const MVHD: u32 = 0x6d766864;

/// "tkhd"
pub const TKHD: u32 = 0x746b6864;

/// "mdhd"
pub const MDHD: u32 = 0x6d646864;

/// "uuid"
pub const UUID: u32 = 0x75756964;

/// The deepest level at which `parse_boxes` looks for boxes.
pub const MAX_DEPTH: usize = 16;

/// The user type of a `uuid` box that holds an XMP packet.
pub open spec fn xmp_uuid() -> Seq<u8> {
    seq![
        0xBEu8, 0x7A, 0xCF, 0xCB, 0x97, 0xA9, 0x42, 0xE8, 0x9C, 0x71, 0x99, 0x94, 0x91, 0xE3, 0xAF,
        0xAC,
    ]
}

/// The type of the box `raw`.
pub open spec fn box_type(raw: Seq<u8>) -> int {
    be32(raw, 4)
}

/// Whether the box `raw` has a 64-bit size.
pub open spec fn is_largesize(raw: Seq<u8>) -> bool {
    be32(raw, 0) == 1
}

/// How many bytes of the box `raw` come before its body.
pub open spec fn header_len(raw: Seq<u8>) -> int {
    if is_largesize(raw) {
        16
    } else {
        8
    }
}

/// The body of the box `raw`.
pub open spec fn body(raw: Seq<u8>) -> Seq<u8> {
    raw.skip(header_len(raw))
}

/// How long the box at the front of `s` is, where `s` starts at offset `at` and is all that the
/// box may take up.
pub open spec fn box_len(s: Seq<u8>, at: int) -> Result<int, ScrubError> {
    if is_largesize(s) && s.len() < 16 {
        Err(ScrubError::Mp4TruncatedLargesize)
    } else {
        let size = if is_largesize(s) {
            be64(s, 8)
        } else if be32(s, 0) == 0 {
            s.len() as int
        } else {
            be32(s, 0)
        };
        if size < header_len(s) {
            Err(ScrubError::Mp4BoxTooSmall)
        } else if at + size > usize::MAX {
            Err(ScrubError::Mp4BoxOverflow)
        } else if size > s.len() {
            Err(ScrubError::Mp4BoxPastEnd)
        } else {
            Ok(size)
        }
    }
}

/// The boxes that `s` is made of, where `s` starts at offset `at`. Fewer than eight bytes after
/// the last box belong to none.
pub open spec fn boxes(s: Seq<u8>, at: int) -> Result<Seq<Piece>, ScrubError>
    decreases s.len(),
{
    if s.len() < 8 {
        Ok(Seq::empty())
    } else {
        match box_len(s, at) {
            Err(e) => Err(e),
            Ok(n) => prepend(seq![Piece { at, bytes: s.take(n) }], boxes(s.skip(n), at + n)),
        }
    }
}

/// Whether a box of type `child` is metadata where it stands in one of type `parent`.
pub open spec fn is_dropped(parent: int, child: int) -> bool {
    ||| parent == MOOV && (child == UDTA || child == META || child == KEYS || child == ILST)
    ||| parent == TRAK && (child == UDTA || child == META)
}

/// Whether a box of this type records when the media was made.
pub open spec fn is_time_box(typ: int) -> bool {
    typ == MVHD || typ == TKHD || typ == MDHD
}

/// Whether a box of this type is looked into.
pub open spec fn is_container(typ: int) -> bool {
    ||| typ == MOOV
    ||| typ == TRAK
    ||| typ == MDIA
    ||| typ == MINF
    ||| typ == STBL
    ||| typ == EDTS
    ||| typ == MVEX
}

/// Where the creation and modification times start in the time box `raw`: after its header, a
/// version and three bytes of flags.
pub open spec fn times_start(raw: Seq<u8>) -> int {
    header_len(raw) + 4
}

/// Where the creation and modification times end in the time box `raw`. The version says whether
/// each takes up four bytes or eight.
pub open spec fn times_end(raw: Seq<u8>) -> Option<int> {
    let h = header_len(raw);
    if raw.len() >= h + 12 && raw[h] == 0 {
        Some(h + 12)
    } else if raw.len() >= h + 20 && raw[h] == 1 {
        Some(h + 20)
    } else {
        None
    }
}

/// The time box `raw` with its times set to zero, if they are not zero already.
pub open spec fn zeroed_times(raw: Seq<u8>) -> Option<Seq<u8>> {
    match times_end(raw) {
        None => None,
        Some(end) => if forall|k: int| times_start(raw) <= k < end ==> raw[k] == 0 {
            None
        } else {
            Some(
                Seq::new(
                    raw.len(),
                    |k: int|
                        if times_start(raw) <= k < end {
                            0u8
                        } else {
                            raw[k]
                        },
                ),
            )
        },
    }
}

/// The box `raw` with the body `new_body`. It gets a 64-bit size where, with a header as long as
/// that of `raw`, it would be too long for a 32-bit one.
pub open spec fn rewrapped(raw: Seq<u8>, new_body: Seq<u8>) -> Seq<u8> {
    if header_len(raw) + new_body.len() <= u32::MAX {
        be32_bytes(8 + new_body.len() as int) + raw.subrange(4, 8) + new_body
    } else {
        be32_bytes(1) + raw.subrange(4, 8) + be64_bytes(16 + new_body.len() as int) + new_body
    }
}

/// What becomes of the box `child` in a container of type `parent`.
pub open spec fn child_edit(parent: int, child: Piece) -> Result<Edit<Seq<u8>>, ScrubError>
    decreases child.bytes.len(), 1int, 0int,
{
    let typ = box_type(child.bytes);
    if is_dropped(parent, typ) {
        Ok(Edit::Drop)
    } else if is_time_box(typ) && zeroed_times(child.bytes) is Some {
        Ok(Edit::Replace(zeroed_times(child.bytes).unwrap()))
    } else if is_container(typ) {
        container_edit(child)
    } else {
        Ok(Edit::Keep)
    }
}

/// What becomes of the container `b`: it is kept if all in it is, and else wrapped anew.
pub open spec fn container_edit(b: Piece) -> Result<Edit<Seq<u8>>, ScrubError>
    decreases b.bytes.len(), 0int, 0int,
{
    let h = header_len(b.bytes);
    if b.bytes.len() < h {
        Ok(Edit::Keep)
    } else {
        match boxes(body(b.bytes), b.at + h) {
            Err(e) => Err(e),
            Ok(children) => {
                proof {
                    lemma_boxes_total(body(b.bytes), b.at + h);
                }
                match child_edits(box_type(b.bytes), children) {
                    Err(e) => Err(e),
                    Ok(edits) => if changed(edits) {
                        Ok(Edit::Replace(rewrapped(b.bytes, rebuilt(children, edits))))
                    } else {
                        Ok(Edit::Keep)
                    },
                }
            },
        }
    }
}

/// What becomes of each of `children` in a container of type `parent`, or the first error.
pub open spec fn child_edits(parent: int, children: Seq<Piece>) -> Result<
    Seq<Edit<Seq<u8>>>,
    ScrubError,
>
    decreases total(children), 2int, children.len(),
{
    if children.len() == 0 {
        Ok(Seq::empty())
    } else {
        match child_edits(parent, children.drop_last()) {
            Err(e) => Err(e),
            Ok(edits) => match child_edit(parent, children.last()) {
                Err(e) => Err(e),
                Ok(edit) => Ok(edits.push(edit)),
            },
        }
    }
}

pub proof fn lemma_boxes_total(s: Seq<u8>, at: int)
    ensures
        boxes(s, at) matches Ok(list) ==> total(list) <= s.len(),
    decreases s.len(),
{
    if s.len() >= 8 {
        if let Ok(n) = box_len(s, at) {
            lemma_boxes_total(s.skip(n), at + n);
            if let Ok(rest) = boxes(s.skip(n), at + n) {
                crate::scrub::edit::lemma_total_front(Piece { at, bytes: s.take(n) }, rest);
            }
        }
    }
}

/// Where a box lies in a file.
#[derive(Debug)]
pub struct BoxRef {
    pub typ: u32,
    pub start: usize,
    pub end: usize,
    pub body_start: usize,
    pub largesize: bool,
}

impl BoxRef {
    /// The box in `data`, header and body.
    pub open spec fn piece(self, data: Seq<u8>) -> Piece {
        Piece { at: self.start as int, bytes: data.subrange(self.start as int, self.end as int) }
    }

    /// That there is a box of `data` where this says, of the type and size that this says.
    pub open spec fn wf(self, data: Seq<u8>) -> bool {
        let raw = self.piece(data).bytes;
        &&& self.start + header_len(raw) == self.body_start
        &&& self.body_start <= self.end <= data.len()
        &&& self.typ == box_type(raw)
        &&& self.largesize == is_largesize(raw)
    }

    /// How many bytes of the box come before its body.
    pub fn header_len(&self) -> (n: usize)
        ensures
            n == if self.largesize { 16int } else { 8 },
    {
        if self.largesize {
            16
        } else {
            8
        }
    }
}

/// The boxes of `data` that `refs` point at.
pub open spec fn pieces(data: Seq<u8>, refs: Seq<BoxRef>) -> Seq<Piece> {
    Seq::new(refs.len(), |k: int| refs[k].piece(data))
}

/// Finds the boxes that `data[start..end]` is made of.
pub fn parse_boxes(data: &[u8], start: usize, end: usize, depth: usize) -> (r: Result<
    Vec<BoxRef>,
    ScrubError,
>)
    requires
        start <= end <= data.len(),
    ensures
        depth > MAX_DEPTH ==> r == Err::<Vec<BoxRef>, _>(ScrubError::Mp4TooDeep),
        depth <= MAX_DEPTH ==> match r {
            Ok(refs) => {
                &&& boxes(data@.subrange(start as int, end as int), start as int) == Ok::<
                    _,
                    ScrubError,
                >(pieces(data@, refs@))
                &&& forall|k: int|
                    0 <= k < refs.len() ==> (#[trigger] refs[k]).wf(data@) && start
                        <= refs[k].start && refs[k].end <= end
            },
            Err(e) => boxes(data@.subrange(start as int, end as int), start as int) == Err::<
                Seq<Piece>,
                _,
            >(e),
        },
{
    if depth > MAX_DEPTH {
        return Err(ScrubError::Mp4TooDeep);
    }
    let mut refs: Vec<BoxRef> = Vec::new();
    let mut i = start;
    let ghost whole = boxes(data@.subrange(start as int, end as int), start as int);
    assert(pieces(data@, refs@) + Seq::<Piece>::empty() =~= Seq::<Piece>::empty());
    assert(whole matches Ok(l) ==> pieces(data@, refs@) + l =~= l);
    while end - i >= 8
        invariant
            start <= i <= end <= data.len(),
            depth <= MAX_DEPTH,
            whole == boxes(data@.subrange(start as int, end as int), start as int),
            whole == prepend(
                pieces(data@, refs@),
                boxes(data@.subrange(i as int, end as int), i as int),
            ),
            forall|k: int|
                0 <= k < refs.len() ==> (#[trigger] refs[k]).wf(data@) && start <= refs[k].start
                    && refs[k].end <= end,
        decreases end - i,
    {
        let ghost s = data@.subrange(i as int, end as int);
        let size32 = read_be32(data, i);
        let typ = read_be32(data, i + 4);
        proof {
            be32_same(s, 0, data@, i as int);
            be32_same(s, 4, data@, i + 4);
            be32_range(s, 0);
        }
        let mut size: u64 = size32 as u64;
        let mut header: usize = 8;
        let largesize = size32 == 1;
        if largesize {
            if end - i < 16 {
                return Err(ScrubError::Mp4TruncatedLargesize);
            }
            size = read_be64(data, i + 8);
            proof {
                be64_same(s, 8, data@, i + 8);
            }
            header = 16;
        } else if size32 == 0 {
            size = (end - i) as u64;
        }
        if size < header as u64 {
            return Err(ScrubError::Mp4BoxTooSmall);
        }
        if size > (usize::MAX - i) as u64 {
            return Err(ScrubError::Mp4BoxOverflow);
        }
        let box_end: usize = i + size as usize;
        if box_end > end {
            return Err(ScrubError::Mp4BoxPastEnd);
        }
        let b = BoxRef { typ, start: i, end: box_end, body_start: i + header, largesize };
        proof {
            let n = size as int;
            assert(box_len(s, i as int) == Ok::<int, ScrubError>(n));
            assert(s.take(n) =~= data@.subrange(i as int, box_end as int));
            assert(s.skip(n) =~= data@.subrange(box_end as int, end as int));
            let raw = data@.subrange(i as int, box_end as int);
            be32_same(raw, 0, s, 0);
            be32_same(raw, 4, s, 4);
            let rest = boxes(s.skip(n), i + n);
            if let Ok(l) = rest {
                assert(pieces(data@, refs@) + (seq![b.piece(data@)] + l) =~= pieces(
                    data@,
                    refs@.push(b),
                ) + l);
            }
        }
        refs.push(b);
        i = box_end;
    }
    assert(pieces(data@, refs@) + Seq::<Piece>::empty() =~= pieces(data@, refs@));
    Ok(refs)
}

/// The time box `raw` with its times set to zero, if they are not zero already.
pub fn zero_creation_times(raw: &[u8]) -> (r: Option<Vec<u8>>)
    ensures
        match r {
            Some(v) => zeroed_times(raw@) == Some(v@),
            None => zeroed_times(raw@) is None,
        },
{
    if raw.len() < 12 {
        return None;
    }
    let header: usize = if read_be32(raw, 0) == 1 {
        16
    } else {
        8
    };
    if raw.len() < header + 12 {
        return None;
    }
    let version = raw[header];
    let start: usize = header + 4;
    let end: usize;
    if version == 0 {
        end = header + 12;
    } else if version == 1 && raw.len() >= header + 20 {
        end = header + 20;
    } else {
        return None;
    }
    let mut i: usize = start;
    while i < end && raw[i] == 0
        invariant
            start <= i <= end <= raw.len(),
            forall|k: int| start <= k < i ==> raw[k] == 0,
        ensures
            start <= i <= end,
            forall|k: int| start <= k < i ==> raw[k] == 0,
            i < end ==> raw[i as int] != 0,
        decreases end - i,
    {
        i = i + 1;
    }
    if i == end {
        return None;
    }
    let mut out: Vec<u8> = Vec::with_capacity(raw.len());
    push_range(&mut out, raw, 0, start);
    let mut j: usize = start;
    while j < end
        invariant
            start <= j <= end <= raw.len(),
            out.len() == j,
            forall|k: int| 0 <= k < j ==> out[k] == if k < start { raw[k] } else { 0u8 },
        decreases end - j,
    {
        out.push(0);
        j = j + 1;
    }
    push_range(&mut out, raw, end, raw.len());
    assert(out@ =~= zeroed_times(raw@).unwrap());
    Some(out)
}

/// An error among the first children is the error of all.
proof fn lemma_child_edits_error(parent: int, children: Seq<Piece>, k: int)
    requires
        0 <= k <= children.len(),
        child_edits(parent, children.take(k)) is Err,
    ensures
        child_edits(parent, children) == child_edits(parent, children.take(k)),
    decreases children.len(),
{
    if k == children.len() {
        assert(children.take(k) =~= children);
    } else {
        assert(children.drop_last().take(k) =~= children.take(k));
        lemma_child_edits_error(parent, children.drop_last(), k);
    }
}

/// Scrubs the box `child` of a container of type `parent`.
pub fn scrub_child(input: &[u8], parent: u32, child: &BoxRef) -> (r: Result<
    Edit<Vec<u8>>,
    ScrubError,
>)
    requires
        child.wf(input@),
    ensures
        edit_view(r) == child_edit(parent as int, child.piece(input@)),
    decreases child.end - child.start, 1int,
{
    if drops(parent, child.typ) {
        return Ok(Edit::Drop);
    }
    if times(child.typ) {
        let raw = slice_subrange(input, child.start, child.end);
        if let Some(new) = zero_creation_times(raw) {
            return Ok(Edit::Replace(new));
        }
    }
    if contains(child.typ) {
        match scrub_container(input, child) {
            Err(e) => Err(e),
            Ok(Some(new)) => Ok(Edit::Replace(new)),
            Ok(None) => Ok(Edit::Keep),
        }
    } else {
        Ok(Edit::Keep)
    }
}

/// Scrubs what the container `parent` holds. Gives the container anew if anything in it changed.
pub fn scrub_container(input: &[u8], parent: &BoxRef) -> (r: Result<Option<Vec<u8>>, ScrubError>)
    requires
        parent.wf(input@),
    ensures
        container_edit(parent.piece(input@)) == match r {
            Ok(Some(v)) => Ok(Edit::Replace(v@)),
            Ok(None) => Ok(Edit::Keep),
            Err(e) => Err(e),
        },
    decreases parent.end - parent.start, 0int,
{
    let ghost p = parent.piece(input@);
    let ghost typ = parent.typ as int;
    assert(body(p.bytes) =~= input@.subrange(parent.body_start as int, parent.end as int));
    let children = parse_boxes(input, parent.body_start, parent.end, MAX_DEPTH)?;
    let ghost all = pieces(input@, children@);
    let ghost mut edits = Seq::<Edit<Seq<u8>>>::empty();
    let mut change = false;
    let mut new_body: Vec<u8> = Vec::with_capacity(parent.end - parent.body_start);
    let mut i: usize = 0;
    assert(all.take(0) =~= Seq::<Piece>::empty());
    while i < children.len()
        invariant
            parent.wf(input@),
            p == parent.piece(input@),
            typ == parent.typ,
            all == pieces(input@, children@),
            boxes(body(p.bytes), p.at + header_len(p.bytes)) == Ok::<_, ScrubError>(all),
            forall|k: int|
                0 <= k < children.len() ==> (#[trigger] children[k]).wf(input@) && parent.body_start
                    <= children[k].start && children[k].end <= parent.end,
            0 <= i <= children.len(),
            child_edits(typ, all.take(i as int)) == Ok::<_, ScrubError>(edits),
            edits.len() == i,
            new_body@ == rebuilt(all.take(i as int), edits),
            change == changed(edits),
        decreases children.len() - i,
    {
        let child = &children[i];
        proof {
            assert(all.take(i + 1).drop_last() =~= all.take(i as int));
            assert(all.take(i + 1).last() == child.piece(input@));
        }
        let edit = match scrub_child(input, parent.typ, child) {
            Err(e) => {
                proof {
                    lemma_child_edits_error(typ, all, i + 1);
                }
                return Err(e);
            },
            Ok(edit) => edit,
        };
        let ghost before = edits;
        proof {
            edits = edits.push(bytes_view(edit));
            assert(edits.drop_last() =~= before);
            lemma_changed_push(before, bytes_view(edit));
        }
        match edit {
            Edit::Keep => push_range(&mut new_body, input, child.start, child.end),
            Edit::Drop => {
                change = true;
            },
            Edit::Replace(new) => {
                change = true;
                push_all(&mut new_body, &new);
            },
        }
        i = i + 1;
    }
    assert(all.take(i as int) =~= all);
    if !change {
        return Ok(None);
    }
    let mut out: Vec<u8> = Vec::new();
    if new_body.len() <= u32::MAX as usize - parent.header_len() {
        push_be32(&mut out, (8 + new_body.len()) as u32);
        push_be32(&mut out, parent.typ);
    } else {
        push_be32(&mut out, 1);
        push_be32(&mut out, parent.typ);
        push_be64(&mut out, 16 + new_body.len() as u128);
    }
    push_all(&mut out, &new_body);
    proof {
        be32_from_bytes(p.bytes, 4);
        assert(out@ =~= rewrapped(p.bytes, new_body@));
    }
    Ok(Some(out))
}

fn drops(parent: u32, child: u32) -> (yes: bool)
    ensures
        yes == is_dropped(parent as int, child as int),
{
    let of_movie = child == UDTA || child == META || child == KEYS || child == ILST;
    let of_track = child == UDTA || child == META;
    (parent == MOOV && of_movie) || (parent == TRAK && of_track)
}

fn times(typ: u32) -> (yes: bool)
    ensures
        yes == is_time_box(typ as int),
{
    typ == MVHD || typ == TKHD || typ == MDHD
}

fn contains(typ: u32) -> (yes: bool)
    ensures
        yes == is_container(typ as int),
{
    typ == MOOV || typ == TRAK || typ == MDIA || typ == MINF || typ == STBL || typ == EDTS || typ
        == MVEX
}

/// Whether the `uuid` box `b` of `input` is marked as XMP: the bytes from its body on, whether or
/// not they are all its own, begin with the XMP user type.
pub open spec fn is_xmp(input: Seq<u8>, b: Piece) -> bool {
    xmp_uuid().is_prefix_of(input.skip(b.at + header_len(b.bytes)))
}

/// What becomes of the box `b` at the top level of `input`.
pub open spec fn top_edit(input: Seq<u8>, b: Piece) -> Result<Edit<Seq<u8>>, ScrubError> {
    let typ = box_type(b.bytes);
    if typ == MOOV {
        container_edit(b)
    } else if typ == UUID && is_xmp(input, b) {
        Ok(Edit::Drop)
    } else {
        Ok(Edit::Keep)
    }
}

/// What becomes of each of `list` at the top level of `input`, or the first error.
pub open spec fn top_edits(input: Seq<u8>, list: Seq<Piece>) -> Result<
    Seq<Edit<Seq<u8>>>,
    ScrubError,
>
    decreases list.len(),
{
    if list.len() == 0 {
        Ok(Seq::empty())
    } else {
        match top_edits(input, list.drop_last()) {
            Err(e) => Err(e),
            Ok(edits) => match top_edit(input, list.last()) {
                Err(e) => Err(e),
                Ok(edit) => Ok(edits.push(edit)),
            },
        }
    }
}

/// `input` without its metadata, or nothing where it holds none.
pub open spec fn scrubbed(input: Seq<u8>) -> Result<Option<Seq<u8>>, ScrubError> {
    if input.len() < 8 {
        Err(ScrubError::NotMp4)
    } else {
        match boxes(input, 0) {
            Err(e) => Err(e),
            Ok(list) => match top_edits(input, list) {
                Err(e) => Err(e),
                Ok(edits) => if changed(edits) {
                    Ok(Some(rebuilt(list, edits)))
                } else {
                    Ok(None)
                },
            },
        }
    }
}

/// An error among the first boxes is the error of all.
proof fn lemma_top_edits_error(input: Seq<u8>, list: Seq<Piece>, k: int)
    requires
        0 <= k <= list.len(),
        top_edits(input, list.take(k)) is Err,
    ensures
        top_edits(input, list) == top_edits(input, list.take(k)),
    decreases list.len(),
{
    if k == list.len() {
        assert(list.take(k) =~= list);
    } else {
        assert(list.drop_last().take(k) =~= list.take(k));
        lemma_top_edits_error(input, list.drop_last(), k);
    }
}

/// Whether the box `b` of `input` is marked as XMP.
pub fn is_xmp_uuid(input: &[u8], b: &BoxRef) -> (yes: bool)
    requires
        b.wf(input@),
    ensures
        yes == is_xmp(input@, b.piece(input@)),
{
    let uuid: [u8; 16] = [
        0xBE, 0x7A, 0xCF, 0xCB, 0x97, 0xA9, 0x42, 0xE8, 0x9C, 0x71, 0x99, 0x94, 0x91, 0xE3, 0xAF,
        0xAC,
    ];
    assert(uuid@ =~= xmp_uuid());
    starts_with(input, b.body_start, &uuid)
}

/// Scrubs one box at the top level of `input`.
fn scrub_top(input: &[u8], b: &BoxRef) -> (r: Result<Edit<Vec<u8>>, ScrubError>)
    requires
        b.wf(input@),
    ensures
        edit_view(r) == top_edit(input@, b.piece(input@)),
{
    if b.typ == MOOV {
        match scrub_container(input, b) {
            Err(e) => Err(e),
            Ok(Some(new)) => Ok(Edit::Replace(new)),
            Ok(None) => Ok(Edit::Keep),
        }
    } else if b.typ == UUID && is_xmp_uuid(input, b) {
        Ok(Edit::Drop)
    } else {
        Ok(Edit::Keep)
    }
}

/// Removes the metadata from an MP4, M4V or MOV file: the user data, `meta`, `keys` and `ilst`
/// boxes of the movie, the user data and `meta` boxes of its tracks, the creation and
/// modification times, and XMP. Gives nothing where there is nothing to remove.
pub fn scrub(input: &[u8]) -> (r: Result<Option<Vec<u8>>, ScrubError>)
    ensures
        scrub_view(r) == scrubbed(input@),
{
    if input.len() < 8 {
        return Err(ScrubError::NotMp4);
    }
    assert(input@.subrange(0, input@.len() as int) =~= input@);
    let top = parse_boxes(input, 0, input.len(), 0)?;
    let ghost all = pieces(input@, top@);
    let ghost mut edits = Seq::<Edit<Seq<u8>>>::empty();
    let mut removed = false;
    let mut out: Vec<u8> = Vec::with_capacity(input.len());
    let mut i: usize = 0;
    assert(all.take(0) =~= Seq::<Piece>::empty());
    while i < top.len()
        invariant
            input.len() >= 8,
            all == pieces(input@, top@),
            boxes(input@, 0) == Ok::<_, ScrubError>(all),
            forall|k: int| 0 <= k < top.len() ==> (#[trigger] top[k]).wf(input@),
            0 <= i <= top.len(),
            top_edits(input@, all.take(i as int)) == Ok::<_, ScrubError>(edits),
            edits.len() == i,
            out@ == rebuilt(all.take(i as int), edits),
            removed == changed(edits),
        decreases top.len() - i,
    {
        let b = &top[i];
        proof {
            assert(all.take(i + 1).drop_last() =~= all.take(i as int));
            assert(all.take(i + 1).last() == b.piece(input@));
        }
        let edit = match scrub_top(input, b) {
            Err(e) => {
                proof {
                    lemma_top_edits_error(input@, all, i + 1);
                }
                return Err(e);
            },
            Ok(edit) => edit,
        };
        let ghost before = edits;
        proof {
            edits = edits.push(bytes_view(edit));
            assert(edits.drop_last() =~= before);
            lemma_changed_push(before, bytes_view(edit));
        }
        match edit {
            Edit::Keep => push_range(&mut out, input, b.start, b.end),
            Edit::Drop => {
                removed = true;
            },
            Edit::Replace(new) => {
                removed = true;
                push_all(&mut out, &new);
            },
        }
        i = i + 1;
    }
    assert(all.take(i as int) =~= all);
    if removed {
        Ok(Some(out))
    } else {
        Ok(None)
    }
}

} // verus!
