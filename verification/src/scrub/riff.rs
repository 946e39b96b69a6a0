//! WebP and AVI: RIFF files, a run of chunks after a form header.
//!
//! A chunk is a four-letter code, a 32-bit size and a payload, padded to an even length. In an AVI
//! file a `LIST` chunk holds a list type and chunks of its own.
use vstd::prelude::*;
use vstd::slice::slice_subrange;
use crate::bytes::{
    be32, be32_bytes, be32_same, le32, le32_bytes, le32_range, le32_same, prepend, push_all,
    push_be32, push_le32, push_range, read_be32, read_le32,
};
use crate::error::ScrubError;
use crate::scrub::edit::{
    bytes_view, changed, edit_view, lemma_changed_push, lemma_total_front, rebuilt, scrub_view,
    total, Edit, Piece,
};

verus! {

/// "RIFF"
pub const RIFF: u32 = 0x52494646;

/// "WEBP"
pub const WEBP: u32 = 0x57454250;

/// "AVI "
pub const AVI: u32 = 0x41564920;

/// "EXIF"
pub const EXIF: u32 = 0x45584946;

/// "XMP "
pub const XMP: u32 = 0x584d5020;

/// "VP8X"
pub const VP8X: u32 = 0x56503858;

/// "IDIT"
pub const IDIT: u32 = 0x49444954;

/// "LIST"
pub const LIST: u32 = 0x4c495354;

/// "INFO"
pub const INFO: u32 = 0x494e464f;

/// "movi"
pub const MOVI: u32 = 0x6d6f7669;

/// The flags of a `VP8X` chunk other than those that say there is EXIF (0x08) or XMP (0x04).
pub const OTHER_FLAGS: u8 = 0xF3;

/// Whether `input` begins as a RIFF file of the given form.
pub open spec fn is_riff(input: Seq<u8>, form: u32) -> bool {
    input.len() >= 12 && be32(input, 0) == RIFF && be32(input, 8) == form
}

/// The code of the chunk `raw`.
pub open spec fn fourcc(raw: Seq<u8>) -> int {
    be32(raw, 0)
}

/// How long the chunk at the front of `s` is, header and padding counted, where `s` starts at
/// offset `at`.
pub open spec fn chunk_len(s: Seq<u8>, at: int) -> Result<int, ScrubError> {
    let size = le32(s, 4);
    let len = 8 + size + size % 2;
    if at + len > usize::MAX {
        Err(ScrubError::RiffChunkOverflow)
    } else if len > s.len() {
        Err(ScrubError::RiffChunkPastEnd)
    } else {
        Ok(len)
    }
}

/// The chunks that `s` is made of, where `s` starts at offset `at`. Fewer than eight bytes after
/// the last chunk belong to none.
pub open spec fn chunks(s: Seq<u8>, at: int) -> Result<Seq<Piece>, ScrubError>
    decreases s.len(),
{
    if s.len() < 8 {
        Ok(Seq::empty())
    } else {
        match chunk_len(s, at) {
            Err(e) => Err(e),
            Ok(n) => {
                proof {
                    le32_range(s, 4);
                }
                prepend(seq![Piece { at, bytes: s.take(n) }], chunks(s.skip(n), at + n))
            },
        }
    }
}

/// A chunk of chunks: a `LIST`, or the file as a whole.
pub open spec fn wrapped(code: u32, form: int, payload: Seq<u8>) -> Seq<u8> {
    be32_bytes(code as int) + le32_bytes(4 + payload.len() as int) + be32_bytes(form) + payload
}

/// What becomes of the chunk `raw` of a WebP file.
pub open spec fn webp_edit(raw: Seq<u8>) -> Edit<Seq<u8>> {
    if fourcc(raw) == EXIF || fourcc(raw) == XMP {
        Edit::Drop
    } else if fourcc(raw) == VP8X && raw.len() >= 12 {
        Edit::Replace(raw.update(8, raw[8] & OTHER_FLAGS))
    } else {
        Edit::Keep
    }
}

/// What becomes of each of `list` in a WebP file.
pub open spec fn webp_edits(list: Seq<Piece>) -> Seq<Edit<Seq<u8>>> {
    Seq::new(list.len(), |k: int| webp_edit(list[k].bytes))
}

/// Whether any piece is dropped.
pub open spec fn drops(edits: Seq<Edit<Seq<u8>>>) -> bool {
    exists|k: int| 0 <= k < edits.len() && #[trigger] edits[k] is Drop
}

/// The WebP file `input` without its metadata, or nothing where it holds none.
pub open spec fn webp_scrubbed(input: Seq<u8>) -> Result<Option<Seq<u8>>, ScrubError> {
    if !is_riff(input, WEBP) {
        Err(ScrubError::NotWebp)
    } else {
        match chunks(input.skip(12), 0) {
            Err(e) => Err(e),
            Ok(list) => if drops(webp_edits(list)) {
                Ok(Some(wrapped(RIFF, WEBP as int, rebuilt(list, webp_edits(list)))))
            } else {
                Ok(None)
            },
        }
    }
}

/// Whether a chunk of an AVI file with this code is metadata.
pub open spec fn is_avi_metadata(code: int) -> bool {
    code == IDIT || code == EXIF || code == XMP
}

/// What becomes of the chunk `raw` of an AVI file. A list is kept if all in it is, and else
/// wrapped anew; the frames, in a list of type `movi`, are not looked into.
pub open spec fn avi_edit(raw: Seq<u8>) -> Result<Edit<Seq<u8>>, ScrubError>
    decreases raw.len(), 0int, 0int,
{
    if is_avi_metadata(fourcc(raw)) {
        Ok(Edit::Drop)
    } else if fourcc(raw) != LIST || raw.len() < 12 {
        Ok(Edit::Keep)
    } else if be32(raw, 8) == INFO {
        Ok(Edit::Drop)
    } else if be32(raw, 8) == MOVI {
        Ok(Edit::Keep)
    } else {
        match chunks(raw.skip(12), 0) {
            Err(e) => Err(e),
            Ok(children) => {
                proof {
                    lemma_chunks_total(raw.skip(12), 0);
                }
                match avi_edits(children) {
                    Err(e) => Err(e),
                    Ok(edits) => if changed(edits) {
                        Ok(Edit::Replace(wrapped(LIST, be32(raw, 8), rebuilt(children, edits))))
                    } else {
                        Ok(Edit::Keep)
                    },
                }
            },
        }
    }
}

/// What becomes of each of `list` in an AVI file, or the first error.
pub open spec fn avi_edits(list: Seq<Piece>) -> Result<Seq<Edit<Seq<u8>>>, ScrubError>
    decreases total(list), 1int, list.len(),
{
    if list.len() == 0 {
        Ok(Seq::empty())
    } else {
        match avi_edits(list.drop_last()) {
            Err(e) => Err(e),
            Ok(edits) => match avi_edit(list.last().bytes) {
                Err(e) => Err(e),
                Ok(edit) => Ok(edits.push(edit)),
            },
        }
    }
}

/// The AVI file `input` without its metadata, or nothing where it holds none.
pub open spec fn avi_scrubbed(input: Seq<u8>) -> Result<Option<Seq<u8>>, ScrubError> {
    if !is_riff(input, AVI) {
        Err(ScrubError::NotAvi)
    } else {
        match chunks(input.skip(12), 0) {
            Err(e) => Err(e),
            Ok(list) => match avi_edits(list) {
                Err(e) => Err(e),
                Ok(edits) => if changed(edits) {
                    Ok(Some(wrapped(RIFF, AVI as int, rebuilt(list, edits))))
                } else {
                    Ok(None)
                },
            },
        }
    }
}

pub proof fn lemma_chunks_total(s: Seq<u8>, at: int)
    ensures
        chunks(s, at) matches Ok(list) ==> total(list) <= s.len(),
    decreases s.len(),
{
    if s.len() >= 8 {
        if let Ok(n) = chunk_len(s, at) {
            le32_range(s, 4);
            lemma_chunks_total(s.skip(n), at + n);
            if let Ok(rest) = chunks(s.skip(n), at + n) {
                lemma_total_front(Piece { at, bytes: s.take(n) }, rest);
            }
        }
    }
}

/// Where a chunk lies in a run of chunks.
#[derive(Debug)]
pub struct ChunkRef {
    pub fourcc: u32,
    pub start: usize,
    pub end: usize,
}

impl ChunkRef {
    /// The chunk in `data`, header and padding included.
    pub open spec fn piece(self, data: Seq<u8>) -> Piece {
        Piece { at: self.start as int, bytes: data.subrange(self.start as int, self.end as int) }
    }

    /// That there is a chunk of `data` where this says, with the code that this says.
    pub open spec fn wf(self, data: Seq<u8>) -> bool {
        &&& self.start + 8 <= self.end <= data.len()
        &&& self.fourcc == fourcc(self.piece(data).bytes)
    }
}

/// The chunks of `data` that `refs` point at.
pub open spec fn pieces(data: Seq<u8>, refs: Seq<ChunkRef>) -> Seq<Piece> {
    Seq::new(refs.len(), |k: int| refs[k].piece(data))
}

/// Finds the chunks that `data` is made of.
pub fn parse_chunks(data: &[u8]) -> (r: Result<Vec<ChunkRef>, ScrubError>)
    ensures
        match r {
            Ok(refs) => {
                &&& chunks(data@, 0) == Ok::<_, ScrubError>(pieces(data@, refs@))
                &&& forall|k: int| 0 <= k < refs.len() ==> (#[trigger] refs[k]).wf(data@)
            },
            Err(e) => chunks(data@, 0) == Err::<Seq<Piece>, _>(e),
        },
{
    let mut refs: Vec<ChunkRef> = Vec::new();
    let mut i: usize = 0;
    assert(data@.skip(0) =~= data@);
    assert(chunks(data@, 0) matches Ok(l) ==> pieces(data@, refs@) + l =~= l);
    while data.len() - i >= 8
        invariant
            i <= data.len(),
            chunks(data@, 0) == prepend(
                pieces(data@, refs@),
                chunks(data@.skip(i as int), i as int),
            ),
            forall|k: int| 0 <= k < refs.len() ==> (#[trigger] refs[k]).wf(data@),
        decreases data.len() - i,
    {
        let ghost s = data@.skip(i as int);
        let fourcc = read_be32(data, i);
        let size = read_le32(data, i + 4);
        proof {
            be32_same(s, 0, data@, i as int);
            le32_same(s, 4, data@, i + 4);
            le32_range(s, 4);
        }
        let len: u64 = 8 + size as u64 + size as u64 % 2;
        if len > (usize::MAX - i) as u64 {
            return Err(ScrubError::RiffChunkOverflow);
        }
        let end: usize = i + len as usize;
        if end > data.len() {
            return Err(ScrubError::RiffChunkPastEnd);
        }
        let c = ChunkRef { fourcc, start: i, end };
        proof {
            let n = len as int;
            assert(chunk_len(s, i as int) == Ok::<int, ScrubError>(n));
            let raw = data@.subrange(i as int, end as int);
            assert(s.take(n) =~= raw);
            assert(s.skip(n) =~= data@.skip(end as int));
            be32_same(raw, 0, s, 0);
            if let Ok(l) = chunks(s.skip(n), i + n) {
                assert(pieces(data@, refs@) + (seq![c.piece(data@)] + l) =~= pieces(
                    data@,
                    refs@.push(c),
                ) + l);
            }
        }
        refs.push(c);
        i = end;
    }
    assert(pieces(data@, refs@) + Seq::<Piece>::empty() =~= pieces(data@, refs@));
    Ok(refs)
}

/// `payload` as a chunk of chunks.
fn wrap(code: u32, form: u32, payload: &Vec<u8>) -> (out: Vec<u8>)
    ensures
        out@ == wrapped(code, form as int, payload@),
{
    let mut out: Vec<u8> = Vec::with_capacity(payload.len());
    push_be32(&mut out, code);
    push_le32(&mut out, payload.len() as u128 + 4);
    push_be32(&mut out, form);
    push_all(&mut out, payload);
    assert(out@ =~= wrapped(code, form as int, payload@));
    out
}

/// Whether `input` begins as a RIFF file of the given form.
fn has_form(input: &[u8], form: u32) -> (yes: bool)
    ensures
        yes == is_riff(input@, form),
{
    input.len() >= 12 && read_be32(input, 0) == RIFF && read_be32(input, 8) == form
}

/// Removes the EXIF and XMP chunks from a WebP file, and the flags that announce them. Gives
/// nothing where there is no such chunk.
pub fn scrub_webp(input: &[u8]) -> (r: Result<Option<Vec<u8>>, ScrubError>)
    ensures
        scrub_view(r) == webp_scrubbed(input@),
{
    if !has_form(input, WEBP) {
        return Err(ScrubError::NotWebp);
    }
    let data = slice_subrange(input, 12, input.len());
    assert(data@ =~= input@.skip(12));
    let refs = parse_chunks(data)?;
    let ghost all = pieces(data@, refs@);
    let ghost edits = webp_edits(all);
    let mut removed = false;
    let mut payload: Vec<u8> = Vec::with_capacity(data.len());
    let mut i: usize = 0;
    while i < refs.len()
        invariant
            all == pieces(data@, refs@),
            edits == webp_edits(all),
            forall|k: int| 0 <= k < refs.len() ==> (#[trigger] refs[k]).wf(data@),
            0 <= i <= refs.len(),
            payload@ == rebuilt(all.take(i as int), edits.take(i as int)),
            removed == drops(edits.take(i as int)),
        decreases refs.len() - i,
    {
        let c = &refs[i];
        proof {
            assert(all.take(i + 1).drop_last() =~= all.take(i as int));
            assert(edits.take(i + 1).drop_last() =~= edits.take(i as int));
            lemma_drops_step(edits, i as int);
        }
        if c.fourcc == EXIF || c.fourcc == XMP {
            removed = true;
        } else if c.fourcc == VP8X && c.end - c.start >= 12 {
            let ghost before = payload@;
            push_range(&mut payload, data, c.start, c.start + 8);
            payload.push(data[c.start + 8] & OTHER_FLAGS);
            push_range(&mut payload, data, c.start + 9, c.end);
            proof {
                let raw = c.piece(data@).bytes;
                assert(payload@ =~= before + raw.update(8, raw[8] & OTHER_FLAGS));
            }
        } else {
            push_range(&mut payload, data, c.start, c.end);
        }
        i = i + 1;
    }
    assert(all.take(i as int) =~= all);
    assert(edits.take(i as int) =~= edits);
    if !removed {
        return Ok(None);
    }
    Ok(Some(wrap(RIFF, WEBP, &payload)))
}

proof fn lemma_drops_step(edits: Seq<Edit<Seq<u8>>>, i: int)
    requires
        0 <= i < edits.len(),
    ensures
        drops(edits.take(i + 1)) == (drops(edits.take(i)) || edits[i] is Drop),
{
    let now = edits.take(i);
    let next = edits.take(i + 1);
    if drops(now) {
        let k = choose|k: int| 0 <= k < now.len() && #[trigger] now[k] is Drop;
        assert(next[k] is Drop);
    }
    if edits[i] is Drop {
        assert(next[i] is Drop);
    }
    if drops(next) {
        let k = choose|k: int| 0 <= k < next.len() && #[trigger] next[k] is Drop;
        if k < i {
            assert(now[k] is Drop);
        }
    }
}

/// An error among the first chunks is the error of all.
proof fn lemma_avi_edits_error(list: Seq<Piece>, k: int)
    requires
        0 <= k <= list.len(),
        avi_edits(list.take(k)) is Err,
    ensures
        avi_edits(list) == avi_edits(list.take(k)),
    decreases list.len(),
{
    if k == list.len() {
        assert(list.take(k) =~= list);
    } else {
        assert(list.drop_last().take(k) =~= list.take(k));
        lemma_avi_edits_error(list.drop_last(), k);
    }
}

/// Scrubs the chunk `full` of an AVI file.
pub fn scrub_avi_chunk(full: &[u8]) -> (r: Result<Edit<Vec<u8>>, ScrubError>)
    requires
        full.len() >= 8,
    ensures
        edit_view(r) == avi_edit(full@),
    decreases full.len(), 0int,
{
    let code = read_be32(full, 0);
    if code == IDIT || code == EXIF || code == XMP {
        return Ok(Edit::Drop);
    }
    if code != LIST || full.len() < 12 {
        return Ok(Edit::Keep);
    }
    let list_type = read_be32(full, 8);
    if list_type == INFO {
        return Ok(Edit::Drop);
    }
    if list_type == MOVI {
        return Ok(Edit::Keep);
    }
    let data = slice_subrange(full, 12, full.len());
    assert(data@ =~= full@.skip(12));
    match scrub_avi_chunks(data) {
        Err(e) => Err(e),
        Ok(None) => Ok(Edit::Keep),
        Ok(Some(payload)) => Ok(Edit::Replace(wrap(LIST, list_type, &payload))),
    }
}

/// Scrubs a run of chunks of an AVI file. Gives what is left of them if anything changed.
fn scrub_avi_chunks(data: &[u8]) -> (r: Result<Option<Vec<u8>>, ScrubError>)
    ensures
        match chunks(data@, 0) {
            Err(e) => r == Err::<Option<Vec<u8>>, _>(e),
            Ok(list) => match avi_edits(list) {
                Err(e) => r == Err::<Option<Vec<u8>>, _>(e),
                Ok(edits) => if changed(edits) {
                    r matches Ok(Some(payload)) && payload@ == rebuilt(list, edits)
                } else {
                    r == Ok::<_, ScrubError>(None::<Vec<u8>>)
                },
            },
        },
    decreases data.len(), 1int,
{
    let refs = parse_chunks(data)?;
    let ghost all = pieces(data@, refs@);
    let ghost mut edits = Seq::<Edit<Seq<u8>>>::empty();
    let mut change = false;
    let mut payload: Vec<u8> = Vec::with_capacity(data.len());
    let mut i: usize = 0;
    assert(all.take(0) =~= Seq::<Piece>::empty());
    while i < refs.len()
        invariant
            all == pieces(data@, refs@),
            chunks(data@, 0) == Ok::<_, ScrubError>(all),
            forall|k: int| 0 <= k < refs.len() ==> (#[trigger] refs[k]).wf(data@),
            0 <= i <= refs.len(),
            avi_edits(all.take(i as int)) == Ok::<_, ScrubError>(edits),
            edits.len() == i,
            payload@ == rebuilt(all.take(i as int), edits),
            change == changed(edits),
        decreases refs.len() - i,
    {
        let c = &refs[i];
        let full = slice_subrange(data, c.start, c.end);
        proof {
            assert(all.take(i + 1).drop_last() =~= all.take(i as int));
            assert(all.take(i + 1).last() == c.piece(data@));
        }
        let edit = match scrub_avi_chunk(full) {
            Err(e) => {
                proof {
                    lemma_avi_edits_error(all, i + 1);
                }
                return Err(e);
            },
            Ok(edit) => edit,
        };
        let ghost before = edits;
        proof {
            edits = edits.push(bytes_view(edit));
            assert(edits.drop_last() =~= before);
            lemma_changed_push(before, bytes_view(edit));
        }
        match edit {
            Edit::Keep => push_all(&mut payload, full),
            Edit::Drop => {
                change = true;
            },
            Edit::Replace(new) => {
                change = true;
                push_all(&mut payload, &new);
            },
        }
        i = i + 1;
    }
    assert(all.take(i as int) =~= all);
    if change {
        Ok(Some(payload))
    } else {
        Ok(None)
    }
}

/// Removes the metadata from an AVI file: the INFO lists, the EXIF, XMP and digitization date
/// chunks, wherever they stand outside the frames. Gives nothing where there are none.
pub fn scrub_avi(input: &[u8]) -> (r: Result<Option<Vec<u8>>, ScrubError>)
    ensures
        scrub_view(r) == avi_scrubbed(input@),
{
    if !has_form(input, AVI) {
        return Err(ScrubError::NotAvi);
    }
    let data = slice_subrange(input, 12, input.len());
    assert(data@ =~= input@.skip(12));
    match scrub_avi_chunks(data) {
        Err(e) => Err(e),
        Ok(None) => Ok(None),
        Ok(Some(payload)) => Ok(Some(wrap(RIFF, AVI, &payload))),
    }
}

} // verus!
