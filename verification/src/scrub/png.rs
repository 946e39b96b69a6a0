//! PNG: a signature and a run of chunks.
//!
//! A chunk is a 32-bit length, a four-letter type, its data and a 32-bit checksum. A text chunk's
//! data begins with a keyword that a zero byte ends.
use vstd::prelude::*;
use vstd::slice::slice_subrange;
use vstd::string::StringSliceAdditionalSpecFns;
use crate::bytes::{
    be32, be32_range, be32_same, prepend, push_all, push_range, read_be32, starts_with,
};
use crate::error::ScrubError;
use crate::scrub::edit::{changed, edited, lemma_changed_push, rebuilt, scrub_view, Edit, Piece};

verus! {

/// "eXIf"
pub const EXIF: u32 = 0x65584966;

/// "tEXt"
pub const TEXT: u32 = 0x74455874;

/// "zTXt"
pub const COMPRESSED_TEXT: u32 = 0x7a545874;

/// "iTXt"
pub const INTERNATIONAL_TEXT: u32 = 0x69545874;

/// How a PNG file begins.
pub open spec fn signature() -> Seq<u8> {
    seq![0x89u8, 0x50, 0x4E, 0x47, 0x0D, 0x0A, 0x1A, 0x0A]
}

/// An ASCII capital letter as a small one; any other byte as it is.
pub open spec fn lower(b: u8) -> u8 {
    if 0x41 <= b <= 0x5A {
        (b + 0x20) as u8
    } else {
        b
    }
}

/// Whether what comes before the first zero byte of `data` is `keyword`, letter case aside.
pub open spec fn has_keyword(data: Seq<u8>, keyword: Seq<u8>) -> bool {
    let n = keyword.len() as int;
    &&& data.len() > n
    &&& data[n] == 0
    &&& forall|k: int| 0 <= k < n ==> data[k] != 0 && lower(#[trigger] data[k]) == lower(keyword[k])
}

/// Whether the keyword of `data` is one of metadata.
pub open spec fn has_metadata_keyword(data: Seq<u8>) -> bool {
    ||| has_keyword(data, "XML:com.adobe.xmp".spec_bytes())
    ||| has_keyword(data, "Raw profile type exif".spec_bytes())
    ||| has_keyword(data, "Raw profile type iptc".spec_bytes())
    ||| has_keyword(data, "Raw profile type photoshop".spec_bytes())
}

/// Whether a chunk of this type, with this data, is metadata.
pub open spec fn is_dropped(typ: int, data: Seq<u8>) -> bool {
    ||| typ == EXIF
    ||| (typ == TEXT || typ == COMPRESSED_TEXT || typ == INTERNATIONAL_TEXT)
        && has_metadata_keyword(data)
}

/// Whether the chunk `raw` is metadata.
pub open spec fn is_metadata(raw: Seq<u8>) -> bool {
    is_dropped(be32(raw, 4), raw.subrange(8, raw.len() - 4))
}

/// How long the chunk at the front of `s` is, header and checksum counted, where `s` starts at
/// offset `at`.
pub open spec fn chunk_len(s: Seq<u8>, at: int) -> Result<int, ScrubError> {
    if s.len() < 8 {
        Err(ScrubError::PngTruncatedHeader)
    } else {
        let len = 12 + be32(s, 0);
        if at + len > usize::MAX {
            Err(ScrubError::PngBadChunkLength)
        } else if len > s.len() {
            Err(ScrubError::PngChunkPastEnd)
        } else {
            Ok(len)
        }
    }
}

/// The chunks that `s` is made of, where `s` starts at offset `at`.
pub open spec fn chunks(s: Seq<u8>, at: int) -> Result<Seq<Piece>, ScrubError>
    decreases s.len(),
{
    if s.len() == 0 {
        Ok(Seq::empty())
    } else {
        match chunk_len(s, at) {
            Err(e) => Err(e),
            Ok(n) => {
                proof {
                    be32_range(s, 0);
                }
                prepend(seq![Piece { at, bytes: s.take(n) }], chunks(s.skip(n), at + n))
            },
        }
    }
}

/// What becomes of each of `list`: metadata is dropped, all else kept.
pub open spec fn chunk_edits(list: Seq<Piece>) -> Seq<Edit<Seq<u8>>> {
    Seq::new(
        list.len(),
        |k: int|
            if is_metadata(list[k].bytes) {
                Edit::Drop
            } else {
                Edit::Keep
            },
    )
}

/// `input` without its metadata, or nothing where it holds none.
pub open spec fn scrubbed(input: Seq<u8>) -> Result<Option<Seq<u8>>, ScrubError> {
    if !signature().is_prefix_of(input) {
        Err(ScrubError::NotPng)
    } else {
        match chunks(input.skip(8), 8) {
            Err(e) => Err(e),
            Ok(list) => if list.len() == 0 {
                Err(ScrubError::PngNoChunks)
            } else if changed(chunk_edits(list)) {
                Ok(Some(signature() + rebuilt(list, chunk_edits(list))))
            } else {
                Ok(None)
            },
        }
    }
}

fn to_lower(b: u8) -> (c: u8)
    ensures
        c == lower(b),
{
    if 0x41 <= b && b <= 0x5A {
        b + 0x20
    } else {
        b
    }
}

/// Whether what comes before the first zero byte of `data` is `keyword`, letter case aside.
fn keyword_is(data: &[u8], keyword: &[u8]) -> (yes: bool)
    ensures
        yes == has_keyword(data@, keyword@),
{
    if data.len() <= keyword.len() || data[keyword.len()] != 0 {
        return false;
    }
    let mut i: usize = 0;
    while i < keyword.len()
        invariant
            data.len() > keyword.len(),
            i <= keyword.len(),
            forall|k: int|
                0 <= k < i ==> data@[k] != 0 && lower(#[trigger] data@[k]) == lower(keyword@[k]),
        decreases keyword.len() - i,
    {
        if data[i] == 0 || to_lower(data[i]) != to_lower(keyword[i]) {
            assert(data@[i as int] == 0 || lower(data@[i as int]) != lower(keyword@[i as int]));
            return false;
        }
        i = i + 1;
    }
    true
}

/// Whether a chunk of type `chunk_type`, with this data, is metadata.
pub fn chunk_should_be_dropped(chunk_type: u32, data: &[u8]) -> (yes: bool)
    ensures
        yes == is_dropped(chunk_type as int, data@),
{
    if chunk_type == EXIF {
        return true;
    }
    if chunk_type == TEXT || chunk_type == COMPRESSED_TEXT || chunk_type == INTERNATIONAL_TEXT {
        return keyword_is(data, "XML:com.adobe.xmp".as_bytes()) || keyword_is(
            data,
            "Raw profile type exif".as_bytes(),
        ) || keyword_is(data, "Raw profile type iptc".as_bytes()) || keyword_is(
            data,
            "Raw profile type photoshop".as_bytes(),
        );
    }
    false
}

/// Removes the metadata from a PNG file: the EXIF chunk and the text chunks that hold XMP, EXIF,
/// IPTC or Photoshop data. Gives nothing where there are none.
pub fn scrub(input: &[u8]) -> (r: Result<Option<Vec<u8>>, ScrubError>)
    ensures
        scrub_view(r) == scrubbed(input@),
{
    let sign: [u8; 8] = [0x89, 0x50, 0x4E, 0x47, 0x0D, 0x0A, 0x1A, 0x0A];
    assert(sign@ =~= signature());
    assert(input@.skip(0) =~= input@);
    if !starts_with(input, 0, &sign) {
        return Err(ScrubError::NotPng);
    }
    let mut out: Vec<u8> = Vec::with_capacity(input.len());
    push_all(&mut out, &sign);
    let mut i: usize = 8;
    let mut removed = false;
    let ghost mut done = Seq::<Piece>::empty();
    let ghost whole = chunks(input@.skip(8), 8);
    proof {
        assert(out@ =~= signature() + rebuilt(done, chunk_edits(done)));
        assert(whole matches Ok(l) ==> done + l =~= l);
    }
    while i < input.len()
        invariant
            signature().is_prefix_of(input@),
            8 <= i <= input.len(),
            done.len() == 0 ==> i == 8,
            whole == chunks(input@.skip(8), 8),
            whole == prepend(done, chunks(input@.skip(i as int), i as int)),
            out@ == signature() + rebuilt(done, chunk_edits(done)),
            removed == changed(chunk_edits(done)),
        decreases input.len() - i,
    {
        let ghost s = input@.skip(i as int);
        if input.len() - i < 8 {
            return Err(ScrubError::PngTruncatedHeader);
        }
        let length = read_be32(input, i);
        let chunk_type = read_be32(input, i + 4);
        proof {
            be32_same(s, 0, input@, i as int);
            be32_same(s, 4, input@, i + 4);
            be32_range(s, 0);
        }
        let len: u64 = 12 + length as u64;
        if len > (usize::MAX - i) as u64 {
            return Err(ScrubError::PngBadChunkLength);
        }
        let chunk_end: usize = i + len as usize;
        if chunk_end > input.len() {
            return Err(ScrubError::PngChunkPastEnd);
        }
        let ghost raw = input@.subrange(i as int, chunk_end as int);
        let ghost piece = Piece { at: i as int, bytes: raw };
        let data = slice_subrange(input, i + 8, chunk_end - 4);
        proof {
            let rest = chunks(input@.skip(chunk_end as int), chunk_end as int);
            assert(chunk_len(s, i as int) == Ok::<int, ScrubError>(len as int));
            assert(s.take(len as int) =~= raw);
            assert(s.skip(len as int) =~= input@.skip(chunk_end as int));
            assert(chunks(s, i as int) == prepend(seq![piece], rest));
            if let Ok(l) = rest {
                assert(done + (seq![piece] + l) =~= done.push(piece) + l);
            }
            lemma_edits_push(done, piece);
            be32_same(raw, 4, s, 4);
            assert(data@ =~= raw.subrange(8, raw.len() - 4));
        }
        if chunk_should_be_dropped(chunk_type, data) {
            removed = true;
        } else {
            push_range(&mut out, input, i, chunk_end);
        }
        proof {
            done = done.push(piece);
            assert(out@ =~= signature() + rebuilt(done, chunk_edits(done)));
        }
        i = chunk_end;
    }
    assert(done + Seq::<Piece>::empty() =~= done);
    if i == 8 {
        return Err(ScrubError::PngNoChunks);
    }
    if removed {
        Ok(Some(out))
    } else {
        Ok(None)
    }
}

proof fn lemma_edits_push(done: Seq<Piece>, piece: Piece)
    ensures
        ({
            let edit = if is_metadata(piece.bytes) {
                Edit::Drop
            } else {
                Edit::Keep
            };
            &&& changed(chunk_edits(done.push(piece))) == (changed(chunk_edits(done)) || edit
                is Drop)
            &&& rebuilt(done.push(piece), chunk_edits(done.push(piece))) == rebuilt(
                done,
                chunk_edits(done),
            ) + edited(piece.bytes, edit)
        }),
{
    let edit: Edit<Seq<u8>> = if is_metadata(piece.bytes) {
        Edit::Drop
    } else {
        Edit::Keep
    };
    let edits = chunk_edits(done);
    assert(chunk_edits(done.push(piece)) =~= edits.push(edit));
    assert(edits.push(edit).drop_last() =~= edits);
    assert(done.push(piece).drop_last() =~= done);
    lemma_changed_push(edits, edit);
}

} // verus!
