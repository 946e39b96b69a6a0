//! JPEG: a run of segments up to the first scan.
//!
//! A segment is 0xFF, a marker and, for most markers, a 16-bit length and a payload. More 0xFF
//! bytes may come before the marker. What follows the start of the first scan is not looked into.
use vstd::prelude::*;
use vstd::slice::slice_subrange;
use vstd::string::StringSliceAdditionalSpecFns;
use crate::bytes::{be16, prepend, push_all, push_range, read_be16, starts_with};
use crate::error::ScrubError;
use crate::scrub::edit::{changed, edited, lemma_changed_push, rebuilt, scrub_view, Edit, Piece};

verus! {

/// Start of image.
pub const SOI: u8 = 0xD8;

/// Start of scan.
pub const SOS: u8 = 0xDA;

/// End of image.
pub const EOI: u8 = 0xD9;

/// The application segment of EXIF and XMP.
pub const APP1: u8 = 0xE1;

/// The application segment of Photoshop, which holds IPTC.
pub const APP13: u8 = 0xED;

/// A comment.
pub const COM: u8 = 0xFE;

/// How an EXIF payload begins.
pub open spec fn exif_id() -> Seq<u8> {
    "Exif\0\0".spec_bytes()
}

/// How an XMP payload begins.
pub open spec fn xmp_id() -> Seq<u8> {
    "http://ns.adobe.com/xap/1.0/\0".spec_bytes()
}

/// How a Photoshop payload begins.
pub open spec fn photoshop_id() -> Seq<u8> {
    "Photoshop 3.0\0".spec_bytes()
}

/// How many 0xFF bytes `s` begins with.
pub open spec fn fill_len(s: Seq<u8>) -> int
    decreases s.len(),
{
    if s.len() > 0 && s[0] == 0xFF {
        1 + fill_len(s.skip(1))
    } else {
        0
    }
}

/// Whether the segment with this marker runs to the end of the file.
pub open spec fn is_last(marker: u8) -> bool {
    marker == SOS || marker == EOI
}

/// Whether the segment with this marker is the marker alone.
pub open spec fn is_bare(marker: u8) -> bool {
    0xD0 <= marker <= 0xD7 || marker == 0x01
}

/// From where to where in `s` its first segment runs, where `s` starts at offset `at`.
pub open spec fn segment_range(s: Seq<u8>, at: int) -> Result<(int, int), ScrubError> {
    let fill = fill_len(s);
    let marker = s[fill];
    let length = be16(s, fill + 1);
    if fill == 0 {
        Err(ScrubError::JpegExpectedMarker { offset: at as usize })
    } else if fill == s.len() {
        Err(ScrubError::JpegTruncatedMarker)
    } else if marker == 0 {
        Err(ScrubError::JpegInvalidMarker { offset: (at + fill) as usize })
    } else if is_last(marker) {
        Ok((fill - 1, s.len() as int))
    } else if is_bare(marker) {
        Ok((fill - 1, fill + 1))
    } else if s.len() < fill + 3 {
        Err(ScrubError::JpegTruncated)
    } else if length < 2 {
        Err(ScrubError::JpegBadSegmentLength { offset: (at + fill + 1) as usize })
    } else if at + fill + 1 + length > usize::MAX {
        Err(ScrubError::JpegSegmentOverflow)
    } else if fill + 1 + length > s.len() {
        Err(ScrubError::JpegSegmentPastEnd)
    } else {
        Ok((fill - 1, fill + 1 + length))
    }
}

/// The segments that `s` is made of, each from the 0xFF right before its marker on, where `s`
/// starts at offset `at`.
pub open spec fn segments(s: Seq<u8>, at: int) -> Result<Seq<Piece>, ScrubError>
    decreases s.len(),
{
    if s.len() == 0 {
        Ok(Seq::empty())
    } else {
        match segment_range(s, at) {
            Err(e) => Err(e),
            Ok((from, to)) => {
                proof {
                    lemma_segment_range(s, at);
                }
                prepend(
                    seq![Piece { at: at + from, bytes: s.subrange(from, to) }],
                    segments(s.skip(to), at + to),
                )
            },
        }
    }
}

/// Whether the segment `raw` is metadata.
pub open spec fn is_metadata(raw: Seq<u8>) -> bool {
    let payload = raw.skip(4);
    ||| raw[1] == APP1 && (exif_id().is_prefix_of(payload) || xmp_id().is_prefix_of(payload))
    ||| raw[1] == APP13 && photoshop_id().is_prefix_of(payload)
    ||| raw[1] == COM
}

/// What becomes of each of `list`: metadata is dropped, all else kept.
pub open spec fn segment_edits(list: Seq<Piece>) -> Seq<Edit<Seq<u8>>> {
    Seq::new(
        list.len(),
        |k: int|
            if is_metadata(list[k].bytes) {
                Edit::Drop
            } else {
                Edit::Keep
            },
    )
}

/// Whether `input` begins as a JPEG file.
pub open spec fn is_jpeg(input: Seq<u8>) -> bool {
    input.len() >= 4 && input[0] == 0xFF && input[1] == SOI
}

/// `input` without its metadata, or nothing where it holds none.
pub open spec fn scrubbed(input: Seq<u8>) -> Result<Option<Seq<u8>>, ScrubError> {
    if !is_jpeg(input) {
        Err(ScrubError::NotJpeg)
    } else {
        match segments(input.skip(2), 2) {
            Err(e) => Err(e),
            Ok(list) => if changed(segment_edits(list)) {
                Ok(Some(seq![0xFFu8, SOI] + rebuilt(list, segment_edits(list))))
            } else {
                Ok(None)
            },
        }
    }
}

pub proof fn lemma_fill_len(s: Seq<u8>)
    ensures
        0 <= fill_len(s) <= s.len(),
        forall|k: int| 0 <= k < fill_len(s) ==> s[k] == 0xFF,
        fill_len(s) < s.len() ==> s[fill_len(s)] != 0xFF,
    decreases s.len(),
{
    if s.len() > 0 && s[0] == 0xFF {
        let t = s.skip(1);
        lemma_fill_len(t);
        assert forall|k: int| 0 <= k < fill_len(s) implies s[k] == 0xFF by {
            if k > 0 {
                assert(s[k] == t[k - 1]);
            }
        }
        if fill_len(s) < s.len() {
            assert(s[fill_len(s)] == t[fill_len(t)]);
        }
    }
}

/// The run of 0xFF bytes is as long as it is.
pub proof fn lemma_fill_len_is(s: Seq<u8>, n: int)
    requires
        0 <= n <= s.len(),
        forall|k: int| 0 <= k < n ==> s[k] == 0xFF,
        n < s.len() ==> s[n] != 0xFF,
    ensures
        fill_len(s) == n,
{
    lemma_fill_len(s);
    if fill_len(s) < n {
        assert(s[fill_len(s)] == 0xFF);
    }
}

pub proof fn lemma_segment_range(s: Seq<u8>, at: int)
    ensures
        segment_range(s, at) matches Ok((from, to)) ==> 0 <= from && from + 2 <= to <= s.len(),
{
    lemma_fill_len(s);
}

/// Reads the 16-bit number at `at`.
pub fn read_u16(data: &[u8], at: usize) -> (r: Result<u16, ScrubError>)
    ensures
        r == if at + 2 <= data.len() {
            Ok(be16(data@, at as int) as u16)
        } else {
            Err(ScrubError::JpegTruncated)
        },
{
    if at > data.len() || data.len() - at < 2 {
        return Err(ScrubError::JpegTruncated);
    }
    Ok(read_be16(data, at))
}

/// Finds from where to where the segment at `start` of `input` runs.
fn find_segment(input: &[u8], start: usize) -> (r: Result<(usize, usize), ScrubError>)
    requires
        start < input.len(),
    ensures
        segment_range(input@.skip(start as int), start as int) == match r {
            Ok((from, to)) => Ok((from - start, to - start)),
            Err(e) => Err(e),
        },
        r matches Ok((from, to)) ==> input[from + 1] == APP1 || input[from + 1] == APP13 ==> to
            - from >= 4,
{
    let ghost s = input@.skip(start as int);
    let mut j: usize = start;
    while j < input.len() && input[j] == 0xFF
        invariant
            start <= j <= input.len(),
            forall|k: int| start <= k < j ==> input[k] == 0xFF,
        ensures
            start <= j <= input.len(),
            forall|k: int| start <= k < j ==> input[k] == 0xFF,
            j < input.len() ==> input[j as int] != 0xFF,
        decreases input.len() - j,
    {
        j = j + 1;
    }
    let ghost fill = j - start;
    proof {
        lemma_fill_len_is(s, fill);
    }
    if j == start {
        return Err(ScrubError::JpegExpectedMarker { offset: start });
    }
    if j == input.len() {
        return Err(ScrubError::JpegTruncatedMarker);
    }
    let marker = input[j];
    assert(marker == s[fill]);
    if marker == 0 {
        return Err(ScrubError::JpegInvalidMarker { offset: j });
    }
    if marker == SOS || marker == EOI {
        return Ok((j - 1, input.len()));
    }
    if (0xD0 <= marker && marker <= 0xD7) || marker == 0x01 {
        return Ok((j - 1, j + 1));
    }
    let length = match read_u16(input, j + 1) {
        Ok(n) => n,
        Err(e) => {
            return Err(e);
        },
    };
    assert(length == be16(s, fill + 1)) by {
        reveal(be16);
    }
    if length < 2 {
        return Err(ScrubError::JpegBadSegmentLength { offset: j + 1 });
    }
    if length as usize > usize::MAX - (j + 1) {
        return Err(ScrubError::JpegSegmentOverflow);
    }
    let end: usize = j + 1 + length as usize;
    if end > input.len() {
        return Err(ScrubError::JpegSegmentPastEnd);
    }
    Ok((j - 1, end))
}

/// Whether the segment `raw` is metadata.
fn is_dropped(raw: &[u8]) -> (yes: bool)
    requires
        raw.len() >= 2,
        raw[1] == APP1 || raw[1] == APP13 ==> raw.len() >= 4,
    ensures
        yes == is_metadata(raw@),
{
    let marker = raw[1];
    if marker == COM {
        return true;
    }
    if raw.len() < 4 {
        return false;
    }
    let payload = slice_subrange(raw, 4, raw.len());
    assert(payload@ =~= raw@.skip(4));
    assert(payload@.skip(0) =~= payload@);
    if marker == APP1 {
        starts_with(payload, 0, "Exif\0\0".as_bytes()) || starts_with(
            payload,
            0,
            "http://ns.adobe.com/xap/1.0/\0".as_bytes(),
        )
    } else {
        marker == APP13 && starts_with(payload, 0, "Photoshop 3.0\0".as_bytes())
    }
}

/// Removes the metadata from a JPEG file: EXIF, XMP, Photoshop blocks and comments. Gives nothing
/// where there is none.
pub fn scrub(input: &[u8]) -> (r: Result<Option<Vec<u8>>, ScrubError>)
    ensures
        scrub_view(r) == scrubbed(input@),
{
    if input.len() < 4 || input[0] != 0xFF || input[1] != SOI {
        return Err(ScrubError::NotJpeg);
    }
    let mut out: Vec<u8> = Vec::with_capacity(input.len());
    push_range(&mut out, input, 0, 2);
    let mut i: usize = 2;
    let mut removed = false;
    let ghost head = seq![0xFFu8, SOI];
    let ghost mut done = Seq::<Piece>::empty();
    let ghost whole = segments(input@.skip(2), 2);
    proof {
        assert(out@ =~= head + rebuilt(done, segment_edits(done)));
        assert(whole matches Ok(l) ==> done + l =~= l);
    }
    while i < input.len()
        invariant
            is_jpeg(input@),
            head == seq![0xFFu8, SOI],
            i <= input.len(),
            whole == segments(input@.skip(2), 2),
            whole == prepend(done, segments(input@.skip(i as int), i as int)),
            out@ == head + rebuilt(done, segment_edits(done)),
            removed == changed(segment_edits(done)),
        decreases input.len() - i,
    {
        let ghost s = input@.skip(i as int);
        let (from, to) = match find_segment(input, i) {
            Ok(range) => range,
            Err(e) => {
                return Err(e);
            },
        };
        proof {
            lemma_segment_range(s, i as int);
        }
        let raw = slice_subrange(input, from, to);
        let ghost piece = Piece { at: from as int, bytes: raw@ };
        proof {
            let rest = segments(input@.skip(to as int), to as int);
            assert(s.subrange(from - i, to - i) =~= raw@);
            assert(s.skip(to - i) =~= input@.skip(to as int));
            assert(segments(s, i as int) == prepend(seq![piece], rest));
            if let Ok(l) = rest {
                assert(done + (seq![piece] + l) =~= done.push(piece) + l);
            }
            lemma_edits_push(done, piece);
        }
        if is_dropped(raw) {
            removed = true;
        } else {
            push_all(&mut out, raw);
        }
        proof {
            done = done.push(piece);
            assert(out@ =~= head + rebuilt(done, segment_edits(done)));
        }
        i = to;
    }
    assert(done + Seq::<Piece>::empty() =~= done);
    if removed {
        Ok(Some(out))
    } else {
        Ok(None)
    }
}

proof fn lemma_edits_push(done: Seq<Piece>, piece: Piece)
    ensures
        ({
            let edit = if is_metadata(piece.bytes) {
                Edit::Drop
            } else {
                Edit::Keep
            };
            &&& changed(segment_edits(done.push(piece))) == (changed(segment_edits(done)) || edit
                is Drop)
            &&& rebuilt(done.push(piece), segment_edits(done.push(piece))) == rebuilt(
                done,
                segment_edits(done),
            ) + edited(piece.bytes, edit)
        }),
{
    let edit: Edit<Seq<u8>> = if is_metadata(piece.bytes) {
        Edit::Drop
    } else {
        Edit::Keep
    };
    let edits = segment_edits(done);
    assert(segment_edits(done.push(piece)) =~= edits.push(edit));
    assert(edits.push(edit).drop_last() =~= edits);
    assert(done.push(piece).drop_last() =~= done);
    lemma_changed_push(edits, edit);
}

} // verus!
