//! What a scrub makes of a JPEG file that is put together from its parts.
use vstd::prelude::*;
use vstd::string::StringSliceAdditionalSpecFns;
use crate::bytes::be16;
use crate::error::ScrubError;
use crate::scrub::jpeg_laws;
use crate::scrub::edit::{changed, lemma_rebuilt_front, rebuilt, Edit, Piece};
use crate::scrub::jpeg::{
    exif_id, is_metadata, lemma_fill_len, lemma_fill_len_is, lemma_segment_range, photoshop_id,
    scrubbed, segment_edits, segment_range, segments, xmp_id,
};

verus! {

/// "Exif" and two zero bytes.
pub open spec fn exif_mark() -> Seq<u8> {
    seq![0x45u8, 0x78, 0x69, 0x66, 0x00, 0x00]
}

/// "http://ns.adobe.com/xap/1.0/" and a zero byte.
pub open spec fn xmp_mark() -> Seq<u8> {
    seq![
        0x68u8, 0x74, 0x74, 0x70, 0x3A, 0x2F, 0x2F, 0x6E, 0x73, 0x2E, 0x61, 0x64, 0x6F, 0x62, 0x65,
        0x2E, 0x63, 0x6F, 0x6D, 0x2F, 0x78, 0x61, 0x70, 0x2F, 0x31, 0x2E, 0x30, 0x2F, 0x00,
    ]
}

/// "Photoshop 3.0" and a zero byte.
pub open spec fn photoshop_mark() -> Seq<u8> {
    seq![
        0x50u8, 0x68, 0x6F, 0x74, 0x6F, 0x73, 0x68, 0x6F, 0x70, 0x20, 0x33, 0x2E, 0x30, 0x00,
    ]
}

/// Whether a segment with this marker and payload tells of the picture's origin: EXIF or XMP in
/// 0xE1, Photoshop data in 0xED, of any length, or a comment, 0xFE.
pub open spec fn is_private(marker: u8, payload: Seq<u8>) -> bool {
    ||| marker == 0xE1 && exif_mark().is_prefix_of(payload)
    ||| marker == 0xE1 && xmp_mark().is_prefix_of(payload)
    ||| marker == 0xED && photoshop_mark().is_prefix_of(payload)
    ||| marker == 0xFE
}

proof fn lemma_marks()
    ensures
        exif_id() == exif_mark(),
        xmp_id() == xmp_mark(),
        photoshop_id() == photoshop_mark(),
{
    broadcast use vstd::string::is_ascii_spec_bytes;

    reveal_strlit("Exif\0\0");
    reveal_strlit("http://ns.adobe.com/xap/1.0/\0");
    reveal_strlit("Photoshop 3.0\0");
    assert(vstd::string::is_ascii("Exif\0\0"));
    assert(vstd::string::is_ascii("http://ns.adobe.com/xap/1.0/\0"));
    assert(vstd::string::is_ascii("Photoshop 3.0\0"));
    assert("Exif\0\0".spec_bytes() =~= exif_mark());
    assert("http://ns.adobe.com/xap/1.0/\0".spec_bytes() =~= xmp_mark());
    assert("Photoshop 3.0\0".spec_bytes() =~= photoshop_mark());
}

/// A segment is dropped if and only if its bytes are those of EXIF, XMP or Photoshop data or of a
/// comment, however long it is.
pub proof fn segments_are_dropped_by_their_bytes(raw: Seq<u8>)
    ensures
        is_metadata(raw) <==> is_private(raw[1], raw.skip(4)),
{
    lemma_marks();
}

/// Neither a scrubbed file nor one in which a scrub finds nothing holds a private segment.
pub proof fn nothing_private_is_left(input: Seq<u8>, j: int)
    requires
        input.len() <= usize::MAX,
        scrubbed(input) is Ok,
    ensures
        ({
            let left = match scrubbed(input)->Ok_0 {
                Some(out) => out,
                None => input,
            };
            let list = segments(left.skip(2), 2);
            &&& list is Ok
            &&& 0 <= j < list->Ok_0.len() ==> !is_private(
                list->Ok_0[j].bytes[1],
                list->Ok_0[j].bytes.skip(4),
            )
        }),
{
    match scrubbed(input)->Ok_0 {
        Some(out) => {
            jpeg_laws::scrub_keeps_the_segments(input, out);
            let list = segments(out.skip(2), 2)->Ok_0;
            if 0 <= j < list.len() {
                jpeg_laws::scrub_leaves_no_metadata(input, out, j);
                segments_are_dropped_by_their_bytes(list[j].bytes);
            }
        },
        None => {
            let list = segments(input.skip(2), 2)->Ok_0;
            if 0 <= j < list.len() {
                assert(segment_edits(list)[j] is Keep);
                segments_are_dropped_by_their_bytes(list[j].bytes);
            }
        },
    }
}

/// Every segment that is not private stands in a scrubbed file byte for byte, after what is left of
/// the segments before it.
pub proof fn all_else_is_copied(input: Seq<u8>, out: Seq<u8>, k: int)
    requires
        scrubbed(input) == Ok::<_, ScrubError>(Some(out)),
        0 <= k < segments(input.skip(2), 2)->Ok_0.len(),
        ({
            let raw = segments(input.skip(2), 2)->Ok_0[k].bytes;
            !is_private(raw[1], raw.skip(4))
        }),
    ensures
        ({
            let list = segments(input.skip(2), 2)->Ok_0;
            let edits = segment_edits(list);
            let from = 2 + rebuilt(list.take(k), edits.take(k)).len() as int;
            let to = from + list[k].bytes.len();
            to <= out.len() && out.subrange(from, to) == list[k].bytes
        }),
{
    segments_are_dropped_by_their_bytes(segments(input.skip(2), 2)->Ok_0[k].bytes);
    jpeg_laws::scrub_copies_the_rest(input, out, k);
}

/// A part of a JPEG file before its scan: so many 0xFF bytes to fill, 0xFF, a marker and, unless
/// it is the marker alone, a length and a payload.
pub struct Part {
    pub fill: nat,
    pub marker: u8,
    pub payload: Option<Seq<u8>>,
}

/// That there can be such a part. The markers 0x01 and 0xD0 to 0xD7 stand alone. 0x00 and 0xFF are
/// no markers, and 0xD9 and 0xDA end the parts.
pub open spec fn is_part(part: Part) -> bool {
    let alone = part.marker == 0x01 || 0xD0 <= part.marker <= 0xD7;
    &&& part.marker != 0x00 && part.marker != 0xFF
    &&& part.marker != 0xD9 && part.marker != 0xDA
    &&& match part.payload {
        Some(payload) => !alone && payload.len() <= 0xFFFD,
        None => alone,
    }
}

/// `n` bytes 0xFF.
pub open spec fn fill_bytes(n: nat) -> Seq<u8> {
    Seq::new(n, |i: int| 0xFFu8)
}

/// The part without what fills, as it stands in a file.
pub open spec fn part_core(part: Part) -> Seq<u8> {
    seq![0xFFu8, part.marker] + match part.payload {
        Some(payload) => {
            let len = payload.len() + 2;
            seq![(len / 0x100) as u8, (len % 0x100) as u8] + payload
        },
        None => Seq::empty(),
    }
}

/// The parts as they stand in a file, one after the other.
pub open spec fn written(parts: Seq<Part>) -> Seq<u8>
    decreases parts.len(),
{
    if parts.len() == 0 {
        Seq::empty()
    } else {
        fill_bytes(parts[0].fill) + part_core(parts[0]) + written(parts.skip(1))
    }
}

/// Whether a part is private.
pub open spec fn part_is_private(part: Part) -> bool {
    part.payload matches Some(payload) && is_private(part.marker, payload)
}

/// The parts that are not private, with nothing to fill between them.
pub open spec fn public_parts(parts: Seq<Part>) -> Seq<Part>
    decreases parts.len(),
{
    if parts.len() == 0 {
        Seq::empty()
    } else {
        let rest = public_parts(parts.skip(1));
        if part_is_private(parts[0]) {
            rest
        } else {
            seq![Part { fill: 0, ..parts[0] }] + rest
        }
    }
}

/// What a JPEG file ends with: the scan with all that follows it, or the end of the picture, from
/// its marker on, and so many 0xFF bytes to fill before the 0xFF of that marker.
pub struct Tail {
    pub fill: nat,
    pub bytes: Seq<u8>,
}

/// The tail as it stands in a file.
pub open spec fn tail_bytes(tail: Option<Tail>) -> Seq<u8> {
    match tail {
        Some(t) => fill_bytes(t.fill) + seq![0xFFu8] + t.bytes,
        None => Seq::empty(),
    }
}

/// The tail with nothing to fill before it.
pub open spec fn bare_tail(tail: Option<Tail>) -> Option<Tail> {
    match tail {
        Some(t) => Some(Tail { fill: 0, ..t }),
        None => None,
    }
}

/// That `tail` is a scan or the end of the picture, with anything after it.
pub open spec fn is_tail(tail: Option<Tail>) -> bool {
    tail matches Some(t) ==> t.bytes.len() > 0 && (t.bytes[0] == 0xDA || t.bytes[0] == 0xD9)
}

/// A JPEG file: its start, parts, and a tail, if there is one.
pub open spec fn jpeg_file(parts: Seq<Part>, tail: Option<Tail>) -> Seq<u8> {
    seq![0xFFu8, 0xD8] + written(parts) + tail_bytes(tail)
}

proof fn lemma_part(part: Part, rest: Seq<u8>, at: int)
    requires
        is_part(part),
        0 <= at,
        at + part.fill + part_core(part).len() <= usize::MAX,
    ensures
        segment_range(fill_bytes(part.fill) + part_core(part) + rest, at) == Ok::<
            (int, int),
            ScrubError,
        >((part.fill as int, (part.fill + part_core(part).len()) as int)),
{
    let s = fill_bytes(part.fill) + part_core(part) + rest;
    let n = part.fill as int;
    assert(s[n] == 0xFF && s[n + 1] == part.marker);
    lemma_fill_len_is(s, n + 1);
    if let Some(payload) = part.payload {
        let len = payload.len() + 2;
        assert(s[n + 2] == (len / 0x100) as u8 && s[n + 3] == (len % 0x100) as u8);
        assert(be16(s, n + 2) == len) by {
            reveal(be16);
        }
    }
}

proof fn lemma_tail(tail: Tail, at: int)
    requires
        is_tail(Some(tail)),
        0 <= at,
    ensures
        ({
            let bare = tail_bytes(bare_tail(Some(tail)));
            &&& segments(tail_bytes(Some(tail)), at) == Ok::<_, ScrubError>(
                seq![Piece { at: at + tail.fill, bytes: bare }],
            )
            &&& !is_metadata(bare)
        }),
{
    let s = tail_bytes(Some(tail));
    let bare = tail_bytes(bare_tail(Some(tail)));
    let f = tail.fill as int;
    assert(s[f] == 0xFF && s[f + 1] == tail.bytes[0]);
    lemma_fill_len_is(s, f + 1);
    let n = s.len() as int;
    assert(s.subrange(f, n) =~= bare);
    assert(bare[1] == tail.bytes[0]);
    assert(s.skip(n).len() == 0);
    assert(segments(s.skip(n), at + n) == Ok::<_, ScrubError>(Seq::<Piece>::empty()));
    let p = Piece { at: at + f, bytes: bare };
    assert(seq![p] + Seq::<Piece>::empty() =~= seq![p]);
}

proof fn lemma_edits_front(first: Piece, rest: Seq<Piece>)
    ensures
        segment_edits(seq![first] + rest) == seq![
            if is_metadata(first.bytes) {
                Edit::Drop
            } else {
                Edit::Keep
            },
        ] + segment_edits(rest),
{
    let list = seq![first] + rest;
    assert forall|k: int| 0 <= k < rest.len() implies list[k + 1] == rest[k] by {}
    assert(segment_edits(list) =~= seq![
        if is_metadata(first.bytes) {
            Edit::Drop
        } else {
            Edit::Keep
        },
    ] + segment_edits(rest));
}

proof fn lemma_part_front(part: Part, after: Seq<u8>, at: int)
    requires
        is_part(part),
        0 <= at,
        at + part.fill + part_core(part).len() <= usize::MAX,
        segments(after, at + part.fill + part_core(part).len()) is Ok,
    ensures
        ({
            let rest = segments(after, at + part.fill + part_core(part).len())->Ok_0;
            let left = rebuilt(rest, segment_edits(rest));
            &&& segments(fill_bytes(part.fill) + part_core(part) + after, at) matches Ok(list)
            &&& changed(segment_edits(list)) == (part_is_private(part) || changed(
                segment_edits(rest),
            ))
            &&& rebuilt(list, segment_edits(list)) == if part_is_private(part) {
                left
            } else {
                part_core(part) + left
            }
        }),
{
    let core = part_core(part);
    let to = (part.fill + core.len()) as int;
    let s = fill_bytes(part.fill) + core + after;
    lemma_part(part, after, at);
    assert(s.subrange(part.fill as int, to) =~= core);
    assert(s.skip(to) =~= after);
    let p = Piece { at: at + part.fill, bytes: core };
    let rest = segments(after, at + to)->Ok_0;
    assert(segments(s, at) == Ok::<_, ScrubError>(seq![p] + rest));
    lemma_edits_front(p, rest);
    segments_are_dropped_by_their_bytes(core);
    assert(core[1] == part.marker);
    if let Some(payload) = part.payload {
        assert(core.skip(4) =~= payload);
    }
    assert(is_metadata(core) == part_is_private(part));
    let edit = if is_metadata(core) {
        Edit::Drop
    } else {
        Edit::Keep
    };
    lemma_rebuilt_front(p, edit, rest, segment_edits(rest));
    let left = rebuilt(rest, segment_edits(rest));
    assert(Seq::<u8>::empty() + left =~= left);
}

spec fn any_private(parts: Seq<Part>) -> bool
    decreases parts.len(),
{
    parts.len() > 0 && (part_is_private(parts[0]) || any_private(parts.skip(1)))
}

proof fn lemma_any_private(parts: Seq<Part>)
    ensures
        any_private(parts) <==> exists|k: int|
            0 <= k < parts.len() && part_is_private(#[trigger] parts[k]),
    decreases parts.len(),
{
    if parts.len() > 0 {
        let rest = parts.skip(1);
        lemma_any_private(rest);
        if any_private(rest) {
            let k = choose|k: int| 0 <= k < rest.len() && part_is_private(#[trigger] rest[k]);
            assert(part_is_private(parts[k + 1]));
        }
        if exists|k: int| 0 <= k < parts.len() && part_is_private(#[trigger] parts[k]) {
            let k = choose|k: int| 0 <= k < parts.len() && part_is_private(#[trigger] parts[k]);
            if k > 0 {
                assert(part_is_private(rest[k - 1]));
            }
        }
    }
}

proof fn lemma_parts(parts: Seq<Part>, tail: Option<Tail>, at: int)
    requires
        forall|k: int| 0 <= k < parts.len() ==> is_part(#[trigger] parts[k]),
        is_tail(tail),
        0 <= at,
        at + written(parts).len() + tail_bytes(tail).len() <= usize::MAX,
    ensures
        ({
            let end = tail_bytes(tail);
            &&& segments(written(parts) + end, at) matches Ok(list)
            &&& rebuilt(list, segment_edits(list)) == written(public_parts(parts)) + tail_bytes(
                bare_tail(tail),
            )
            &&& changed(segment_edits(list)) == any_private(parts)
        }),
    decreases parts.len(),
{
    let end = tail_bytes(tail);
    let bare_end = tail_bytes(bare_tail(tail));
    if parts.len() == 0 {
        assert(written(parts) + end =~= end);
        assert(written(public_parts(parts)) + bare_end =~= bare_end);
        let none = Seq::<Piece>::empty();
        if let Some(t) = tail {
            lemma_tail(t, at);
            let p = Piece { at: at + t.fill, bytes: bare_end };
            lemma_edits_front(p, none);
            lemma_rebuilt_front(p, Edit::Keep, none, segment_edits(none));
            assert(seq![p] + none =~= seq![p]);
            assert(bare_end + rebuilt(none, segment_edits(none)) =~= bare_end);
        } else {
            assert(segments(end, at) == Ok::<_, ScrubError>(none));
        }
    } else {
        let part = parts[0];
        let rest = parts.skip(1);
        let core = part_core(part);
        let after = written(rest) + end;
        assert(written(parts) + end =~= fill_bytes(part.fill) + core + after);
        assert forall|k: int| 0 <= k < rest.len() implies is_part(#[trigger] rest[k]) by {
            assert(rest[k] == parts[k + 1]);
        }
        lemma_parts(rest, tail, at + part.fill + core.len());
        lemma_part_front(part, after, at);
        if !part_is_private(part) {
            let kept = public_parts(rest);
            let bare = Part { fill: 0, ..part };
            assert((seq![bare] + kept).skip(1) =~= kept);
            assert(fill_bytes(0) + part_core(bare) =~= core);
            assert(core + (written(kept) + bare_end) =~= written(seq![bare] + kept) + bare_end);
        }
    }
}

/// A scrub of a JPEG file takes out its private parts, and what fills, and leaves all else as it
/// is, in its order. It finds nothing where there is no private part.
pub proof fn scrub_takes_out_the_private_parts(parts: Seq<Part>, tail: Option<Tail>)
    requires
        forall|k: int| 0 <= k < parts.len() ==> is_part(#[trigger] parts[k]),
        is_tail(tail),
        4 <= jpeg_file(parts, tail).len() <= usize::MAX,
    ensures
        (exists|k: int| 0 <= k < parts.len() && part_is_private(#[trigger] parts[k])) ==> scrubbed(
            jpeg_file(parts, tail),
        ) == Ok::<_, ScrubError>(Some(jpeg_file(public_parts(parts), bare_tail(tail)))),
        (forall|k: int| 0 <= k < parts.len() ==> !part_is_private(#[trigger] parts[k]))
            ==> scrubbed(jpeg_file(parts, tail)) == Ok::<_, ScrubError>(None::<Seq<u8>>),
{
    let file = jpeg_file(parts, tail);
    let end = tail_bytes(tail);
    lemma_any_private(parts);
    lemma_parts(parts, tail, 2);
    assert(file.skip(2) =~= written(parts) + end);
    assert(seq![0xFFu8, 0xD8] + (written(public_parts(parts)) + tail_bytes(bare_tail(tail)))
        =~= jpeg_file(public_parts(parts), bare_tail(tail)));
}

/// Such a file begins with 0xFF, 0xD8 and the 0xFF of a marker.
pub proof fn lemma_file_begins(parts: Seq<Part>, tail: Option<Tail>)
    requires
        jpeg_file(parts, tail).len() >= 4,
    ensures
        jpeg_file(parts, tail)[0] == 0xFF,
        jpeg_file(parts, tail)[1] == 0xD8,
        jpeg_file(parts, tail)[2] == 0xFF,
{
    if parts.len() > 0 {
        let first = fill_bytes(parts[0].fill) + part_core(parts[0]);
        assert(first[0] == 0xFF);
        assert(written(parts)[0] == 0xFF);
    } else {
        assert(written(parts).len() == 0);
        assert(tail_bytes(tail)[0] == 0xFF);
    }
}

/// A scrub goes along with nothing but such files.
pub proof fn accepted_files_are_put_together_so(input: Seq<u8>) -> (r: (Seq<Part>, Option<Tail>))
    requires
        scrubbed(input) is Ok,
    ensures
        forall|k: int| 0 <= k < r.0.len() ==> is_part(#[trigger] r.0[k]),
        is_tail(r.1),
        input == jpeg_file(r.0, r.1),
{
    let (parts, tail) = lemma_taken_apart(input.skip(2), 2);
    assert(input =~= seq![0xFFu8, 0xD8] + input.skip(2));
    assert(seq![0xFFu8, 0xD8] + (written(parts) + tail_bytes(tail)) =~= jpeg_file(parts, tail));
    (parts, tail)
}

proof fn lemma_taken_apart(s: Seq<u8>, at: int) -> (r: (Seq<Part>, Option<Tail>))
    requires
        0 <= at,
        segments(s, at) is Ok,
    ensures
        forall|k: int| 0 <= k < r.0.len() ==> is_part(#[trigger] r.0[k]),
        is_tail(r.1),
        s == written(r.0) + tail_bytes(r.1),
    decreases s.len(),
{
    if s.len() == 0 {
        assert(s =~= written(Seq::empty()) + tail_bytes(None));
        (Seq::empty(), None)
    } else {
        let (from, to) = segment_range(s, at)->Ok_0;
        lemma_segment_range(s, at);
        lemma_fill_len(s);
        let marker = s[from + 1];
        assert(s.take(from) =~= fill_bytes(from as nat));
        if marker == 0xDA || marker == 0xD9 {
            let tail = Tail { fill: from as nat, bytes: s.skip(from + 1) };
            assert(s =~= written(Seq::empty()) + tail_bytes(Some(tail)));
            (Seq::empty(), Some(tail))
        } else {
            let part = Part {
                fill: from as nat,
                marker,
                payload: if marker == 0x01 || 0xD0 <= marker <= 0xD7 {
                    None
                } else {
                    Some(s.subrange(from + 4, to))
                },
            };
            let core = s.subrange(from, to);
            if part.payload is Some {
                let len = be16(s, from + 2);
                assert(len == s[from + 2] * 0x100 + s[from + 3]) by {
                    reveal(be16);
                }
                assert(to - from == 2 + len);
                assert((len / 0x100) as u8 == s[from + 2] && (len % 0x100) as u8 == s[from + 3]);
            }
            assert(part_core(part) =~= core);
            let (rest, tail) = lemma_taken_apart(s.skip(to), at + to);
            let parts = seq![part] + rest;
            assert(parts.skip(1) =~= rest);
            assert forall|k: int| 0 <= k < parts.len() implies is_part(#[trigger] parts[k]) by {
                if k > 0 {
                    assert(parts[k] == rest[k - 1]);
                }
            }
            let fill = fill_bytes(from as nat);
            assert(s =~= s.take(from) + core + s.skip(to));
            assert(written(parts) == fill + part_core(part) + written(rest));
            assert(fill + core + (written(rest) + tail_bytes(tail)) =~= fill + core + written(rest)
                + tail_bytes(tail));
            (parts, tail)
        }
    }
}

/// What does not begin with 0xFF and 0xD8, or holds less than two bytes after them, is refused.
pub proof fn other_files_are_refused(input: Seq<u8>)
    requires
        input.len() < 4 || input[0] != 0xFF || input[1] != 0xD8,
    ensures
        scrubbed(input) == Err::<Option<Seq<u8>>, _>(ScrubError::NotJpeg),
{
}

/// What is wrong with bytes that are no part, if they stand at offset `at`: `bad` begins with
/// `fill` bytes 0xFF and no more.
pub open spec fn flaw(bad: Seq<u8>, fill: int, at: int) -> Option<ScrubError> {
    let left = bad.len() - fill - 1;
    let marker = bad[fill];
    let length = bad[fill + 1] * 0x100 + bad[fill + 2];
    if fill == 0 {
        Some(ScrubError::JpegExpectedMarker { offset: at as usize })
    } else if fill == bad.len() {
        Some(ScrubError::JpegTruncatedMarker)
    } else if marker == 0x00 {
        Some(ScrubError::JpegInvalidMarker { offset: (at + fill) as usize })
    } else if marker == 0xD9 || marker == 0xDA || marker == 0x01 || 0xD0 <= marker <= 0xD7 {
        None
    } else if left < 2 {
        Some(ScrubError::JpegTruncated)
    } else if length < 2 {
        Some(ScrubError::JpegBadSegmentLength { offset: (at + fill + 1) as usize })
    } else if length > left {
        Some(ScrubError::JpegSegmentPastEnd)
    } else {
        None
    }
}

/// A file with anything else than a part after its parts is refused, and told why and where.
pub proof fn broken_files_are_refused(parts: Seq<Part>, bad: Seq<u8>, fill: int, why: ScrubError)
    requires
        forall|k: int| 0 <= k < parts.len() ==> is_part(#[trigger] parts[k]),
        0 <= fill <= bad.len(),
        forall|k: int| 0 <= k < fill ==> bad[k] == 0xFF,
        fill < bad.len() ==> bad[fill] != 0xFF,
        bad.len() > 0,
        flaw(bad, fill, jpeg_file(parts, None).len() as int) == Some(why),
        jpeg_file(parts, None).len() + bad.len() >= 4,
        jpeg_file(parts, None).len() + bad.len() + 0x1_0000 <= usize::MAX,
    ensures
        scrubbed(jpeg_file(parts, None) + bad) == Err::<Option<Seq<u8>>, _>(why),
{
    let at = jpeg_file(parts, None).len() as int;
    let input = jpeg_file(parts, None) + bad;
    lemma_fill_len_is(bad, fill);
    assert(segment_range(bad, at) == Err::<(int, int), _>(why)) by {
        reveal(be16);
    }
    assert(segments(bad, at) == Err::<Seq<Piece>, _>(why));
    assert(input.skip(2) =~= written(parts) + bad);
    lemma_broken(parts, bad, why, 2);
}

proof fn lemma_broken(parts: Seq<Part>, bad: Seq<u8>, why: ScrubError, at: int)
    requires
        forall|k: int| 0 <= k < parts.len() ==> is_part(#[trigger] parts[k]),
        0 <= at,
        at + written(parts).len() <= usize::MAX,
        segments(bad, at + written(parts).len()) == Err::<Seq<Piece>, _>(why),
    ensures
        segments(written(parts) + bad, at) == Err::<Seq<Piece>, _>(why),
    decreases parts.len(),
{
    if parts.len() == 0 {
        assert(written(parts) + bad =~= bad);
    } else {
        let part = parts[0];
        let rest = parts.skip(1);
        let to = (part.fill + part_core(part).len()) as int;
        let after = written(rest) + bad;
        let s = written(parts) + bad;
        assert(s =~= fill_bytes(part.fill) + part_core(part) + after);
        assert forall|k: int| 0 <= k < rest.len() implies is_part(#[trigger] rest[k]) by {
            assert(rest[k] == parts[k + 1]);
        }
        lemma_broken(rest, bad, why, at + to);
        lemma_part(part, after, at);
        assert(s.skip(to) =~= after);
    }
}

} // verus!
