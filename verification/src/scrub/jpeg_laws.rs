//! What holds of JPEG files before and after a scrub.
use vstd::prelude::*;
use crate::bytes::be16;
use crate::error::ScrubError;
use crate::scrub::edit::{
    changed, lemma_rebuilt_keeps, lemma_remaining_source, lemma_total_front, rebuilt, remaining,
    total, Piece,
};
use crate::scrub::jpeg::{
    fill_len, is_jpeg, is_last, is_metadata, lemma_fill_len, lemma_fill_len_is, lemma_segment_range,
    scrubbed, segment_edits, segment_range, segments, SOI,
};

verus! {

/// That `raw` is one segment with nothing around it.
pub open spec fn is_segment(raw: Seq<u8>) -> bool {
    raw.len() >= 2 && segment_range(raw, 0) == Ok::<(int, int), ScrubError>((0, raw.len() as int))
}

/// That `list` is segments, of which only the last can run to the end of the file.
pub open spec fn is_segment_list(list: Seq<Piece>) -> bool {
    forall|k: int|
        0 <= k < list.len() ==> {
            &&& is_segment((#[trigger] list[k]).bytes)
            &&& k + 1 < list.len() ==> !is_last(list[k].bytes[1])
        }
}

/// How the first segment of `s` reads by itself.
proof fn lemma_first_segment(s: Seq<u8>, at: int)
    requires
        0 <= at,
        s.len() > 0,
        segment_range(s, at) is Ok,
    ensures
        ({
            let (from, to) = segment_range(s, at)->Ok_0;
            let raw = s.subrange(from, to);
            &&& is_segment(raw)
            &&& raw[1] == s[fill_len(s)]
            &&& is_last(raw[1]) ==> to == s.len()
        }),
{
    let (from, to) = segment_range(s, at)->Ok_0;
    let fill = fill_len(s);
    lemma_fill_len(s);
    lemma_segment_range(s, at);
    let raw = s.subrange(from, to);
    assert(raw[0] == s[fill - 1] && raw[1] == s[fill]);
    lemma_fill_len_is(raw, 1);
    reveal(be16);
}

proof fn lemma_segment_list(s: Seq<u8>, at: int)
    requires
        0 <= at,
        segments(s, at) is Ok,
    ensures
        is_segment_list(segments(s, at)->Ok_0),
        total(segments(s, at)->Ok_0) <= s.len(),
    decreases s.len(),
{
    if s.len() > 0 {
        let (from, to) = segment_range(s, at)->Ok_0;
        lemma_segment_range(s, at);
        lemma_first_segment(s, at);
        lemma_segment_list(s.skip(to), at + to);
        let rest = segments(s.skip(to), at + to)->Ok_0;
        let first = Piece { at: at + from, bytes: s.subrange(from, to) };
        let list = segments(s, at)->Ok_0;
        assert(list =~= seq![first] + rest);
        lemma_total_front(first, rest);
        if is_last(first.bytes[1]) {
            assert(s.skip(to).len() == 0);
            assert(rest.len() == 0);
        }
        assert forall|k: int| 0 <= k < list.len() implies {
            &&& is_segment((#[trigger] list[k]).bytes)
            &&& k + 1 < list.len() ==> !is_last(list[k].bytes[1])
        } by {
            if k > 0 {
                assert(list[k] == rest[k - 1]);
            }
        }
    }
}

/// The first segment of `raw + rest` is `raw`.
proof fn lemma_segment_front(raw: Seq<u8>, rest: Seq<u8>, at: int)
    requires
        is_segment(raw),
        rest.len() > 0 ==> !is_last(raw[1]),
        at + raw.len() <= usize::MAX,
    ensures
        segment_range(raw + rest, at) == Ok::<(int, int), ScrubError>((0, raw.len() as int)),
{
    let s = raw + rest;
    lemma_fill_len(raw);
    assert(s[0] == raw[0] && s[1] == raw[1]);
    lemma_fill_len_is(s, 1);
    reveal(be16);
    if rest.len() == 0 {
        assert(s =~= raw);
    }
}

/// A segment after segments that take up all of `s` is one segment more.
proof fn lemma_segments_push(s: Seq<u8>, at: int, list: Seq<Piece>, raw: Seq<u8>)
    requires
        0 <= at,
        segments(s, at) == Ok::<_, ScrubError>(list),
        total(list) == s.len(),
        forall|k: int| 0 <= k < list.len() ==> !is_last((#[trigger] list[k]).bytes[1]),
        is_segment(raw),
        at + s.len() + raw.len() <= usize::MAX,
    ensures
        segments(s + raw, at) == Ok::<_, ScrubError>(
            list.push(Piece { at: at + s.len(), bytes: raw }),
        ),
        total(list.push(Piece { at: at + s.len(), bytes: raw })) == s.len() + raw.len(),
    decreases s.len(),
{
    let last = Piece { at: at + s.len(), bytes: raw };
    assert(list.push(last).drop_last() =~= list);
    if s.len() == 0 {
        assert(s + raw =~= raw);
        assert(raw + Seq::<u8>::empty() =~= raw);
        lemma_segment_front(raw, Seq::empty(), at);
        assert(raw.subrange(0, raw.len() as int) =~= raw);
        assert(raw.skip(raw.len() as int).len() == 0);
        assert(segments(raw.skip(raw.len() as int), at + raw.len()) == Ok::<_, ScrubError>(
            Seq::<Piece>::empty(),
        ));
        assert(seq![Piece { at, bytes: raw }] + Seq::<Piece>::empty() =~= list.push(last));
    } else {
        let (from, to) = segment_range(s, at)->Ok_0;
        lemma_segment_range(s, at);
        lemma_first_segment(s, at);
        let first = s.subrange(from, to);
        let rest = segments(s.skip(to), at + to)->Ok_0;
        let p = Piece { at: at + from, bytes: first };
        assert(list =~= seq![p] + rest);
        lemma_total_front(p, rest);
        lemma_segment_list(s.skip(to), at + to);
        assert(from == 0);
        assert(list[0] == p);
        assert forall|k: int| 0 <= k < rest.len() implies !is_last(
            (#[trigger] rest[k]).bytes[1],
        ) by {
            assert(rest[k] == list[k + 1]);
        }
        lemma_segments_push(s.skip(to), at + to, rest, raw);
        assert(s + raw =~= first + (s.skip(to) + raw));
        lemma_segment_front(first, s.skip(to) + raw, at);
        assert((s + raw).subrange(0, to) =~= first);
        assert((s + raw).skip(to) =~= s.skip(to) + raw);
        assert(seq![p] + rest.push(last) =~= list.push(last));
    }
}

proof fn lemma_rebuilt_segments(list: Seq<Piece>, at: int)
    requires
        is_segment_list(list),
        0 <= at,
        at + rebuilt(list, segment_edits(list)).len() <= usize::MAX,
    ensures
        segments(rebuilt(list, segment_edits(list)), at) == Ok::<_, ScrubError>(
            remaining(list, segment_edits(list), at),
        ),
        total(remaining(list, segment_edits(list), at)) == rebuilt(list, segment_edits(list)).len(),
    decreases list.len(),
{
    let edits = segment_edits(list);
    if list.len() > 0 {
        let list1 = list.drop_last();
        let edits1 = segment_edits(list1);
        assert(edits.drop_last() =~= edits1);
        assert forall|k: int| 0 <= k < list1.len() implies {
            &&& is_segment((#[trigger] list1[k]).bytes)
            &&& !is_last(list1[k].bytes[1])
        } by {
            assert(list1[k] == list[k]);
        }
        lemma_rebuilt_segments(list1, at);
        let kept = remaining(list1, edits1, at);
        assert forall|j: int| 0 <= j < kept.len() implies !is_last(
            (#[trigger] kept[j]).bytes[1],
        ) by {
            let k = lemma_remaining_source(list1, edits1, at, j);
            assert(kept[j].bytes == list1[k].bytes);
        }
        assert(is_segment(list[list.len() - 1].bytes));
        if !(edits.last() is Drop) {
            lemma_segments_push(rebuilt(list1, edits1), at, kept, list.last().bytes);
        } else {
            assert(rebuilt(list, edits) =~= rebuilt(list1, edits1));
        }
    }
}

proof fn lemma_rebuilt_len(list: Seq<Piece>)
    requires
        is_segment_list(list),
    ensures
        rebuilt(list, segment_edits(list)).len() <= total(list),
        changed(segment_edits(list)) ==> rebuilt(list, segment_edits(list)).len() < total(list),
        rebuilt(list, segment_edits(list)).len() > 0 ==> rebuilt(list, segment_edits(list)).len()
            >= 2 && rebuilt(list, segment_edits(list))[0] == 0xFF,
    decreases list.len(),
{
    let edits = segment_edits(list);
    if list.len() > 0 {
        let list1 = list.drop_last();
        assert(edits.drop_last() =~= segment_edits(list1));
        assert forall|k: int| 0 <= k < list1.len() implies {
            &&& is_segment((#[trigger] list1[k]).bytes)
            &&& k + 1 < list1.len() ==> !is_last(list1[k].bytes[1])
        } by {
            assert(list1[k] == list[k]);
        }
        lemma_rebuilt_len(list1);
        assert(is_segment(list[list.len() - 1].bytes));
        lemma_fill_len(list.last().bytes);
        if changed(edits) && !(edits.last() is Drop) {
            let k = choose|k: int| 0 <= k < edits.len() && !(#[trigger] edits[k] is Keep);
            assert(!(segment_edits(list1)[k] is Keep));
        }
    }
}

/// A scrubbed JPEG file is shorter than it was. What follows its start, if anything is left,
/// begins with a marker.
pub proof fn scrub_shrinks(input: Seq<u8>, out: Seq<u8>)
    requires
        scrubbed(input) == Ok::<_, ScrubError>(Some(out)),
    ensures
        2 <= out.len() < input.len(),
        out[0] == 0xFF,
        out[1] == SOI,
        out.len() > 2 ==> is_jpeg(out) && out[2] == 0xFF,
{
    let list = segments(input.skip(2), 2)->Ok_0;
    lemma_segment_list(input.skip(2), 2);
    lemma_rebuilt_len(list);
}

/// Only metadata goes: the segments of a scrubbed JPEG file are those of the file, in their order,
/// without the metadata, and nothing else.
pub proof fn scrub_keeps_the_segments(input: Seq<u8>, out: Seq<u8>)
    requires
        scrubbed(input) == Ok::<_, ScrubError>(Some(out)),
        input.len() <= usize::MAX,
    ensures
        ({
            let list = segments(input.skip(2), 2)->Ok_0;
            let kept = remaining(list, segment_edits(list), 2);
            &&& segments(out.skip(2), 2) == Ok::<_, ScrubError>(kept)
            &&& total(kept) == out.len() - 2
        }),
{
    let list = segments(input.skip(2), 2)->Ok_0;
    lemma_segment_list(input.skip(2), 2);
    lemma_rebuilt_len(list);
    lemma_rebuilt_segments(list, 2);
    assert(out.skip(2) =~= rebuilt(list, segment_edits(list)));
}

/// The picture is untouched: a segment that is not metadata, such as a color profile or the scan
/// with all that follows it, stands in a scrubbed JPEG file byte for byte, after what is left of
/// the segments before it.
pub proof fn scrub_copies_the_rest(input: Seq<u8>, out: Seq<u8>, k: int)
    requires
        scrubbed(input) == Ok::<_, ScrubError>(Some(out)),
        0 <= k < segments(input.skip(2), 2)->Ok_0.len(),
        !is_metadata(segments(input.skip(2), 2)->Ok_0[k].bytes),
    ensures
        ({
            let list = segments(input.skip(2), 2)->Ok_0;
            let edits = segment_edits(list);
            let from = 2 + rebuilt(list.take(k), edits.take(k)).len() as int;
            let to = from + list[k].bytes.len();
            to <= out.len() && out.subrange(from, to) == list[k].bytes
        }),
{
    let list = segments(input.skip(2), 2)->Ok_0;
    let edits = segment_edits(list);
    lemma_rebuilt_keeps(list, edits, k);
    let from = rebuilt(list.take(k), edits.take(k)).len() as int;
    let to = from + list[k].bytes.len();
    assert(out.subrange(2 + from, 2 + to) =~= rebuilt(list, edits).subrange(from, to));
}

/// No segment of a scrubbed JPEG file is metadata.
pub proof fn scrub_leaves_no_metadata(input: Seq<u8>, out: Seq<u8>, j: int)
    requires
        scrubbed(input) == Ok::<_, ScrubError>(Some(out)),
        input.len() <= usize::MAX,
        0 <= j < segments(out.skip(2), 2)->Ok_0.len(),
    ensures
        !is_metadata(segments(out.skip(2), 2)->Ok_0[j].bytes),
{
    let list = segments(input.skip(2), 2)->Ok_0;
    scrub_keeps_the_segments(input, out);
    let k = lemma_remaining_source(list, segment_edits(list), 2, j);
}

/// A scrub is done at once: in a scrubbed JPEG file there is nothing left to remove. Something
/// must be left of the file.
pub proof fn scrub_is_idempotent(input: Seq<u8>, out: Seq<u8>)
    requires
        scrubbed(input) == Ok::<_, ScrubError>(Some(out)),
        input.len() <= usize::MAX,
        out.len() > 2,
    ensures
        scrubbed(out) == Ok::<_, ScrubError>(None::<Seq<u8>>),
{
    scrub_shrinks(input, out);
    scrub_keeps_the_segments(input, out);
    let kept = segments(out.skip(2), 2)->Ok_0;
    assert forall|j: int|
        0 <= j < kept.len() implies (#[trigger] segment_edits(kept)[j] is Keep) by {
        scrub_leaves_no_metadata(input, out, j);
    }
}

} // verus!
