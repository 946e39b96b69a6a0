//! What holds of WebP and AVI files before and after a scrub.
use vstd::prelude::*;
use crate::bytes::{
    be32, be32_bytes, be32_round_trip, be32_same, le32, le32_bytes, le32_range, le32_round_trip,
    le32_same,
};
use crate::error::ScrubError;
use crate::scrub::edit::{
    changed, edited, lemma_changed_push, lemma_rebuilt_keeps, lemma_remaining_source,
    lemma_total_front, rebuilt, remaining, total, Edit, Piece,
};
use crate::scrub::riff::{
    avi_edit, avi_edits, avi_scrubbed, chunk_len, chunks, drops, fourcc, is_avi_metadata, is_riff,
    lemma_chunks_total, webp_edit, webp_edits, webp_scrubbed, wrapped, AVI, EXIF, INFO, LIST, MOVI,
    OTHER_FLAGS, RIFF, VP8X, WEBP, XMP,
};

verus! {

/// That the header of the chunk `raw` gives the length that `raw` has.
pub open spec fn is_sized(raw: Seq<u8>) -> bool {
    let size = le32(raw, 4);
    raw.len() >= 8 && raw.len() == 8 + size + size % 2
}

pub proof fn lemma_chunks_sized(s: Seq<u8>, at: int)
    requires
        chunks(s, at) is Ok,
    ensures
        forall|k: int|
            0 <= k < chunks(s, at)->Ok_0.len() ==> is_sized(
                (#[trigger] chunks(s, at)->Ok_0[k]).bytes,
            ),
    decreases s.len(),
{
    if s.len() >= 8 {
        let n = chunk_len(s, at)->Ok_0;
        le32_range(s, 4);
        let raw = s.take(n);
        let rest = chunks(s.skip(n), at + n)->Ok_0;
        lemma_chunks_sized(s.skip(n), at + n);
        le32_same(raw, 4, s, 4);
        let list = chunks(s, at)->Ok_0;
        assert(list =~= seq![Piece { at, bytes: raw }] + rest);
        assert forall|k: int| 0 <= k < list.len() implies is_sized((#[trigger] list[k]).bytes) by {
            if k > 0 {
                assert(list[k] == rest[k - 1]);
            }
        }
    }
}

/// A chunk after chunks that take up all of `s` is one chunk more.
proof fn lemma_chunks_push(s: Seq<u8>, at: int, list: Seq<Piece>, raw: Seq<u8>)
    requires
        chunks(s, at) == Ok::<_, ScrubError>(list),
        total(list) == s.len(),
        is_sized(raw),
        at + s.len() + raw.len() <= usize::MAX,
    ensures
        chunks(s + raw, at) == Ok::<_, ScrubError>(
            list.push(Piece { at: at + s.len(), bytes: raw }),
        ),
        total(list.push(Piece { at: at + s.len(), bytes: raw })) == s.len() + raw.len(),
    decreases s.len(),
{
    let last = Piece { at: at + s.len(), bytes: raw };
    assert(list.push(last).drop_last() =~= list);
    le32_range(raw, 4);
    if s.len() < 8 {
        assert(s.len() == 0);
        assert(s + raw =~= raw);
        assert(raw.take(raw.len() as int) =~= raw);
        assert(raw.skip(raw.len() as int).len() == 0);
        assert(chunks(raw.skip(raw.len() as int), at + raw.len()) == Ok::<_, ScrubError>(
            Seq::<Piece>::empty(),
        ));
        assert(seq![Piece { at, bytes: raw }] + Seq::<Piece>::empty() =~= list.push(last));
    } else {
        let n = chunk_len(s, at)->Ok_0;
        le32_range(s, 4);
        let first = s.take(n);
        let rest = chunks(s.skip(n), at + n)->Ok_0;
        assert(list =~= seq![Piece { at, bytes: first }] + rest);
        lemma_total_front(Piece { at, bytes: first }, rest);
        lemma_chunks_push(s.skip(n), at + n, rest, raw);
        le32_same(s + raw, 4, s, 4);
        assert((s + raw).take(n) =~= first);
        assert((s + raw).skip(n) =~= s.skip(n) + raw);
        assert(seq![Piece { at, bytes: first }] + rest.push(last) =~= list.push(last));
    }
}

/// Where what is left of each chunk gives its own length, what is left of them all is a run of
/// chunks again, with nothing after it.
proof fn lemma_rebuilt_chunks(list: Seq<Piece>, edits: Seq<Edit<Seq<u8>>>, at: int)
    requires
        edits.len() == list.len(),
        forall|k: int|
            0 <= k < list.len() && !(#[trigger] edits[k] is Drop) ==> is_sized(
                edited(list[k].bytes, edits[k]),
            ),
        at + rebuilt(list, edits).len() <= usize::MAX,
    ensures
        chunks(rebuilt(list, edits), at) == Ok::<_, ScrubError>(remaining(list, edits, at)),
        total(remaining(list, edits, at)) == rebuilt(list, edits).len(),
    decreases list.len(),
{
    if list.len() > 0 {
        let list1 = list.drop_last();
        let edits1 = edits.drop_last();
        let before = rebuilt(list1, edits1);
        let raw = edited(list.last().bytes, edits.last());
        assert forall|k: int|
            0 <= k < list1.len() && !(#[trigger] edits1[k] is Drop) implies is_sized(
            edited(list1[k].bytes, edits1[k]),
        ) by {
            assert(edits[k] == edits1[k]);
            assert(list[k] == list1[k]);
        }
        lemma_rebuilt_chunks(list1, edits1, at);
        if edits.last() is Drop {
            assert(rebuilt(list, edits) =~= before);
        } else {
            assert(edits[list.len() - 1] == edits.last());
            lemma_chunks_push(before, at, remaining(list1, edits1, at), raw);
        }
    }
}

/// What a chunk of chunks holds reads back.
pub proof fn lemma_wrapped(code: u32, form: int, payload: Seq<u8>)
    requires
        0 <= form <= u32::MAX,
    ensures
        ({
            let new = wrapped(code, form, payload);
            &&& new.len() == 12 + payload.len()
            &&& be32(new, 0) == code
            &&& 4 + payload.len() <= u32::MAX ==> le32(new, 4) == 4 + payload.len()
            &&& be32(new, 8) == form
            &&& new.skip(12) == payload
        }),
{
    let new = wrapped(code, form, payload);
    let size = 4 + payload.len() as int;
    be32_round_trip(code as int);
    be32_round_trip(form);
    assert(le32_bytes(size).len() == 4) by {
        reveal(le32_bytes);
    }
    be32_same(new, 0, be32_bytes(code as int), 0);
    be32_same(new, 8, be32_bytes(form), 0);
    if size <= u32::MAX {
        le32_round_trip(size);
        le32_same(new, 4, le32_bytes(size), 0);
    }
    assert(new.skip(12) =~= payload);
}

proof fn lemma_avi_edits_each(list: Seq<Piece>, k: int)
    requires
        avi_edits(list) is Ok,
        0 <= k < list.len(),
    ensures
        avi_edits(list)->Ok_0.len() == list.len(),
        avi_edit(list[k].bytes) == Ok::<_, ScrubError>(avi_edits(list)->Ok_0[k]),
    decreases list.len(),
{
    if list.len() > 1 {
        lemma_avi_edits_each(list.drop_last(), if k < list.len() - 1 { k } else { 0 });
    } else {
        assert(avi_edits(list.drop_last()) == Ok::<_, ScrubError>(Seq::<Edit<Seq<u8>>>::empty()));
    }
    if k < list.len() - 1 {
        assert(list.drop_last()[k] == list[k]);
    }
}

spec fn all_sized(list: Seq<Piece>) -> bool {
    forall|k: int| 0 <= k < list.len() ==> is_sized((#[trigger] list[k]).bytes)
}

proof fn lemma_all_sized_drop_last(list: Seq<Piece>)
    requires
        all_sized(list),
        list.len() > 0,
    ensures
        all_sized(list.drop_last()),
        is_sized(list.last().bytes),
{
    assert forall|k: int| 0 <= k < list.drop_last().len() implies is_sized(
        (#[trigger] list.drop_last()[k]).bytes,
    ) by {
        assert(list.drop_last()[k] == list[k]);
    }
    assert(list[list.len() - 1] == list.last());
}

/// A list that is wrapped anew is shorter than it was, of even length, and gives its length.
proof fn lemma_avi_replacement(raw: Seq<u8>)
    requires
        is_sized(raw),
        avi_edit(raw) is Ok,
        avi_edit(raw)->Ok_0 is Replace,
    ensures
        avi_edit(raw)->Ok_0->Replace_0.len() < raw.len(),
        is_sized(avi_edit(raw)->Ok_0->Replace_0),
    decreases raw.len(), 0int, 0int,
{
    let list = chunks(raw.skip(12), 0)->Ok_0;
    let edits = avi_edits(list)->Ok_0;
    let payload = rebuilt(list, edits);
    le32_range(raw, 4);
    crate::bytes::be32_range(raw, 8);
    lemma_chunks_total(raw.skip(12), 0);
    lemma_chunks_sized(raw.skip(12), 0);
    lemma_avi_edits_len(list);
    lemma_wrapped(LIST, be32(raw, 8), payload);
}

/// What is left of a run of chunks is of even length, and shorter if anything changed.
proof fn lemma_avi_edits_len(list: Seq<Piece>)
    requires
        avi_edits(list) is Ok,
        all_sized(list),
    ensures
        rebuilt(list, avi_edits(list)->Ok_0).len() % 2 == 0,
        rebuilt(list, avi_edits(list)->Ok_0).len() <= total(list),
        changed(avi_edits(list)->Ok_0) ==> rebuilt(list, avi_edits(list)->Ok_0).len() < total(list),
    decreases total(list), 1int, list.len(),
{
    if list.len() > 0 {
        let list1 = list.drop_last();
        let edits1 = avi_edits(list1)->Ok_0;
        let edits = avi_edits(list)->Ok_0;
        lemma_all_sized_drop_last(list);
        lemma_avi_edits_len(list1);
        assert(edits.drop_last() =~= edits1);
        lemma_changed_push(edits1, edits.last());
        assert(edits =~= edits1.push(edits.last()));
        if edits.last() is Replace {
            lemma_avi_replacement(list.last().bytes);
        }
    }
}

/// Nothing is left to do with what is left of a chunk.
proof fn lemma_avi_clean(raw: Seq<u8>)
    requires
        is_sized(raw),
        raw.len() <= usize::MAX,
        avi_edit(raw) is Ok,
        !(avi_edit(raw)->Ok_0 is Drop),
    ensures
        avi_edit(edited(raw, avi_edit(raw)->Ok_0)) == Ok::<_, ScrubError>(Edit::<Seq<u8>>::Keep),
    decreases raw.len(), 0int, 0int,
{
    if avi_edit(raw)->Ok_0 is Replace {
        let list = chunks(raw.skip(12), 0)->Ok_0;
        let edits = avi_edits(list)->Ok_0;
        let payload = rebuilt(list, edits);
        crate::bytes::be32_range(raw, 8);
        lemma_chunks_total(raw.skip(12), 0);
        lemma_chunks_sized(raw.skip(12), 0);
        lemma_avi_edits_len(list);
        lemma_wrapped(LIST, be32(raw, 8), payload);
        lemma_avi_rebuilt(list, 0);
        lemma_avi_edits_clean(list, 0);
        let new = wrapped(LIST, be32(raw, 8), payload);
        assert(new.skip(12) == payload);
    }
}

proof fn lemma_avi_rebuilt(list: Seq<Piece>, at: int)
    requires
        avi_edits(list) is Ok,
        all_sized(list),
        at + rebuilt(list, avi_edits(list)->Ok_0).len() <= usize::MAX,
    ensures
        chunks(rebuilt(list, avi_edits(list)->Ok_0), at) == Ok::<_, ScrubError>(
            remaining(list, avi_edits(list)->Ok_0, at),
        ),
        total(remaining(list, avi_edits(list)->Ok_0, at)) == rebuilt(
            list,
            avi_edits(list)->Ok_0,
        ).len(),
{
    let edits = avi_edits(list)->Ok_0;
    if list.len() > 0 {
        lemma_avi_edits_each(list, 0);
    }
    assert forall|k: int| 0 <= k < list.len() && !(#[trigger] edits[k] is Drop) implies is_sized(
        edited(list[k].bytes, edits[k]),
    ) by {
        lemma_avi_edits_each(list, k);
        assert(is_sized(list[k].bytes));
        if edits[k] is Replace {
            lemma_avi_replacement(list[k].bytes);
        }
    }
    lemma_rebuilt_chunks(list, edits, at);
}

/// Nothing is left to do with what is left of a run of chunks.
proof fn lemma_avi_edits_clean(list: Seq<Piece>, at: int)
    requires
        avi_edits(list) is Ok,
        all_sized(list),
        total(list) <= usize::MAX,
    ensures
        ({
            let kept = remaining(list, avi_edits(list)->Ok_0, at);
            avi_edits(kept) is Ok && !changed(avi_edits(kept)->Ok_0)
        }),
    decreases total(list), 1int, list.len(),
{
    if list.len() > 0 {
        let list1 = list.drop_last();
        let edits1 = avi_edits(list1)->Ok_0;
        let edits = avi_edits(list)->Ok_0;
        lemma_all_sized_drop_last(list);
        lemma_avi_edits_clean(list1, at);
        assert(edits.drop_last() =~= edits1);
        let kept1 = remaining(list1, edits1, at);
        if !(edits.last() is Drop) {
            let p = remaining(list, edits, at).last();
            lemma_avi_clean(list.last().bytes);
            let es = avi_edits(kept1)->Ok_0;
            assert(kept1.push(p).drop_last() =~= kept1);
            assert(avi_edits(kept1.push(p)) == Ok::<_, ScrubError>(es.push(Edit::Keep)));
            lemma_changed_push(es, Edit::Keep);
        }
    } else {
        assert(avi_edits(Seq::<Piece>::empty()) == Ok::<_, ScrubError>(
            Seq::<Edit<Seq<u8>>>::empty(),
        ));
    }
}

/// A scrubbed AVI file is still one, shorter than it was.
pub proof fn avi_scrub_shrinks(input: Seq<u8>, out: Seq<u8>)
    requires
        avi_scrubbed(input) == Ok::<_, ScrubError>(Some(out)),
    ensures
        is_riff(out, AVI),
        out.len() < input.len(),
{
    let data = input.skip(12);
    let list = chunks(data, 0)->Ok_0;
    let edits = avi_edits(list)->Ok_0;
    lemma_chunks_total(data, 0);
    lemma_chunks_sized(data, 0);
    lemma_avi_edits_len(list);
    lemma_wrapped(RIFF, AVI as int, rebuilt(list, edits));
}

/// The size that a scrubbed AVI file gives is its own.
pub proof fn avi_scrub_updates_size(input: Seq<u8>, out: Seq<u8>)
    requires
        avi_scrubbed(input) == Ok::<_, ScrubError>(Some(out)),
        out.len() - 8 <= u32::MAX,
    ensures
        le32(out, 4) == out.len() - 8,
{
    let list = chunks(input.skip(12), 0)->Ok_0;
    let edits = avi_edits(list)->Ok_0;
    lemma_wrapped(RIFF, AVI as int, rebuilt(list, edits));
}

/// Only metadata goes: the chunks of a scrubbed AVI file are those of the file, in their order,
/// each left out, kept or replaced as its code asks, and nothing else.
pub proof fn avi_scrub_keeps_the_chunks(input: Seq<u8>, out: Seq<u8>)
    requires
        avi_scrubbed(input) == Ok::<_, ScrubError>(Some(out)),
        input.len() <= usize::MAX,
    ensures
        ({
            let list = chunks(input.skip(12), 0)->Ok_0;
            let kept = remaining(list, avi_edits(list)->Ok_0, 0);
            &&& chunks(out.skip(12), 0) == Ok::<_, ScrubError>(kept)
            &&& total(kept) == out.len() - 12
        }),
{
    let data = input.skip(12);
    let list = chunks(data, 0)->Ok_0;
    let edits = avi_edits(list)->Ok_0;
    lemma_chunks_total(data, 0);
    lemma_chunks_sized(data, 0);
    lemma_avi_edits_len(list);
    lemma_wrapped(RIFF, AVI as int, rebuilt(list, edits));
    lemma_avi_rebuilt(list, 0);
}

/// The frames are untouched: a chunk at the top level that is kept stands in a scrubbed AVI file
/// byte for byte, after what is left of the chunks before it.
pub proof fn avi_scrub_copies_frames(input: Seq<u8>, out: Seq<u8>, k: int)
    requires
        avi_scrubbed(input) == Ok::<_, ScrubError>(Some(out)),
        0 <= k < chunks(input.skip(12), 0)->Ok_0.len(),
        ({
            let raw = chunks(input.skip(12), 0)->Ok_0[k].bytes;
            &&& !is_avi_metadata(fourcc(raw))
            &&& fourcc(raw) == LIST && raw.len() >= 12 ==> be32(raw, 8) == MOVI
        }),
    ensures
        ({
            let list = chunks(input.skip(12), 0)->Ok_0;
            let edits = avi_edits(list)->Ok_0;
            let from = 12 + rebuilt(list.take(k), edits.take(k)).len() as int;
            let to = from + list[k].bytes.len();
            to <= out.len() && out.subrange(from, to) == list[k].bytes
        }),
{
    let list = chunks(input.skip(12), 0)->Ok_0;
    let edits = avi_edits(list)->Ok_0;
    lemma_avi_edits_each(list, k);
    lemma_rebuilt_keeps(list, edits, k);
    lemma_wrapped(RIFF, AVI as int, rebuilt(list, edits));
    let from = rebuilt(list.take(k), edits.take(k)).len() as int;
    let to = from + list[k].bytes.len();
    assert(out.subrange(12 + from, 12 + to) =~= out.skip(12).subrange(from, to));
}

/// A scrub is done at once: in a scrubbed AVI file there is nothing left to remove.
pub proof fn avi_scrub_is_idempotent(input: Seq<u8>, out: Seq<u8>)
    requires
        avi_scrubbed(input) == Ok::<_, ScrubError>(Some(out)),
        input.len() <= usize::MAX,
    ensures
        avi_scrubbed(out) == Ok::<_, ScrubError>(None::<Seq<u8>>),
{
    let data = input.skip(12);
    let list = chunks(data, 0)->Ok_0;
    lemma_chunks_total(data, 0);
    lemma_chunks_sized(data, 0);
    avi_scrub_shrinks(input, out);
    avi_scrub_keeps_the_chunks(input, out);
    lemma_avi_edits_clean(list, 0);
}

/// In a scrubbed AVI file nothing is left to do with any chunk: none is metadata, and every list is
/// one that a scrub keeps as it is.
pub proof fn avi_scrub_leaves_no_metadata(input: Seq<u8>, out: Seq<u8>, j: int)
    requires
        avi_scrubbed(input) == Ok::<_, ScrubError>(Some(out)),
        input.len() <= usize::MAX,
        0 <= j < chunks(out.skip(12), 0)->Ok_0.len(),
    ensures
        ({
            let raw = chunks(out.skip(12), 0)->Ok_0[j].bytes;
            &&& !is_avi_metadata(fourcc(raw))
            &&& avi_edit(raw) == Ok::<_, ScrubError>(Edit::<Seq<u8>>::Keep)
        }),
{
    avi_scrub_is_idempotent(input, out);
    let kept = chunks(out.skip(12), 0)->Ok_0;
    lemma_avi_edits_each(kept, j);
    assert(avi_edits(kept)->Ok_0[j] is Keep);
}

/// A list that a scrub keeps as it is, other than that of the frames, holds no metadata: none of
/// its chunks is metadata, and the same goes for the lists in it.
pub proof fn kept_list_holds_no_metadata(raw: Seq<u8>, j: int)
    requires
        fourcc(raw) == LIST,
        raw.len() >= 12,
        be32(raw, 8) != MOVI,
        avi_edit(raw) == Ok::<_, ScrubError>(Edit::<Seq<u8>>::Keep),
        0 <= j < chunks(raw.skip(12), 0)->Ok_0.len(),
    ensures
        be32(raw, 8) != INFO,
        ({
            let child = chunks(raw.skip(12), 0)->Ok_0[j].bytes;
            &&& !is_avi_metadata(fourcc(child))
            &&& avi_edit(child) == Ok::<_, ScrubError>(Edit::<Seq<u8>>::Keep)
        }),
{
    let children = chunks(raw.skip(12), 0)->Ok_0;
    lemma_avi_edits_each(children, j);
    assert(avi_edits(children)->Ok_0[j] is Keep);
}

proof fn lemma_webp_edit(raw: Seq<u8>)
    requires
        is_sized(raw),
    ensures
        !(webp_edit(raw) is Drop) ==> {
            let new = edited(raw, webp_edit(raw));
            &&& is_sized(new)
            &&& new.len() == raw.len()
            &&& fourcc(new) == fourcc(raw)
            &&& fourcc(new) == VP8X && new.len() >= 12 ==> new[8] == raw[8] & OTHER_FLAGS
        },
{
    if webp_edit(raw) is Replace {
        let new = edited(raw, webp_edit(raw));
        be32_same(new, 0, raw, 0);
        le32_same(new, 4, raw, 4);
    }
}

proof fn lemma_webp_len(list: Seq<Piece>)
    requires
        all_sized(list),
    ensures
        rebuilt(list, webp_edits(list)).len() <= total(list),
        drops(webp_edits(list)) ==> rebuilt(list, webp_edits(list)).len() < total(list),
    decreases list.len(),
{
    let edits = webp_edits(list);
    if list.len() > 0 {
        let list1 = list.drop_last();
        lemma_all_sized_drop_last(list);
        lemma_webp_len(list1);
        assert(edits.drop_last() =~= webp_edits(list1));
        lemma_webp_edit(list.last().bytes);
        if drops(edits) && !(edits.last() is Drop) {
            let k = choose|k: int| 0 <= k < edits.len() && #[trigger] edits[k] is Drop;
            assert(webp_edits(list1)[k] is Drop);
        }
    }
}

/// A scrubbed WebP file is still one, shorter than it was.
pub proof fn webp_scrub_shrinks(input: Seq<u8>, out: Seq<u8>)
    requires
        webp_scrubbed(input) == Ok::<_, ScrubError>(Some(out)),
    ensures
        is_riff(out, WEBP),
        out.len() < input.len(),
{
    let data = input.skip(12);
    let list = chunks(data, 0)->Ok_0;
    lemma_chunks_total(data, 0);
    lemma_chunks_sized(data, 0);
    lemma_webp_len(list);
    lemma_wrapped(RIFF, WEBP as int, rebuilt(list, webp_edits(list)));
}

/// The size that a scrubbed WebP file gives is its own.
pub proof fn webp_scrub_updates_size(input: Seq<u8>, out: Seq<u8>)
    requires
        webp_scrubbed(input) == Ok::<_, ScrubError>(Some(out)),
        out.len() - 8 <= u32::MAX,
    ensures
        le32(out, 4) == out.len() - 8,
{
    let list = chunks(input.skip(12), 0)->Ok_0;
    lemma_wrapped(RIFF, WEBP as int, rebuilt(list, webp_edits(list)));
}

/// Only metadata goes: the chunks of a scrubbed WebP file are those of the file, in their order,
/// without the EXIF and XMP chunks, and nothing else.
pub proof fn webp_scrub_keeps_the_chunks(input: Seq<u8>, out: Seq<u8>)
    requires
        webp_scrubbed(input) == Ok::<_, ScrubError>(Some(out)),
        input.len() <= usize::MAX,
    ensures
        ({
            let list = chunks(input.skip(12), 0)->Ok_0;
            let kept = remaining(list, webp_edits(list), 0);
            &&& chunks(out.skip(12), 0) == Ok::<_, ScrubError>(kept)
            &&& total(kept) == out.len() - 12
        }),
{
    let data = input.skip(12);
    let list = chunks(data, 0)->Ok_0;
    let edits = webp_edits(list);
    lemma_chunks_total(data, 0);
    lemma_chunks_sized(data, 0);
    lemma_webp_len(list);
    lemma_wrapped(RIFF, WEBP as int, rebuilt(list, edits));
    assert forall|k: int| 0 <= k < list.len() && !(#[trigger] edits[k] is Drop) implies is_sized(
        edited(list[k].bytes, edits[k]),
    ) by {
        lemma_webp_edit(list[k].bytes);
    }
    lemma_rebuilt_chunks(list, edits, 0);
}

/// No chunk of a scrubbed WebP file is EXIF or XMP, and no `VP8X` chunk announces any.
pub proof fn webp_scrub_leaves_no_metadata(input: Seq<u8>, out: Seq<u8>, j: int)
    requires
        webp_scrubbed(input) == Ok::<_, ScrubError>(Some(out)),
        input.len() <= usize::MAX,
        0 <= j < chunks(out.skip(12), 0)->Ok_0.len(),
    ensures
        ({
            let raw = chunks(out.skip(12), 0)->Ok_0[j].bytes;
            &&& fourcc(raw) != EXIF
            &&& fourcc(raw) != XMP
            &&& fourcc(raw) == VP8X && raw.len() >= 12 ==> raw[8] & 0x0Cu8 == 0
        }),
{
    let list = chunks(input.skip(12), 0)->Ok_0;
    webp_scrub_keeps_the_chunks(input, out);
    lemma_chunks_sized(input.skip(12), 0);
    let k = lemma_remaining_source(list, webp_edits(list), 0, j);
    lemma_webp_edit(list[k].bytes);
    let flags = list[k].bytes[8];
    assert((flags & 0xF3u8) & 0x0Cu8 == 0) by (bit_vector);
}

/// A scrub is done at once: in a scrubbed WebP file there is nothing left to remove.
pub proof fn webp_scrub_is_idempotent(input: Seq<u8>, out: Seq<u8>)
    requires
        webp_scrubbed(input) == Ok::<_, ScrubError>(Some(out)),
        input.len() <= usize::MAX,
    ensures
        webp_scrubbed(out) == Ok::<_, ScrubError>(None::<Seq<u8>>),
{
    webp_scrub_shrinks(input, out);
    webp_scrub_keeps_the_chunks(input, out);
    let kept = chunks(out.skip(12), 0)->Ok_0;
    assert forall|j: int| 0 <= j < kept.len() implies !(#[trigger] webp_edits(kept)[j] is Drop) by {
        webp_scrub_leaves_no_metadata(input, out, j);
    }
}

} // verus!
