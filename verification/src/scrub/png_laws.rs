//! What holds of PNG files before and after a scrub.
use vstd::prelude::*;
use crate::bytes::{be32, be32_range, be32_same};
use crate::error::ScrubError;
use crate::scrub::edit::{
    changed, lemma_rebuilt_keeps, lemma_remaining_source, lemma_total_front, rebuilt, remaining,
    total, Piece,
};
use crate::scrub::png::{chunk_edits, chunk_len, chunks, is_metadata, scrubbed, signature};

verus! {

/// That the header of the chunk `raw` gives the length that `raw` has.
pub open spec fn is_sized(raw: Seq<u8>) -> bool {
    raw.len() >= 12 && raw.len() == 12 + be32(raw, 0)
}

/// That `list` is such chunks.
pub open spec fn is_chunk_list(list: Seq<Piece>) -> bool {
    forall|k: int| 0 <= k < list.len() ==> is_sized((#[trigger] list[k]).bytes)
}

/// What a parse finds is such chunks, and they take up all of `s`.
pub proof fn lemma_chunk_list(s: Seq<u8>, at: int)
    requires
        chunks(s, at) is Ok,
    ensures
        is_chunk_list(chunks(s, at)->Ok_0),
        total(chunks(s, at)->Ok_0) == s.len(),
    decreases s.len(),
{
    if s.len() > 0 {
        let n = chunk_len(s, at)->Ok_0;
        be32_range(s, 0);
        lemma_chunk_list(s.skip(n), at + n);
        let raw = s.take(n);
        let rest = chunks(s.skip(n), at + n)->Ok_0;
        let first = Piece { at, bytes: raw };
        let list = chunks(s, at)->Ok_0;
        be32_same(raw, 0, s, 0);
        assert(list =~= seq![first] + rest);
        lemma_total_front(first, rest);
        assert forall|k: int| 0 <= k < list.len() implies is_sized((#[trigger] list[k]).bytes) by {
            if k > 0 {
                assert(list[k] == rest[k - 1]);
            }
        }
    }
}

/// A chunk after chunks is one chunk more.
proof fn lemma_chunks_push(s: Seq<u8>, at: int, list: Seq<Piece>, raw: Seq<u8>)
    requires
        chunks(s, at) == Ok::<_, ScrubError>(list),
        is_sized(raw),
        at + s.len() + raw.len() <= usize::MAX,
    ensures
        chunks(s + raw, at) == Ok::<_, ScrubError>(
            list.push(Piece { at: at + s.len(), bytes: raw }),
        ),
    decreases s.len(),
{
    let last = Piece { at: at + s.len(), bytes: raw };
    if s.len() == 0 {
        assert(s + raw =~= raw);
        assert(raw.take(raw.len() as int) =~= raw);
        assert(raw.skip(raw.len() as int).len() == 0);
        assert(chunks(raw.skip(raw.len() as int), at + raw.len()) == Ok::<_, ScrubError>(
            Seq::<Piece>::empty(),
        ));
        assert(seq![Piece { at, bytes: raw }] + Seq::<Piece>::empty() =~= list.push(last));
    } else {
        let n = chunk_len(s, at)->Ok_0;
        be32_range(s, 0);
        let first = Piece { at, bytes: s.take(n) };
        let rest = chunks(s.skip(n), at + n)->Ok_0;
        lemma_chunks_push(s.skip(n), at + n, rest, raw);
        be32_same(s + raw, 0, s, 0);
        assert((s + raw).take(n) =~= s.take(n));
        assert((s + raw).skip(n) =~= s.skip(n) + raw);
        assert(seq![first] + rest.push(last) =~= list.push(last));
    }
}

proof fn lemma_list_drop_last(list: Seq<Piece>)
    requires
        is_chunk_list(list),
        list.len() > 0,
    ensures
        is_chunk_list(list.drop_last()),
        is_sized(list.last().bytes),
        chunk_edits(list).drop_last() == chunk_edits(list.drop_last()),
{
    assert forall|k: int| 0 <= k < list.drop_last().len() implies is_sized(
        (#[trigger] list.drop_last()[k]).bytes,
    ) by {
        assert(list.drop_last()[k] == list[k]);
    }
    assert(list[list.len() - 1] == list.last());
    assert(chunk_edits(list).drop_last() =~= chunk_edits(list.drop_last()));
}

proof fn lemma_rebuilt_chunks(list: Seq<Piece>, at: int)
    requires
        is_chunk_list(list),
        at + rebuilt(list, chunk_edits(list)).len() <= usize::MAX,
    ensures
        chunks(rebuilt(list, chunk_edits(list)), at) == Ok::<_, ScrubError>(
            remaining(list, chunk_edits(list), at),
        ),
    decreases list.len(),
{
    let edits = chunk_edits(list);
    if list.len() > 0 {
        let list1 = list.drop_last();
        let edits1 = chunk_edits(list1);
        lemma_list_drop_last(list);
        lemma_rebuilt_chunks(list1, at);
        if edits.last() is Drop {
            assert(rebuilt(list, edits) =~= rebuilt(list1, edits1));
        } else {
            lemma_chunks_push(
                rebuilt(list1, edits1),
                at,
                remaining(list1, edits1, at),
                list.last().bytes,
            );
        }
    }
}

proof fn lemma_rebuilt_len(list: Seq<Piece>)
    requires
        is_chunk_list(list),
    ensures
        rebuilt(list, chunk_edits(list)).len() <= total(list),
        changed(chunk_edits(list)) ==> rebuilt(list, chunk_edits(list)).len() < total(list),
    decreases list.len(),
{
    let edits = chunk_edits(list);
    if list.len() > 0 {
        let list1 = list.drop_last();
        lemma_list_drop_last(list);
        lemma_rebuilt_len(list1);
        if changed(edits) && !(edits.last() is Drop) {
            let k = choose|k: int| 0 <= k < edits.len() && !(#[trigger] edits[k] is Keep);
            assert(!(chunk_edits(list1)[k] is Keep));
        }
    }
}

/// A scrubbed PNG file is shorter than it was and has its signature.
pub proof fn scrub_shrinks(input: Seq<u8>, out: Seq<u8>)
    requires
        scrubbed(input) == Ok::<_, ScrubError>(Some(out)),
    ensures
        out.len() < input.len(),
        signature().is_prefix_of(out),
{
    let list = chunks(input.skip(8), 8)->Ok_0;
    lemma_chunk_list(input.skip(8), 8);
    lemma_rebuilt_len(list);
    assert(out.subrange(0, 8) =~= signature());
}

/// Only metadata goes: the chunks of a scrubbed PNG file are those of the file, in their order,
/// without the metadata.
pub proof fn scrub_keeps_the_chunks(input: Seq<u8>, out: Seq<u8>)
    requires
        scrubbed(input) == Ok::<_, ScrubError>(Some(out)),
        input.len() <= usize::MAX,
    ensures
        ({
            let list = chunks(input.skip(8), 8)->Ok_0;
            chunks(out.skip(8), 8) == Ok::<_, ScrubError>(remaining(list, chunk_edits(list), 8))
        }),
{
    let list = chunks(input.skip(8), 8)->Ok_0;
    lemma_chunk_list(input.skip(8), 8);
    lemma_rebuilt_len(list);
    lemma_rebuilt_chunks(list, 8);
    assert(out.skip(8) =~= rebuilt(list, chunk_edits(list)));
}

/// The picture is untouched: a chunk that is not metadata stands in a scrubbed PNG file byte for
/// byte, after what is left of the chunks before it.
pub proof fn scrub_copies_the_rest(input: Seq<u8>, out: Seq<u8>, k: int)
    requires
        scrubbed(input) == Ok::<_, ScrubError>(Some(out)),
        0 <= k < chunks(input.skip(8), 8)->Ok_0.len(),
        !is_metadata(chunks(input.skip(8), 8)->Ok_0[k].bytes),
    ensures
        ({
            let list = chunks(input.skip(8), 8)->Ok_0;
            let edits = chunk_edits(list);
            let from = 8 + rebuilt(list.take(k), edits.take(k)).len() as int;
            let to = from + list[k].bytes.len();
            to <= out.len() && out.subrange(from, to) == list[k].bytes
        }),
{
    let list = chunks(input.skip(8), 8)->Ok_0;
    let edits = chunk_edits(list);
    lemma_rebuilt_keeps(list, edits, k);
    let from = rebuilt(list.take(k), edits.take(k)).len() as int;
    let to = from + list[k].bytes.len();
    assert(out.subrange(8 + from, 8 + to) =~= rebuilt(list, edits).subrange(from, to));
}

/// No chunk of a scrubbed PNG file is metadata.
pub proof fn scrub_leaves_no_metadata(input: Seq<u8>, out: Seq<u8>, j: int)
    requires
        scrubbed(input) == Ok::<_, ScrubError>(Some(out)),
        input.len() <= usize::MAX,
        0 <= j < chunks(out.skip(8), 8)->Ok_0.len(),
    ensures
        !is_metadata(chunks(out.skip(8), 8)->Ok_0[j].bytes),
{
    let list = chunks(input.skip(8), 8)->Ok_0;
    scrub_keeps_the_chunks(input, out);
    let k = lemma_remaining_source(list, chunk_edits(list), 8, j);
}

/// A scrub is done at once: in a scrubbed PNG file there is nothing left to remove. A chunk must
/// be left of the file.
pub proof fn scrub_is_idempotent(input: Seq<u8>, out: Seq<u8>)
    requires
        scrubbed(input) == Ok::<_, ScrubError>(Some(out)),
        input.len() <= usize::MAX,
        out.len() > 8,
    ensures
        scrubbed(out) == Ok::<_, ScrubError>(None::<Seq<u8>>),
{
    scrub_shrinks(input, out);
    scrub_keeps_the_chunks(input, out);
    let kept = chunks(out.skip(8), 8)->Ok_0;
    lemma_chunk_list(out.skip(8), 8);
    assert(kept.len() > 0);
    assert forall|j: int| 0 <= j < kept.len() implies (#[trigger] chunk_edits(kept)[j] is Keep) by {
        scrub_leaves_no_metadata(input, out, j);
    }
}

} // verus!
