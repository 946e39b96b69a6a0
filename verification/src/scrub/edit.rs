//! A file as a run of pieces, and what becomes of each piece.
use vstd::prelude::*;
use crate::error::ScrubError;

verus! {

/// A run of bytes and the offset that it was found at.
#[verifier::ext_equal]
pub struct Piece {
    pub at: int,
    pub bytes: Seq<u8>,
}

/// What becomes of one piece of a file.
#[derive(Debug)]
#[verifier::ext_equal]
pub enum Edit<B> {
    Keep,
    Drop,
    Replace(B),
}

/// The bytes that stand for `bytes` once `edit` is made.
pub open spec fn edited(bytes: Seq<u8>, edit: Edit<Seq<u8>>) -> Seq<u8> {
    match edit {
        Edit::Keep => bytes,
        Edit::Drop => Seq::empty(),
        Edit::Replace(new) => new,
    }
}

/// Whether any piece is dropped or replaced.
pub open spec fn changed(edits: Seq<Edit<Seq<u8>>>) -> bool {
    exists|k: int| 0 <= k < edits.len() && !(#[trigger] edits[k] is Keep)
}

/// The pieces in their order, each as its edit leaves it.
pub open spec fn rebuilt(pieces: Seq<Piece>, edits: Seq<Edit<Seq<u8>>>) -> Seq<u8>
    decreases pieces.len(),
{
    if pieces.len() == 0 {
        Seq::empty()
    } else {
        rebuilt(pieces.drop_last(), edits.drop_last()) + edited(
            pieces.last().bytes,
            edits.last(),
        )
    }
}

/// How many bytes the pieces hold together.
pub open spec fn total(pieces: Seq<Piece>) -> nat
    decreases pieces.len(),
{
    if pieces.len() == 0 {
        0
    } else {
        total(pieces.drop_last()) + pieces.last().bytes.len()
    }
}

pub proof fn lemma_total_front(first: Piece, rest: Seq<Piece>)
    ensures
        total(seq![first] + rest) == first.bytes.len() + total(rest),
    decreases rest.len(),
{
    let all = seq![first] + rest;
    if rest.len() == 0 {
        assert(all.drop_last() =~= Seq::<Piece>::empty());
        reveal_with_fuel(total, 2);
    } else {
        assert(all.drop_last() =~= seq![first] + rest.drop_last());
        lemma_total_front(first, rest.drop_last());
    }
}

/// The pieces that are left once the edits are made, laid out from offset `at` on.
pub open spec fn remaining(pieces: Seq<Piece>, edits: Seq<Edit<Seq<u8>>>, at: int) -> Seq<Piece>
    decreases pieces.len(),
{
    if pieces.len() == 0 {
        Seq::empty()
    } else {
        let before = remaining(pieces.drop_last(), edits.drop_last(), at);
        if edits.last() is Drop {
            before
        } else {
            before.push(
                Piece {
                    at: at + rebuilt(pieces.drop_last(), edits.drop_last()).len(),
                    bytes: edited(pieces.last().bytes, edits.last()),
                },
            )
        }
    }
}

/// An edit with its bytes as a sequence.
pub open spec fn bytes_view(edit: Edit<Vec<u8>>) -> Edit<Seq<u8>> {
    match edit {
        Edit::Keep => Edit::Keep,
        Edit::Drop => Edit::Drop,
        Edit::Replace(new) => Edit::Replace(new@),
    }
}

/// An edit, or why there is none, with its bytes as a sequence.
pub open spec fn edit_view(r: Result<Edit<Vec<u8>>, ScrubError>) -> Result<
    Edit<Seq<u8>>,
    ScrubError,
> {
    match r {
        Ok(edit) => Ok(bytes_view(edit)),
        Err(e) => Err(e),
    }
}

/// The result of a scrub with its bytes as a sequence.
pub open spec fn scrub_view(r: Result<Option<Vec<u8>>, ScrubError>) -> Result<
    Option<Seq<u8>>,
    ScrubError,
> {
    match r {
        Ok(Some(v)) => Ok(Some(v@)),
        Ok(None) => Ok(None),
        Err(e) => Err(e),
    }
}

pub proof fn lemma_changed_push(edits: Seq<Edit<Seq<u8>>>, edit: Edit<Seq<u8>>)
    ensures
        changed(edits.push(edit)) == (changed(edits) || !(edit is Keep)),
{
    let all = edits.push(edit);
    if changed(edits) {
        let k = choose|k: int| 0 <= k < edits.len() && !(#[trigger] edits[k] is Keep);
        assert(!(all[k] is Keep));
    }
    assert(all[edits.len() as int] == edit);
    if changed(all) {
        let k = choose|k: int| 0 <= k < all.len() && !(#[trigger] all[k] is Keep);
        assert(k < edits.len() ==> edits[k] == all[k]);
    }
}

/// What is left of a piece is no longer than what is left of all.
pub proof fn lemma_rebuilt_part(pieces: Seq<Piece>, edits: Seq<Edit<Seq<u8>>>, k: int)
    requires
        edits.len() == pieces.len(),
        0 <= k < pieces.len(),
    ensures
        edited(pieces[k].bytes, edits[k]).len() <= rebuilt(pieces, edits).len(),
    decreases pieces.len(),
{
    if k < pieces.len() - 1 {
        lemma_rebuilt_part(pieces.drop_last(), edits.drop_last(), k);
    }
}

/// A piece that is kept stands in what is rebuilt as it was, after what is left of the pieces
/// before it.
pub proof fn lemma_rebuilt_keeps(pieces: Seq<Piece>, edits: Seq<Edit<Seq<u8>>>, k: int)
    requires
        edits.len() == pieces.len(),
        0 <= k < pieces.len(),
        edits[k] is Keep,
    ensures
        ({
            let from = rebuilt(pieces.take(k), edits.take(k)).len() as int;
            let to = from + pieces[k].bytes.len();
            &&& to <= rebuilt(pieces, edits).len()
            &&& rebuilt(pieces, edits).subrange(from, to) == pieces[k].bytes
        }),
    decreases pieces.len(),
{
    let before = rebuilt(pieces.drop_last(), edits.drop_last());
    if k == pieces.len() - 1 {
        assert(pieces.take(k) =~= pieces.drop_last());
        assert(edits.take(k) =~= edits.drop_last());
        assert(rebuilt(pieces, edits).subrange(
            before.len() as int,
            (before.len() + pieces[k].bytes.len()) as int,
        ) =~= pieces[k].bytes);
    } else {
        lemma_rebuilt_keeps(pieces.drop_last(), edits.drop_last(), k);
        assert(pieces.drop_last().take(k) =~= pieces.take(k));
        assert(edits.drop_last().take(k) =~= edits.take(k));
        let from = rebuilt(pieces.take(k), edits.take(k)).len() as int;
        let to = from + pieces[k].bytes.len();
        assert(rebuilt(pieces, edits).subrange(from, to) =~= before.subrange(from, to));
    }
}

/// Each piece that is left comes from one that is not dropped.
pub proof fn lemma_remaining_source(
    pieces: Seq<Piece>,
    edits: Seq<Edit<Seq<u8>>>,
    at: int,
    j: int,
) -> (k: int)
    requires
        edits.len() == pieces.len(),
        0 <= j < remaining(pieces, edits, at).len(),
    ensures
        0 <= k < pieces.len(),
        !(edits[k] is Drop),
        remaining(pieces, edits, at)[j].bytes == edited(pieces[k].bytes, edits[k]),
    decreases pieces.len(),
{
    let before = remaining(pieces.drop_last(), edits.drop_last(), at);
    if j < before.len() {
        lemma_remaining_source(pieces.drop_last(), edits.drop_last(), at, j)
    } else {
        pieces.len() - 1
    }
}

/// Runs of pieces, one after the other, are rebuilt one after the other.
pub proof fn lemma_rebuilt_concat(
    a: Seq<Piece>,
    ea: Seq<Edit<Seq<u8>>>,
    b: Seq<Piece>,
    eb: Seq<Edit<Seq<u8>>>,
)
    requires
        ea.len() == a.len(),
        eb.len() == b.len(),
    ensures
        rebuilt(a + b, ea + eb) == rebuilt(a, ea) + rebuilt(b, eb),
        changed(ea + eb) == (changed(ea) || changed(eb)),
    decreases b.len(),
{
    if b.len() == 0 {
        assert(a + b =~= a);
        assert(ea + eb =~= ea);
        assert(rebuilt(a, ea) + rebuilt(b, eb) =~= rebuilt(a, ea));
    } else {
        let b1 = b.drop_last();
        let eb1 = eb.drop_last();
        lemma_rebuilt_concat(a, ea, b1, eb1);
        assert((a + b).drop_last() =~= a + b1);
        assert((ea + eb).drop_last() =~= ea + eb1);
        assert(ea + eb =~= (ea + eb1).push(eb.last()));
        assert(eb =~= eb1.push(eb.last()));
        lemma_changed_push(ea + eb1, eb.last());
        lemma_changed_push(eb1, eb.last());
        assert(rebuilt(a + b, ea + eb) =~= rebuilt(a, ea) + rebuilt(b, eb));
    }
}

/// A piece in front of a run is rebuilt in front of it.
pub proof fn lemma_rebuilt_front(
    first: Piece,
    edit: Edit<Seq<u8>>,
    rest: Seq<Piece>,
    edits: Seq<Edit<Seq<u8>>>,
)
    requires
        edits.len() == rest.len(),
    ensures
        rebuilt(seq![first] + rest, seq![edit] + edits) == edited(first.bytes, edit) + rebuilt(
            rest,
            edits,
        ),
        changed(seq![edit] + edits) == (!(edit is Keep) || changed(edits)),
{
    lemma_rebuilt_concat(seq![first], seq![edit], rest, edits);
    assert(seq![first].drop_last() =~= Seq::<Piece>::empty());
    assert(rebuilt(seq![first], seq![edit]) =~= edited(first.bytes, edit)) by {
        reveal_with_fuel(rebuilt, 2);
    }
    let none = Seq::<Edit<Seq<u8>>>::empty();
    assert(seq![edit] =~= none.push(edit));
    lemma_changed_push(none, edit);
}

} // verus!
