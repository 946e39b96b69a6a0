//! What holds of MP4 files before and after a scrub.
use vstd::prelude::*;
use crate::bytes::{
    be32, be32_bytes, be32_range, be32_round_trip, be32_same, be64_bytes, be64_round_trip,
    be64_same,
};
use crate::error::ScrubError;
use crate::scrub::edit::{
    changed, edited, lemma_rebuilt_part, lemma_total_front, rebuilt, remaining, total, Edit, Piece,
};
use crate::scrub::mp4::{
    body, box_len, box_type, boxes, child_edit, child_edits, container_edit, header_len,
    is_container, is_dropped, is_largesize, is_time_box, is_xmp, lemma_boxes_total, rewrapped,
    scrubbed, times_end, times_start, top_edit, top_edits, xmp_uuid, zeroed_times, MOOV, UUID,
};

verus! {

/// That the header of the box `raw` gives the length that `raw` has.
pub open spec fn is_sized(raw: Seq<u8>) -> bool {
    raw.len() >= 8 && box_len(raw, 0) == Ok::<int, ScrubError>(raw.len() as int)
}

/// Whether the box `raw` runs to the end of what holds it.
pub open spec fn is_open_ended(raw: Seq<u8>) -> bool {
    be32(raw, 0) == 0
}

proof fn lemma_box_len_at(s: Seq<u8>, at: int, at2: int)
    requires
        s.len() >= 8,
        box_len(s, at) is Ok,
        at2 + box_len(s, at)->Ok_0 <= usize::MAX,
    ensures
        box_len(s, at2) == box_len(s, at),
{
}

/// The front box of `raw + rest` is `raw`.
proof fn lemma_box_len_front(raw: Seq<u8>, rest: Seq<u8>, at: int)
    requires
        is_sized(raw),
        rest.len() > 0 ==> !is_open_ended(raw),
        at + raw.len() <= usize::MAX,
    ensures
        box_len(raw + rest, at) == Ok::<int, ScrubError>(raw.len() as int),
{
    let s = raw + rest;
    be32_same(s, 0, raw, 0);
    if is_largesize(raw) {
        be64_same(s, 8, raw, 8);
    }
    if rest.len() == 0 {
        assert(s =~= raw);
    }
}

/// That `list` is boxes of the length that they give, between offsets `from` and `to`, of which
/// only the last can be open-ended.
pub open spec fn is_box_list(list: Seq<Piece>, from: int, to: int) -> bool {
    forall|k: int|
        0 <= k < list.len() ==> {
            &&& is_sized((#[trigger] list[k]).bytes)
            &&& from <= list[k].at
            &&& list[k].at + list[k].bytes.len() <= to
            &&& k + 1 < list.len() ==> !is_open_ended(list[k].bytes)
        }
}

/// What a parse finds is such a list.
pub proof fn lemma_boxes_sized(s: Seq<u8>, at: int)
    requires
        0 <= at,
        boxes(s, at) is Ok,
    ensures
        is_box_list(boxes(s, at)->Ok_0, at, at + s.len()),
    decreases s.len(),
{
    if s.len() >= 8 {
        let n = box_len(s, at)->Ok_0;
        let raw = s.take(n);
        let rest = boxes(s.skip(n), at + n)->Ok_0;
        lemma_boxes_sized(s.skip(n), at + n);
        be32_same(raw, 0, s, 0);
        if is_largesize(raw) {
            be64_same(raw, 8, s, 8);
        }
        assert(is_sized(raw));
        let list = boxes(s, at)->Ok_0;
        assert(list =~= seq![Piece { at, bytes: raw }] + rest);
        if is_open_ended(raw) {
            assert(s.skip(n).len() == 0);
            assert(rest.len() == 0);
        }
        assert forall|k: int| 0 <= k < list.len() implies {
            &&& is_sized((#[trigger] list[k]).bytes)
            &&& at <= list[k].at
            &&& list[k].at + list[k].bytes.len() <= at + s.len()
            &&& k + 1 < list.len() ==> !is_open_ended(list[k].bytes)
        } by {
            if k > 0 {
                assert(list[k] == rest[k - 1]);
            }
        }
    }
}

/// A box after boxes that take up all of `s` is one box more.
proof fn lemma_boxes_push(s: Seq<u8>, at: int, list: Seq<Piece>, raw: Seq<u8>)
    requires
        0 <= at,
        boxes(s, at) == Ok::<_, ScrubError>(list),
        total(list) == s.len(),
        forall|k: int| 0 <= k < list.len() ==> !is_open_ended((#[trigger] list[k]).bytes),
        is_sized(raw),
        at + s.len() + raw.len() <= usize::MAX,
    ensures
        boxes(s + raw, at) == Ok::<_, ScrubError>(
            list.push(Piece { at: at + s.len(), bytes: raw }),
        ),
        total(list.push(Piece { at: at + s.len(), bytes: raw })) == s.len() + raw.len(),
    decreases s.len(),
{
    let last = Piece { at: at + s.len(), bytes: raw };
    assert(list.push(last).drop_last() =~= list);
    if s.len() < 8 {
        assert(s.len() == 0);
        assert(s + raw =~= raw);
        assert(raw + Seq::<u8>::empty() =~= raw);
        lemma_box_len_front(raw, Seq::empty(), at);
        assert(raw.take(raw.len() as int) =~= raw);
        assert(raw.skip(raw.len() as int).len() == 0);
        assert(boxes(raw.skip(raw.len() as int), at + raw.len()) == Ok::<_, ScrubError>(
            Seq::<Piece>::empty(),
        ));
        assert(seq![Piece { at, bytes: raw }] + Seq::<Piece>::empty() =~= list.push(last));
    } else {
        let n = box_len(s, at)->Ok_0;
        let first = s.take(n);
        let rest = boxes(s.skip(n), at + n)->Ok_0;
        assert(list =~= seq![Piece { at, bytes: first }] + rest);
        assert(list[0].bytes == first);
        lemma_total_front(Piece { at, bytes: first }, rest);
        assert forall|k: int| 0 <= k < rest.len() implies !is_open_ended(
            (#[trigger] rest[k]).bytes,
        ) by {
            assert(rest[k] == list[k + 1]);
        }
        lemma_boxes_push(s.skip(n), at + n, rest, raw);
        lemma_boxes_sized(s, at);
        assert(is_sized(list[0].bytes));
        assert(s + raw =~= first + (s.skip(n) + raw));
        lemma_box_len_front(first, s.skip(n) + raw, at);
        assert((s + raw).take(n) =~= first);
        assert((s + raw).skip(n) =~= s.skip(n) + raw);
        assert(seq![Piece { at, bytes: first }] + rest.push(last) =~= list.push(last));
    }
}

/// Where what is left of each box gives its own length, what is left of them all is a run of
/// boxes again, with nothing after it.
pub proof fn lemma_rebuilt_boxes(list: Seq<Piece>, edits: Seq<Edit<Seq<u8>>>, at: int)
    requires
        edits.len() == list.len(),
        forall|k: int|
            0 <= k < list.len() && !(#[trigger] edits[k] is Drop) ==> is_sized(
                edited(list[k].bytes, edits[k]),
            ),
        forall|k: int|
            0 <= k < list.len() - 1 && !(#[trigger] edits[k] is Drop) ==> !is_open_ended(
                edited(list[k].bytes, edits[k]),
            ),
        0 <= at,
        at + rebuilt(list, edits).len() <= usize::MAX,
    ensures
        boxes(rebuilt(list, edits), at) == Ok::<_, ScrubError>(remaining(list, edits, at)),
        total(remaining(list, edits, at)) == rebuilt(list, edits).len(),
        forall|k: int|
            0 <= k < remaining(list, edits, at).len() ==> {
                let p = #[trigger] remaining(list, edits, at)[k];
                is_open_ended(p.bytes) ==> list.len() > 0 && !(edits.last() is Drop)
                    && is_open_ended(edited(list.last().bytes, edits.last()))
            },
    decreases list.len(),
{
    if list.len() > 0 {
        let list1 = list.drop_last();
        let edits1 = edits.drop_last();
        let before = rebuilt(list1, edits1);
        let raw = edited(list.last().bytes, edits.last());
        assert forall|k: int|
            0 <= k < list1.len() && !(#[trigger] edits1[k] is Drop) implies is_sized(
            edited(list1[k].bytes, edits1[k]),
        ) && !is_open_ended(edited(list1[k].bytes, edits1[k])) by {
            assert(edits[k] == edits1[k]);
            assert(list[k] == list1[k]);
        }
        lemma_rebuilt_boxes(list1, edits1, at);
        let kept = remaining(list1, edits1, at);
        assert forall|k: int| 0 <= k < kept.len() implies !is_open_ended(
            (#[trigger] kept[k]).bytes,
        ) by {
            if is_open_ended(kept[k].bytes) {
                assert(edits1.last() == edits1[list1.len() - 1]);
            }
        }
        if edits.last() is Drop {
            assert(rebuilt(list, edits) =~= before);
        } else {
            assert(is_sized(raw)) by {
                assert(edits[list.len() - 1] == edits.last());
            }
            lemma_boxes_push(before, at, kept, raw);
        }
    }
}

/// The same pieces, `d` bytes further on.
pub open spec fn shifted(list: Seq<Piece>, d: int) -> Seq<Piece> {
    Seq::new(list.len(), |k: int| Piece { at: list[k].at + d, bytes: list[k].bytes })
}

proof fn lemma_boxes_shift(s: Seq<u8>, at: int, d: int)
    requires
        boxes(s, at) is Ok,
        at + d + s.len() <= usize::MAX,
    ensures
        boxes(s, at + d) == Ok::<_, ScrubError>(shifted(boxes(s, at)->Ok_0, d)),
    decreases s.len(),
{
    let list = boxes(s, at)->Ok_0;
    if s.len() < 8 {
        assert(shifted(list, d) =~= Seq::<Piece>::empty());
    } else {
        let n = box_len(s, at)->Ok_0;
        lemma_box_len_at(s, at, at + d);
        lemma_boxes_shift(s.skip(n), at + n, d);
        assert(at + n + d == at + d + n);
        let rest = boxes(s.skip(n), at + n)->Ok_0;
        let first = Piece { at, bytes: s.take(n) };
        let first2 = Piece { at: at + d, bytes: s.take(n) };
        assert(shifted(seq![first] + rest, d) =~= seq![first2] + shifted(rest, d));
    }
}

proof fn lemma_rebuilt_shift(list: Seq<Piece>, edits: Seq<Edit<Seq<u8>>>, d: int)
    ensures
        rebuilt(shifted(list, d), edits) == rebuilt(list, edits),
    decreases list.len(),
{
    if list.len() > 0 {
        assert(shifted(list, d).drop_last() =~= shifted(list.drop_last(), d));
        lemma_rebuilt_shift(list.drop_last(), edits.drop_last(), d);
    }
}

/// What becomes of a box does not depend on where it stands.
proof fn lemma_child_edit_shift(parent: int, b: Piece, d: int)
    requires
        child_edit(parent, b) is Ok,
        0 <= b.at,
        b.at + d + b.bytes.len() <= usize::MAX,
    ensures
        child_edit(parent, Piece { at: b.at + d, bytes: b.bytes }) == child_edit(parent, b),
    decreases b.bytes.len(), 1int, 0int,
{
    let typ = box_type(b.bytes);
    if !is_dropped(parent, typ) && !(is_time_box(typ) && zeroed_times(b.bytes) is Some)
        && is_container(typ) {
        lemma_container_edit_shift(b, d);
    }
}

/// What becomes of a container does not depend on where it stands.
proof fn lemma_container_edit_shift(b: Piece, d: int)
    requires
        container_edit(b) is Ok,
        0 <= b.at,
        b.at + d + b.bytes.len() <= usize::MAX,
    ensures
        container_edit(Piece { at: b.at + d, bytes: b.bytes }) == container_edit(b),
    decreases b.bytes.len(), 0int, 0int,
{
    let h = header_len(b.bytes);
    if b.bytes.len() >= h {
        let inner = body(b.bytes);
        let children = boxes(inner, b.at + h)->Ok_0;
        lemma_boxes_shift(inner, b.at + h, d);
        assert(b.at + h + d == b.at + d + h);
        lemma_boxes_total(inner, b.at + h);
        lemma_boxes_sized(inner, b.at + h);
        lemma_child_edits_shift(box_type(b.bytes), children, d);
        let edits = child_edits(box_type(b.bytes), children)->Ok_0;
        lemma_rebuilt_shift(children, edits, d);
    }
}

proof fn lemma_child_edits_shift(parent: int, list: Seq<Piece>, d: int)
    requires
        child_edits(parent, list) is Ok,
        forall|k: int|
            0 <= k < list.len() ==> 0 <= (#[trigger] list[k]).at && list[k].at + d
                + list[k].bytes.len() <= usize::MAX,
    ensures
        child_edits(parent, shifted(list, d)) == child_edits(parent, list),
    decreases total(list), 2int, list.len(),
{
    if list.len() > 0 {
        let b = list.last();
        assert(list[list.len() - 1] == b);
        assert(shifted(list, d).drop_last() =~= shifted(list.drop_last(), d));
        assert(shifted(list, d).last() == Piece { at: b.at + d, bytes: b.bytes });
        assert forall|k: int| 0 <= k < list.drop_last().len() implies 0 <= (
        #[trigger] list.drop_last()[k]).at && list.drop_last()[k].at + d
            + list.drop_last()[k].bytes.len() <= usize::MAX by {
            assert(list.drop_last()[k] == list[k]);
        }
        lemma_child_edits_shift(parent, list.drop_last(), d);
        lemma_child_edit_shift(parent, b, d);
    }
}

/// The edits are those of the boxes, one for one.
pub proof fn lemma_child_edits_each(parent: int, list: Seq<Piece>, k: int)
    requires
        child_edits(parent, list) is Ok,
        0 <= k < list.len(),
    ensures
        child_edits(parent, list)->Ok_0.len() == list.len(),
        child_edit(parent, list[k]) == Ok::<_, ScrubError>(child_edits(parent, list)->Ok_0[k]),
    decreases list.len(),
{
    if list.len() > 1 {
        lemma_child_edits_each(parent, list.drop_last(), if k < list.len() - 1 { k } else { 0 });
    } else {
        assert(child_edits(parent, list.drop_last()) == Ok::<_, ScrubError>(
            Seq::<Edit<Seq<u8>>>::empty(),
        ));
    }
    if k < list.len() - 1 {
        assert(list.drop_last()[k] == list[k]);
    }
}

/// A replaced time box is of the same type and size, and has nothing more to zero.
proof fn lemma_zeroed(raw: Seq<u8>)
    requires
        zeroed_times(raw) is Some,
    ensures
        ({
            let new = zeroed_times(raw).unwrap();
            &&& new.len() == raw.len()
            &&& box_type(new) == box_type(raw)
            &&& is_open_ended(new) == is_open_ended(raw)
            &&& is_sized(raw) ==> is_sized(new)
            &&& zeroed_times(new) is None
        }),
{
    let new = zeroed_times(raw).unwrap();
    be32_same(new, 0, raw, 0);
    be32_same(new, 4, raw, 4);
    if is_largesize(raw) {
        be64_same(new, 8, raw, 8);
    }
}

/// A container wrapped anew is of the same type, is not open-ended, and has the new body.
pub proof fn lemma_rewrapped(raw: Seq<u8>, new_body: Seq<u8>)
    requires
        raw.len() >= 8,
    ensures
        ({
            let new = rewrapped(raw, new_body);
            &&& header_len(new) == if header_len(raw) + new_body.len() <= u32::MAX {
                8int
            } else {
                16
            }
            &&& new.len() == header_len(new) + new_body.len()
            &&& box_type(new) == box_type(raw)
            &&& !is_open_ended(new)
            &&& body(new) == new_body
        }),
{
    let new = rewrapped(raw, new_body);
    if header_len(raw) + new_body.len() <= u32::MAX {
        let size = 8 + new_body.len() as int;
        be32_round_trip(size);
        be32_same(new, 0, be32_bytes(size), 0);
    } else {
        be32_round_trip(1);
        be32_same(new, 0, be32_bytes(1), 0);
        assert(be64_bytes(16 + new_body.len() as int).len() == 8) by {
            reveal(be64_bytes);
            reveal(be32_bytes);
        }
    }
    be32_same(new, 4, raw, 4);
    assert(body(new) =~= new_body);
}

/// A container wrapped anew declares the length that it has.
pub proof fn rewrapped_is_sized(raw: Seq<u8>, new_body: Seq<u8>)
    requires
        raw.len() >= 8,
        rewrapped(raw, new_body).len() <= usize::MAX,
    ensures
        is_sized(rewrapped(raw, new_body)),
{
    let new = rewrapped(raw, new_body);
    lemma_rewrapped(raw, new_body);
    if header_len(raw) + new_body.len() <= u32::MAX {
        let size = 8 + new_body.len() as int;
        be32_round_trip(size);
        be32_same(new, 0, be32_bytes(size), 0);
    } else {
        let size = 16 + new_body.len() as int;
        be32_round_trip(1);
        be64_round_trip(size);
        assert forall|k: int| 0 <= k < 8 implies #[trigger] new[8 + k] == be64_bytes(size)[0
            + k] by {}
        be64_same(new, 8, be64_bytes(size), 0);
    }
}

/// A replacement is a box of the same type that declares its length, open-ended only if the box
/// that it stands for is.
proof fn lemma_replacement(parent: int, b: Piece)
    requires
        is_sized(b.bytes),
        child_edit(parent, b) is Ok,
        child_edit(parent, b)->Ok_0 is Replace,
        child_edit(parent, b)->Ok_0->Replace_0.len() <= usize::MAX,
    ensures
        box_type(child_edit(parent, b)->Ok_0->Replace_0) == box_type(b.bytes),
        is_sized(child_edit(parent, b)->Ok_0->Replace_0),
        is_open_ended(child_edit(parent, b)->Ok_0->Replace_0) ==> is_open_ended(b.bytes),
{
    let typ = box_type(b.bytes);
    if is_time_box(typ) && zeroed_times(b.bytes) is Some {
        lemma_zeroed(b.bytes);
    } else {
        let h = header_len(b.bytes);
        let children = boxes(body(b.bytes), b.at + h)->Ok_0;
        let new_body = rebuilt(children, child_edits(typ, children)->Ok_0);
        lemma_rewrapped(b.bytes, new_body);
        rewrapped_is_sized(b.bytes, new_body);
    }
}

/// What is left of the children of a container is a run of boxes again.
proof fn lemma_children_rebuilt(parent: int, list: Seq<Piece>, from: int, to: int, at: int)
    requires
        child_edits(parent, list) is Ok,
        is_box_list(list, from, to),
        0 <= at,
        at + rebuilt(list, child_edits(parent, list)->Ok_0).len() <= usize::MAX,
    ensures
        boxes(rebuilt(list, child_edits(parent, list)->Ok_0), at) == Ok::<_, ScrubError>(
            remaining(list, child_edits(parent, list)->Ok_0, at),
        ),
{
    let edits = child_edits(parent, list)->Ok_0;
    if list.len() > 0 {
        lemma_child_edits_each(parent, list, 0);
    }
    assert forall|k: int| 0 <= k < list.len() && !(#[trigger] edits[k] is Drop) implies is_sized(
        edited(list[k].bytes, edits[k]),
    ) && (k < list.len() - 1 ==> !is_open_ended(edited(list[k].bytes, edits[k]))) by {
        lemma_child_edits_each(parent, list, k);
        assert(is_sized(list[k].bytes));
        if edits[k] is Replace {
            lemma_rebuilt_part(list, edits, k);
            lemma_replacement(parent, list[k]);
        }
    }
    lemma_rebuilt_boxes(list, edits, at);
}

/// Nothing is left to do with what is left of the children of a container.
proof fn lemma_children_clean(parent: int, list: Seq<Piece>, from: int, to: int, at: int)
    requires
        child_edits(parent, list) is Ok,
        is_box_list(list, from, to),
        0 <= from,
        0 <= at,
        at + rebuilt(list, child_edits(parent, list)->Ok_0).len() <= usize::MAX,
    ensures
        ({
            let kept = remaining(list, child_edits(parent, list)->Ok_0, at);
            child_edits(parent, kept) is Ok && !changed(child_edits(parent, kept)->Ok_0)
        }),
    decreases total(list), 2int, list.len(),
{
    if list.len() > 0 {
        let b = list.last();
        let list1 = list.drop_last();
        let edits = child_edits(parent, list)->Ok_0;
        let edits1 = child_edits(parent, list1)->Ok_0;
        assert(edits.drop_last() =~= edits1);
        lemma_box_list_drop_last(list, from, to);
        lemma_children_clean(parent, list1, from, to, at);
        assert(is_sized(list[list.len() - 1].bytes));
        let kept1 = remaining(list1, edits1, at);
        if !(edits.last() is Drop) {
            let at2 = at + rebuilt(list1, edits1).len();
            let new = edited(b.bytes, edits.last());
            let p = Piece { at: at2, bytes: new };
            if edits.last() is Keep {
                lemma_child_edit_shift(parent, b, at2 - b.at);
            } else {
                lemma_replacement(parent, b);
                let typ = box_type(b.bytes);
                if is_time_box(typ) && zeroed_times(b.bytes) is Some {
                    lemma_zeroed(b.bytes);
                } else {
                    assert(is_container(typ));
                    lemma_container_clean(b, at2);
                }
            }
            assert(child_edit(parent, p) == Ok::<_, ScrubError>(Edit::<Seq<u8>>::Keep));
            let es = child_edits(parent, kept1)->Ok_0;
            assert(kept1.push(p).drop_last() =~= kept1);
            assert(child_edits(parent, kept1.push(p)) == Ok::<_, ScrubError>(es.push(Edit::Keep)));
            crate::scrub::edit::lemma_changed_push(es, Edit::Keep);
        }
    } else {
        assert(child_edits(parent, Seq::<Piece>::empty()) == Ok::<_, ScrubError>(
            Seq::<Edit<Seq<u8>>>::empty(),
        ));
    }
}

/// Nothing is left to do with a container that was wrapped anew.
proof fn lemma_container_clean(b: Piece, at: int)
    requires
        container_edit(b) is Ok,
        container_edit(b)->Ok_0 is Replace,
        b.bytes.len() >= 8,
        0 <= b.at,
        0 <= at,
        at + container_edit(b)->Ok_0->Replace_0.len() <= usize::MAX,
    ensures
        container_edit(Piece { at, bytes: container_edit(b)->Ok_0->Replace_0 }) == Ok::<
            _,
            ScrubError,
        >(Edit::<Seq<u8>>::Keep),
    decreases b.bytes.len(), 0int, 0int,
{
    let h = header_len(b.bytes);
    let typ = box_type(b.bytes);
    let inner = body(b.bytes);
    let children = boxes(inner, b.at + h)->Ok_0;
    let edits = child_edits(typ, children)->Ok_0;
    let new_body = rebuilt(children, edits);
    let new = rewrapped(b.bytes, new_body);
    lemma_rewrapped(b.bytes, new_body);
    lemma_boxes_total(inner, b.at + h);
    lemma_boxes_sized(inner, b.at + h);
    let at2 = at + header_len(new);
    lemma_children_rebuilt(typ, children, b.at + h, b.at + h + inner.len(), at2);
    lemma_children_clean(typ, children, b.at + h, b.at + h + inner.len(), at2);
    assert(boxes(body(new), at2) == Ok::<_, ScrubError>(remaining(children, edits, at2)));
}

/// That no `uuid` box of `out` is marked as XMP by bytes that are not its own.
pub open spec fn no_stray_xmp(out: Seq<u8>) -> bool {
    boxes(out, 0) matches Ok(list) ==> forall|k: int|
        0 <= k < list.len() && box_type((#[trigger] list[k]).bytes) == UUID && body(
            list[k].bytes,
        ).len() < 16 ==> !is_xmp(out, list[k])
}

/// That the container `b`, and every container in it, runs to the end of what holds it only where
/// a 32-bit size could say how long it is.
pub open spec fn container_fits(b: Piece) -> bool
    decreases b.bytes.len(), 0int, 0int,
{
    let h = header_len(b.bytes);
    &&& is_open_ended(b.bytes) ==> b.bytes.len() <= u32::MAX
    &&& b.bytes.len() >= h ==> match boxes(body(b.bytes), b.at + h) {
        Ok(children) => {
            proof {
                lemma_boxes_total(body(b.bytes), b.at + h);
            }
            children_fit(children)
        },
        Err(_) => true,
    }
}

/// The same of those of `children` that are containers.
pub open spec fn children_fit(children: Seq<Piece>) -> bool
    decreases total(children), 1int, children.len(),
{
    children.len() > 0 ==> {
        &&& children_fit(children.drop_last())
        &&& is_container(box_type(children.last().bytes)) ==> container_fits(children.last())
    }
}

/// The same of the movie boxes of `input`.
pub open spec fn movies_fit(input: Seq<u8>) -> bool {
    boxes(input, 0) matches Ok(list) ==> forall|k: int|
        0 <= k < list.len() && box_type((#[trigger] list[k]).bytes) == MOOV ==> container_fits(
            list[k],
        )
}

proof fn lemma_container_len(b: Piece)
    requires
        container_edit(b) is Ok,
        container_edit(b)->Ok_0 is Replace,
        is_sized(b.bytes),
        0 <= b.at,
        container_fits(b) || b.bytes.len() <= u32::MAX,
    ensures
        container_edit(b)->Ok_0->Replace_0.len() <= b.bytes.len(),
    decreases b.bytes.len(), 0int, 0int,
{
    let h = header_len(b.bytes);
    let typ = box_type(b.bytes);
    let inner = body(b.bytes);
    let children = boxes(inner, b.at + h)->Ok_0;
    let edits = child_edits(typ, children)->Ok_0;
    lemma_rewrapped(b.bytes, rebuilt(children, edits));
    lemma_boxes_total(inner, b.at + h);
    lemma_boxes_sized(inner, b.at + h);
    lemma_children_len(typ, children, b.at + h, b.at + h + inner.len());
    be32_range(b.bytes, 0);
}

proof fn lemma_children_len(parent: int, list: Seq<Piece>, from: int, to: int)
    requires
        child_edits(parent, list) is Ok,
        is_box_list(list, from, to),
        0 <= from,
        children_fit(list) || total(list) <= u32::MAX,
    ensures
        rebuilt(list, child_edits(parent, list)->Ok_0).len() <= total(list),
    decreases total(list), 2int, list.len(),
{
    if list.len() > 0 {
        let b = list.last();
        let list1 = list.drop_last();
        let edits = child_edits(parent, list)->Ok_0;
        assert(edits.drop_last() =~= child_edits(parent, list1)->Ok_0);
        lemma_box_list_drop_last(list, from, to);
        lemma_children_len(parent, list1, from, to);
        assert(is_sized(list[list.len() - 1].bytes));
        assert(child_edit(parent, b) == Ok::<_, ScrubError>(edits.last()));
        if edits.last() is Replace {
            let typ = box_type(b.bytes);
            if is_time_box(typ) && zeroed_times(b.bytes) is Some {
                lemma_zeroed(b.bytes);
            } else {
                lemma_container_len(b);
            }
        }
    }
}

proof fn lemma_box_list_drop_last(list: Seq<Piece>, from: int, to: int)
    requires
        is_box_list(list, from, to),
        list.len() > 0,
    ensures
        is_box_list(list.drop_last(), from, to),
{
    let list1 = list.drop_last();
    assert forall|k: int| 0 <= k < list1.len() implies {
        &&& is_sized((#[trigger] list1[k]).bytes)
        &&& from <= list1[k].at
        &&& list1[k].at + list1[k].bytes.len() <= to
        &&& k + 1 < list1.len() ==> !is_open_ended(list1[k].bytes)
    } by {
        assert(list1[k] == list[k]);
    }
}

pub proof fn lemma_top_edits_each(input: Seq<u8>, list: Seq<Piece>, k: int)
    requires
        top_edits(input, list) is Ok,
        0 <= k < list.len(),
    ensures
        top_edits(input, list)->Ok_0.len() == list.len(),
        top_edit(input, list[k]) == Ok::<_, ScrubError>(top_edits(input, list)->Ok_0[k]),
    decreases list.len(),
{
    if list.len() > 1 {
        lemma_top_edits_each(input, list.drop_last(), if k < list.len() - 1 { k } else { 0 });
    } else {
        assert(top_edits(input, list.drop_last()) == Ok::<_, ScrubError>(
            Seq::<Edit<Seq<u8>>>::empty(),
        ));
    }
    if k < list.len() - 1 {
        assert(list.drop_last()[k] == list[k]);
    }
}

proof fn lemma_top_len(input: Seq<u8>, list: Seq<Piece>, from: int, to: int)
    requires
        top_edits(input, list) is Ok,
        is_box_list(list, from, to),
        0 <= from,
        forall|k: int|
            0 <= k < list.len() && box_type((#[trigger] list[k]).bytes) == MOOV ==> container_fits(
                list[k],
            ) || list[k].bytes.len() <= u32::MAX,
    ensures
        rebuilt(list, top_edits(input, list)->Ok_0).len() <= total(list),
    decreases list.len(),
{
    if list.len() > 0 {
        let b = list.last();
        let list1 = list.drop_last();
        let edits = top_edits(input, list)->Ok_0;
        assert(edits.drop_last() =~= top_edits(input, list1)->Ok_0);
        lemma_box_list_drop_last(list, from, to);
        assert forall|k: int|
            0 <= k < list1.len() && box_type(
                (#[trigger] list1[k]).bytes,
            ) == MOOV implies container_fits(list1[k]) || list1[k].bytes.len() <= u32::MAX by {
            assert(list1[k] == list[k]);
        }
        lemma_top_len(input, list1, from, to);
        assert(is_sized(list[list.len() - 1].bytes));
        if edits.last() is Replace {
            lemma_container_len(b);
        }
    }
}

/// A scrub does not make a file longer. (Only a box of more than four gigabytes that runs to the
/// end of what holds it outgrows its header, since it is then given a 64-bit size.)
pub proof fn scrub_never_grows(input: Seq<u8>, out: Seq<u8>)
    requires
        scrubbed(input) == Ok::<_, ScrubError>(Some(out)),
        movies_fit(input) || input.len() <= u32::MAX,
    ensures
        out.len() <= input.len(),
{
    let list = boxes(input, 0)->Ok_0;
    lemma_boxes_sized(input, 0);
    lemma_boxes_total(input, 0);
    assert forall|k: int|
        0 <= k < list.len() && box_type(
            (#[trigger] list[k]).bytes,
        ) == MOOV implies container_fits(list[k]) || list[k].bytes.len() <= u32::MAX by {}
    lemma_top_len(input, list, 0, input.len() as int);
}

/// Only metadata goes: a scrubbed file is the boxes of the file, in their order, each left out,
/// kept or replaced as its type asks, and nothing else.
pub proof fn scrub_keeps_the_boxes(input: Seq<u8>, out: Seq<u8>)
    requires
        scrubbed(input) == Ok::<_, ScrubError>(Some(out)),
        out.len() <= usize::MAX,
    ensures
        boxes(out, 0) == Ok::<_, ScrubError>(
            remaining(boxes(input, 0)->Ok_0, top_edits(input, boxes(input, 0)->Ok_0)->Ok_0, 0),
        ),
        total(boxes(out, 0)->Ok_0) == out.len(),
{
    let list = boxes(input, 0)->Ok_0;
    let edits = top_edits(input, list)->Ok_0;
    lemma_boxes_sized(input, 0);
    if list.len() > 0 {
        lemma_top_edits_each(input, list, 0);
    }
    assert forall|k: int| 0 <= k < list.len() && !(#[trigger] edits[k] is Drop) implies is_sized(
        edited(list[k].bytes, edits[k]),
    ) && (k < list.len() - 1 ==> !is_open_ended(edited(list[k].bytes, edits[k]))) by {
        lemma_top_edits_each(input, list, k);
        assert(is_sized(list[k].bytes));
        if edits[k] is Replace {
            let b = list[k];
            let h = header_len(b.bytes);
            let children = boxes(body(b.bytes), b.at + h)->Ok_0;
            let es = child_edits(box_type(b.bytes), children)->Ok_0;
            lemma_rebuilt_part(list, edits, k);
            lemma_rewrapped(b.bytes, rebuilt(children, es));
            rewrapped_is_sized(b.bytes, rebuilt(children, es));
        }
    }
    lemma_rebuilt_boxes(list, edits, 0);
}

/// The media is untouched: a box at the top level that is neither the movie box nor XMP stands in
/// a scrubbed file byte for byte, after what is left of the boxes before it.
pub proof fn scrub_copies_media(input: Seq<u8>, out: Seq<u8>, k: int)
    requires
        scrubbed(input) == Ok::<_, ScrubError>(Some(out)),
        0 <= k < boxes(input, 0)->Ok_0.len(),
        box_type(boxes(input, 0)->Ok_0[k].bytes) != MOOV,
        box_type(boxes(input, 0)->Ok_0[k].bytes) != UUID || !is_xmp(
            input,
            boxes(input, 0)->Ok_0[k],
        ),
    ensures
        ({
            let list = boxes(input, 0)->Ok_0;
            let edits = top_edits(input, list)->Ok_0;
            let from = rebuilt(list.take(k), edits.take(k)).len() as int;
            let to = from + list[k].bytes.len();
            to <= out.len() && out.subrange(from, to) == list[k].bytes
        }),
{
    let list = boxes(input, 0)->Ok_0;
    let edits = top_edits(input, list)->Ok_0;
    lemma_top_edits_each(input, list, k);
    crate::scrub::edit::lemma_rebuilt_keeps(list, edits, k);
}

proof fn lemma_boxes_located(s: Seq<u8>, at: int, k: int)
    requires
        boxes(s, at) is Ok,
        0 <= k < boxes(s, at)->Ok_0.len(),
    ensures
        ({
            let b = boxes(s, at)->Ok_0[k];
            &&& at <= b.at
            &&& b.at - at + b.bytes.len() <= s.len()
            &&& b.bytes == s.subrange(b.at - at, b.at - at + b.bytes.len())
        }),
    decreases s.len(),
{
    let n = box_len(s, at)->Ok_0;
    let rest = boxes(s.skip(n), at + n)->Ok_0;
    let b = boxes(s, at)->Ok_0[k];
    if k > 0 {
        assert(b == rest[k - 1]);
        lemma_boxes_located(s.skip(n), at + n, k - 1);
        assert(b.bytes =~= s.subrange(b.at - at, b.at - at + b.bytes.len()));
    } else {
        assert(b.bytes =~= s.subrange(0, n));
    }
}

/// Whether a `uuid` box whose body holds a user type is XMP is up to that body.
proof fn lemma_xmp_body(s: Seq<u8>, b: Piece)
    requires
        0 <= b.at,
        b.at + b.bytes.len() <= s.len(),
        b.bytes == s.subrange(b.at, b.at + b.bytes.len()),
        b.bytes.len() >= header_len(b.bytes) + 16,
    ensures
        is_xmp(s, b) == xmp_uuid().is_prefix_of(body(b.bytes)),
{
    assert(xmp_uuid().len() == 16);
    assert(s.skip(b.at + header_len(b.bytes)).subrange(0, 16) =~= body(b.bytes).subrange(0, 16));
}

/// That nothing is left to do with the box `b` at the top level, wherever it stands.
spec fn is_settled(b: Piece) -> bool {
    &&& box_type(b.bytes) == MOOV ==> container_edit(b) == Ok::<_, ScrubError>(
        Edit::<Seq<u8>>::Keep,
    )
    &&& box_type(b.bytes) == UUID && body(b.bytes).len() >= 16 ==> !xmp_uuid().is_prefix_of(
        body(b.bytes),
    )
}

proof fn lemma_remaining_settled(input: Seq<u8>, k: int)
    requires
        boxes(input, 0) is Ok,
        top_edits(input, boxes(input, 0)->Ok_0) is Ok,
        0 <= k <= boxes(input, 0)->Ok_0.len(),
        rebuilt(
            boxes(input, 0)->Ok_0,
            top_edits(input, boxes(input, 0)->Ok_0)->Ok_0,
        ).len() <= usize::MAX,
    ensures
        ({
            let list = boxes(input, 0)->Ok_0;
            let edits = top_edits(input, list)->Ok_0;
            let kept = remaining(list.take(k), edits.take(k), 0);
            forall|j: int| 0 <= j < kept.len() ==> is_settled(#[trigger] kept[j])
        }),
    decreases k,
{
    let list = boxes(input, 0)->Ok_0;
    let edits = top_edits(input, list)->Ok_0;
    if k > 0 {
        let b = list[k - 1];
        lemma_remaining_settled(input, k - 1);
        lemma_top_edits_each(input, list, k - 1);
        lemma_boxes_sized(input, 0);
        lemma_boxes_located(input, 0, k - 1);
        assert(is_sized(b.bytes));
        assert(list.take(k).drop_last() =~= list.take(k - 1));
        assert(edits.take(k).drop_last() =~= edits.take(k - 1));
        let before = rebuilt(list.take(k - 1), edits.take(k - 1));
        if !(edits[k - 1] is Drop) {
            let new = edited(b.bytes, edits[k - 1]);
            let p = Piece { at: before.len() as int, bytes: new };
            lemma_rebuilt_prefix(list, edits, k);
            if edits[k - 1] is Replace {
                lemma_container_clean(b, p.at);
                let h = header_len(b.bytes);
                let children = boxes(body(b.bytes), b.at + h)->Ok_0;
                let es = child_edits(box_type(b.bytes), children)->Ok_0;
                lemma_rewrapped(b.bytes, rebuilt(children, es));
            } else if box_type(b.bytes) == MOOV {
                lemma_container_edit_shift(b, p.at - b.at);
            } else if box_type(b.bytes) == UUID && body(b.bytes).len() >= 16 {
                lemma_xmp_body(input, b);
            }
            assert(is_settled(p));
        }
        let kept1 = remaining(list.take(k - 1), edits.take(k - 1), 0);
        let kept = remaining(list.take(k), edits.take(k), 0);
        assert(edits.take(k).last() == edits[k - 1]);
        assert(list.take(k).last() == b);
        assert forall|j: int| 0 <= j < kept.len() implies is_settled(#[trigger] kept[j]) by {
            if j < kept1.len() {
                assert(kept[j] == kept1[j]);
            }
        }
    }
}

proof fn lemma_rebuilt_prefix(list: Seq<Piece>, edits: Seq<Edit<Seq<u8>>>, k: int)
    requires
        edits.len() == list.len(),
        0 <= k <= list.len(),
    ensures
        rebuilt(list.take(k), edits.take(k)).len() <= rebuilt(list, edits).len(),
    decreases list.len(),
{
    if k == list.len() {
        assert(list.take(k) =~= list);
        assert(edits.take(k) =~= edits);
    } else {
        assert(list.drop_last().take(k) =~= list.take(k));
        assert(edits.drop_last().take(k) =~= edits.take(k));
        lemma_rebuilt_prefix(list.drop_last(), edits.drop_last(), k);
    }
}

proof fn lemma_top_edits_keep(input: Seq<u8>, list: Seq<Piece>)
    requires
        forall|k: int|
            0 <= k < list.len() ==> top_edit(input, #[trigger] list[k]) == Ok::<_, ScrubError>(
                Edit::<Seq<u8>>::Keep,
            ),
    ensures
        top_edits(input, list) is Ok,
        !changed(top_edits(input, list)->Ok_0),
    decreases list.len(),
{
    if list.len() > 0 {
        let list1 = list.drop_last();
        assert forall|k: int| 0 <= k < list1.len() implies top_edit(
            input,
            #[trigger] list1[k],
        ) == Ok::<_, ScrubError>(Edit::<Seq<u8>>::Keep) by {
            assert(list1[k] == list[k]);
        }
        lemma_top_edits_keep(input, list1);
        assert(list[list.len() - 1] == list.last());
        crate::scrub::edit::lemma_changed_push(top_edits(input, list1)->Ok_0, Edit::Keep);
    }
}

/// A scrub is done at once: in a scrubbed file there is nothing left to remove. That needs
/// something to be left of the file, and no `uuid` box to be made XMP by what comes after it.
pub proof fn scrub_is_idempotent(input: Seq<u8>, out: Seq<u8>)
    requires
        scrubbed(input) == Ok::<_, ScrubError>(Some(out)),
        out.len() <= usize::MAX,
        out.len() > 0,
        no_stray_xmp(out),
    ensures
        scrubbed(out) == Ok::<_, ScrubError>(None::<Seq<u8>>),
{
    let list = boxes(input, 0)->Ok_0;
    let edits = top_edits(input, list)->Ok_0;
    scrub_keeps_the_boxes(input, out);
    let kept = boxes(out, 0)->Ok_0;
    if list.len() > 0 {
        lemma_top_edits_each(input, list, 0);
    }
    lemma_remaining_settled(input, list.len() as int);
    assert(list.take(list.len() as int) =~= list);
    assert(edits.take(list.len() as int) =~= edits);
    lemma_boxes_sized(out, 0);
    assert forall|k: int| 0 <= k < kept.len() implies top_edit(out, #[trigger] kept[k]) == Ok::<
        _,
        ScrubError,
    >(Edit::<Seq<u8>>::Keep) by {
        assert(is_settled(kept[k]));
        assert(is_sized(kept[k].bytes));
        lemma_boxes_located(out, 0, k);
        if box_type(kept[k].bytes) == UUID && body(kept[k].bytes).len() >= 16 {
            lemma_xmp_body(out, kept[k]);
        }
    }
    lemma_top_edits_keep(out, kept);
    assert(out.len() < 8 ==> kept =~= Seq::<Piece>::empty());
}

/// In a scrubbed file nothing is left to do with any box: no box at the top level is XMP, and every
/// movie box is one that a scrub keeps as it is.
pub proof fn scrub_leaves_no_metadata(input: Seq<u8>, out: Seq<u8>, j: int)
    requires
        scrubbed(input) == Ok::<_, ScrubError>(Some(out)),
        out.len() <= usize::MAX,
        no_stray_xmp(out),
        0 <= j < boxes(out, 0)->Ok_0.len(),
    ensures
        ({
            let b = boxes(out, 0)->Ok_0[j];
            &&& box_type(b.bytes) == UUID ==> !is_xmp(out, b)
            &&& box_type(b.bytes) == MOOV ==> container_edit(b) == Ok::<_, ScrubError>(
                Edit::<Seq<u8>>::Keep,
            )
        }),
{
    scrub_keeps_the_boxes(input, out);
    let kept = boxes(out, 0)->Ok_0;
    lemma_boxes_total(out, 0);
    assert(out.len() > 0) by {
        if out.len() < 8 {
            assert(kept.len() == 0);
        }
    }
    scrub_is_idempotent(input, out);
    lemma_top_edits_each(out, kept, j);
    let edits = top_edits(out, kept)->Ok_0;
    assert(edits[j] is Keep);
}

/// A container that a scrub keeps as it is holds no metadata: none of its boxes is of a type that
/// is dropped there, the times in it are zero, and the same goes for the containers in it.
pub proof fn kept_container_holds_no_metadata(b: Piece, j: int)
    requires
        b.bytes.len() >= header_len(b.bytes),
        container_edit(b) == Ok::<_, ScrubError>(Edit::<Seq<u8>>::Keep),
        0 <= j < boxes(body(b.bytes), b.at + header_len(b.bytes))->Ok_0.len(),
    ensures
        ({
            let child = boxes(body(b.bytes), b.at + header_len(b.bytes))->Ok_0[j];
            let typ = box_type(child.bytes);
            &&& !is_dropped(box_type(b.bytes), typ)
            &&& is_time_box(typ) ==> match times_end(child.bytes) {
                Some(end) => forall|k: int|
                    times_start(child.bytes) <= k < end ==> child.bytes[k] == 0,
                None => true,
            }
            &&& is_container(typ) ==> container_edit(child) == Ok::<_, ScrubError>(
                Edit::<Seq<u8>>::Keep,
            )
        }),
{
    let parent = box_type(b.bytes);
    let children = boxes(body(b.bytes), b.at + header_len(b.bytes))->Ok_0;
    let edits = child_edits(parent, children)->Ok_0;
    lemma_child_edits_each(parent, children, j);
    assert(edits[j] is Keep);
}

/// A size that begins in the middle of the XMP user type is at least this.
pub const STRAY_SIZE: u32 = 0x42E89C71;

/// What the first four bytes of `s` give as a size, where they go on with the XMP user type from
/// its byte `from` on.
proof fn lemma_stray_size(s: Seq<u8>, from: int)
    requires
        0 <= from < 16,
        s.len() >= 4,
        forall|k: int| from <= k < 16 && k - from < 4 ==> s[k - from] == #[trigger] xmp_uuid()[k],
    ensures
        be32(s, 0) >= STRAY_SIZE,
{
    reveal(be32);
    let u = xmp_uuid();
    assert(s[0] == u[from]);
    assert(from < 15 ==> s[1] == u[from + 1]);
    assert(from < 14 ==> s[2] == u[from + 2]);
    assert(from < 13 ==> s[3] == u[from + 3]);
}

proof fn lemma_no_stray_xmp(out: Seq<u8>, at: int, k: int)
    requires
        0 <= at <= out.len(),
        out.len() < STRAY_SIZE,
        boxes(out.skip(at), at) is Ok,
        total(boxes(out.skip(at), at)->Ok_0) == out.len() - at,
        0 <= k < boxes(out.skip(at), at)->Ok_0.len(),
        body(boxes(out.skip(at), at)->Ok_0[k].bytes).len() < 16,
    ensures
        !is_xmp(out, boxes(out.skip(at), at)->Ok_0[k]),
    decreases out.len() - at,
{
    let s = out.skip(at);
    let n = box_len(s, at)->Ok_0;
    let raw = s.take(n);
    let rest = boxes(s.skip(n), at + n)->Ok_0;
    let list = boxes(s, at)->Ok_0;
    assert(list =~= seq![Piece { at, bytes: raw }] + rest);
    lemma_total_front(Piece { at, bytes: raw }, rest);
    be32_same(raw, 0, s, 0);
    assert(s.skip(n) =~= out.skip(at + n));
    if k > 0 {
        assert(list[k] == rest[k - 1]);
        lemma_no_stray_xmp(out, at + n, k - 1);
    } else if is_xmp(out, list[0]) {
        let h = header_len(raw);
        let u = xmp_uuid();
        let tail = out.skip(at + h);
        assert(u.len() == 16);
        assert(tail.len() >= 16);
        assert(forall|i: int| 0 <= i < 16 ==> #[trigger] u[i] == tail[i]);
        let next = s.skip(n);
        assert(next.len() == total(rest));
        assert(rest.len() > 0);
        assert(next.len() >= 8);
        assert(box_len(next, at + n) is Ok);
        let from = n - h;
        assert forall|i: int| from <= i < 16 && i - from < 4 implies next[i - from]
            == #[trigger] u[i] by {
            assert(next[i - from] == tail[i]);
        }
        lemma_stray_size(next, from);
    }
}

/// In a file of boxes that is shorter than `STRAY_SIZE` no `uuid` box is marked as XMP by bytes
/// that are not its own.
pub proof fn short_files_have_no_stray_xmp(out: Seq<u8>)
    requires
        out.len() < STRAY_SIZE,
        boxes(out, 0) matches Ok(list) ==> total(list) == out.len(),
    ensures
        no_stray_xmp(out),
{
    assert(out.skip(0) =~= out);
    if let Ok(list) = boxes(out, 0) {
        assert forall|k: int|
            0 <= k < list.len() && box_type((#[trigger] list[k]).bytes) == UUID && body(
                list[k].bytes,
            ).len() < 16 implies !is_xmp(out, list[k]) by {
            lemma_no_stray_xmp(out, 0, k);
        }
    }
}

/// Scrubbing is idempotent for every file of which less than `STRAY_SIZE`, about a gigabyte, is
/// left, if anything is.
pub proof fn short_scrub_is_idempotent(input: Seq<u8>, out: Seq<u8>)
    requires
        scrubbed(input) == Ok::<_, ScrubError>(Some(out)),
        0 < out.len() < STRAY_SIZE,
        out.len() <= usize::MAX,
    ensures
        no_stray_xmp(out),
        scrubbed(out) == Ok::<_, ScrubError>(None::<Seq<u8>>),
{
    scrub_keeps_the_boxes(input, out);
    short_files_have_no_stray_xmp(out);
    scrub_is_idempotent(input, out);
}

} // verus!
