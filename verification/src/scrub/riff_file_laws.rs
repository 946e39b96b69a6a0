//! What a scrub makes of a WebP or AVI file that is put together from its chunks.
use vstd::prelude::*;
use crate::bytes::{
    be32, be32_bytes, be32_same, be32_spells, le32, le32_bytes, le32_range, le32_same,
};
use crate::error::ScrubError;
use crate::scrub::riff_laws;
use crate::scrub::edit::{edited, lemma_rebuilt_front, lemma_rebuilt_keeps, rebuilt, Edit, Piece};
use crate::scrub::riff::{
    avi_scrubbed, chunk_len, chunks, drops, webp_edit, webp_edits, webp_scrubbed, wrapped, AVI,
    RIFF, WEBP,
};

verus! {

/// A chunk. `body` is its payload with the padding, and `odd` says that the last byte is padding.
pub struct Chunk {
    pub code: Seq<u8>,
    pub body: Seq<u8>,
    pub odd: bool,
}

/// `n` in four bytes, least significant first.
pub open spec fn size_bytes(n: int) -> Seq<u8> {
    seq![
        (n % 0x100) as u8,
        (n / 0x100 % 0x100) as u8,
        (n / 0x1_0000 % 0x100) as u8,
        (n / 0x100_0000 % 0x100) as u8,
    ]
}

/// How long the chunk says that its payload is.
pub open spec fn declared(chunk: Chunk) -> int {
    if chunk.odd {
        chunk.body.len() - 1
    } else {
        chunk.body.len() as int
    }
}

/// That there can be such a chunk.
pub open spec fn is_chunk(chunk: Chunk) -> bool {
    &&& chunk.code.len() == 4
    &&& chunk.body.len() % 2 == 0
    &&& 0 <= declared(chunk) <= 0xFFFF_FFFF
}

/// The chunk as it stands in a file.
pub open spec fn chunk_bytes(chunk: Chunk) -> Seq<u8> {
    chunk.code + size_bytes(declared(chunk)) + chunk.body
}

/// The chunks as they stand in a file, one after the other.
pub open spec fn written(list: Seq<Chunk>) -> Seq<u8>
    decreases list.len(),
{
    if list.len() == 0 {
        Seq::empty()
    } else {
        chunk_bytes(list[0]) + written(list.skip(1))
    }
}

/// A RIFF file: "RIFF", four bytes of size, the form, and what it holds.
pub open spec fn riff_file(size: Seq<u8>, form: Seq<u8>, held: Seq<u8>) -> Seq<u8> {
    seq![0x52u8, 0x49, 0x46, 0x46] + size + form + held
}

/// "WEBP"
pub open spec fn webp_form() -> Seq<u8> {
    seq![0x57u8, 0x45, 0x42, 0x50]
}

/// "AVI "
pub open spec fn avi_form() -> Seq<u8> {
    seq![0x41u8, 0x56, 0x49, 0x20]
}

/// "EXIF"
pub open spec fn exif_code() -> Seq<u8> {
    seq![0x45u8, 0x58, 0x49, 0x46]
}

/// "XMP "
pub open spec fn xmp_code() -> Seq<u8> {
    seq![0x58u8, 0x4D, 0x50, 0x20]
}

/// "VP8X"
pub open spec fn vp8x_code() -> Seq<u8> {
    seq![0x56u8, 0x50, 0x38, 0x58]
}

/// What can be read off a chunk that stands before `rest`.
pub proof fn lemma_chunk_bytes(chunk: Chunk, rest: Seq<u8>)
    requires
        is_chunk(chunk),
    ensures
        ({
            let raw = chunk_bytes(chunk);
            &&& raw.len() == 8 + chunk.body.len()
            &&& le32(raw + rest, 4) == declared(chunk)
            &&& raw.take(4) == chunk.code
            &&& raw.skip(8) == chunk.body
        }),
{
    let raw = chunk_bytes(chunk);
    let n = declared(chunk);
    let s = raw + rest;
    assert(s[4] == (n % 0x100) as u8 && s[5] == (n / 0x100 % 0x100) as u8);
    assert(s[6] == (n / 0x1_0000 % 0x100) as u8 && s[7] == (n / 0x100_0000 % 0x100) as u8);
    assert(le32(s, 4) == n) by {
        reveal(le32);
    }
    assert(raw.take(4) =~= chunk.code);
    assert(raw.skip(8) =~= chunk.body);
}

/// A chunk that stands before `after` is the first that is found.
pub proof fn lemma_chunk_first(chunk: Chunk, after: Seq<u8>, at: int)
    requires
        is_chunk(chunk),
        0 <= at,
        at + chunk_bytes(chunk).len() <= usize::MAX,
        chunks(after, at + chunk_bytes(chunk).len()) is Ok,
    ensures
        chunks(chunk_bytes(chunk) + after, at) == Ok::<_, ScrubError>(
            seq![Piece { at, bytes: chunk_bytes(chunk) }] + chunks(
                after,
                at + chunk_bytes(chunk).len(),
            )->Ok_0,
        ),
{
    let raw = chunk_bytes(chunk);
    let s = raw + after;
    let n = raw.len() as int;
    lemma_chunk_bytes(chunk, after);
    assert(s.take(n) =~= raw);
    assert(s.skip(n) =~= after);
}

/// What can be read off the header of a RIFF file.
pub proof fn lemma_riff(size: Seq<u8>, form: Seq<u8>, held: Seq<u8>)
    requires
        size.len() == 4,
        form.len() == 4,
    ensures
        ({
            let file = riff_file(size, form, held);
            &&& file.len() == 12 + held.len()
            &&& be32(file, 0) == RIFF
            &&& be32(file, 8) == be32(form, 0)
            &&& file.skip(12) == held
        }),
{
    let file = riff_file(size, form, held);
    assert(file.subrange(0, 4) =~= seq![0x52u8, 0x49, 0x46, 0x46]);
    be32_spells(file, 0, 0x52, 0x49, 0x46, 0x46);
    be32_same(file, 8, form, 0);
    assert(file.skip(12) =~= held);
}

/// What is wrapped anew is a RIFF file with the size of what it holds.
pub proof fn lemma_wrapped_riff(form: u32, a: u8, b: u8, c: u8, d: u8, held: Seq<u8>)
    requires
        form == a * 0x100_0000 + b * 0x1_0000 + c * 0x100 + d,
    ensures
        wrapped(RIFF, form as int, held) == riff_file(
            size_bytes(4 + held.len() as int),
            seq![a, b, c, d],
            held,
        ),
{
    reveal(be32_bytes);
    reveal(le32_bytes);
    assert(be32_bytes(RIFF as int) =~= seq![0x52u8, 0x49, 0x46, 0x46]);
    assert(form / 0x100_0000 == a && form / 0x1_0000 == a * 0x100 + b && form / 0x100 == a
        * 0x1_0000 + b * 0x100 + c);
    assert(be32_bytes(form as int) =~= seq![a, b, c, d]);
    assert(le32_bytes(4 + held.len() as int) =~= size_bytes(4 + held.len() as int));
}

/// What becomes of a chunk of a WebP file goes by its four letters. One of `EXIF` or `XMP ` is
/// dropped. One of `VP8X` loses the bits 0x08 and 0x04 of its first data byte and nothing else. Any
/// other is kept as it is.
pub proof fn webp_chunks_change_by_their_code(raw: Seq<u8>)
    requires
        raw.len() >= 8,
    ensures
        ({
            let code = raw.take(4);
            if code == exif_code() || code == xmp_code() {
                webp_edit(raw) is Drop
            } else if code == vp8x_code() && raw.len() >= 12 {
                &&& webp_edit(raw) matches Edit::Replace(new)
                &&& new.len() == raw.len()
                &&& forall|i: int| 0 <= i < raw.len() && i != 8 ==> new[i] == raw[i]
                &&& new[8] & 0x0C == 0
                &&& new[8] & 0xF3 == raw[8] & 0xF3
            } else {
                webp_edit(raw) is Keep
            }
        }),
{
    assert(raw.take(4) =~= raw.subrange(0, 4));
    be32_spells(raw, 0, 0x45, 0x58, 0x49, 0x46);
    be32_spells(raw, 0, 0x58, 0x4D, 0x50, 0x20);
    be32_spells(raw, 0, 0x56, 0x50, 0x38, 0x58);
    let b = raw[8];
    assert((b & 0xF3) & 0x0C == 0) by (bit_vector);
    assert((b & 0xF3) & 0xF3 == b & 0xF3) by (bit_vector);
}

/// The picture is untouched: a chunk of a WebP file other than `EXIF`, `XMP ` and `VP8X` stands in
/// the scrubbed file byte for byte, after what is left of the chunks before it.
pub proof fn webp_scrub_copies_the_picture(input: Seq<u8>, out: Seq<u8>, k: int)
    requires
        webp_scrubbed(input) == Ok::<_, ScrubError>(Some(out)),
        0 <= k < chunks(input.skip(12), 0)->Ok_0.len(),
        ({
            let code = chunks(input.skip(12), 0)->Ok_0[k].bytes.take(4);
            code != exif_code() && code != xmp_code() && code != vp8x_code()
        }),
    ensures
        ({
            let list = chunks(input.skip(12), 0)->Ok_0;
            let edits = webp_edits(list);
            let from = 12 + rebuilt(list.take(k), edits.take(k)).len() as int;
            let to = from + list[k].bytes.len();
            to <= out.len() && out.subrange(from, to) == list[k].bytes
        }),
{
    let list = chunks(input.skip(12), 0)->Ok_0;
    let edits = webp_edits(list);
    riff_laws::lemma_chunks_sized(input.skip(12), 0);
    le32_range(list[k].bytes, 4);
    webp_chunks_change_by_their_code(list[k].bytes);
    lemma_rebuilt_keeps(list, edits, k);
    riff_laws::lemma_wrapped(RIFF, WEBP as int, rebuilt(list, edits));
    let from = rebuilt(list.take(k), edits.take(k)).len() as int;
    let to = from + list[k].bytes.len();
    assert(out.subrange(12 + from, 12 + to) =~= out.skip(12).subrange(from, to));
}

/// Whether a chunk of a WebP file is private.
pub open spec fn webp_private(chunk: Chunk) -> bool {
    chunk.code == exif_code() || chunk.code == xmp_code()
}

/// The chunk of a WebP file that stands for `chunk`: in a `VP8X` chunk the bits that announce EXIF
/// and XMP are cleared.
pub open spec fn webp_public(chunk: Chunk) -> Chunk {
    if chunk.code == vp8x_code() && chunk.body.len() >= 4 {
        Chunk { body: chunk.body.update(0, chunk.body[0] & 0xF3), ..chunk }
    } else {
        chunk
    }
}

/// What is left of the chunks of a WebP file.
pub open spec fn webp_left(list: Seq<Chunk>) -> Seq<Chunk>
    decreases list.len(),
{
    if list.len() == 0 {
        Seq::empty()
    } else if webp_private(list[0]) {
        webp_left(list.skip(1))
    } else {
        seq![webp_public(list[0])] + webp_left(list.skip(1))
    }
}

proof fn lemma_webp_edits_front(first: Piece, rest: Seq<Piece>)
    ensures
        webp_edits(seq![first] + rest) == seq![webp_edit(first.bytes)] + webp_edits(rest),
        drops(webp_edits(seq![first] + rest)) == (webp_edit(first.bytes) is Drop || drops(
            webp_edits(rest),
        )),
{
    let list = seq![first] + rest;
    let edits = webp_edits(list);
    assert forall|k: int| 0 <= k < rest.len() implies list[k + 1] == rest[k] by {}
    assert(edits =~= seq![webp_edit(first.bytes)] + webp_edits(rest));
    if webp_edit(first.bytes) is Drop {
        assert(edits[0] is Drop);
    }
    if drops(webp_edits(rest)) {
        let k = choose|k: int|
            0 <= k < webp_edits(rest).len() && #[trigger] webp_edits(rest)[k] is Drop;
        assert(edits[k + 1] is Drop);
    }
    if drops(edits) {
        let k = choose|k: int| 0 <= k < edits.len() && #[trigger] edits[k] is Drop;
        if k > 0 {
            assert(webp_edits(rest)[k - 1] is Drop);
        }
    }
}

spec fn any_webp_private(list: Seq<Chunk>) -> bool
    decreases list.len(),
{
    list.len() > 0 && (webp_private(list[0]) || any_webp_private(list.skip(1)))
}

proof fn lemma_any_webp_private(list: Seq<Chunk>)
    ensures
        any_webp_private(list) <==> exists|k: int|
            0 <= k < list.len() && webp_private(#[trigger] list[k]),
    decreases list.len(),
{
    if list.len() > 0 {
        let rest = list.skip(1);
        lemma_any_webp_private(rest);
        if any_webp_private(rest) {
            let k = choose|k: int| 0 <= k < rest.len() && webp_private(#[trigger] rest[k]);
            assert(webp_private(list[k + 1]));
        }
        if exists|k: int| 0 <= k < list.len() && webp_private(#[trigger] list[k]) {
            let k = choose|k: int| 0 <= k < list.len() && webp_private(#[trigger] list[k]);
            if k > 0 {
                assert(webp_private(rest[k - 1]));
            }
        }
    }
}

proof fn lemma_webp_chunk(chunk: Chunk)
    requires
        is_chunk(chunk),
    ensures
        webp_edit(chunk_bytes(chunk)) is Drop == webp_private(chunk),
        edited(chunk_bytes(chunk), webp_edit(chunk_bytes(chunk))) == if webp_private(chunk) {
            Seq::empty()
        } else {
            chunk_bytes(webp_public(chunk))
        },
{
    let raw = chunk_bytes(chunk);
    lemma_chunk_bytes(chunk, Seq::empty());
    webp_chunks_change_by_their_code(raw);
    if chunk.code == vp8x_code() && chunk.body.len() >= 4 {
        let new = webp_edit(raw)->Replace_0;
        let b = raw[8];
        assert(raw[8] == chunk.body[0]);
        let c = new[8];
        assert(c == b & 0xF3) by (bit_vector)
            requires
                c & 0x0C == 0,
                c & 0xF3 == b & 0xF3,
        ;
        assert(new =~= chunk_bytes(webp_public(chunk)));
    }
}

proof fn lemma_webp_written(list: Seq<Chunk>, slack: Seq<u8>, at: int)
    requires
        forall|k: int| 0 <= k < list.len() ==> is_chunk(#[trigger] list[k]),
        slack.len() < 8,
        0 <= at,
        at + written(list).len() <= usize::MAX,
    ensures
        ({
            &&& chunks(written(list) + slack, at) matches Ok(found)
            &&& rebuilt(found, webp_edits(found)) == written(webp_left(list))
            &&& drops(webp_edits(found)) == any_webp_private(list)
        }),
    decreases list.len(),
{
    if list.len() == 0 {
        assert(written(list) + slack =~= slack);
        assert(webp_edits(Seq::empty()) =~= Seq::empty());
    } else {
        let chunk = list[0];
        let rest = list.skip(1);
        let raw = chunk_bytes(chunk);
        let after = written(rest) + slack;
        assert(written(list) + slack =~= raw + after);
        assert forall|k: int| 0 <= k < rest.len() implies is_chunk(#[trigger] rest[k]) by {
            assert(rest[k] == list[k + 1]);
        }
        lemma_webp_written(rest, slack, at + raw.len());
        lemma_chunk_first(chunk, after, at);
        let p = Piece { at, bytes: raw };
        let found = chunks(after, at + raw.len())->Ok_0;
        lemma_webp_edits_front(p, found);
        lemma_rebuilt_front(p, webp_edit(raw), found, webp_edits(found));
        lemma_webp_chunk(chunk);
        let kept = webp_left(rest);
        let new = webp_public(chunk);
        assert((seq![new] + kept).skip(1) =~= kept);
        assert(Seq::<u8>::empty() + written(kept) =~= written(kept));
    }
}

/// A scrub of a WebP file takes out its `EXIF` and `XMP ` chunks, clears the bits that announce
/// them, corrects the size, and leaves all else as it is, in its order. It finds nothing where
/// there is no such chunk. Fewer than eight bytes after the last chunk go.
pub proof fn webp_scrub_takes_out_the_private_chunks(
    size: Seq<u8>,
    list: Seq<Chunk>,
    slack: Seq<u8>,
)
    requires
        size.len() == 4,
        slack.len() < 8,
        forall|k: int| 0 <= k < list.len() ==> is_chunk(#[trigger] list[k]),
        written(list).len() <= usize::MAX,
    ensures
        ({
            let file = riff_file(size, webp_form(), written(list) + slack);
            let held = written(webp_left(list));
            &&& (exists|k: int| 0 <= k < list.len() && webp_private(#[trigger] list[k]))
                ==> webp_scrubbed(file) == Ok::<_, ScrubError>(
                Some(riff_file(size_bytes(4 + held.len() as int), webp_form(), held)),
            )
            &&& (forall|k: int| 0 <= k < list.len() ==> !webp_private(#[trigger] list[k]))
                ==> webp_scrubbed(file) == Ok::<_, ScrubError>(None::<Seq<u8>>)
        }),
{
    let held = written(list) + slack;
    lemma_riff(size, webp_form(), held);
    be32_spells(webp_form(), 0, 0x57, 0x45, 0x42, 0x50);
    assert(webp_form().subrange(0, 4) =~= webp_form());
    lemma_any_webp_private(list);
    lemma_webp_written(list, slack, 0);
    lemma_wrapped_riff(WEBP, 0x57, 0x45, 0x42, 0x50, written(webp_left(list)));
}

/// Bytes in which chunks are found are made of these chunks and fewer than eight
/// bytes more.
pub proof fn lemma_taken_apart(s: Seq<u8>, at: int) -> (r: (Seq<Chunk>, Seq<u8>))
    requires
        chunks(s, at) is Ok,
    ensures
        forall|k: int| 0 <= k < r.0.len() ==> is_chunk(#[trigger] r.0[k]),
        r.1.len() < 8,
        s == written(r.0) + r.1,
    decreases s.len(),
{
    if s.len() < 8 {
        assert(s =~= written(Seq::empty()) + s);
        (Seq::empty(), s)
    } else {
        let n = chunk_len(s, at)->Ok_0;
        let size = le32(s, 4);
        le32_range(s, 4);
        let chunk = Chunk { code: s.take(4), body: s.subrange(8, n), odd: size % 2 == 1 };
        assert(size == s[4] + s[5] * 0x100 + s[6] * 0x1_0000 + s[7] * 0x100_0000) by {
            reveal(le32);
        }
        assert(size / 0x100 == s[5] + s[6] * 0x100 + s[7] * 0x1_0000);
        assert(size / 0x1_0000 == s[6] + s[7] * 0x100);
        assert(size / 0x100_0000 == s[7]);
        assert(declared(chunk) == size);
        assert(chunk_bytes(chunk) =~= s.take(n));
        let (rest, slack) = lemma_taken_apart(s.skip(n), at + n);
        let list = seq![chunk] + rest;
        assert(list.skip(1) =~= rest);
        assert forall|k: int| 0 <= k < list.len() implies is_chunk(#[trigger] list[k]) by {
            if k > 0 {
                assert(list[k] == rest[k - 1]);
            }
        }
        assert(s =~= s.take(n) + s.skip(n));
        assert(s.take(n) + (written(rest) + slack) =~= written(list) + slack);
        (list, slack)
    }
}

/// A scrub goes along with nothing but such files.
pub proof fn accepted_webp_files_are_put_together_so(input: Seq<u8>) -> (r: (
    Seq<u8>,
    Seq<Chunk>,
    Seq<u8>,
))
    requires
        webp_scrubbed(input) is Ok,
    ensures
        r.0.len() == 4,
        forall|k: int| 0 <= k < r.1.len() ==> is_chunk(#[trigger] r.1[k]),
        r.2.len() < 8,
        input == riff_file(r.0, webp_form(), written(r.1) + r.2),
{
    let (list, slack) = lemma_taken_apart(input.skip(12), 0);
    be32_spells(input, 0, 0x52, 0x49, 0x46, 0x46);
    be32_spells(input, 8, 0x57, 0x45, 0x42, 0x50);
    assert(input =~= input.subrange(0, 4) + input.subrange(4, 8) + input.subrange(8, 12)
        + input.skip(12));
    (input.subrange(4, 8), list, slack)
}

/// What is not a RIFF file of form `WEBP` is refused as a WebP file, and what is not one of form
/// `AVI ` as an AVI file.
pub proof fn other_forms_are_refused(input: Seq<u8>)
    ensures
        input.len() < 12 || input.take(4) != seq![0x52u8, 0x49, 0x46, 0x46] || input.subrange(8, 12)
            != webp_form() ==> webp_scrubbed(input) == Err::<Option<Seq<u8>>, _>(
            ScrubError::NotWebp,
        ),
        input.len() < 12 || input.take(4) != seq![0x52u8, 0x49, 0x46, 0x46] || input.subrange(8, 12)
            != avi_form() ==> avi_scrubbed(input) == Err::<Option<Seq<u8>>, _>(ScrubError::NotAvi),
{
    if input.len() >= 12 {
        assert(input.take(4) =~= input.subrange(0, 4));
        be32_spells(input, 0, 0x52, 0x49, 0x46, 0x46);
        be32_spells(input, 8, 0x57, 0x45, 0x42, 0x50);
        be32_spells(input, 8, 0x41, 0x56, 0x49, 0x20);
    }
}

/// A file whose last chunk is cut short after its header is refused.
pub proof fn cut_files_are_refused(size: Seq<u8>, list: Seq<Chunk>, last: Chunk, n: int)
    requires
        size.len() == 4,
        forall|k: int| 0 <= k < list.len() ==> is_chunk(#[trigger] list[k]),
        is_chunk(last),
        8 <= n < chunk_bytes(last).len(),
        written(list).len() + chunk_bytes(last).len() <= usize::MAX,
    ensures
        ({
            let held = written(list) + chunk_bytes(last).take(n);
            &&& webp_scrubbed(riff_file(size, webp_form(), held)) == Err::<Option<Seq<u8>>, _>(
                ScrubError::RiffChunkPastEnd,
            )
            &&& avi_scrubbed(riff_file(size, avi_form(), held)) == Err::<Option<Seq<u8>>, _>(
                ScrubError::RiffChunkPastEnd,
            )
        }),
{
    let held = written(list) + chunk_bytes(last).take(n);
    lemma_cut(list, last, n, 0);
    lemma_riff(size, webp_form(), held);
    lemma_riff(size, avi_form(), held);
    be32_spells(webp_form(), 0, 0x57, 0x45, 0x42, 0x50);
    be32_spells(avi_form(), 0, 0x41, 0x56, 0x49, 0x20);
    assert(webp_form().subrange(0, 4) =~= webp_form());
    assert(avi_form().subrange(0, 4) =~= avi_form());
}

proof fn lemma_cut_last(last: Chunk, n: int, at: int)
    requires
        is_chunk(last),
        8 <= n < chunk_bytes(last).len(),
        0 <= at,
        at + chunk_bytes(last).len() <= usize::MAX,
    ensures
        chunks(chunk_bytes(last).take(n), at) == Err::<Seq<Piece>, _>(
            ScrubError::RiffChunkPastEnd,
        ),
{
    let whole = chunk_bytes(last);
    let cut = whole.take(n);
    lemma_chunk_bytes(last, Seq::empty());
    assert(whole + Seq::<u8>::empty() =~= whole);
    le32_same(cut, 4, whole, 4);
    assert(chunk_len(cut, at) == Err::<int, _>(ScrubError::RiffChunkPastEnd));
}

proof fn lemma_cut_after(chunk: Chunk, after: Seq<u8>, at: int)
    requires
        is_chunk(chunk),
        0 <= at,
        at + chunk_bytes(chunk).len() <= usize::MAX,
        chunks(after, at + chunk_bytes(chunk).len()) == Err::<Seq<Piece>, _>(
            ScrubError::RiffChunkPastEnd,
        ),
    ensures
        chunks(chunk_bytes(chunk) + after, at) == Err::<Seq<Piece>, _>(
            ScrubError::RiffChunkPastEnd,
        ),
{
    let s = chunk_bytes(chunk) + after;
    let m = chunk_bytes(chunk).len() as int;
    lemma_chunk_bytes(chunk, after);
    assert(s.skip(m) =~= after);
}

proof fn lemma_cut(list: Seq<Chunk>, last: Chunk, n: int, at: int)
    requires
        forall|k: int| 0 <= k < list.len() ==> is_chunk(#[trigger] list[k]),
        is_chunk(last),
        8 <= n < chunk_bytes(last).len(),
        0 <= at,
        at + written(list).len() + chunk_bytes(last).len() <= usize::MAX,
    ensures
        chunks(written(list) + chunk_bytes(last).take(n), at) == Err::<Seq<Piece>, _>(
            ScrubError::RiffChunkPastEnd,
        ),
    decreases list.len(),
{
    let cut = chunk_bytes(last).take(n);
    let s = written(list) + cut;
    if list.len() == 0 {
        assert(s =~= cut);
        lemma_cut_last(last, n, at);
    } else {
        let chunk = list[0];
        let rest = list.skip(1);
        let m = chunk_bytes(chunk).len() as int;
        assert(s =~= chunk_bytes(chunk) + (written(rest) + cut));
        assert forall|k: int| 0 <= k < rest.len() implies is_chunk(#[trigger] rest[k]) by {
            assert(rest[k] == list[k + 1]);
        }
        lemma_cut(rest, last, n, at + m);
        lemma_cut_after(chunk, written(rest) + cut, at);
    }
}

} // verus!
