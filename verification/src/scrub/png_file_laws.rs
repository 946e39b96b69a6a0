//! What a scrub makes of a PNG file that is put together from its chunks.
use vstd::prelude::*;
use vstd::string::StringSliceAdditionalSpecFns;
use crate::bytes::{be32, be32_range, be32_same, be32_spells};
use crate::error::ScrubError;
use crate::scrub::png_laws;
use crate::scrub::edit::{changed, lemma_rebuilt_front, rebuilt, Edit, Piece};
use crate::scrub::png::{
    chunk_edits, chunk_len, chunks, has_keyword, is_metadata, lower, scrubbed, signature,
};

verus! {

/// Whether `b` is the letter `c`, large or small, or the same sign.
pub open spec fn is_letter(b: u8, c: char) -> bool {
    ||| b as u32 == c as u32
    ||| 'a' <= c && c <= 'z' && b as u32 + 0x20 == c as u32
    ||| 'A' <= c && c <= 'Z' && b as u32 == c as u32 + 0x20
}

/// Whether `data` begins with `word`, in large or small letters, and a zero byte.
pub open spec fn begins_with_keyword(data: Seq<u8>, word: Seq<char>) -> bool {
    &&& data.len() > word.len()
    &&& data[word.len() as int] == 0
    &&& forall|i: int| 0 <= i < word.len() ==> is_letter(#[trigger] data[i], word[i])
}

/// Whether a chunk tells of the picture's origin: `eXIf`, or `tEXt`, `zTXt` or `iTXt` under one of
/// the four keywords of XMP, EXIF, IPTC and Photoshop data.
pub open spec fn is_private(typ: Seq<u8>, data: Seq<u8>) -> bool {
    ||| typ == seq![0x65u8, 0x58, 0x49, 0x66]
    ||| {
        &&& {
            ||| typ == seq![0x74u8, 0x45, 0x58, 0x74]
            ||| typ == seq![0x7Au8, 0x54, 0x58, 0x74]
            ||| typ == seq![0x69u8, 0x54, 0x58, 0x74]
        }
        &&& {
            ||| begins_with_keyword(data, "XML:com.adobe.xmp"@)
            ||| begins_with_keyword(data, "Raw profile type exif"@)
            ||| begins_with_keyword(data, "Raw profile type iptc"@)
            ||| begins_with_keyword(data, "Raw profile type photoshop"@)
        }
    }
}

proof fn lemma_keyword(data: Seq<u8>, word: &str)
    requires
        vstd::string::is_ascii(word),
        forall|i: int| 0 <= i < word@.len() ==> word@[i] != '\0',
    ensures
        has_keyword(data, word.spec_bytes()) == begins_with_keyword(data, word@),
{
    broadcast use vstd::string::is_ascii_spec_bytes;

    let bytes = word.spec_bytes();
    assert(bytes.len() == word@.len());
    assert forall|i: int| 0 <= i < word@.len() && i < data.len() implies (lower(data[i]) == lower(
        bytes[i],
    ) <==> #[trigger] is_letter(data[i], word@[i])) && bytes[i] != 0 && (is_letter(
        data[i],
        word@[i],
    ) ==> data[i] != 0) by {
        assert(bytes[i] == word@[i] as u8);
        assert((word@[i] as u32) < 0x80);
        let c = word@[i];
        let b = data[i];
        assert(c != '\0');
        assert(bytes[i] as u32 == c as u32);
    }
}

proof fn lemma_words(data: Seq<u8>)
    ensures
        has_keyword(data, "XML:com.adobe.xmp".spec_bytes()) == begins_with_keyword(
            data,
            "XML:com.adobe.xmp"@,
        ),
        has_keyword(data, "Raw profile type exif".spec_bytes()) == begins_with_keyword(
            data,
            "Raw profile type exif"@,
        ),
        has_keyword(data, "Raw profile type iptc".spec_bytes()) == begins_with_keyword(
            data,
            "Raw profile type iptc"@,
        ),
        has_keyword(data, "Raw profile type photoshop".spec_bytes()) == begins_with_keyword(
            data,
            "Raw profile type photoshop"@,
        ),
{
    reveal_strlit("XML:com.adobe.xmp");
    reveal_strlit("Raw profile type exif");
    reveal_strlit("Raw profile type iptc");
    reveal_strlit("Raw profile type photoshop");
    lemma_keyword(data, "XML:com.adobe.xmp");
    lemma_keyword(data, "Raw profile type exif");
    lemma_keyword(data, "Raw profile type iptc");
    lemma_keyword(data, "Raw profile type photoshop");
}

/// A chunk is dropped if and only if its type, and for a text its keyword, are those of metadata.
pub proof fn chunks_are_dropped_by_type_and_keyword(raw: Seq<u8>)
    requires
        raw.len() >= 12,
    ensures
        is_metadata(raw) <==> is_private(raw.subrange(4, 8), raw.subrange(8, raw.len() - 4)),
{
    lemma_words(raw.subrange(8, raw.len() - 4));
    be32_spells(raw, 4, 0x65, 0x58, 0x49, 0x66);
    be32_spells(raw, 4, 0x74, 0x45, 0x58, 0x74);
    be32_spells(raw, 4, 0x7A, 0x54, 0x58, 0x74);
    be32_spells(raw, 4, 0x69, 0x54, 0x58, 0x74);
}

/// A chunk of a PNG file.
pub struct Chunk {
    pub typ: Seq<u8>,
    pub data: Seq<u8>,
    pub sum: Seq<u8>,
}

/// That there can be such a chunk.
pub open spec fn is_chunk(chunk: Chunk) -> bool {
    chunk.typ.len() == 4 && chunk.sum.len() == 4 && chunk.data.len() <= 0xFFFF_FFFF
}

/// The chunk as it stands in a file.
pub open spec fn chunk_bytes(chunk: Chunk) -> Seq<u8> {
    let n = chunk.data.len();
    seq![
        (n / 0x100_0000) as u8,
        (n / 0x1_0000 % 0x100) as u8,
        (n / 0x100 % 0x100) as u8,
        (n % 0x100) as u8,
    ] + chunk.typ + chunk.data + chunk.sum
}

/// The chunks as they stand in a file, one after the other.
pub open spec fn written(list: Seq<Chunk>) -> Seq<u8>
    decreases list.len(),
{
    if list.len() == 0 {
        Seq::empty()
    } else {
        chunk_bytes(list[0]) + written(list.skip(1))
    }
}

/// Whether a chunk is private.
pub open spec fn chunk_is_private(chunk: Chunk) -> bool {
    is_private(chunk.typ, chunk.data)
}

/// The chunks that are not private.
pub open spec fn public_chunks(list: Seq<Chunk>) -> Seq<Chunk>
    decreases list.len(),
{
    if list.len() == 0 {
        Seq::empty()
    } else if chunk_is_private(list[0]) {
        public_chunks(list.skip(1))
    } else {
        seq![list[0]] + public_chunks(list.skip(1))
    }
}

/// A PNG file.
pub open spec fn png_file(list: Seq<Chunk>) -> Seq<u8> {
    seq![0x89u8, 0x50, 0x4E, 0x47, 0x0D, 0x0A, 0x1A, 0x0A] + written(list)
}

proof fn lemma_chunk_bytes(chunk: Chunk, rest: Seq<u8>)
    requires
        is_chunk(chunk),
    ensures
        ({
            let raw = chunk_bytes(chunk);
            &&& raw.len() == 12 + chunk.data.len()
            &&& be32(raw + rest, 0) == chunk.data.len()
            &&& raw.subrange(4, 8) == chunk.typ
            &&& raw.subrange(8, raw.len() - 4) == chunk.data
            &&& raw.subrange(raw.len() - 4, raw.len() as int) == chunk.sum
        }),
{
    let raw = chunk_bytes(chunk);
    let n = chunk.data.len() as int;
    let s = raw + rest;
    assert(s[0] == (n / 0x100_0000) as u8 && s[1] == (n / 0x1_0000 % 0x100) as u8);
    assert(s[2] == (n / 0x100 % 0x100) as u8 && s[3] == (n % 0x100) as u8);
    assert(be32(s, 0) == n) by {
        reveal(be32);
    }
    assert(raw.subrange(4, 8) =~= chunk.typ);
    assert(raw.subrange(8, raw.len() - 4) =~= chunk.data);
    assert(raw.subrange(raw.len() - 4, raw.len() as int) =~= chunk.sum);
}

proof fn lemma_edits_front(first: Piece, rest: Seq<Piece>)
    ensures
        chunk_edits(seq![first] + rest) == seq![
            if is_metadata(first.bytes) {
                Edit::Drop
            } else {
                Edit::Keep
            },
        ] + chunk_edits(rest),
{
    let list = seq![first] + rest;
    assert forall|k: int| 0 <= k < rest.len() implies list[k + 1] == rest[k] by {}
    assert(chunk_edits(list) =~= seq![
        if is_metadata(first.bytes) {
            Edit::Drop
        } else {
            Edit::Keep
        },
    ] + chunk_edits(rest));
}

proof fn lemma_chunk_front(chunk: Chunk, after: Seq<u8>, at: int)
    requires
        is_chunk(chunk),
        0 <= at,
        at + chunk_bytes(chunk).len() <= usize::MAX,
        chunks(after, at + chunk_bytes(chunk).len()) is Ok,
    ensures
        ({
            let rest = chunks(after, at + chunk_bytes(chunk).len())->Ok_0;
            let left = rebuilt(rest, chunk_edits(rest));
            &&& chunks(chunk_bytes(chunk) + after, at) matches Ok(list)
            &&& list.len() > 0
            &&& changed(chunk_edits(list)) == (chunk_is_private(chunk) || changed(
                chunk_edits(rest),
            ))
            &&& rebuilt(list, chunk_edits(list)) == if chunk_is_private(chunk) {
                left
            } else {
                chunk_bytes(chunk) + left
            }
        }),
{
    let raw = chunk_bytes(chunk);
    let s = raw + after;
    let n = raw.len() as int;
    lemma_chunk_bytes(chunk, after);
    assert(s.take(n) =~= raw);
    assert(s.skip(n) =~= after);
    let p = Piece { at, bytes: raw };
    let rest = chunks(after, at + n)->Ok_0;
    assert(chunks(s, at) == Ok::<_, ScrubError>(seq![p] + rest));
    lemma_edits_front(p, rest);
    chunks_are_dropped_by_type_and_keyword(raw);
    let edit = if is_metadata(raw) {
        Edit::Drop
    } else {
        Edit::Keep
    };
    lemma_rebuilt_front(p, edit, rest, chunk_edits(rest));
    let left = rebuilt(rest, chunk_edits(rest));
    assert(Seq::<u8>::empty() + left =~= left);
}

spec fn any_private(list: Seq<Chunk>) -> bool
    decreases list.len(),
{
    list.len() > 0 && (chunk_is_private(list[0]) || any_private(list.skip(1)))
}

proof fn lemma_any_private(list: Seq<Chunk>)
    ensures
        any_private(list) <==> exists|k: int|
            0 <= k < list.len() && chunk_is_private(#[trigger] list[k]),
    decreases list.len(),
{
    if list.len() > 0 {
        let rest = list.skip(1);
        lemma_any_private(rest);
        if any_private(rest) {
            let k = choose|k: int| 0 <= k < rest.len() && chunk_is_private(#[trigger] rest[k]);
            assert(chunk_is_private(list[k + 1]));
        }
        if exists|k: int| 0 <= k < list.len() && chunk_is_private(#[trigger] list[k]) {
            let k = choose|k: int| 0 <= k < list.len() && chunk_is_private(#[trigger] list[k]);
            if k > 0 {
                assert(chunk_is_private(rest[k - 1]));
            }
        }
    }
}

proof fn lemma_written(list: Seq<Chunk>, at: int)
    requires
        forall|k: int| 0 <= k < list.len() ==> is_chunk(#[trigger] list[k]),
        0 <= at,
        at + written(list).len() <= usize::MAX,
    ensures
        ({
            &&& chunks(written(list), at) matches Ok(found)
            &&& found.len() > 0 <==> list.len() > 0
            &&& rebuilt(found, chunk_edits(found)) == written(public_chunks(list))
            &&& changed(chunk_edits(found)) == any_private(list)
        }),
    decreases list.len(),
{
    if list.len() > 0 {
        let chunk = list[0];
        let rest = list.skip(1);
        assert forall|k: int| 0 <= k < rest.len() implies is_chunk(#[trigger] rest[k]) by {
            assert(rest[k] == list[k + 1]);
        }
        lemma_written(rest, at + chunk_bytes(chunk).len());
        lemma_chunk_front(chunk, written(rest), at);
        if !chunk_is_private(chunk) {
            let kept = public_chunks(rest);
            assert((seq![chunk] + kept).skip(1) =~= kept);
        }
    }
}

/// A scrub of a PNG file takes out its private chunks and leaves all others as they are, in their
/// order. It finds nothing where there is no private chunk.
pub proof fn scrub_takes_out_the_private_chunks(list: Seq<Chunk>)
    requires
        list.len() > 0,
        forall|k: int| 0 <= k < list.len() ==> is_chunk(#[trigger] list[k]),
        png_file(list).len() <= usize::MAX,
    ensures
        (exists|k: int| 0 <= k < list.len() && chunk_is_private(#[trigger] list[k])) ==> scrubbed(
            png_file(list),
        ) == Ok::<_, ScrubError>(Some(png_file(public_chunks(list)))),
        (forall|k: int| 0 <= k < list.len() ==> !chunk_is_private(#[trigger] list[k])) ==> scrubbed(
            png_file(list),
        ) == Ok::<_, ScrubError>(None::<Seq<u8>>),
{
    let file = png_file(list);
    lemma_any_private(list);
    lemma_written(list, 8);
    assert(file.subrange(0, 8) =~= signature());
    assert(file.skip(8) =~= written(list));
}

/// A scrub goes along with nothing but such files.
pub proof fn accepted_files_are_put_together_so(input: Seq<u8>) -> (list: Seq<Chunk>)
    requires
        scrubbed(input) is Ok,
    ensures
        list.len() > 0,
        forall|k: int| 0 <= k < list.len() ==> is_chunk(#[trigger] list[k]),
        input == png_file(list),
{
    let list = lemma_taken_apart(input.skip(8), 8);
    assert(input =~= input.subrange(0, 8) + input.skip(8));
    list
}

proof fn lemma_taken_apart(s: Seq<u8>, at: int) -> (list: Seq<Chunk>)
    requires
        chunks(s, at) is Ok,
    ensures
        forall|k: int| 0 <= k < list.len() ==> is_chunk(#[trigger] list[k]),
        s == written(list),
        list.len() == chunks(s, at)->Ok_0.len(),
    decreases s.len(),
{
    if s.len() == 0 {
        assert(s =~= written(Seq::empty()));
        Seq::empty()
    } else {
        let n = chunk_len(s, at)->Ok_0;
        be32_range(s, 0);
        let chunk = Chunk {
            typ: s.subrange(4, 8),
            data: s.subrange(8, n - 4),
            sum: s.subrange(n - 4, n),
        };
        let m = chunk.data.len() as int;
        assert(m == s[0] * 0x100_0000 + s[1] * 0x1_0000 + s[2] * 0x100 + s[3]) by {
            reveal(be32);
        }
        assert(m / 0x100_0000 == s[0]);
        assert(m / 0x1_0000 == s[0] * 0x100 + s[1]);
        assert(m / 0x100 == s[0] * 0x1_0000 + s[1] * 0x100 + s[2]);
        assert(chunk_bytes(chunk) =~= s.take(n));
        let rest = lemma_taken_apart(s.skip(n), at + n);
        let list = seq![chunk] + rest;
        assert(list.skip(1) =~= rest);
        assert forall|k: int| 0 <= k < list.len() implies is_chunk(#[trigger] list[k]) by {
            if k > 0 {
                assert(list[k] == rest[k - 1]);
            }
        }
        assert(s =~= s.take(n) + s.skip(n));
        list
    }
}

/// What does not begin with the eight bytes of PNG is refused, and so is what ends after them.
pub proof fn other_files_are_refused(input: Seq<u8>)
    ensures
        input.len() < 8 || input.take(8) != seq![
            0x89u8, 0x50, 0x4E, 0x47, 0x0D, 0x0A, 0x1A, 0x0A,
        ] ==> scrubbed(input) == Err::<Option<Seq<u8>>, _>(ScrubError::NotPng),
        input == seq![0x89u8, 0x50, 0x4E, 0x47, 0x0D, 0x0A, 0x1A, 0x0A] ==> scrubbed(input)
            == Err::<Option<Seq<u8>>, _>(ScrubError::PngNoChunks),
{
    if signature().is_prefix_of(input) {
        assert(input.take(8) =~= input.subrange(0, 8));
    }
    if input == seq![0x89u8, 0x50, 0x4E, 0x47, 0x0D, 0x0A, 0x1A, 0x0A] {
        assert(input.subrange(0, 8) =~= signature());
        assert(input.skip(8).len() == 0);
        assert(chunks(input.skip(8), 8) == Ok::<_, ScrubError>(Seq::<Piece>::empty()));
    }
}

/// A file whose last chunk is cut short is refused, and told where.
pub proof fn cut_files_are_refused(list: Seq<Chunk>, last: Chunk, n: int)
    requires
        forall|k: int| 0 <= k < list.len() ==> is_chunk(#[trigger] list[k]),
        is_chunk(last),
        0 < n < chunk_bytes(last).len(),
        png_file(list).len() + chunk_bytes(last).len() <= usize::MAX,
    ensures
        scrubbed(png_file(list) + chunk_bytes(last).take(n)) == Err::<Option<Seq<u8>>, _>(
            if n < 8 {
                ScrubError::PngTruncatedHeader
            } else {
                ScrubError::PngChunkPastEnd
            },
        ),
{
    let cut = chunk_bytes(last).take(n);
    let input = png_file(list) + cut;
    lemma_cut(list, last, n, 8);
    assert(input.subrange(0, 8) =~= signature());
    assert(input.skip(8) =~= written(list) + cut);
}

proof fn lemma_cut(list: Seq<Chunk>, last: Chunk, n: int, at: int)
    requires
        forall|k: int| 0 <= k < list.len() ==> is_chunk(#[trigger] list[k]),
        is_chunk(last),
        0 < n < chunk_bytes(last).len(),
        0 <= at,
        at + written(list).len() + chunk_bytes(last).len() <= usize::MAX,
    ensures
        chunks(written(list) + chunk_bytes(last).take(n), at) == Err::<Seq<Piece>, _>(
            if n < 8 {
                ScrubError::PngTruncatedHeader
            } else {
                ScrubError::PngChunkPastEnd
            },
        ),
    decreases list.len(),
{
    let cut = chunk_bytes(last).take(n);
    let s = written(list) + cut;
    if list.len() == 0 {
        assert(s =~= cut);
        lemma_chunk_bytes(last, Seq::empty());
        if n >= 8 {
            assert(chunk_bytes(last) + Seq::<u8>::empty() =~= chunk_bytes(last));
            be32_same(s, 0, chunk_bytes(last), 0);
        }
    } else {
        let chunk = list[0];
        let rest = list.skip(1);
        let m = chunk_bytes(chunk).len() as int;
        let after = written(rest) + cut;
        assert(s =~= chunk_bytes(chunk) + after);
        assert forall|k: int| 0 <= k < rest.len() implies is_chunk(#[trigger] rest[k]) by {
            assert(rest[k] == list[k + 1]);
        }
        lemma_cut(rest, last, n, at + m);
        lemma_chunk_bytes(chunk, after);
        assert(s.skip(m) =~= after);
    }
}

/// Neither a scrubbed file nor one in which a scrub finds nothing holds a private chunk.
pub proof fn nothing_private_is_left(input: Seq<u8>, j: int)
    requires
        input.len() <= usize::MAX,
        scrubbed(input) is Ok,
    ensures
        ({
            let left = match scrubbed(input)->Ok_0 {
                Some(out) => out,
                None => input,
            };
            let found = chunks(left.skip(8), 8);
            &&& found is Ok
            &&& 0 <= j < found->Ok_0.len() ==> {
                let raw = found->Ok_0[j].bytes;
                !is_private(raw.subrange(4, 8), raw.subrange(8, raw.len() - 4))
            }
        }),
{
    let left = match scrubbed(input)->Ok_0 {
        Some(out) => out,
        None => input,
    };
    if left != input {
        png_laws::scrub_keeps_the_chunks(input, left);
    } else if scrubbed(input)->Ok_0 is Some {
        png_laws::scrub_shrinks(input, left);
    }
    let found = chunks(left.skip(8), 8)->Ok_0;
    if 0 <= j < found.len() {
        png_laws::lemma_chunk_list(left.skip(8), 8);
        if left != input {
            png_laws::scrub_leaves_no_metadata(input, left, j);
        } else {
            assert(chunk_edits(found)[j] is Keep);
        }
        chunks_are_dropped_by_type_and_keyword(found[j].bytes);
    }
}

} // verus!
