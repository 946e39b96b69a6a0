//! What is made of a file, from its bytes to what is written and said.
use vstd::prelude::*;
use crate::text_laws;
use crate::bytes::be32_spells;
use crate::error::ScrubError;
use crate::scrub::{
    format_of, is_processed, is_supported_extension, jpeg, jpeg_file_laws, laws, mp4, png, riff,
    scrubbed_as, supported_extensions, temp_name_text, unknown_text, Format, Kind, Options, Outcome,
    Plan, Write,
};
use crate::scrub::riff_file_laws::{avi_form, webp_form};
use crate::text::{decimal, lower, lowercase};

verus! {

/// Whether `data` begins as a RIFF file.
pub open spec fn begins_as_riff(data: Seq<u8>) -> bool {
    data.len() >= 12 && data.take(4) == seq![0x52u8, 0x49, 0x46, 0x46]
}

/// Whether `data` begins as a JPEG file.
pub open spec fn begins_as_jpeg(data: Seq<u8>) -> bool {
    data.len() >= 3 && data[0] == 0xFF && data[1] == 0xD8 && data[2] == 0xFF
}

/// Whether `data` begins with a box of type `ftyp`, `moov` or `wide`.
pub open spec fn begins_with_box(data: Seq<u8>) -> bool {
    let typ = data.subrange(4, 8);
    &&& data.len() >= 12
    &&& {
        ||| typ == seq![0x66u8, 0x74, 0x79, 0x70]
        ||| typ == seq![0x6Du8, 0x6F, 0x6F, 0x76]
        ||| typ == seq![0x77u8, 0x69, 0x64, 0x65]
    }
}

/// The format of a file is told by its first bytes.
pub proof fn formats_are_told_by_their_first_bytes(data: Seq<u8>)
    ensures
        format_of(data) == Format::Jpeg <==> begins_as_jpeg(data),
        format_of(data) == Format::Png <==> data.len() >= 8 && data.take(8) == seq![
            0x89u8, 0x50, 0x4E, 0x47, 0x0D, 0x0A, 0x1A, 0x0A,
        ],
        format_of(data) == Format::Webp <==> begins_as_riff(data) && data.subrange(8, 12)
            == webp_form(),
        format_of(data) == Format::Avi <==> begins_as_riff(data) && data.subrange(8, 12)
            == avi_form(),
        format_of(data) == Format::OtherRiff <==> begins_as_riff(data) && data.subrange(8, 12)
            != webp_form() && data.subrange(8, 12) != avi_form(),
        format_of(data) == Format::Mp4 <==> begins_with_box(data) && !begins_as_riff(data)
            && !begins_as_jpeg(data),
{
    assert(data.len() >= 8 ==> data.take(8) =~= data.subrange(0, 8));
    if data.len() >= 12 {
        assert(data.take(4) =~= data.subrange(0, 4));
        be32_spells(data, 0, 0x52, 0x49, 0x46, 0x46);
        be32_spells(data, 8, 0x57, 0x45, 0x42, 0x50);
        be32_spells(data, 8, 0x41, 0x56, 0x49, 0x20);
        be32_spells(data, 4, 0x66, 0x74, 0x79, 0x70);
        be32_spells(data, 4, 0x6D, 0x6F, 0x6F, 0x76);
        be32_spells(data, 4, 0x77, 0x69, 0x64, 0x65);
        if data.take(4) == seq![0x52u8, 0x49, 0x46, 0x46] {
            assert(data.take(4)[0] == data[0]);
            assert(data[0] == 0x52);
            if data.take(8) == seq![0x89u8, 0x50, 0x4E, 0x47, 0x0D, 0x0A, 0x1A, 0x0A] {
                assert(data.take(8)[0] == 0x89);
            }
        }
        if data.take(8) == seq![0x89u8, 0x50, 0x4E, 0x47, 0x0D, 0x0A, 0x1A, 0x0A] {
            assert(data.take(8)[4] == 0x0D);
            assert(data.subrange(4, 8)[0] == 0x0D);
        }
        if webp_form() == avi_form() {
            assert(webp_form()[0] == avi_form()[0]);
        }
    }
    if data.len() >= 8 && data.take(8) == seq![
        0x89u8, 0x50, 0x4E, 0x47, 0x0D, 0x0A, 0x1A, 0x0A,
    ] {
        assert(data.take(8)[0] == 0x89);
    }
}

/// A file's kind goes by its first bytes, whatever its name.
pub proof fn kinds_are_told_by_first_bytes(data: Seq<u8>, ext: Option<Seq<char>>, kind: Kind)
    requires
        kind.is_of(data, ext),
    ensures
        kind is Jpeg <==> begins_as_jpeg(data),
        kind is Png <==> data.len() >= 8 && data.take(8) == seq![
            0x89u8, 0x50, 0x4E, 0x47, 0x0D, 0x0A, 0x1A, 0x0A,
        ],
        kind is Webp <==> begins_as_riff(data) && data.subrange(8, 12) == webp_form(),
        kind is Avi <==> begins_as_riff(data) && data.subrange(8, 12) == avi_form(),
        kind is Mp4 <==> begins_with_box(data) && !begins_as_riff(data) && !begins_as_jpeg(data),
{
    formats_are_told_by_their_first_bytes(data);
}

/// What is left of a file, by the format that its first bytes tell.
pub open spec fn left_of(data: Seq<u8>) -> Result<Option<Seq<u8>>, ScrubError> {
    if begins_as_jpeg(data) {
        jpeg::scrubbed(data)
    } else if begins_as_riff(data) {
        if data.subrange(8, 12) == webp_form() {
            riff::webp_scrubbed(data)
        } else {
            riff::avi_scrubbed(data)
        }
    } else if begins_with_box(data) {
        mp4::scrubbed(data)
    } else {
        png::scrubbed(data)
    }
}

/// Whether a file is of a format that can be scrubbed.
pub open spec fn can_be_scrubbed(data: Seq<u8>) -> bool {
    ||| begins_as_jpeg(data)
    ||| data.len() >= 8 && data.take(8) == seq![0x89u8, 0x50, 0x4E, 0x47, 0x0D, 0x0A, 0x1A, 0x0A]
    ||| begins_as_riff(data) && (data.subrange(8, 12) == webp_form() || data.subrange(8, 12)
        == avi_form())
    ||| begins_with_box(data) && !begins_as_riff(data)
}

proof fn lemma_left_of(data: Seq<u8>)
    ensures
        can_be_scrubbed(data) == laws::is_known(format_of(data)),
        can_be_scrubbed(data) ==> scrubbed_as(format_of(data), data) == left_of(data),
{
    formats_are_told_by_their_first_bytes(data);
    if data.len() >= 12 && data.take(8) == seq![0x89u8, 0x50, 0x4E, 0x47, 0x0D, 0x0A, 0x1A, 0x0A] {
        assert(data.take(8)[0] == 0x89 && data.take(8)[4] == 0x0D);
        assert(data[0] == 0x89 && data[4] == 0x0D);
        assert(data.take(4)[0] == 0x89);
        assert(data.subrange(4, 8)[0] == 0x0D);
    }
    if begins_as_riff(data) {
        assert(data.take(4)[0] == data[0]);
    }
}

/// A file of no known format is left alone, and one that its scrubber refuses is not written.
pub proof fn other_files_are_left_alone(
    data: Seq<u8>,
    ext: Option<Seq<char>>,
    dest: Option<Seq<char>>,
    opts: Options,
    r: Result<Plan, ScrubError>,
)
    requires
        is_processed(data, ext, dest, opts, r),
    ensures
        !can_be_scrubbed(data) ==> (r matches Ok(plan) && plan.write is Nothing
            && plan.outcome is Unsupported),
        can_be_scrubbed(data) && left_of(data) is Err ==> r == Err::<Plan, _>(
            left_of(data)->Err_0,
        ),
        can_be_scrubbed(data) && left_of(data) is Ok ==> (r matches Ok(plan)
            && !(plan.outcome is Unsupported)),
{
    lemma_left_of(data);
}

/// Whatever is written for a file with metadata, in its place or in an output folder, is exactly
/// what its scrubber left of it. The outcome gives both lengths, and where it is written or said,
/// goes by what was asked for.
pub proof fn what_is_written_is_what_is_left(
    data: Seq<u8>,
    ext: Option<Seq<char>>,
    dest: Option<Seq<char>>,
    opts: Options,
    plan: Plan,
    out: Seq<u8>,
)
    requires
        is_processed(data, ext, dest, opts, Ok(plan)),
        can_be_scrubbed(data),
        left_of(data) == Ok::<_, ScrubError>(Some(out)),
        data.len() <= u64::MAX,
        out.len() <= u64::MAX,
    ensures
        plan.outcome matches Outcome::Scrubbed { before, after, dry_run } && before == data.len()
            && after == out.len() && dry_run == opts.dry_run,
        opts.dry_run ==> plan.write is Nothing,
        !opts.dry_run && dest is Some ==> (plan.write matches Write::Output(written) && written@
            == out),
        !opts.dry_run && dest is None ==> (plan.write matches Write::InPlace {
            data: written,
            backup,
        } && written@ == out && backup == opts.backup),
{
    lemma_left_of(data);
}

/// Nothing else is ever written to an output folder as scrubbed, whatever was asked for.
pub proof fn output_holds_what_is_left(
    data: Seq<u8>,
    ext: Option<Seq<char>>,
    dest: Option<Seq<char>>,
    opts: Options,
    plan: Plan,
)
    requires
        is_processed(data, ext, dest, opts, Ok(plan)),
        data.len() <= u64::MAX,
    ensures
        plan.write matches Write::Output(out) ==> {
            &&& dest is Some
            &&& left_of(data) == Ok::<_, ScrubError>(Some(out@))
            &&& scrubbed_as(format_of(data), data) == Ok::<_, ScrubError>(Some(out@))
            &&& plan.outcome matches Outcome::Scrubbed { before, after, .. }
            &&& before == data.len()
            &&& out@.len() <= u64::MAX ==> after == out@.len()
        },
{
    lemma_left_of(data);
}

/// A file without metadata is copied to its place in an output folder, if there is one and it is no
/// dry run, and that place is told. Else it is left alone.
pub proof fn clean_files_are_copied_or_left(
    data: Seq<u8>,
    ext: Option<Seq<char>>,
    dest: Option<Seq<char>>,
    opts: Options,
    plan: Plan,
)
    requires
        is_processed(data, ext, dest, opts, Ok(plan)),
        can_be_scrubbed(data),
        left_of(data) == Ok::<_, ScrubError>(None::<Seq<u8>>),
    ensures
        dest is Some && !opts.dry_run ==> plan.write is Copy && (plan.outcome
            matches Outcome::Clean { copied_to: Some(to) } && to@ == dest->0),
        dest is None || opts.dry_run ==> plan.write is Nothing && (plan.outcome
            matches Outcome::Clean { copied_to: None }),
{
    lemma_left_of(data);
}

/// From one end to the other: a camera's JPEG file with private parts is replaced by the same file
/// without them, and one without is left alone.
pub proof fn private_parts_of_a_picture_go(
    parts: Seq<jpeg_file_laws::Part>,
    tail: Option<jpeg_file_laws::Tail>,
    ext: Option<Seq<char>>,
    opts: Options,
    plan: Plan,
)
    requires
        forall|k: int| 0 <= k < parts.len() ==> jpeg_file_laws::is_part(#[trigger] parts[k]),
        jpeg_file_laws::is_tail(tail),
        4 <= jpeg_file_laws::jpeg_file(parts, tail).len() <= usize::MAX,
        !opts.dry_run,
        is_processed(jpeg_file_laws::jpeg_file(parts, tail), ext, None, opts, Ok(plan)),
    ensures
        (exists|k: int|
            0 <= k < parts.len() && jpeg_file_laws::part_is_private(#[trigger] parts[k])) ==> (
        plan.write matches Write::InPlace { data: written, .. } && written@
            == jpeg_file_laws::jpeg_file(
            jpeg_file_laws::public_parts(parts),
            jpeg_file_laws::bare_tail(tail),
        )),
        (forall|k: int|
            0 <= k < parts.len() ==> !jpeg_file_laws::part_is_private(#[trigger] parts[k]))
            ==> plan.write is Nothing,
{
    let file = jpeg_file_laws::jpeg_file(parts, tail);
    jpeg_file_laws::scrub_takes_out_the_private_parts(parts, tail);
    jpeg_file_laws::lemma_file_begins(parts, tail);
    lemma_left_of(file);
}

/// Whether `e` is `word`, in large or small letters; `word` is in small ones.
pub open spec fn spells(e: Seq<char>, word: Seq<char>) -> bool {
    &&& e.len() == word.len()
    &&& forall|i: int|
        0 <= i < word.len() ==> (#[trigger] e[i] == word[i] || ('a' <= word[i] && word[i] <= 'z'
            && e[i] as u32 + 0x20 == word[i] as u32))
}

/// A file can be scrubbed by its name if and only if its extension is one of eight, in large or
/// small letters.
pub proof fn eight_extensions_are_supported(e: Seq<char>)
    ensures
        is_supported_extension(Some(e)) <==> {
            ||| spells(e, seq!['j', 'p', 'g'])
            ||| spells(e, seq!['j', 'p', 'e', 'g'])
            ||| spells(e, seq!['p', 'n', 'g'])
            ||| spells(e, seq!['w', 'e', 'b', 'p'])
            ||| spells(e, seq!['m', 'p', '4'])
            ||| spells(e, seq!['m', '4', 'v'])
            ||| spells(e, seq!['m', 'o', 'v'])
            ||| spells(e, seq!['a', 'v', 'i'])
        },
        !is_supported_extension(None),
{
    reveal_strlit("jpg");
    reveal_strlit("jpeg");
    reveal_strlit("png");
    reveal_strlit("webp");
    reveal_strlit("mp4");
    reveal_strlit("m4v");
    reveal_strlit("mov");
    reveal_strlit("avi");
    assert("jpg"@ =~= seq!['j', 'p', 'g']);
    assert("jpeg"@ =~= seq!['j', 'p', 'e', 'g']);
    assert("png"@ =~= seq!['p', 'n', 'g']);
    assert("webp"@ =~= seq!['w', 'e', 'b', 'p']);
    assert("mp4"@ =~= seq!['m', 'p', '4']);
    assert("m4v"@ =~= seq!['m', '4', 'v']);
    assert("mov"@ =~= seq!['m', 'o', 'v']);
    assert("avi"@ =~= seq!['a', 'v', 'i']);
    lemma_spells(e, seq!['j', 'p', 'g']);
    lemma_spells(e, seq!['j', 'p', 'e', 'g']);
    lemma_spells(e, seq!['p', 'n', 'g']);
    lemma_spells(e, seq!['w', 'e', 'b', 'p']);
    lemma_spells(e, seq!['m', 'p', '4']);
    lemma_spells(e, seq!['m', '4', 'v']);
    lemma_spells(e, seq!['m', 'o', 'v']);
    lemma_spells(e, seq!['a', 'v', 'i']);
    let all = supported_extensions();
    assert(all[0] == "jpg"@ && all[1] == "jpeg"@ && all[2] == "png"@ && all[3] == "webp"@);
    assert(all[4] == "mp4"@ && all[5] == "m4v"@ && all[6] == "mov"@ && all[7] == "avi"@);
}

proof fn lemma_spells(e: Seq<char>, word: Seq<char>)
    requires
        forall|i: int| 0 <= i < word.len() ==> !('A' <= #[trigger] word[i] && word[i] <= 'Z'),
    ensures
        lowercase(e) == word <==> spells(e, word),
{
    if lowercase(e) == word {
        assert forall|i: int| 0 <= i < word.len() implies (#[trigger] e[i] == word[i] || ('a'
            <= word[i] && word[i] <= 'z' && e[i] as u32 + 0x20 == word[i] as u32)) by {
            assert(lowercase(e)[i] == lower(e[i]));
        }
    }
    if spells(e, word) {
        assert forall|i: int| 0 <= i < word.len() implies lowercase(e)[i] == word[i] by {
            assert(e[i] == e[i]);
            if e[i] != word[i] {
                assert(e[i] as u32 + 0x20 == word[i] as u32);
            }
        }
        assert(lowercase(e) =~= word);
    }
}

/// What is said of a file of no known format ends with its extension in brackets, in small letters.
pub proof fn unknown_files_are_told_by_extension(format: Format, ext: Seq<char>)
    ensures
        ({
            let text = unknown_text(format, Some(ext));
            let n = text.len() as int;
            &&& n >= ext.len() + 2
            &&& text[n - 1] == ')'
            &&& text.subrange(n - 1 - ext.len(), n - 1) == lowercase(ext)
            &&& text.take(12) == "unrecognized"@
            &&& text[13] == if format == Format::OtherRiff {
                'R'
            } else {
                'f'
            }
        }),
{
    reveal_strlit("unrecognized");
    reveal_strlit("unrecognized RIFF container (.");
    reveal_strlit("unrecognized format (.");
    reveal_strlit(")");
    let text = unknown_text(format, Some(ext));
    let n = text.len() as int;
    assert(text.subrange(n - 1 - ext.len(), n - 1) =~= lowercase(ext));
    assert(text.take(12) =~= "unrecognized"@);
}

/// The label of a scrubbed file gives how many bytes went: the difference of its lengths, or none
/// if it has not become shorter.
pub proof fn labels_tell_what_went(before: u64, after: u64, dry_run: bool)
    ensures
        ({
            let text = Outcome::Scrubbed { before, after, dry_run }.text();
            let went = decimal(
                if before < after {
                    0
                } else {
                    (before - after) as nat
                },
            );
            let from = if dry_run {
                13int
            } else {
                8
            };
            &&& from + went.len() <= text.len()
            &&& text.subrange(from, from + went.len()) == went
            &&& text[from + went.len()] == ' '
            &&& text[0] == if dry_run {
                'w'
            } else {
                'r'
            }
        }),
{
    reveal_strlit("would remove ");
    reveal_strlit("removed ");
    reveal_strlit(" bytes of metadata (dry run)");
    reveal_strlit(" bytes of metadata (");
    let text = Outcome::Scrubbed { before, after, dry_run }.text();
    let went = decimal(
        if before < after {
            0
        } else {
            (before - after) as nat
        },
    );
    if dry_run {
        assert(text.subrange(13, 13int + went.len()) =~= went);
    } else {
        assert(text.subrange(8, 8int + went.len()) =~= went);
    }
}

/// The label of a scrubbed file that was written ends with both of its lengths.
pub proof fn labels_tell_both_lengths(before: u64, after: u64)
    ensures
        ({
            let text = Outcome::Scrubbed { before, after, dry_run: false }.text();
            let end = decimal(before as nat) + " -> "@ + decimal(after as nat) + " bytes)"@;
            end.len() < text.len() && text.skip(text.len() - end.len()) == end
        }),
{
    reveal_strlit(" bytes of metadata (");
    let text = Outcome::Scrubbed { before, after, dry_run: false }.text();
    let end = decimal(before as nat) + " -> "@ + decimal(after as nat) + " bytes)"@;
    assert(text.skip(text.len() - end.len()) =~= end);
}

/// The label of a file that was copied ends with its place, that of one of no known format with the
/// reason.
pub proof fn labels_end_with_place_or_reason(text: String)
    ensures
        ({
            let copied = Outcome::Clean { copied_to: Some(text) }.text();
            let unknown = Outcome::Unsupported { reason: text }.text();
            &&& text@.len() < copied.len()
            &&& copied.skip(copied.len() - text@.len()) == text@
            &&& text@.len() < unknown.len()
            &&& unknown.skip(unknown.len() - text@.len()) == text@
        }),
{
    reveal_strlit("no metadata found, copied to ");
    reveal_strlit("unsupported: ");
    let copied = Outcome::Clean { copied_to: Some(text) }.text();
    let unknown = Outcome::Unsupported { reason: text }.text();
    assert(copied.skip(copied.len() - text@.len()) =~= text@);
    assert(unknown.skip(unknown.len() - text@.len()) =~= text@);
}

/// Names that differ are first written under names that differ, each with a dot before it, and so
/// are those of processes that differ.
pub proof fn temp_names_do_not_collide(a: Seq<char>, p: u32, b: Seq<char>, q: u32)
    ensures
        temp_name_text(Some(a), p)[0] == '.',
        temp_name_text(Some(a), p).len() > a.len(),
        temp_name_text(Some(a), p).subrange(1, 1int + a.len()) == a,
        a != b ==> temp_name_text(Some(a), p) != temp_name_text(Some(b), p),
        p != q ==> temp_name_text(Some(a), p) != temp_name_text(Some(a), q),
        temp_name_text(None, p) == temp_name_text(Some(seq!['f', 'i', 'l', 'e']), p),
{
    reveal_strlit("file");
    assert("file"@ =~= seq!['f', 'i', 'l', 'e']);
    reveal_strlit(".");
    reveal_strlit(".scrub-tmp-");
    let s = temp_name_text(Some(a), p);
    assert(s.subrange(1, 1int + a.len()) =~= a);
    let t = temp_name_text(Some(b), p);
    assert(t.subrange(1, 1int + b.len()) =~= b);
    if s == t {
        assert(a.len() == b.len());
    }
    let u = temp_name_text(Some(a), q);
    let n = a.len() + 12;
    assert(s.skip(n as int) =~= decimal(p as nat));
    assert(u.skip(n as int) =~= decimal(q as nat));
    if s == u {
        text_laws::decimal_is_positional(p as nat);
        text_laws::decimal_is_positional(q as nat);
    }
}

} // verus!
