//! What holds of files of every format, and of what is written for them.
use vstd::prelude::*;
use crate::bytes::{be32, be32_same};
use crate::error::ScrubError;
use crate::scrub::edit::{edited, rebuilt, Edit, Piece};
use crate::scrub::{
    format_of, is_processed, is_supported_extension, jpeg_laws, mp4, mp4_laws, png, png_laws, riff,
    riff_laws, scrubbed_as, temp_name_text, Format, Options, Outcome, Plan, Write,
};
use crate::text::lowercase;

verus! {

/// Whether a scrub knows this format.
pub open spec fn is_known(format: Format) -> bool {
    format != Format::OtherRiff && format != Format::Unknown
}

/// That `out`, what a scrub left of a file of this format, is long enough to tell its format by,
/// and that the size which an MP4 file begins with does not read as the mark of another format.
pub open spec fn can_be_told(format: Format, out: Seq<u8>) -> bool {
    match format {
        Format::Jpeg => out.len() > 2,
        Format::Mp4 => {
            &&& out.len() >= 12
            &&& !(out[0] == 0xFF && out[1] == 0xD8 && out[2] == 0xFF)
            &&& be32(out, 0) != riff::RIFF
        },
        _ => true,
    }
}

proof fn lemma_rebuilt_front(list: Seq<Piece>, edits: Seq<Edit<Seq<u8>>>)
    requires
        list.len() > 0,
        edits.len() == list.len(),
    ensures
        edited(list[0].bytes, edits[0]).is_prefix_of(rebuilt(list, edits)),
    decreases list.len(),
{
    let front = edited(list[0].bytes, edits[0]);
    let before = rebuilt(list.drop_last(), edits.drop_last());
    if list.len() == 1 {
        assert(before =~= Seq::<u8>::empty());
        assert(rebuilt(list, edits) =~= front);
    } else {
        lemma_rebuilt_front(list.drop_last(), edits.drop_last());
        assert(front =~= rebuilt(list, edits).subrange(0, front.len() as int));
    }
}

proof fn lemma_mp4_keeps_the_first_type(data: Seq<u8>, out: Seq<u8>)
    requires
        mp4::scrubbed(data) == Ok::<_, ScrubError>(Some(out)),
        format_of(data) == Format::Mp4,
        out.len() >= 12,
    ensures
        be32(out, 4) == be32(data, 4),
{
    let list = mp4::boxes(data, 0)->Ok_0;
    let edits = mp4::top_edits(data, list)->Ok_0;
    let n = mp4::box_len(data, 0)->Ok_0;
    assert(list[0].bytes == data.take(n));
    let raw = list[0].bytes;
    be32_same(raw, 4, data, 4);
    mp4_laws::lemma_top_edits_each(data, list, 0);
    lemma_rebuilt_front(list, edits);
    let front = edited(raw, edits[0]);
    if edits[0] is Replace {
        let children = mp4::boxes(mp4::body(raw), mp4::header_len(raw))->Ok_0;
        let inner = mp4::child_edits(mp4::box_type(raw), children)->Ok_0;
        mp4_laws::lemma_rewrapped(raw, rebuilt(children, inner));
    }
    assert(forall|k: int| 0 <= k < front.len() ==> front[k] == out[k]);
    be32_same(out, 4, front, 4);
}

proof fn lemma_riff_is_no_image(out: Seq<u8>)
    requires
        out.len() >= 12,
        be32(out, 0) == riff::RIFF,
    ensures
        out[0] == 0x52,
{
    reveal(be32);
}

proof fn lemma_png_type(out: Seq<u8>)
    requires
        out.len() >= 12,
        png::signature().is_prefix_of(out),
    ensures
        be32(out, 4) == 0x0D0A1A0A,
{
    let s = png::signature();
    assert(out[4] == s[4] && out[5] == s[5] && out[6] == s[6] && out[7] == s[7]);
    reveal(be32);
}

/// A scrubbed file is still of the format that the file was of.
pub proof fn scrub_keeps_the_format(data: Seq<u8>, out: Seq<u8>)
    requires
        data.len() <= usize::MAX,
        is_known(format_of(data)),
        scrubbed_as(format_of(data), data) == Ok::<_, ScrubError>(Some(out)),
        can_be_told(format_of(data), out),
    ensures
        format_of(out) == format_of(data),
{
    match format_of(data) {
        Format::Jpeg => {
            jpeg_laws::scrub_shrinks(data, out);
        },
        Format::Png => {
            png_laws::scrub_shrinks(data, out);
            assert(out[0] == png::signature()[0]);
        },
        Format::Webp => {
            riff_laws::webp_scrub_shrinks(data, out);
            lemma_riff_is_no_image(out);
        },
        Format::Avi => {
            riff_laws::avi_scrub_shrinks(data, out);
            lemma_riff_is_no_image(out);
        },
        Format::Mp4 => {
            lemma_mp4_keeps_the_first_type(data, out);
            if png::signature().is_prefix_of(out) {
                lemma_png_type(out);
            }
        },
        _ => {},
    }
}

/// What is left of an MP4 file, if it is shorter than `STRAY_SIZE`, about a gigabyte, and long
/// enough to tell its format by, can be told to be one.
pub proof fn short_movies_can_be_told(data: Seq<u8>, out: Seq<u8>)
    requires
        format_of(data) == Format::Mp4,
        mp4::scrubbed(data) == Ok::<_, ScrubError>(Some(out)),
        12 <= out.len() < mp4_laws::STRAY_SIZE,
        out.len() <= usize::MAX,
    ensures
        can_be_told(Format::Mp4, out),
{
    mp4_laws::scrub_keeps_the_boxes(data, out);
    assert(mp4::box_len(out, 0) is Ok);
    assert(out[0] == 0xFF ==> be32(out, 0) >= 0xFF00_0000) by {
        reveal(be32);
    }
}

/// Scrubbing is idempotent: in a file that has been scrubbed, a second scrub finds nothing to
/// remove.
pub proof fn second_scrub_finds_nothing(data: Seq<u8>, out: Seq<u8>)
    requires
        data.len() <= usize::MAX,
        is_known(format_of(data)),
        scrubbed_as(format_of(data), data) == Ok::<_, ScrubError>(Some(out)),
        can_be_told(format_of(data), out),
        format_of(data) == Format::Png ==> out.len() > 8,
        format_of(data) == Format::Mp4 ==> out.len() <= usize::MAX,
        format_of(data) == Format::Mp4 ==> mp4_laws::no_stray_xmp(out),
    ensures
        scrubbed_as(format_of(out), out) == Ok::<_, ScrubError>(None::<Seq<u8>>),
{
    scrub_keeps_the_format(data, out);
    match format_of(data) {
        Format::Jpeg => {
            jpeg_laws::scrub_is_idempotent(data, out);
        },
        Format::Png => {
            png_laws::scrub_is_idempotent(data, out);
        },
        Format::Webp => {
            riff_laws::webp_scrub_is_idempotent(data, out);
        },
        Format::Avi => {
            riff_laws::avi_scrub_is_idempotent(data, out);
        },
        Format::Mp4 => {
            mp4_laws::scrub_is_idempotent(data, out);
        },
        _ => {},
    }
}

/// A scrub does not make a file longer, so that what it is said to have removed is what it did.
pub proof fn scrub_never_grows(data: Seq<u8>, out: Seq<u8>)
    requires
        scrubbed_as(format_of(data), data) == Ok::<_, ScrubError>(Some(out)),
        format_of(data) == Format::Mp4 ==> mp4_laws::movies_fit(data) || data.len() <= u32::MAX,
    ensures
        out.len() <= data.len(),
{
    match format_of(data) {
        Format::Jpeg => {
            jpeg_laws::scrub_shrinks(data, out);
        },
        Format::Png => {
            png_laws::scrub_shrinks(data, out);
        },
        Format::Webp => {
            riff_laws::webp_scrub_shrinks(data, out);
        },
        Format::Avi => {
            riff_laws::avi_scrub_shrinks(data, out);
        },
        Format::Mp4 => {
            mp4_laws::scrub_never_grows(data, out);
        },
        _ => {},
    }
}

/// A dry run writes nothing, wherever it was to write.
pub proof fn dry_run_writes_nothing(
    data: Seq<u8>,
    ext: Option<Seq<char>>,
    dest: Option<Seq<char>>,
    opts: Options,
    plan: Plan,
)
    requires
        opts.dry_run,
        is_processed(data, ext, dest, opts, Ok(plan)),
    ensures
        plan.write is Nothing,
{
}

/// With an output folder nothing is written but to the file's place there.
pub proof fn output_goes_to_its_folder(
    data: Seq<u8>,
    ext: Option<Seq<char>>,
    dest: Seq<char>,
    opts: Options,
    plan: Plan,
)
    requires
        is_processed(data, ext, Some(dest), opts, Ok(plan)),
    ensures
        !(plan.write is InPlace),
{
}

/// Without an output folder nothing but the file is written, only where there is metadata to
/// remove, and after a copy of it if and only if one was asked for.
pub proof fn in_place_writes_only_scrubbed_files(
    data: Seq<u8>,
    ext: Option<Seq<char>>,
    opts: Options,
    plan: Plan,
)
    requires
        is_processed(data, ext, None, opts, Ok(plan)),
    ensures
        match plan.write {
            Write::Nothing => true,
            Write::InPlace { data: out, backup } => {
                &&& scrubbed_as(format_of(data), data) == Ok::<_, ScrubError>(Some(out@))
                &&& backup == opts.backup
                &&& !opts.dry_run
            },
            _ => false,
        },
{
}

/// A dry run foretells the outcome: what it says would be removed is what the same call without
/// `dry_run` says it removed.
pub proof fn dry_run_foretells_the_outcome(
    data: Seq<u8>,
    ext: Option<Seq<char>>,
    dest: Option<Seq<char>>,
    backup: bool,
    dry: Plan,
    wet: Plan,
)
    requires
        is_processed(data, ext, dest, Options { dry_run: true, backup }, Ok(dry)),
        is_processed(data, ext, dest, Options { dry_run: false, backup }, Ok(wet)),
    ensures
        match dry.outcome {
            Outcome::Scrubbed { before, after, dry_run } => dry_run && wet.outcome
                == (Outcome::Scrubbed { before, after, dry_run: false }),
            Outcome::Clean { .. } => wet.outcome is Clean,
            Outcome::Unsupported { reason } => wet.outcome matches Outcome::Unsupported {
                reason: other,
            } && other@ == reason@,
        },
{
}

/// A file that has been scrubbed in place is left alone when it is processed again.
pub proof fn scrubbed_file_is_left_alone(
    data: Seq<u8>,
    ext: Option<Seq<char>>,
    opts: Options,
    first: Plan,
    out: Seq<u8>,
    again: Plan,
)
    requires
        data.len() <= usize::MAX,
        is_processed(data, ext, None, opts, Ok(first)),
        first.write matches Write::InPlace { data: written, .. } && written@ == out,
        is_processed(out, ext, None, opts, Ok(again)),
        can_be_told(format_of(data), out),
        format_of(data) == Format::Png ==> out.len() > 8,
        format_of(data) == Format::Mp4 ==> out.len() <= usize::MAX,
        format_of(data) == Format::Mp4 ==> mp4_laws::no_stray_xmp(out),
    ensures
        again.write is Nothing,
        again.outcome matches Outcome::Clean { copied_to: None },
{
    scrub_keeps_the_format(data, out);
    second_scrub_finds_nothing(data, out);
}

/// A file is first written under another name than its own.
pub proof fn temp_name_is_another(name: Seq<char>, process: u32)
    ensures
        temp_name_text(Some(name), process) != name,
{
    reveal_strlit(".");
    reveal_strlit(".scrub-tmp-");
    assert(temp_name_text(Some(name), process).len() > name.len());
}

/// Letter case does not decide whether an extension is supported.
pub proof fn support_ignores_letter_case(a: Seq<char>, b: Seq<char>)
    requires
        lowercase(a) == lowercase(b),
    ensures
        is_supported_extension(Some(a)) == is_supported_extension(Some(b)),
{
}

} // verus!
