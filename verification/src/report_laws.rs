//! What holds of what is said.
use vstd::prelude::*;
use crate::cli::{closing_error, closing_lines};
use crate::error::ScrubError;
use crate::gui::{kind_of, summary_text, LineKind};
use crate::report::{counts_text, progress_text};
use crate::scrub::{Outcome, Stats};
use crate::text::decimal;

verus! {

/// That `part` stands in `text` at `at`.
pub open spec fn stands_at(text: Seq<char>, at: int, part: Seq<char>) -> bool {
    &&& 0 <= at
    &&& at + part.len() <= text.len()
    &&& text.subrange(at, at + part.len()) == part
}

/// The line for a file begins with a word for what became of it, in ten places. Then comes its
/// path, and at the end, in brackets, the outcome in words or what went wrong.
pub proof fn lines_tell_file_and_outcome(path: Seq<char>, result: Result<Outcome, String>)
    ensures
        ({
            let text = progress_text(path, result);
            let why = match result {
                Ok(outcome) => outcome.text(),
                Err(message) => message@,
            };
            &&& text.len() == 14 + path.len() + why.len()
            &&& stands_at(text, 10, path)
            &&& stands_at(text, 10int + path.len(), seq![' ', ' ', '('])
            &&& stands_at(text, 13int + path.len(), why)
            &&& text.last() == ')'
            &&& text[0] == (match kind_of(result) {
                LineKind::Scrubbed => 's',
                LineKind::Clean => 'c',
                LineKind::Skipped => 's',
                LineKind::Failed => 'f',
                LineKind::Info => 'i',
            })
            &&& text[1] == (match kind_of(result) {
                LineKind::Scrubbed => 'c',
                LineKind::Clean => 'l',
                LineKind::Skipped => 'k',
                LineKind::Failed => 'a',
                LineKind::Info => 'n',
            })
        }),
        kind_of(result) == LineKind::Failed <==> result is Err,
        kind_of(result) == LineKind::Scrubbed <==> result matches Ok(Outcome::Scrubbed { .. }),
        kind_of(result) == LineKind::Clean <==> result matches Ok(Outcome::Clean { .. }),
        kind_of(result) == LineKind::Skipped <==> result matches Ok(Outcome::Unsupported { .. }),
{
    reveal_strlit("scrubbed  ");
    reveal_strlit("clean     ");
    reveal_strlit("skipped   ");
    reveal_strlit("failed    ");
    reveal_strlit("  (");
    reveal_strlit(")");
    let text = progress_text(path, result);
    let why = match result {
        Ok(outcome) => outcome.text(),
        Err(message) => message@,
    };
    assert(text.subrange(10, 10int + path.len()) =~= path);
    assert(text.subrange(10int + path.len(), 13int + path.len()) =~= seq![' ', ' ', '(']);
    assert(text.subrange(13int + path.len(), 13int + path.len() + why.len()) =~= why);
}

/// The four counts of a job stand before their words, in this order.
pub proof fn counts_stand_before_their_words(stats: Stats)
    ensures
        ({
            let text = counts_text(stats);
            let scrubbed = decimal(stats.scrubbed as nat);
            let clean = decimal(stats.clean as nat);
            let unsupported = decimal(stats.unsupported as nat);
            let failed = decimal(stats.failed as nat);
            let second = scrubbed.len() + 11;
            let third = second + clean.len() + 16;
            let fourth = third + unsupported.len() + 14;
            &&& stands_at(text, 0, scrubbed + " scrubbed"@)
            &&& stands_at(text, second as int, clean + " already clean"@)
            &&& stands_at(text, third as int, unsupported + " unsupported"@)
            &&& stands_at(text, fourth as int, failed + " failed"@)
            &&& text.len() == fourth + failed.len() + 7
        }),
{
    reveal_strlit(" scrubbed");
    reveal_strlit(" scrubbed, ");
    reveal_strlit(" already clean");
    reveal_strlit(" already clean, ");
    reveal_strlit(" unsupported");
    reveal_strlit(" unsupported, ");
    reveal_strlit(" failed");
    let text = counts_text(stats);
    let scrubbed = decimal(stats.scrubbed as nat);
    let clean = decimal(stats.clean as nat);
    let unsupported = decimal(stats.unsupported as nat);
    let failed = decimal(stats.failed as nat);
    let second = scrubbed.len() + 11int;
    let third = second + clean.len() + 16;
    let fourth = third + unsupported.len() + 14;
    assert(text.subrange(0, scrubbed.len() + 9int) =~= scrubbed + " scrubbed"@);
    assert(text.subrange(second, second + clean.len() + 14) =~= clean + " already clean"@);
    assert(text.subrange(third, third + unsupported.len() + 12) =~= unsupported
        + " unsupported"@);
    assert(text.subrange(fourth, fourth + failed.len() + 7) =~= failed + " failed"@);
}

/// At its end a job says its counts, and that it was stopped if it was.
pub proof fn summaries_end_with_the_counts(stats: Stats)
    ensures
        ({
            let text = summary_text(stats);
            let counts = counts_text(stats);
            &&& stands_at(text, text.len() - counts.len(), counts)
            &&& stats.stopped <==> text.len() > counts.len()
            &&& stats.stopped ==> stands_at(text, 0, "stopped early"@)
        }),
{
    reveal_strlit("stopped early - ");
    reveal_strlit("stopped early");
    let text = summary_text(stats);
    let counts = counts_text(stats);
    assert(text.subrange(text.len() - counts.len(), text.len() as int) =~= counts);
    if stats.stopped {
        assert(text.subrange(0, 13) =~= "stopped early"@);
    }
}

/// A call ends with the counts of its job on a line of their own, unless the job was stopped. That
/// no file was changed is said in a dry run without failures and nowhere else.
pub proof fn calls_end_with_the_counts(stats: Stats, dry_run: bool)
    ensures
        ({
            let lines = closing_lines(stats, dry_run);
            &&& stats.stopped <==> lines.len() == 0
            &&& lines.len() == 2 <==> dry_run && !stats.stopped && stats.failed == 0
            &&& lines.len() <= 2
            &&& !stats.stopped ==> lines[0] == seq!['\n'] + counts_text(stats)
            &&& lines.len() == 2 ==> stands_at(lines[1], 0, "dry run"@)
        }),
        closing_error(stats) is Some <==> stats.stopped || stats.failed > 0,
        !stats.stopped && stats.failed > 0 ==> stands_at(
            closing_error(stats)->0,
            0,
            decimal(stats.failed as nat) + seq![' '],
        ),
        stats.stopped ==> closing_error(stats)->0.len() == 11 && closing_error(stats)->0[0] == 'i',
{
    reveal_strlit("\n");
    reveal_strlit("dry run: no files were modified");
    reveal_strlit("dry run");
    reveal_strlit("interrupted");
    reveal_strlit(" file(s) failed to process");
    let lines = closing_lines(stats, dry_run);
    if !stats.stopped {
        assert("\n"@ =~= seq!['\n']);
        if stats.failed > 0 {
            let n = decimal(stats.failed as nat);
            let text = closing_error(stats)->0;
            assert(text.subrange(0, n.len() + 1int) =~= n + seq![' ']);
        } else if dry_run {
            assert(lines[1].subrange(0, 7) =~= "dry run"@);
        }
    }
}

/// An error that gives an offset ends with it.
pub proof fn errors_end_with_their_offset(offset: usize)
    ensures
        ({
            let at = decimal(offset as nat);
            let marker = ScrubError::JpegExpectedMarker { offset }.text();
            let invalid = ScrubError::JpegInvalidMarker { offset }.text();
            let length = ScrubError::JpegBadSegmentLength { offset }.text();
            &&& stands_at(marker, marker.len() - at.len() - 7, "offset "@ + at)
            &&& stands_at(invalid, invalid.len() - at.len() - 7, "offset "@ + at)
            &&& stands_at(length, length.len() - at.len() - 7, "offset "@ + at)
        }),
{
    reveal_strlit("corrupt JPEG: expected marker at offset ");
    reveal_strlit("corrupt JPEG: invalid marker at offset ");
    reveal_strlit("corrupt JPEG: bad segment length at offset ");
    reveal_strlit("offset ");
    let at = decimal(offset as nat);
    let marker = ScrubError::JpegExpectedMarker { offset }.text();
    let invalid = ScrubError::JpegInvalidMarker { offset }.text();
    let length = ScrubError::JpegBadSegmentLength { offset }.text();
    let end = "offset "@ + at;
    assert(marker.subrange(marker.len() - at.len() - 7, marker.len() as int) =~= end);
    assert(invalid.subrange(invalid.len() - at.len() - 7, invalid.len() as int) =~= end);
    assert(length.subrange(length.len() - at.len() - 7, length.len() as int) =~= end);
}

} // verus!
