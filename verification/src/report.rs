//! What is said of files and jobs, on the command line and in the window.
use vstd::prelude::*;
use vstd::string::StringExecFns;
use crate::scrub::{Outcome, Stats};
use crate::text::{decimal, push_decimal};

verus! {

/// The line for a file that was processed; an error is given by its message.
pub open spec fn progress_text(path: Seq<char>, result: Result<Outcome, String>) -> Seq<char> {
    let (what, why) = match result {
        Ok(outcome) => (
            match outcome {
                Outcome::Scrubbed { .. } => "scrubbed  "@,
                Outcome::Clean { .. } => "clean     "@,
                Outcome::Unsupported { .. } => "skipped   "@,
            },
            outcome.text(),
        ),
        Err(message) => ("failed    "@, message@),
    };
    what + path + "  ("@ + why + ")"@
}

/// The line for a file that was processed; an error is given by its message.
pub fn progress_line(path: &str, result: &Result<Outcome, String>) -> (s: String)
    ensures
        s@ == progress_text(path@, *result),
{
    let mut s = match result {
        Ok(Outcome::Scrubbed { .. }) => "scrubbed  ".to_owned(),
        Ok(Outcome::Clean { .. }) => "clean     ".to_owned(),
        Ok(Outcome::Unsupported { .. }) => "skipped   ".to_owned(),
        Err(_) => "failed    ".to_owned(),
    };
    s.append(path);
    s.append("  (");
    match result {
        Ok(outcome) => {
            let label = outcome.label();
            s.append(label.as_str());
        },
        Err(message) => {
            s.append(message.as_str());
        },
    }
    s.append(")");
    s
}

/// The counts of a job in words.
pub open spec fn counts_text(stats: Stats) -> Seq<char> {
    decimal(stats.scrubbed as nat) + " scrubbed, "@ + decimal(stats.clean as nat)
        + " already clean, "@ + decimal(stats.unsupported as nat) + " unsupported, "@ + decimal(
        stats.failed as nat,
    ) + " failed"@
}

/// The counts of a job in words.
pub fn counts(stats: &Stats) -> (s: String)
    ensures
        s@ == counts_text(*stats),
{
    let mut s = String::new();
    push_decimal(&mut s, stats.scrubbed as u64);
    s.append(" scrubbed, ");
    push_decimal(&mut s, stats.clean as u64);
    s.append(" already clean, ");
    push_decimal(&mut s, stats.unsupported as u64);
    s.append(" unsupported, ");
    push_decimal(&mut s, stats.failed as u64);
    s.append(" failed");
    assert(s@ =~= counts_text(*stats));
    s
}

} // verus!
