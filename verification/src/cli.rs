//! The command line: what a call asks for, and what is said at its end.
use vstd::prelude::*;
use vstd::string::StringExecFns;
use crate::report::{counts, counts_text};
use crate::scrub::{Job, Stats};
use crate::text::{decimal, push_decimal};

verus! {

/// What the program was called with.
#[derive(Debug)]
pub struct Args {
    /// The file or folder to scrub.
    pub path: Option<String>,
    /// Open the window even so.
    pub gui: bool,
    /// Go into the folders below.
    pub recursive: bool,
    /// Say what would be done and change no file.
    pub dry_run: bool,
    /// Keep a copy of each file that is scrubbed in place.
    pub backup: bool,
    /// Write to this folder and leave the files themselves as they are.
    pub output: Option<String>,
}

/// How the program runs.
#[derive(Clone, Copy, Debug, PartialEq, Eq, Structural)]
pub enum Mode {
    CommandLine,
    Window,
}

/// How the program runs: with a window, unless it was given a path and not asked for one.
pub open spec fn mode_of(args: Args) -> Mode {
    if args.path is Some && !args.gui {
        Mode::CommandLine
    } else {
        Mode::Window
    }
}

/// How the program runs.
pub fn mode(args: &Args) -> (mode: Mode)
    ensures
        mode == mode_of(*args),
{
    match &args.path {
        Some(_) if !args.gui => Mode::CommandLine,
        _ => Mode::Window,
    }
}

/// An optional text as a sequence.
pub open spec fn text_view(t: Option<String>) -> Option<Seq<char>> {
    match t {
        Some(s) => Some(s@),
        None => None,
    }
}

/// That `r` is the job that the program was called for. There is none without a path.
pub open spec fn asks_for(args: Args, r: Result<Job, String>) -> bool {
    &&& args.path is None ==> (r matches Err(message) && message@
        == "a PATH is required unless the GUI is used"@)
    &&& args.path is Some ==> {
        &&& r matches Ok(job)
        &&& job.recursive == args.recursive
        &&& job.dry_run == args.dry_run
        &&& job.backup == args.backup
        &&& text_view(job.output_dir) == text_view(args.output)
    }
}

/// The job that the program was called for.
pub fn run(args: &Args) -> (r: Result<Job, String>)
    ensures
        asks_for(*args, r),
{
    if args.path.is_none() {
        return Err("a PATH is required unless the GUI is used".to_owned());
    }
    let output_dir = match &args.output {
        Some(dir) => Some(dir.clone()),
        None => None,
    };
    Ok(
        Job {
            recursive: args.recursive,
            dry_run: args.dry_run,
            backup: args.backup,
            output_dir,
        },
    )
}

/// What is said once a job has come to its end.
#[derive(Debug)]
pub struct Report {
    /// The lines to print.
    pub lines: Vec<String>,
    /// Why the call failed, if it did.
    pub error: Option<String>,
}

impl Report {
    /// The lines to print.
    pub open spec fn text(self) -> Seq<Seq<char>> {
        Seq::new(self.lines@.len(), |i: int| self.lines@[i]@)
    }
}

/// The lines to print once a job has come to its end. One that was stopped says nothing more.
pub open spec fn closing_lines(stats: Stats, dry_run: bool) -> Seq<Seq<char>> {
    if stats.stopped {
        Seq::empty()
    } else if stats.failed == 0 && dry_run {
        seq!["\n"@ + counts_text(stats), "dry run: no files were modified"@]
    } else {
        seq!["\n"@ + counts_text(stats)]
    }
}

/// Why a call with this outcome failed, if it did.
pub open spec fn closing_error(stats: Stats) -> Option<Seq<char>> {
    if stats.stopped {
        Some("interrupted"@)
    } else if stats.failed > 0 {
        Some(decimal(stats.failed as nat) + " file(s) failed to process"@)
    } else {
        None
    }
}

/// What to print once a job has come to its end, and whether the call failed.
pub fn close(stats: &Stats, dry_run: bool) -> (report: Report)
    ensures
        report.text() == closing_lines(*stats, dry_run),
        text_view(report.error) == closing_error(*stats),
{
    let mut lines: Vec<String> = Vec::new();
    if stats.stopped {
        let report = Report { lines, error: Some("interrupted".to_owned()) };
        assert(report.text() =~= closing_lines(*stats, dry_run));
        return report;
    }
    let mut summary = "\n".to_owned();
    let words = counts(stats);
    summary.append(words.as_str());
    lines.push(summary);
    let mut error: Option<String> = None;
    if stats.failed > 0 {
        let mut message = String::new();
        push_decimal(&mut message, stats.failed as u64);
        message.append(" file(s) failed to process");
        assert(message@ =~= closing_error(*stats)->0);
        error = Some(message);
    } else if dry_run {
        lines.push("dry run: no files were modified".to_owned());
    }
    let report = Report { lines, error };
    assert(report.text() =~= closing_lines(*stats, dry_run));
    report
}

/// A call succeeds if and only if its job ran to its end and no file failed.
pub proof fn call_succeeds_without_failures(stats: Stats)
    ensures
        closing_error(stats) is None <==> !stats.stopped && stats.failed == 0,
{
}

} // verus!
