//! The window: what it holds, and what the buttons and a running job do to it.
use vstd::prelude::*;
use vstd::string::StringExecFns;
use crate::report::{counts, counts_text, progress_line, progress_text};
use crate::scrub::{Job, Outcome, Stats};
use crate::text::{decimal, push_decimal, trimmed};

verus! {

/// How many lines the log keeps.
pub const LOG_LINES: usize = 1000;

/// What a line of the log is about.
#[derive(Clone, Copy, Debug, PartialEq, Eq, Structural)]
pub enum LineKind {
    Scrubbed,
    Clean,
    Skipped,
    Failed,
    Info,
}

/// What a running job has to say.
#[derive(Debug)]
pub enum Event {
    /// How many files there are.
    Total(usize),
    /// That a file was processed.
    Progress { line: String, kind: LineKind },
    /// That the job came to its end.
    Finished { stopped: bool, summary: String },
    /// That the job could not run.
    Fatal(String),
}

/// What the line for a file is about.
pub open spec fn kind_of(result: Result<Outcome, String>) -> LineKind {
    match result {
        Ok(Outcome::Scrubbed { .. }) => LineKind::Scrubbed,
        Ok(Outcome::Clean { .. }) => LineKind::Clean,
        Ok(Outcome::Unsupported { .. }) => LineKind::Skipped,
        Err(_) => LineKind::Failed,
    }
}

/// The line for a file that was processed.
pub fn progress(path: &str, result: &Result<Outcome, String>) -> (event: Event)
    ensures
        event matches Event::Progress { line, kind } && line@ == progress_text(path@, *result)
            && kind == kind_of(*result),
{
    let kind = match result {
        Ok(Outcome::Scrubbed { .. }) => LineKind::Scrubbed,
        Ok(Outcome::Clean { .. }) => LineKind::Clean,
        Ok(Outcome::Unsupported { .. }) => LineKind::Skipped,
        Err(_) => LineKind::Failed,
    };
    Event::Progress { line: progress_line(path, result), kind }
}

/// What is said of a job at its end.
pub open spec fn summary_text(stats: Stats) -> Seq<char> {
    if stats.stopped {
        "stopped early - "@ + counts_text(stats)
    } else {
        counts_text(stats)
    }
}

/// The end of a job.
pub fn finished(stats: &Stats) -> (event: Event)
    ensures
        event matches Event::Finished { stopped, summary } && stopped == stats.stopped && summary@
            == summary_text(*stats),
{
    let words = counts(stats);
    if stats.stopped {
        let mut summary = "stopped early - ".to_owned();
        summary.append(words.as_str());
        Event::Finished { stopped: true, summary }
    } else {
        Event::Finished { stopped: false, summary: words }
    }
}

/// What the window holds.
#[derive(Debug)]
pub struct ScrubApp {
    pub path: String,
    pub output_dir: String,
    pub recursive: bool,
    pub backup: bool,
    pub dry_run: bool,
    pub running: bool,
    pub total: usize,
    pub done: usize,
    pub log: Vec<(LineKind, String)>,
    pub status: String,
}

/// A job to be started, and where.
#[derive(Debug)]
pub struct Start {
    pub root: String,
    pub job: Job,
}

/// The lines of a log.
pub open spec fn log_lines(log: Seq<(LineKind, String)>) -> Seq<(LineKind, Seq<char>)> {
    Seq::new(log.len(), |i: int| (log[i].0, log[i].1@))
}

/// The log after one more line: of the oldest lines so many are gone that no more than
/// `LOG_LINES` are left.
pub open spec fn logged(
    lines: Seq<(LineKind, Seq<char>)>,
    kind: LineKind,
    line: Seq<char>,
) -> Seq<(LineKind, Seq<char>)> {
    let all = lines.push((kind, line));
    if all.len() > LOG_LINES {
        all.skip(all.len() - LOG_LINES)
    } else {
        all
    }
}

impl ScrubApp {
    /// The lines of the log.
    pub open spec fn lines(self) -> Seq<(LineKind, Seq<char>)> {
        log_lines(self.log@)
    }

    /// That what the user sets is the same here and in `other`.
    pub open spec fn same_input(self, other: ScrubApp) -> bool {
        &&& self.path == other.path
        &&& self.output_dir == other.output_dir
        &&& self.recursive == other.recursive
        &&& self.backup == other.backup
        &&& self.dry_run == other.dry_run
    }

    /// That `after` is the window that is ready for the job that this one asks for, and `r` that
    /// job. There is none without a path.
    pub open spec fn starts(self, after: ScrubApp, r: Option<Start>) -> bool {
        &&& after.same_input(self)
        &&& trimmed(self.path@).len() == 0 ==> {
            &&& r is None
            &&& after.status@ == "Choose a file or folder first"@
            &&& after == (ScrubApp { status: after.status, ..self })
        }
        &&& trimmed(self.path@).len() > 0 ==> {
            &&& r matches Some(start)
            &&& start.root@ == trimmed(self.path@)
            &&& start.job.recursive == self.recursive
            &&& start.job.dry_run == self.dry_run
            &&& start.job.backup == self.backup
            &&& match start.job.output_dir {
                Some(dir) => dir@ == trimmed(self.output_dir@) && dir@.len() > 0,
                None => trimmed(self.output_dir@).len() == 0,
            }
            &&& after.running
            &&& after.done == 0
            &&& after.total == 0
            &&& after.status@ == "Working..."@
            &&& after.lines() == logged(
                self.lines(),
                LineKind::Info,
                "Scanning "@ + start.root@,
            )
        }
    }

    /// That `after` is what this window becomes when the running job says `event`, and `last`
    /// whether that was its last word.
    pub open spec fn takes_in(self, event: Event, after: ScrubApp, last: bool) -> bool {
        &&& after.same_input(self)
        &&& last == (event is Finished || event is Fatal)
        &&& after.running == (self.running && !last)
        &&& match event {
            Event::Total(n) => {
                &&& after.total == n
                &&& after.done == self.done
                &&& after.status == self.status
                &&& after.lines() == logged(
                    self.lines(),
                    LineKind::Info,
                    decimal(n as nat) + " supported file(s) found"@,
                )
            },
            Event::Progress { line, kind } => {
                &&& after.total == self.total
                &&& after.done == self.done + 1
                &&& after.status == self.status
                &&& after.lines() == logged(self.lines(), kind, line@)
            },
            Event::Finished { stopped, summary } => {
                &&& after.total == self.total
                &&& after.done == self.done
                &&& after.status@ == if stopped {
                    "Stopped"@
                } else {
                    "Done"@
                }
                &&& after.lines() == logged(self.lines(), LineKind::Info, summary@)
            },
            Event::Fatal(message) => {
                &&& after.total == self.total
                &&& after.done == self.done
                &&& after.status@ == "Failed"@
                &&& after.lines() == logged(self.lines(), LineKind::Failed, message@)
            },
        }
    }

    /// The window as it opens.
    pub fn new() -> (app: ScrubApp)
        ensures
            app.path@.len() == 0,
            app.output_dir@.len() == 0,
            !app.recursive,
            !app.backup,
            !app.dry_run,
            !app.running,
            app.total == 0,
            app.done == 0,
            app.log@.len() == 0,
            app.status@.len() == 0,
    {
        ScrubApp {
            path: String::new(),
            output_dir: String::new(),
            recursive: false,
            backup: false,
            dry_run: false,
            running: false,
            total: 0,
            done: 0,
            log: Vec::new(),
            status: String::new(),
        }
    }

    /// Adds a line to the log.
    pub fn push_log(&mut self, kind: LineKind, line: String)
        ensures
            final(self).lines() == logged(old(self).lines(), kind, line@),
            *final(self) == (ScrubApp { log: final(self).log, ..*old(self) }),
    {
        let ghost before = *self;
        let ghost all = before.lines().push((kind, line@));
        self.log.push((kind, line));
        assert(log_lines(self.log@) =~= all);
        assert(all.skip(0) =~= all);
        let ghost mut gone: int = 0;
        while self.log.len() > LOG_LINES
            invariant
                0 <= gone <= all.len(),
                log_lines(self.log@) == all.skip(gone),
                gone > 0 ==> self.log.len() >= LOG_LINES,
                *self == (ScrubApp { log: self.log, ..before }),
            decreases self.log.len(),
        {
            let ghost old_log = self.log@;
            self.log.remove(0);
            proof {
                assert(log_lines(self.log@) =~= log_lines(old_log).skip(1));
                assert(all.skip(gone).skip(1) =~= all.skip(gone + 1));
                assert(log_lines(old_log).len() == old_log.len());
                gone = gone + 1;
            }
        }
        assert(log_lines(self.log@).len() == self.log@.len());
        assert(self.lines() =~= logged(before.lines(), kind, line@));
    }

    /// Whether a job can be started: none is running, and a path is given.
    pub fn can_start(&self) -> (yes: bool)
        ensures
            yes == (!self.running && trimmed(self.path@).len() > 0),
    {
        !self.running && !self.path.as_str().trim().is_empty()
    }

    /// Whether files would be scrubbed in place: no output folder is given.
    pub fn is_in_place(&self) -> (yes: bool)
        ensures
            yes == (trimmed(self.output_dir@).len() == 0),
    {
        self.output_dir.as_str().trim().is_empty()
    }

    /// How far the job is, once it is known how many files there are.
    pub fn progress_label(&self) -> (r: Option<String>)
        ensures
            match r {
                Some(label) => self.total > 0 && label@ == decimal(self.done as nat) + " / "@
                    + decimal(self.total as nat) + " files"@,
                None => self.total == 0,
            },
    {
        if self.total == 0 {
            return None;
        }
        let mut label = String::new();
        push_decimal(&mut label, self.done as u64);
        label.append(" / ");
        push_decimal(&mut label, self.total as u64);
        label.append(" files");
        assert(label@ =~= decimal(self.done as nat) + " / "@ + decimal(self.total as nat)
            + " files"@);
        Some(label)
    }

    /// Gets the window ready for the job that it asks for, or says that a path is missing.
    pub fn start(&mut self) -> (r: Option<Start>)
        ensures
            old(self).starts(*final(self), r),
    {
        let trimmed_path = self.path.as_str().trim();
        if trimmed_path.is_empty() {
            self.status = "Choose a file or folder first".to_owned();
            return None;
        }
        let root = trimmed_path.to_owned();
        let dir = self.output_dir.as_str().trim();
        let output_dir = if dir.is_empty() {
            None
        } else {
            Some(dir.to_owned())
        };
        let job = Job {
            recursive: self.recursive,
            dry_run: self.dry_run,
            backup: self.backup,
            output_dir,
        };
        self.running = true;
        self.done = 0;
        self.total = 0;
        self.status = "Working...".to_owned();
        let mut line = "Scanning ".to_owned();
        line.append(root.as_str());
        self.push_log(LineKind::Info, line);
        Some(Start { root, job })
    }

    /// Takes in what the running job has to say. Tells whether that was its last word.
    pub fn on_event(&mut self, event: Event) -> (last: bool)
        requires
            event is Progress ==> old(self).done < usize::MAX,
        ensures
            old(self).takes_in(event, *final(self), last),
    {
        match event {
            Event::Total(n) => {
                self.total = n;
                let mut line = String::new();
                push_decimal(&mut line, n as u64);
                line.append(" supported file(s) found");
                assert(line@ =~= decimal(n as nat) + " supported file(s) found"@);
                self.push_log(LineKind::Info, line);
                false
            },
            Event::Progress { line, kind } => {
                self.done = self.done + 1;
                self.push_log(kind, line);
                false
            },
            Event::Finished { stopped, summary } => {
                self.running = false;
                self.status = if stopped {
                    "Stopped".to_owned()
                } else {
                    "Done".to_owned()
                };
                self.push_log(LineKind::Info, summary);
                true
            },
            Event::Fatal(message) => {
                self.running = false;
                self.status = "Failed".to_owned();
                self.push_log(LineKind::Failed, message);
                true
            },
        }
    }
}

/// The log keeps the newest line, and never more than `LOG_LINES`.
pub proof fn log_is_bounded(lines: Seq<(LineKind, Seq<char>)>, kind: LineKind, line: Seq<char>)
    ensures
        0 < logged(lines, kind, line).len() <= LOG_LINES,
        logged(lines, kind, line).last() == (kind, line),
{
}

} // verus!
