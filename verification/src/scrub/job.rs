//! Running a job over its files, one after the other.
use vstd::prelude::*;
use crate::scrub::path::{names_to_skip, skip_for_output, FilePath};
use crate::scrub::{Options, Outcome};

verus! {

/// What became of the files of a job.
#[derive(Clone, Copy, Debug)]
pub struct Stats {
    pub scrubbed: usize,
    pub clean: usize,
    pub unsupported: usize,
    pub failed: usize,
    pub stopped: bool,
}

impl Stats {
    /// How many files there are results for.
    pub open spec fn sum(self) -> int {
        self.scrubbed + self.clean + self.unsupported + self.failed
    }
}

/// What is to be done with a file or a folder.
#[derive(Clone, Debug, Default)]
pub struct Job {
    /// Go into the folders below the root.
    pub recursive: bool,
    /// Say what would be done and change no file.
    pub dry_run: bool,
    /// Keep a copy of each file that is scrubbed in place.
    pub backup: bool,
    /// Write to this folder and leave the files themselves as they are.
    pub output_dir: Option<String>,
}

/// A job on its way.
#[derive(Debug)]
pub struct JobState {
    pub job: Job,
    pub root: FilePath,
    pub files: Vec<FilePath>,
    /// How many files are done.
    pub done: usize,
    pub stats: Stats,
}

impl JobState {
    /// That there is a result for each file that is done.
    pub open spec fn wf(self) -> bool {
        &&& self.done <= self.files.len()
        &&& self.stats.sum() == self.done
    }

    /// A job with nothing done yet.
    pub fn new(job: Job, root: FilePath, files: Vec<FilePath>) -> (state: JobState)
        ensures
            state.wf(),
            state.job == job,
            state.root == root,
            state.files == files,
            state.done == 0,
            state.stats == tally(Seq::empty()),
    {
        let stats = Stats { scrubbed: 0, clean: 0, unsupported: 0, failed: 0, stopped: false };
        JobState { job, root, files, done: 0, stats }
    }
}

/// What a job has to be told.
#[derive(Debug)]
pub enum JobEvent {
    /// That it may go on, and whether it was asked to stop.
    Ready { stop: bool },
    /// What became of the file that it had processed; an error by its message.
    Processed(Result<Outcome, String>),
}

/// What a job asks for.
#[derive(Debug)]
pub enum JobAction {
    /// To process this file. With an output folder, its place there is its path without the first
    /// `skip` names.
    Process { file: usize, skip: Option<usize>, options: Options },
    /// To be told to go on.
    Continue,
    /// Nothing more.
    Finish(Stats),
}

/// The counts after one more result.
pub open spec fn counted(stats: Stats, result: Result<Outcome, String>) -> Stats {
    match result {
        Err(_) => Stats { failed: (stats.failed + 1) as usize, ..stats },
        Ok(Outcome::Unsupported { .. }) => Stats {
            unsupported: (stats.unsupported + 1) as usize,
            ..stats
        },
        Ok(Outcome::Scrubbed { .. }) => Stats { scrubbed: (stats.scrubbed + 1) as usize, ..stats },
        Ok(Outcome::Clean { .. }) => Stats { clean: (stats.clean + 1) as usize, ..stats },
    }
}

/// The job after one more file.
pub open spec fn with_result(state: JobState, result: Result<Outcome, String>) -> JobState {
    JobState {
        done: (state.done + 1) as usize,
        stats: counted(state.stats, result),
        ..state
    }
}

/// That `event` takes a job from `before` to `after`, and that `action` is what it then asks for.
pub open spec fn steps(
    before: JobState,
    event: JobEvent,
    after: JobState,
    action: JobAction,
) -> bool {
    &&& after.job == before.job
    &&& after.root == before.root
    &&& after.files == before.files
    &&& before.done == before.files.len() ==> {
        &&& after == before
        &&& action == JobAction::Finish(before.stats)
    }
    &&& before.done < before.files.len() ==> match event {
        JobEvent::Ready { stop: true } => {
            &&& after.done == before.done
            &&& after.stats == (Stats { stopped: true, ..before.stats })
            &&& action == JobAction::Finish(after.stats)
        },
        JobEvent::Ready { stop: false } => {
            &&& after == before
            &&& action == JobAction::Process {
                file: before.done,
                skip: if before.job.output_dir is Some {
                    Some(
                        names_to_skip(
                            before.root.names(),
                            before.files[before.done as int].names(),
                        ) as usize,
                    )
                } else {
                    None
                },
                options: Options { dry_run: before.job.dry_run, backup: before.job.backup },
            }
        },
        JobEvent::Processed(result) => {
            &&& after == with_result(before, result)
            &&& action == JobAction::Continue
        },
    }
}

/// Takes a job one step further. The files are processed in their order, each is counted once, and
/// a request to stop is heeded before the next file.
pub fn run_job(state: &mut JobState, event: &JobEvent) -> (action: JobAction)
    requires
        old(state).wf(),
    ensures
        final(state).wf(),
        steps(*old(state), *event, *final(state), action),
        action matches JobAction::Finish(stats) ==> stats.stopped || stats.sum()
            == old(state).files.len(),
{
    if state.done == state.files.len() {
        return JobAction::Finish(state.stats);
    }
    match event {
        JobEvent::Ready { stop } => {
            if *stop {
                state.stats.stopped = true;
                return JobAction::Finish(state.stats);
            }
            let skip = if state.job.output_dir.is_some() {
                Some(skip_for_output(&state.root, &state.files[state.done]))
            } else {
                None
            };
            let options = Options { dry_run: state.job.dry_run, backup: state.job.backup };
            JobAction::Process { file: state.done, skip, options }
        },
        JobEvent::Processed(result) => {
            match result {
                Err(_) => {
                    state.stats.failed = state.stats.failed + 1;
                },
                Ok(Outcome::Unsupported { .. }) => {
                    state.stats.unsupported = state.stats.unsupported + 1;
                },
                Ok(Outcome::Scrubbed { .. }) => {
                    state.stats.scrubbed = state.stats.scrubbed + 1;
                },
                Ok(Outcome::Clean { .. }) => {
                    state.stats.clean = state.stats.clean + 1;
                },
            }
            state.done = state.done + 1;
            JobAction::Continue
        },
    }
}

/// The counts of a job with these results.
pub open spec fn tally(results: Seq<Result<Outcome, String>>) -> Stats
    decreases results.len(),
{
    if results.len() == 0 {
        Stats { scrubbed: 0, clean: 0, unsupported: 0, failed: 0, stopped: false }
    } else {
        counted(tally(results.drop_last()), results.last())
    }
}

/// Each result is counted once, under what it is.
pub proof fn each_result_is_counted_once(results: Seq<Result<Outcome, String>>)
    requires
        results.len() <= usize::MAX,
    ensures
        tally(results).sum() == results.len(),
        !tally(results).stopped,
        tally(results).failed == results.filter(|r: Result<Outcome, String>| r is Err).len(),
        tally(results).scrubbed == results.filter(
            |r: Result<Outcome, String>| r matches Ok(Outcome::Scrubbed { .. }),
        ).len(),
        tally(results).clean == results.filter(
            |r: Result<Outcome, String>| r matches Ok(Outcome::Clean { .. }),
        ).len(),
        tally(results).unsupported == results.filter(
            |r: Result<Outcome, String>| r matches Ok(Outcome::Unsupported { .. }),
        ).len(),
    decreases results.len(),
{
    reveal(Seq::filter);
    if results.len() > 0 {
        each_result_is_counted_once(results.drop_last());
    }
}

/// The job after files with these results.
pub open spec fn with_results(
    state: JobState,
    results: Seq<Result<Outcome, String>>,
) -> JobState
    decreases results.len(),
{
    if results.len() == 0 {
        state
    } else {
        with_result(with_results(state, results.drop_last()), results.last())
    }
}

/// A job that has begun with nothing done counts just the results it was given. Once there is one
/// for each file, these are the counts that it ends with.
pub proof fn job_counts_its_results(start: JobState, results: Seq<Result<Outcome, String>>)
    requires
        start.done == 0,
        start.stats == tally(Seq::empty()),
        results.len() <= start.files.len(),
    ensures
        ({
            let state = with_results(start, results);
            &&& state.wf()
            &&& state.stats == tally(results)
            &&& state.done == results.len()
            &&& state.job == start.job
            &&& state.root == start.root
            &&& state.files == start.files
        }),
    decreases results.len(),
{
    each_result_is_counted_once(results);
    if results.len() > 0 {
        job_counts_its_results(start, results.drop_last());
    } else {
        assert(results =~= Seq::empty());
    }
}

} // verus!
