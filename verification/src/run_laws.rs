//! What holds of a whole run: from what was asked for, file by file, to what is written and said.
use vstd::prelude::*;
use crate::cli::{asks_for, mode_of, Args, Mode};
use crate::error::ScrubError;
use crate::gui::{logged, Event, LineKind, ScrubApp, Start};
use crate::scrub::{is_processed, Options, Outcome, Plan, Write};
use crate::scrub::job::{
    each_result_is_counted_once, job_counts_its_results, steps, tally, with_results, Job, JobAction,
    JobEvent, JobState,
};
use crate::scrub::path::names_to_skip;
use crate::scrub::process_laws::{can_be_scrubbed, left_of, what_is_written_is_what_is_left};
use crate::text::{decimal, trimmed};

verus! {

/// That a job goes through `states`, told `events` and asking for `actions`.
pub open spec fn is_run(
    states: Seq<JobState>,
    events: Seq<JobEvent>,
    actions: Seq<JobAction>,
) -> bool {
    &&& states.len() == events.len() + 1
    &&& actions.len() == events.len()
    &&& forall|k: int|
        0 <= k < events.len() ==> steps(
            states[k],
            #[trigger] events[k],
            states[k + 1],
            actions[k],
        )
}

/// That a job is told to go on and then what became of its file, `results.len()` times, and to go
/// on once more.
pub open spec fn goes_on(events: Seq<JobEvent>, results: Seq<Result<Outcome, String>>) -> bool {
    &&& events.len() == 2 * results.len() + 1
    &&& forall|k: int|
        0 <= k < results.len() ==> events[2 * k + 1] == JobEvent::Processed(#[trigger] results[k])
    &&& forall|k: int|
        0 <= k < events.len() && k % 2 == 0 ==> #[trigger] events[k] == (JobEvent::Ready {
            stop: false,
        })
}

proof fn lemma_run(
    states: Seq<JobState>,
    events: Seq<JobEvent>,
    actions: Seq<JobAction>,
    results: Seq<Result<Outcome, String>>,
    k: int,
)
    requires
        is_run(states, events, actions),
        goes_on(events, results),
        states[0].done == 0,
        states[0].stats == tally(Seq::empty()),
        results.len() <= states[0].files.len(),
        0 <= k <= results.len(),
    ensures
        states[2 * k] == with_results(states[0], results.take(k)),
        states[2 * k].done == k,
        states[2 * k].job == states[0].job,
        states[2 * k].root == states[0].root,
        states[2 * k].files == states[0].files,
        states[2 * k].stats == tally(results.take(k)),
    decreases k,
{
    let done = results.take(k);
    job_counts_its_results(states[0], done);
    if k > 0 {
        lemma_run(states, events, actions, results, k - 1);
        assert(done.drop_last() =~= results.take(k - 1));
        assert(done.last() == results[k - 1]);
        assert(steps(
            states[2 * k - 2],
            events[2 * k - 2],
            states[2 * k - 2 + 1],
            actions[2 * k - 2],
        ));
        assert((2 * k - 2) % 2 == 0);
        assert(events[2 * (k - 1) + 1] == JobEvent::Processed(results[k - 1]));
        assert(steps(
            states[2 * k - 1],
            events[2 * k - 1],
            states[2 * k - 1 + 1],
            actions[2 * k - 1],
        ));
    }
}

/// A job that is not stopped goes through its files in their order: it asks for each once, with
/// what was asked of the job, and it ends with the counts of what became of them.
pub proof fn job_goes_through_its_files(
    states: Seq<JobState>,
    events: Seq<JobEvent>,
    actions: Seq<JobAction>,
    results: Seq<Result<Outcome, String>>,
)
    requires
        is_run(states, events, actions),
        goes_on(events, results),
        states[0].done == 0,
        states[0].stats == tally(Seq::empty()),
        results.len() <= states[0].files.len(),
    ensures
        forall|k: int|
            0 <= k < results.len() ==> {
                let start = states[0];
                &&& #[trigger] actions[2 * k] matches JobAction::Process { file, skip, options }
                &&& file == k
                &&& options.dry_run == start.job.dry_run
                &&& options.backup == start.job.backup
                &&& skip is Some <==> start.job.output_dir is Some
                &&& skip is Some ==> skip->0 == names_to_skip(
                    start.root.names(),
                    start.files[k].names(),
                ) as usize
                &&& actions[2 * k + 1] is Continue
            },
        results.len() == states[0].files.len() ==> {
            &&& actions.last() matches JobAction::Finish(stats)
            &&& !stats.stopped
            &&& stats.sum() == results.len()
            &&& stats.failed == results.filter(|r: Result<Outcome, String>| r is Err).len()
            &&& stats.scrubbed == results.filter(
                |r: Result<Outcome, String>| r matches Ok(Outcome::Scrubbed { .. }),
            ).len()
            &&& stats.clean == results.filter(
                |r: Result<Outcome, String>| r matches Ok(Outcome::Clean { .. }),
            ).len()
            &&& stats.unsupported == results.filter(
                |r: Result<Outcome, String>| r matches Ok(Outcome::Unsupported { .. }),
            ).len()
        },
{
    let start = states[0];
    assert forall|k: int| 0 <= k < results.len() implies {
        &&& #[trigger] actions[2 * k] matches JobAction::Process { file, skip, options }
        &&& file == k
        &&& options.dry_run == start.job.dry_run
        &&& options.backup == start.job.backup
        &&& skip is Some <==> start.job.output_dir is Some
        &&& skip is Some ==> skip->0 == names_to_skip(
            start.root.names(),
            start.files[k].names(),
        ) as usize
        &&& actions[2 * k + 1] is Continue
    } by {
        lemma_run(states, events, actions, results, k);
        assert((2 * k) % 2 == 0);
        assert(steps(states[2 * k], events[2 * k], states[2 * k + 1], actions[2 * k]));
        assert(events[2 * k + 1] == JobEvent::Processed(results[k]));
        assert(steps(
            states[2 * k + 1],
            events[2 * k + 1],
            states[2 * k + 1 + 1],
            actions[2 * k + 1],
        ));
    }
    let n = results.len() as int;
    if n == start.files.len() {
        lemma_run(states, events, actions, results, n);
        assert(results.take(n) =~= results);
        each_result_is_counted_once(results);
        assert(steps(states[2 * n], events[2 * n], states[2 * n + 1], actions[2 * n]));
    }
}

/// A job that is asked to stop before its end stops there: it asks for no more files, says that it
/// was stopped, and keeps the counts of what was done.
pub proof fn job_stops_when_asked(before: JobState, after: JobState, action: JobAction)
    requires
        before.wf(),
        before.done < before.files.len(),
        steps(before, JobEvent::Ready { stop: true }, after, action),
    ensures
        action matches JobAction::Finish(stats) && {
            &&& stats.stopped
            &&& stats.sum() == before.done
            &&& stats.scrubbed == before.stats.scrubbed
            &&& stats.clean == before.stats.clean
            &&& stats.unsupported == before.stats.unsupported
            &&& stats.failed == before.stats.failed
        },
{
}

/// The program works on the command line if and only if it was given a path and not asked for the
/// window, and then there is a job for it.
pub proof fn a_path_without_a_window_gives_a_job(args: Args, r: Result<Job, String>)
    requires
        asks_for(args, r),
    ensures
        mode_of(args) == Mode::CommandLine <==> args.path is Some && !args.gui,
        mode_of(args) == Mode::CommandLine ==> r is Ok,
        r is Err <==> args.path is None,
{
}

/// What is written for a file of a job goes by what was asked of the job: nothing in a dry run,
/// nothing over the file itself with an output folder, a copy of it kept if and only if that was
/// asked for, and else what the scrubber left of it.
pub open spec fn is_as_asked(
    dry_run: bool,
    backup: bool,
    to_folder: bool,
    data: Seq<u8>,
    plan: Plan,
) -> bool {
    &&& dry_run ==> plan.write is Nothing
    &&& to_folder ==> !(plan.write is InPlace)
    &&& !to_folder ==> !(plan.write is Output) && !(plan.write is Copy)
    &&& plan.write is InPlace ==> plan.write->backup == backup
    &&& can_be_scrubbed(data) && left_of(data) is Ok && left_of(data)->Ok_0 is Some && !dry_run
        ==> match plan.write {
        Write::Output(out) => to_folder && left_of(data) == Ok::<_, ScrubError>(Some(out@)),
        Write::InPlace { data: out, .. } => !to_folder && left_of(data) == Ok::<_, ScrubError>(
            Some(out@),
        ),
        _ => false,
    }
    &&& can_be_scrubbed(data) && left_of(data) == Ok::<_, ScrubError>(None::<Seq<u8>>) && !dry_run
        ==> (plan.write is Copy <==> to_folder)
}

proof fn lemma_as_asked(
    state: JobState,
    after: JobState,
    file: usize,
    skip: Option<usize>,
    options: Options,
    data: Seq<u8>,
    ext: Option<Seq<char>>,
    dest: Option<Seq<char>>,
    plan: Plan,
)
    requires
        state.done < state.files.len(),
        steps(
            state,
            JobEvent::Ready { stop: false },
            after,
            JobAction::Process { file, skip, options },
        ),
        dest is Some <==> skip is Some,
        is_processed(data, ext, dest, options, Ok(plan)),
        data.len() <= u64::MAX,
        left_of(data) matches Ok(Some(out)) ==> out.len() <= u64::MAX,
    ensures
        is_as_asked(
            state.job.dry_run,
            state.job.backup,
            state.job.output_dir is Some,
            data,
            plan,
        ),
{
    if can_be_scrubbed(data) {
        if let Ok(Some(out)) = left_of(data) {
            what_is_written_is_what_is_left(data, ext, dest, options, plan, out);
        } else if left_of(data) is Ok {
            crate::scrub::process_laws::clean_files_are_copied_or_left(
                data,
                ext,
                dest,
                options,
                plan,
            );
        }
    }
}

/// What the program was called with reaches each file.
pub proof fn flags_reach_each_file(
    args: Args,
    state: JobState,
    after: JobState,
    file: usize,
    skip: Option<usize>,
    options: Options,
    data: Seq<u8>,
    ext: Option<Seq<char>>,
    dest: Option<Seq<char>>,
    plan: Plan,
)
    requires
        args.path is Some,
        asks_for(args, Ok(state.job)),
        state.done < state.files.len(),
        steps(
            state,
            JobEvent::Ready { stop: false },
            after,
            JobAction::Process { file, skip, options },
        ),
        dest is Some <==> skip is Some,
        is_processed(data, ext, dest, options, Ok(plan)),
        data.len() <= u64::MAX,
        left_of(data) matches Ok(Some(out)) ==> out.len() <= u64::MAX,
    ensures
        is_as_asked(args.dry_run, args.backup, args.output is Some, data, plan),
        state.job.recursive == args.recursive,
        args.output is Some ==> state.job.output_dir is Some && state.job.output_dir->0@
            == args.output->0@,
{
    lemma_as_asked(state, after, file, skip, options, data, ext, dest, plan);
}

/// What is set in the window reaches each file.
pub proof fn settings_reach_each_file(
    window: ScrubApp,
    working: ScrubApp,
    start: Start,
    state: JobState,
    after: JobState,
    file: usize,
    skip: Option<usize>,
    options: Options,
    data: Seq<u8>,
    ext: Option<Seq<char>>,
    dest: Option<Seq<char>>,
    plan: Plan,
)
    requires
        window.starts(working, Some(start)),
        state.job == start.job,
        state.done < state.files.len(),
        steps(
            state,
            JobEvent::Ready { stop: false },
            after,
            JobAction::Process { file, skip, options },
        ),
        dest is Some <==> skip is Some,
        is_processed(data, ext, dest, options, Ok(plan)),
        data.len() <= u64::MAX,
        left_of(data) matches Ok(Some(out)) ==> out.len() <= u64::MAX,
    ensures
        is_as_asked(
            window.dry_run,
            window.backup,
            trimmed(window.output_dir@).len() > 0,
            data,
            plan,
        ),
        start.job.recursive == window.recursive,
        start.root@ == trimmed(window.path@),
        start.job.output_dir matches Some(dir) ==> dir@ == trimmed(window.output_dir@),
{
    lemma_as_asked(state, after, file, skip, options, data, ext, dest, plan);
}

/// A job can be started from the window if and only if a path is given. What the user has set
/// stays, and only a window that starts a job is at work.
pub proof fn a_path_is_needed_to_start(window: ScrubApp, after: ScrubApp, r: Option<Start>)
    requires
        window.starts(after, r),
    ensures
        r is Some <==> trimmed(window.path@).len() > 0,
        after.path == window.path,
        after.output_dir == window.output_dir,
        after.recursive == window.recursive,
        after.backup == window.backup,
        after.dry_run == window.dry_run,
        r is Some ==> after.running && after.done == 0 && after.total == 0,
        r is None ==> after.running == window.running && after.lines() == window.lines(),
{
}

/// The last 1000 of `lines`, or all if there are fewer.
pub open spec fn newest(lines: Seq<(LineKind, Seq<char>)>) -> Seq<(LineKind, Seq<char>)> {
    if lines.len() <= 1000 {
        lines
    } else {
        lines.subrange(lines.len() - 1000, lines.len() as int)
    }
}

/// The line that the window shows for what a job says.
pub open spec fn line_for(event: Event) -> (LineKind, Seq<char>) {
    match event {
        Event::Total(n) => (LineKind::Info, decimal(n as nat) + " supported file(s) found"@),
        Event::Progress { line, kind } => (kind, line@),
        Event::Finished { summary, .. } => (LineKind::Info, summary@),
        Event::Fatal(message) => (LineKind::Failed, message@),
    }
}

/// That the window goes through `windows` as a job says `events`, with `lasts` what it tells of
/// each.
pub open spec fn hears(windows: Seq<ScrubApp>, events: Seq<Event>, lasts: Seq<bool>) -> bool {
    &&& windows.len() == events.len() + 1
    &&& lasts.len() == events.len()
    &&& forall|k: int|
        0 <= k < events.len() ==> windows[k].takes_in(
            #[trigger] events[k],
            windows[k + 1],
            lasts[k],
        )
}

proof fn lemma_newest(
    lines: Seq<(LineKind, Seq<char>)>,
    kind: LineKind,
    line: Seq<char>,
)
    ensures
        logged(newest(lines), kind, line) == newest(lines.push((kind, line))),
{
    assert(logged(newest(lines), kind, line) =~= newest(lines.push((kind, line))));
}

/// The window shows the last 1000 lines of all that was said, in their order, counts the files that
/// were processed, and is at work until the job's last word. What the user has set stays.
pub proof fn window_keeps_up_with_the_job(
    windows: Seq<ScrubApp>,
    events: Seq<Event>,
    lasts: Seq<bool>,
)
    requires
        hears(windows, events, lasts),
        windows[0].lines().len() <= 1000,
    ensures
        windows.last().lines() == newest(windows[0].lines() + events.map_values(
            |e: Event| line_for(e),
        )),
        windows.last().done == windows[0].done + events.filter(|e: Event| e is Progress).len(),
        windows.last().running <==> windows[0].running && forall|k: int|
            0 <= k < events.len() ==> !(#[trigger] events[k] is Finished) && !(events[k] is Fatal),
        windows.last().path == windows[0].path,
        windows.last().output_dir == windows[0].output_dir,
        windows.last().recursive == windows[0].recursive,
        windows.last().backup == windows[0].backup,
        windows.last().dry_run == windows[0].dry_run,
        events.len() > 0 && events.last() is Total ==> windows.last().total
            == events.last()->Total_0,
        events.len() > 0 && !(events.last() is Total) ==> windows.last().total
            == windows[events.len() - 1].total,
        events.len() > 0 ==> (lasts.last() <==> events.last() is Finished || events.last()
            is Fatal),
    decreases events.len(),
{
    reveal(Seq::filter);
    let said = events.map_values(|e: Event| line_for(e));
    let first = windows[0].lines();
    if events.len() == 0 {
        assert(first + said =~= first);
    } else {
        let n = events.len() - 1;
        let windows1 = windows.drop_last();
        let events1 = events.drop_last();
        let lasts1 = lasts.drop_last();
        assert forall|k: int| 0 <= k < events1.len() implies windows1[k].takes_in(
            #[trigger] events1[k],
            windows1[k + 1],
            lasts1[k],
        ) by {
            assert(events[k] == events1[k]);
        }
        window_keeps_up_with_the_job(windows1, events1, lasts1);
        assert(windows[n].takes_in(events[n], windows[n + 1], lasts[n]));
        let said1 = events1.map_values(|e: Event| line_for(e));
        let (kind, line) = line_for(events[n]);
        lemma_newest(first + said1, kind, line);
        assert((first + said1).push((kind, line)) =~= first + said);
        assert(windows.last().lines() == newest(first + said));
        assert((forall|k: int|
            0 <= k < events.len() ==> !(#[trigger] events[k] is Finished) && !(events[k] is Fatal))
            <==> (forall|k: int|
            0 <= k < events1.len() ==> !(#[trigger] events1[k] is Finished) && !(events1[k]
                is Fatal)) && !(events[n] is Finished) && !(events[n] is Fatal)) by {
            if forall|k: int|
                0 <= k < events.len() ==> !(#[trigger] events[k] is Finished) && !(events[k]
                    is Fatal) {
                assert forall|k: int| 0 <= k < events1.len() implies !(
                #[trigger] events1[k] is Finished) && !(events1[k] is Fatal) by {
                    assert(events[k] == events1[k]);
                }
            }
            if (forall|k: int|
                0 <= k < events1.len() ==> !(#[trigger] events1[k] is Finished) && !(events1[k]
                    is Fatal)) && !(events[n] is Finished) && !(events[n] is Fatal) {
                assert forall|k: int| 0 <= k < events.len() implies !(
                #[trigger] events[k] is Finished) && !(events[k] is Fatal) by {
                    if k < n {
                        assert(events[k] == events1[k]);
                    }
                }
            }
        }
    }
}

} // verus!
