use metadata_scrub::cli::{close, mode, run, Args, Mode};
use metadata_scrub::report::{counts, progress_line};
use metadata_scrub::scrub::{Outcome, Stats};

fn args(path: Option<&str>, gui: bool) -> Args {
    Args {
        path: path.map(|p| p.to_string()),
        gui,
        recursive: true,
        dry_run: false,
        backup: true,
        output: Some("out".to_string()),
    }
}

fn stats(scrubbed: usize, clean: usize, unsupported: usize, failed: usize, stopped: bool) -> Stats {
    Stats { scrubbed, clean, unsupported, failed, stopped }
}

#[test]
fn a_path_runs_on_the_command_line() {
    assert_eq!(mode(&args(Some("a.jpg"), false)), Mode::CommandLine);
    assert_eq!(mode(&args(Some("a.jpg"), true)), Mode::Window);
    assert_eq!(mode(&args(None, false)), Mode::Window);
    assert_eq!(mode(&args(None, true)), Mode::Window);
}

#[test]
fn a_job_is_what_was_asked_for() {
    let job = run(&args(Some("a.jpg"), false)).unwrap();
    assert!(job.recursive && !job.dry_run && job.backup);
    assert_eq!(job.output_dir.as_deref(), Some("out"));
    let job = run(&Args { output: None, dry_run: true, ..args(Some("a"), false) }).unwrap();
    assert!(job.dry_run);
    assert_eq!(job.output_dir, None);
}

#[test]
fn a_job_needs_a_path() {
    assert_eq!(
        run(&args(None, false)).unwrap_err(),
        "a PATH is required unless the GUI is used"
    );
}

#[test]
fn lines_for_files() {
    let scrubbed = Ok(Outcome::Scrubbed { before: 30, after: 10, dry_run: false });
    assert_eq!(
        progress_line("d/a.jpg", &scrubbed),
        "scrubbed  d/a.jpg  (removed 20 bytes of metadata (30 -> 10 bytes))"
    );
    assert_eq!(
        progress_line("a", &Ok(Outcome::Clean { copied_to: None })),
        "clean     a  (no removable metadata found)"
    );
    assert_eq!(
        progress_line("a", &Ok(Outcome::Unsupported { reason: "odd".to_string() })),
        "skipped   a  (unsupported: odd)"
    );
    assert_eq!(progress_line("a", &Err("gone".to_string())), "failed    a  (gone)");
}

#[test]
fn counts_in_words() {
    assert_eq!(
        counts(&stats(1, 20, 300, 4000, false)),
        "1 scrubbed, 20 already clean, 300 unsupported, 4000 failed"
    );
}

#[test]
fn a_call_ends_with_its_counts() {
    let report = close(&stats(2, 1, 0, 0, false), false);
    assert_eq!(report.lines, vec!["\n2 scrubbed, 1 already clean, 0 unsupported, 0 failed"]);
    assert_eq!(report.error, None);
}

#[test]
fn a_dry_run_says_so() {
    let report = close(&stats(2, 1, 0, 0, false), true);
    assert_eq!(
        report.lines,
        vec![
            "\n2 scrubbed, 1 already clean, 0 unsupported, 0 failed",
            "dry run: no files were modified"
        ]
    );
    assert_eq!(report.error, None);
}

#[test]
fn a_call_fails_with_its_files() {
    let report = close(&stats(0, 0, 0, 12, false), true);
    assert_eq!(report.lines, vec!["\n0 scrubbed, 0 already clean, 0 unsupported, 12 failed"]);
    assert_eq!(report.error.as_deref(), Some("12 file(s) failed to process"));
}

#[test]
fn a_stopped_call_says_only_that() {
    let report = close(&stats(1, 0, 0, 3, true), true);
    assert!(report.lines.is_empty());
    assert_eq!(report.error.as_deref(), Some("interrupted"));
}
