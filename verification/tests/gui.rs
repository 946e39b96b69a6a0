use metadata_scrub::gui::{finished, progress, Event, LineKind, ScrubApp, LOG_LINES};
use metadata_scrub::scrub::{Outcome, Stats};

fn last_line(app: &ScrubApp) -> (LineKind, &str) {
    let (kind, line) = app.log.last().unwrap();
    (*kind, line.as_str())
}

#[test]
fn a_window_opens_empty() {
    let app = ScrubApp::new();
    assert!(app.path.is_empty() && app.output_dir.is_empty() && app.log.is_empty());
    assert!(!app.running && !app.recursive && !app.backup && !app.dry_run);
    assert!(!app.can_start());
    assert!(app.is_in_place());
}

#[test]
fn a_job_does_not_start_without_a_path() {
    let mut app = ScrubApp::new();
    app.path = " \t\u{3000}\n".to_string();
    assert!(!app.can_start());
    assert!(app.start().is_none());
    assert_eq!(app.status, "Choose a file or folder first");
    assert!(!app.running && app.log.is_empty());
}

#[test]
fn a_job_starts_with_what_the_window_holds() {
    let mut app = ScrubApp::new();
    app.path = "  d/my photos \n".to_string();
    app.output_dir = "\u{a0}out ".to_string();
    app.backup = true;
    app.done = 4;
    app.total = 5;
    assert!(app.can_start());
    assert!(!app.is_in_place());
    let start = app.start().unwrap();
    assert_eq!(start.root, "d/my photos");
    assert_eq!(start.job.output_dir.as_deref(), Some("out"));
    assert!(start.job.backup && !start.job.recursive && !start.job.dry_run);
    assert!(app.running && !app.can_start());
    assert_eq!((app.done, app.total), (0, 0));
    assert_eq!(app.status, "Working...");
    assert_eq!(last_line(&app), (LineKind::Info, "Scanning d/my photos"));
    assert_eq!(app.path, "  d/my photos \n");
}

#[test]
fn a_job_without_an_output_folder_works_in_place() {
    let mut app = ScrubApp::new();
    app.path = "a.jpg".to_string();
    app.output_dir = "  ".to_string();
    app.recursive = true;
    app.dry_run = true;
    let start = app.start().unwrap();
    assert_eq!(start.job.output_dir, None);
    assert!(start.job.recursive && start.job.dry_run);
}

#[test]
fn a_window_follows_its_job() {
    let mut app = ScrubApp::new();
    app.path = "d".to_string();
    app.start().unwrap();
    assert_eq!(app.progress_label(), None);
    assert!(!app.on_event(Event::Total(2)));
    assert_eq!(app.total, 2);
    assert_eq!(last_line(&app), (LineKind::Info, "2 supported file(s) found"));

    let event = progress("d/a.png", &Ok(Outcome::Clean { copied_to: None }));
    assert!(!app.on_event(event));
    assert_eq!(app.done, 1);
    assert_eq!(app.progress_label().as_deref(), Some("1 / 2 files"));
    assert_eq!(
        last_line(&app),
        (LineKind::Clean, "clean     d/a.png  (no removable metadata found)")
    );
    assert!(app.running);

    let stats = Stats { scrubbed: 0, clean: 1, unsupported: 0, failed: 0, stopped: false };
    assert!(app.on_event(finished(&stats)));
    assert!(!app.running);
    assert_eq!(app.status, "Done");
    assert_eq!(
        last_line(&app),
        (LineKind::Info, "0 scrubbed, 1 already clean, 0 unsupported, 0 failed")
    );
}

#[test]
fn a_stopped_job_says_so() {
    let mut app = ScrubApp::new();
    let stats = Stats { scrubbed: 3, clean: 1, unsupported: 0, failed: 2, stopped: true };
    assert!(app.on_event(finished(&stats)));
    assert_eq!(app.status, "Stopped");
    assert_eq!(
        last_line(&app),
        (LineKind::Info, "stopped early - 3 scrubbed, 1 already clean, 0 unsupported, 2 failed")
    );
}

#[test]
fn a_job_that_cannot_run_says_so() {
    let mut app = ScrubApp::new();
    app.running = true;
    assert!(app.on_event(Event::Fatal("failed to read d".to_string())));
    assert!(!app.running);
    assert_eq!(app.status, "Failed");
    assert_eq!(last_line(&app), (LineKind::Failed, "failed to read d"));
}

#[test]
fn kinds_of_lines() {
    let kind = |result: Result<Outcome, String>| match progress("a", &result) {
        Event::Progress { kind, .. } => kind,
        _ => panic!("no progress"),
    };
    let scrubbed = Outcome::Scrubbed { before: 1, after: 0, dry_run: true };
    assert_eq!(kind(Ok(scrubbed)), LineKind::Scrubbed);
    assert_eq!(kind(Ok(Outcome::Clean { copied_to: None })), LineKind::Clean);
    assert_eq!(kind(Ok(Outcome::Unsupported { reason: String::new() })), LineKind::Skipped);
    assert_eq!(kind(Err(String::new())), LineKind::Failed);
}

#[test]
fn the_log_keeps_the_newest_lines() {
    let mut app = ScrubApp::new();
    for i in 0..LOG_LINES + 5 {
        app.push_log(LineKind::Info, i.to_string());
    }
    assert_eq!(app.log.len(), LOG_LINES);
    assert_eq!(app.log[0].1, "5");
    assert_eq!(last_line(&app), (LineKind::Info, "1004"));
}
