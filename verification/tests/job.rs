use metadata_scrub::scrub::path::{skip_for_output, FilePath};
use metadata_scrub::scrub::{
    collect_files, run_job, Entry, Job, JobAction, JobEvent, JobState, Outcome, Root,
};

fn path(text: &str) -> FilePath {
    FilePath { components: text.split('/').map(|c| c.as_bytes().to_vec()).collect() }
}

fn entry(text: &str, is_file: bool) -> Entry {
    Entry { path: path(text), is_file }
}

fn scrubbed() -> Result<Outcome, String> {
    Ok(Outcome::Scrubbed { before: 2, after: 1, dry_run: false })
}

fn clean() -> Result<Outcome, String> {
    Ok(Outcome::Clean { copied_to: None })
}

fn unsupported() -> Result<Outcome, String> {
    Ok(Outcome::Unsupported { reason: "odd".to_string() })
}

#[test]
fn a_supported_file_is_collected_alone() {
    assert_eq!(collect_files(&Root::File(path("d/a.PNG")), false), Ok(vec![0]));
}

#[test]
fn an_unsupported_file_is_refused() {
    assert_eq!(
        collect_files(&Root::File(path("d/a.Gif")), false),
        Err("unsupported file type .Gif (supported: jpg, jpeg, png, webp, mp4, m4v, mov, avi)"
            .to_string())
    );
    assert_eq!(
        collect_files(&Root::File(path("d/a")), true),
        Err("unsupported file type <none> (supported: jpg, jpeg, png, webp, mp4, m4v, mov, avi)"
            .to_string())
    );
}

fn folder() -> Root {
    let entries = vec![
        entry("d/b.jpg", true),
        entry("d", false),
        entry("d/a.jpg/c.mov", true),
        entry("d/z.txt", true),
        entry("d/a.jpg", false),
        entry("d/a/b.png", true),
        entry("d/A.avi", true),
        entry("d/a-b/b.png", true),
        entry("d/b.JPG", true),
    ];
    Root::Folder { path: path("d"), entries }
}

#[test]
fn supported_files_of_a_folder_are_collected_in_the_order_of_their_paths() {
    assert_eq!(collect_files(&folder(), true), Ok(vec![6, 5, 7, 2, 8, 0]));
    let empty = Root::Folder { path: path("d"), entries: vec![] };
    assert_eq!(collect_files(&empty, true), Ok(vec![]));
}

#[test]
fn without_recursion_only_files_directly_in_a_folder_are_collected() {
    let near = collect_files(&folder(), false).unwrap();
    assert_eq!(near, vec![6, 8, 0]);
    let all = collect_files(&folder(), true).unwrap();
    assert!(near.iter().all(|i| all.contains(i)));
}

#[test]
fn paths_are_compared_name_by_name() {
    assert!(path("a/z").is_before(&path("a-/a")));
    assert!(path("a").is_before(&path("a/b")));
    assert!(path("a/b").is_before(&path("a/bb")));
    assert!(!path("a/b").is_before(&path("a/b")));
    assert!(!path("b").is_before(&path("a/b")));
    assert!(path("a/b").is_under(&path("a")));
    assert!(path("a").is_under(&path("a")));
    assert!(!path("ab").is_under(&path("a")));
    assert!(!path("a").is_under(&path("a/b")));
}

#[test]
fn places_in_an_output_folder() {
    assert_eq!(skip_for_output(&path("d/e"), &path("d/e/f/g.jpg")), 2);
    assert_eq!(skip_for_output(&path("d/e/g.jpg"), &path("d/e/g.jpg")), 2);
    assert_eq!(skip_for_output(&path("g.jpg"), &path("g.jpg")), 0);
    assert_eq!(skip_for_output(&path("x"), &path("d/g.jpg")), 0);
}

#[test]
fn files_below_a_root_do_not_share_a_place() {
    let root = path("d");
    let files = [path("d/a.jpg"), path("d/e/a.jpg"), path("d/e/e/a.jpg"), path("d/d/a.jpg")];
    let mut places: Vec<Vec<Vec<u8>>> =
        files.iter().map(|f| f.components[skip_for_output(&root, f)..].to_vec()).collect();
    assert_eq!(places[1], vec![b"e".to_vec(), b"a.jpg".to_vec()]);
    places.sort();
    places.dedup();
    assert_eq!(places.len(), 4);
}

#[test]
fn a_job_goes_through_its_files() {
    let job = Job { recursive: true, dry_run: true, backup: false, output_dir: None };
    let files = vec![path("d/a.jpg"), path("d/b.jpg"), path("d/c.jpg"), path("d/d.jpg")];
    let mut state = JobState::new(job, path("d"), files);
    let results = [scrubbed(), clean(), Err("gone".to_string()), unsupported()];
    for (i, result) in results.into_iter().enumerate() {
        let action = run_job(&mut state, &JobEvent::Ready { stop: false });
        let JobAction::Process { file, skip, options } = action else { panic!("no file") };
        assert_eq!((file, skip), (i, None));
        assert!(options.dry_run && !options.backup);
        let action = run_job(&mut state, &JobEvent::Processed(result));
        assert!(matches!(action, JobAction::Continue));
    }
    let action = run_job(&mut state, &JobEvent::Ready { stop: true });
    let JobAction::Finish(stats) = action else { panic!("not at its end") };
    assert_eq!(
        (stats.scrubbed, stats.clean, stats.unsupported, stats.failed, stats.stopped),
        (1, 1, 1, 1, false)
    );
}

#[test]
fn a_job_stops_before_the_next_file() {
    let job = Job { output_dir: Some("out".to_string()), backup: true, ..Job::default() };
    let mut state = JobState::new(job, path("d"), vec![path("d/e/a.jpg"), path("d/b.jpg")]);
    let action = run_job(&mut state, &JobEvent::Ready { stop: false });
    let JobAction::Process { file, skip, options } = action else { panic!("no file") };
    assert_eq!((file, skip), (0, Some(1)));
    assert!(!options.dry_run && options.backup);
    run_job(&mut state, &JobEvent::Processed(clean()));
    let action = run_job(&mut state, &JobEvent::Ready { stop: true });
    let JobAction::Finish(stats) = action else { panic!("goes on") };
    assert_eq!((stats.clean, stats.scrubbed, stats.stopped), (1, 0, true));
}

#[test]
fn a_job_without_files_is_done() {
    let mut state = JobState::new(Job::default(), path("d"), vec![]);
    let action = run_job(&mut state, &JobEvent::Ready { stop: true });
    assert!(matches!(action, JobAction::Finish(stats) if !stats.stopped));
}
