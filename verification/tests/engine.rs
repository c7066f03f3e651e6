use rusty_broom::clean::Outcome;
use rusty_broom::clock::Timestamp;
use rusty_broom::engine::{
    conclude_clean, conclude_resolve, conclude_size, errand_for, resolve, worker_count, Errand,
    Event, Job, Popped, Queue, Scanner,
};
use rusty_broom::path::FsPath;
use rusty_broom::project::{CleanState, GitStatus};
use rusty_broom::scan::build_candidate;
use rusty_broom::size::DirStat;
use rusty_broom::store::Store;

fn path(text: &str) -> FsPath {
    FsPath::from_text(text)
}

fn pair(pattern: &str, at: &str) -> (String, FsPath) {
    (pattern.to_string(), path(at))
}

fn job(index: usize) -> Job {
    Job::Size { id: 0, index, path: path("/x") }
}

#[test]
fn urgent_jobs_jump_the_queue() {
    let mut queue = Queue::new();
    assert!(!queue.is_idle());
    assert_eq!(queue.pop(), Popped::Wait);
    assert!(queue.can_push());
    queue.push(job(1), false);
    queue.push(job(2), false);
    queue.push(job(3), true);
    assert_eq!(queue.pop(), Popped::Job(job(3)));
    assert_eq!(queue.pop(), Popped::Job(job(1)));
    queue.scan_finished();
    queue.finish_job();
    queue.finish_job();
    assert!(!queue.is_idle());
    assert_eq!(queue.pop(), Popped::Job(job(2)));
    assert!(!queue.is_idle());
    queue.finish_job();
    assert!(queue.is_idle());
    queue.finish_job();
    assert!(queue.is_idle());
}

#[test]
fn a_closed_queue_takes_nothing() {
    let mut queue = Queue::new();
    queue.push(job(1), false);
    queue.close();
    assert!(queue.is_idle());
    queue.push(job(2), true);
    assert_eq!(queue.pop(), Popped::Closed);
}

#[test]
fn worker_counts() {
    assert_eq!(worker_count(3, Some(16)), 3);
    assert_eq!(worker_count(0, Some(16)), 8);
    assert_eq!(worker_count(0, Some(1)), 2);
    assert_eq!(worker_count(0, Some(5)), 5);
    assert_eq!(worker_count(0, None), 4);
}

#[test]
fn the_scanner_hands_out_ids_in_order() {
    let mut scanner = Scanner::new();
    for id in 0..3 {
        let candidate = build_candidate(
            path("/r/p"),
            path("/r"),
            vec!["rust".to_string()],
            &vec![pair("target", "/r/p/target")],
            Some(Timestamp::new(9, 0)),
            42,
        );
        assert!(scanner.can_find());
        let (event, job) = scanner.found(candidate);
        match event {
            Event::Found(project) => {
                assert_eq!((project.id, project.source_files), (id, 42));
                assert_eq!(project.last_activity, Some(Timestamp::new(9, 0)));
                assert!(!project.resolved);
            }
            other => panic!("{other:?}"),
        }
        assert_eq!(
            job,
            Job::Resolve {
                id,
                root: path("/r/p"),
                candidates: vec![pair("target", "/r/p/target")]
            }
        );
    }
    assert_eq!(scanner.progress(15, &path("/r")), None);
    assert_eq!(
        scanner.progress(32, &path("/r")),
        Some(Event::Progress { dirs: 32, current: path("/r") })
    );
    assert_eq!(scanner.progress(33, &path("/r")), None);
    assert_eq!(scanner.finished(), Event::ScanFinished { dirs: 33 });
}

#[test]
fn only_ignored_paths_become_artifacts() {
    let candidates = vec![pair("target", "/r/p/target"), pair("dist", "/r/p/dist")];
    let verdict = Ok(vec!["target".to_string()]);
    let (artifacts, git, skipped) = resolve(&path("/r/p"), candidates.clone(), true, verdict);
    assert_eq!(artifacts.len(), 1);
    assert_eq!((artifacts[0].path.clone(), artifacts[0].pattern.as_str()), (path("/r/p/target"), "target"));
    assert_eq!((git, skipped), (GitStatus::Ignored, vec![path("/r/p/dist")]));

    let (artifacts, git, skipped) =
        resolve(&path("/r/p"), candidates.clone(), true, Err(GitStatus::NoRepo));
    assert_eq!((artifacts.len(), git, skipped.len()), (2, GitStatus::NoRepo, 0));

    let (artifacts, git, _) = resolve(&path("/r/p"), candidates, false, Ok(Vec::new()));
    assert_eq!((artifacts.len(), git), (2, GitStatus::Disabled));
}

#[test]
fn the_last_pattern_of_a_path_counts_once() {
    let candidates = vec![pair("a", "/r/p/x"), pair("b", "/r/p/x")];
    let (artifacts, _, _) = resolve(&path("/r/p"), candidates, false, Ok(Vec::new()));
    let patterns: Vec<&str> = artifacts.iter().map(|a| a.pattern.as_str()).collect();
    assert_eq!(patterns, ["b", ""]);
}

#[test]
fn errands_follow_from_jobs() {
    let resolve_job = Job::Resolve {
        id: 1,
        root: path("/r/p"),
        candidates: vec![pair("target", "/r/p/target"), pair("d", "/r/p/a/d")],
    };
    assert_eq!(errand_for(&resolve_job, true, true), Errand::Stop);
    assert_eq!(errand_for(&resolve_job, false, false), Errand::Nothing);
    assert_eq!(
        errand_for(&resolve_job, false, true),
        Errand::AskGit { root: path("/r/p"), input: b"target\0a/d\0".to_vec() }
    );
    let empty = Job::Resolve { id: 1, root: path("/r/p"), candidates: Vec::new() };
    assert_eq!(errand_for(&empty, false, true), Errand::Nothing);
    assert_eq!(errand_for(&job(0), false, true), Errand::Measure { path: path("/x") });
    let clean = Job::Clean { id: 2, root: path("/r/p"), paths: vec![path("/r/p/t")] };
    assert_eq!(
        errand_for(&clean, false, true),
        Errand::Delete { id: 2, root: path("/r/p"), paths: vec![path("/r/p/t")] }
    );
}

#[test]
fn artifacts_are_announced_before_they_are_measured() {
    let candidates = vec![pair("a", "/r/p/a"), pair("b", "/r/p/b")];
    let (event, jobs) = conclude_resolve(7, &path("/r/p"), candidates, false, Ok(Vec::new()));
    match event {
        Event::Artifacts { id, artifacts, git, skipped } => {
            assert_eq!((id, artifacts.len(), git), (7, 2, GitStatus::Disabled));
            assert!(skipped.is_empty());
        }
        other => panic!("{other:?}"),
    }
    assert_eq!(
        jobs,
        vec![
            Job::Size { id: 7, index: 0, path: path("/r/p/a") },
            Job::Size { id: 7, index: 1, path: path("/r/p/b") },
        ]
    );
}

fn found(scanner: &mut Scanner) -> Event {
    let candidate =
        build_candidate(path("/r/p"), path("/r"), Vec::new(), &Vec::new(), None, 0);
    scanner.found(candidate).0
}

fn apply(store: &mut Store, event: Event) -> Option<usize> {
    assert!(store.can_apply(&event));
    store.apply(event)
}

#[test]
fn the_store_follows_the_pipeline() {
    let mut scanner = Scanner::new();
    let mut store = Store::new();
    assert!(store.scanning);
    assert_eq!(apply(&mut store, found(&mut scanner)), Some(0));
    assert_eq!(apply(&mut store, found(&mut scanner)), Some(1));
    let progress = Event::Progress { dirs: 16, current: path("/r/x") };
    assert_eq!(apply(&mut store, progress), None);
    assert_eq!((store.dirs_scanned, store.current_dir.clone()), (16, Some(path("/r/x"))));

    let candidates = vec![pair("a", "/r/p/a"), pair("b", "/r/p/b")];
    let verdict = Ok(vec!["a".to_string()]);
    let (event, jobs) = conclude_resolve(1, &path("/r/p"), candidates, true, verdict);
    assert_eq!(jobs.len(), 1);
    assert_eq!(apply(&mut store, event), Some(1));
    assert_eq!(store.skipped_paths, 1);
    assert!(store.get(1).unwrap().resolved && !store.get(1).unwrap().is_measured());

    let stat = DirStat { bytes: 77, files: 3, newest: None };
    assert_eq!(apply(&mut store, conclude_size(1, 0, stat)), Some(1));
    assert!(store.get(1).unwrap().is_measured());
    assert_eq!(store.get(1).unwrap().size(), 77);
    assert_eq!(apply(&mut store, conclude_size(1, 5, stat)), None);
    assert_eq!(apply(&mut store, conclude_size(9, 0, stat)), None);
    assert_eq!(store.get(0).unwrap().size(), 0);

    assert_eq!(apply(&mut store, Event::ScanFinished { dirs: 9 }), None);
    assert_eq!((store.dirs_scanned, store.scanning), (16, false));
    assert_eq!(store.current_dir, None);

    assert_eq!(apply(&mut store, Event::CleanStarted { id: 1 }), Some(1));
    assert_eq!(store.get(1).unwrap().state, CleanState::Running);
    let failed = Outcome { freed: 7, removed: Vec::new(), errors: vec!["no".to_string()] };
    assert_eq!(apply(&mut store, conclude_clean(1, failed)), Some(1));
    assert_eq!(store.get(1).unwrap().state, CleanState::Failed { errors: vec!["no".to_string()] });
    assert_eq!((store.freed, store.get(1).unwrap().size()), (7, 77));
    let done = Outcome { freed: 70, removed: Vec::new(), errors: Vec::new() };
    assert_eq!(apply(&mut store, conclude_clean(1, done)), Some(1));
    assert_eq!(store.get(1).unwrap().state, CleanState::Done { freed: 70 });
    assert_eq!((store.freed, store.get(1).unwrap().size()), (77, 0));
    assert!(store.get(1).unwrap().artifacts.is_empty());
    assert!(store.get(2).is_none());
}

#[test]
fn missing_ids_leave_placeholders() {
    let mut scanner = Scanner::new();
    let _ = found(&mut scanner);
    let _ = found(&mut scanner);
    let mut store = Store::new();
    let third = found(&mut scanner);
    assert_eq!(apply(&mut store, third), Some(2));
    assert_eq!(store.projects.len(), 3);
    assert_eq!(store.projects[0].id, usize::MAX);
    let all: Vec<usize> = store.all().iter().map(|p| p.id).collect();
    assert_eq!(all, [2]);
}

#[test]
fn totals_beyond_the_limit_are_told() {
    let mut store = Store::new();
    store.freed = u64::MAX;
    assert!(!store.can_apply(&Event::CleanFinished { id: 0, freed: 1, errors: Vec::new() }));
    assert!(store.can_apply(&Event::CleanFinished { id: 0, freed: 0, errors: Vec::new() }));
}

#[test]
fn clean_jobs_jump_the_queue() {
    let mut queue = Queue::new();
    queue.submit(job(1));
    queue.submit(job(2));
    let clean = || Job::Clean { id: 0, root: path("/r/p"), paths: Vec::new() };
    queue.submit(clean());
    assert_eq!(queue.pop(), Popped::Job(clean()));
    assert_eq!(queue.pop(), Popped::Job(job(1)));
    assert_eq!(queue.pop(), Popped::Job(job(2)));
}

#[test]
fn a_project_is_measured_once_all_its_artifacts_are() {
    let mut scanner = Scanner::new();
    let mut store = Store::new();
    apply(&mut store, found(&mut scanner));
    let candidates = vec![pair("a", "/r/p/a"), pair("b", "/r/p/b")];
    let stat = DirStat { bytes: 1, files: 1, newest: None };
    let (event, _) = conclude_resolve(0, &path("/r/p"), candidates, false, Ok(Vec::new()));
    apply(&mut store, event);
    apply(&mut store, conclude_size(0, 1, stat));
    assert!(!store.get(0).unwrap().is_measured());
    apply(&mut store, conclude_size(0, 1, stat));
    assert!(!store.get(0).unwrap().is_measured());
    apply(&mut store, conclude_size(0, 0, stat));
    assert!(store.get(0).unwrap().is_measured());
}

/// Run the pipeline on one thread, taking up jobs as they come, and note what is
/// announced. The project at `/r/<n>` has the artifacts `artifacts[n]`.
fn run(artifacts: &[&[&str]]) -> Vec<Event> {
    let mut queue = Queue::new();
    let mut scanner = Scanner::new();
    let mut events = Vec::new();
    for (n, names) in artifacts.iter().enumerate() {
        let root = path("/r").entry(&n.to_string());
        let found = names.iter().map(|name| (name.to_string(), root.entry(name))).collect();
        let candidate = build_candidate(root, path("/r"), Vec::new(), &found, None, 0);
        let (event, job) = scanner.found(candidate);
        events.push(event);
        queue.submit(job);
    }
    queue.scan_finished();
    while let Popped::Job(job) = queue.pop() {
        match job {
            Job::Resolve { id, root, candidates } => {
                let (event, jobs) = conclude_resolve(id, &root, candidates, false, Ok(Vec::new()));
                events.push(event);
                jobs.into_iter().for_each(|job| queue.submit(job));
            }
            Job::Size { id, index, .. } => {
                events.push(conclude_size(id, index, DirStat::default()));
            }
            Job::Clean { .. } => unreachable!(),
        }
        queue.finish_job();
    }
    assert!(queue.is_idle());
    events
}

#[test]
fn an_idle_run_has_announced_and_measured_each_thing_once() {
    let artifacts: [&[&str]; 3] = [&["a", "b"], &[], &["c"]];
    let events = run(&artifacts);
    for (n, names) in artifacts.iter().enumerate() {
        let announced: Vec<usize> = (0..events.len())
            .filter(|&k| matches!(&events[k], Event::Artifacts { id, .. } if *id == n))
            .collect();
        assert_eq!(announced.len(), 1);
        let measured: Vec<(usize, usize)> = events
            .iter()
            .enumerate()
            .filter_map(|(k, event)| match event {
                Event::Sized { id, index, .. } if *id == n => Some((k, *index)),
                _ => None,
            })
            .collect();
        assert!(measured.iter().all(|(k, _)| *k > announced[0]));
        let indices: Vec<usize> = measured.iter().map(|(_, index)| *index).collect();
        assert_eq!(indices, (0..names.len()).collect::<Vec<usize>>());
    }
    assert_eq!(events.len(), 3 + 3 + 3);
}
