use rusty_broom::clock::{Duration, Timestamp};
use rusty_broom::path::FsPath;
use rusty_broom::project::{
    can_total, sum_files, sum_sizes, tilde, tilde_from, Artifact, CleanState, Filter, GitStatus,
    Project, Sort,
};
use rusty_broom::size::DirStat;

fn path(text: &str) -> FsPath {
    FsPath::from_text(text)
}

fn at(secs: i64) -> Timestamp {
    Timestamp::new(secs, 0)
}

fn artifact(name: &str, bytes: Option<u64>) -> Artifact {
    Artifact {
        path: path(name),
        pattern: "target".to_string(),
        stat: bytes.map(|bytes| DirStat { bytes, files: 10, newest: Some(at(bytes as i64)) }),
    }
}

fn project(id: usize, root: &str, types: &[&str], sizes: &[Option<u64>]) -> Project {
    let types = types.iter().map(|t| t.to_string()).collect();
    let mut p = Project::new(id, path(root), path("/w"), types);
    p.resolved = true;
    p.artifacts = sizes.iter().map(|b| artifact(&format!("{root}/target"), *b)).collect();
    p
}

#[test]
fn a_new_project_knows_nothing() {
    let p = Project::new(3, path("/w/a"), path("/w"), vec!["rust".to_string()]);
    assert_eq!((p.id, p.source_files, p.resolved), (3, 0, false));
    assert_eq!(p.git, GitStatus::Pending);
    assert_eq!(p.state, CleanState::Idle);
    assert_eq!(p.last_activity, None);
    assert_eq!(p.display_path(), "a");
    assert!(!p.is_cleanable() && !p.is_measured());
    assert_eq!(p.age(), None);
    assert_eq!(p.age_label(), "unknown");
}

#[test]
fn labels_and_totals() {
    let mut p = project(0, "/w/a/b", &["node", "rust"], &[Some(100), None, Some(7)]);
    assert_eq!(p.type_label(), "node+rust");
    assert_eq!(project(0, "/w", &[], &[]).type_label(), "unknown");
    assert_eq!(project(0, "/w", &["go"], &[]).type_label(), "go");
    assert_eq!(p.size(), 107);
    assert_eq!(p.file_count(), 20);
    assert!(!p.is_measured());
    assert_eq!(p.last_build(), Some(at(100)));
    assert_eq!(p.artifact_paths().len(), 3);
    assert!(p.is_cleanable());
    p.state = CleanState::Running;
    assert!(!p.is_cleanable());
    p.last_activity = Some(at(1_000));
    assert_eq!(p.age_at(at(1_000 + 86_400 * 3)), Some(Duration::from_secs(86_400 * 3)));
    assert_eq!(p.age_label_at(at(1_000 + 86_400 * 3)), "3 days");
    assert!(p.age().is_some() && p.age_label().ends_with("years"));
    assert_eq!(project(0, "/elsewhere/a", &[], &[]).display_path(), "/elsewhere/a");
}

#[test]
fn totals_that_do_not_fit_are_told() {
    let p = project(0, "/w/a", &[], &[Some(u64::MAX), Some(1)]);
    assert!(!p.fits());
    assert_eq!(p.checked_size(), None);
    let q = project(0, "/w/a", &[], &[Some(u64::MAX)]);
    assert!(q.fits());
    assert_eq!(q.checked_size(), Some(u64::MAX));
    assert!(!can_total(&vec![&q, &q]));
    let r = project(0, "/w/a", &[], &[Some(5)]);
    assert!(can_total(&vec![&r, &r]));
    assert_eq!(sum_sizes(&vec![&r, &r]), 10);
    assert_eq!(sum_files(&vec![&r, &r]), 20);
}

#[test]
fn git_states_have_labels() {
    let labels = [
        (GitStatus::Ignored, "git-ignored", false),
        (GitStatus::NoRepo, "no-git", true),
        (GitStatus::Disabled, "unchecked", true),
        (GitStatus::Unavailable, "git-error", true),
        (GitStatus::Pending, "\u{2026}", true),
    ];
    for (status, label, unverified) in labels {
        assert_eq!(status.label(), label);
        assert_eq!(status.is_unverified(), unverified);
    }
}

#[test]
fn filters_by_age() {
    let mut filter = Filter::default();
    let mut p = project(0, "/w/a", &["rust"], &[Some(1)]);
    let now = at(10_000_000);
    assert!(filter.accepts_at(&p, now));
    filter.older_than = Duration::from_secs(100);
    // Without a timestamp it cannot be proved stale.
    assert!(!filter.accepts_age_at(&p, now));
    p.last_activity = Some(at(10_000_000 - 100));
    assert!(filter.accepts_age_at(&p, now) && filter.accepts_at(&p, now));
    p.last_activity = Some(at(10_000_000 - 99));
    assert!(!filter.accepts_age_at(&p, now) && !filter.accepts_at(&p, now));
    p.last_activity = Some(at(0));
    assert!(filter.accepts_age(&p) && filter.accepts(&p));
}

#[test]
fn filters_by_size_artifacts_and_query() {
    let now = at(0);
    let mut filter = Filter::default();
    filter.min_size = 50;
    assert!(!filter.accepts_at(&project(0, "/w/a", &[], &[Some(49)]), now));
    assert!(filter.accepts_at(&project(0, "/w/a", &[], &[Some(50)]), now));
    // An unmeasured project is kept.
    assert!(filter.accepts_at(&project(0, "/w/a", &[], &[Some(1), None]), now));
    filter.min_size = 0;
    let mut none = project(0, "/w/a", &[], &[]);
    assert!(!filter.accepts_at(&none, now));
    none.resolved = false;
    assert!(filter.accepts_at(&none, now));
    none.resolved = true;
    filter.with_artifacts_only = false;
    assert!(filter.accepts_at(&none, now));
    // Upper case is no obstacle, not even beyond ASCII.
    filter.query = "\u{c9}T\u{c9}".to_string();
    assert!(filter.accepts_at(&project(0, "/w/mon-\u{e9}t\u{e9}", &[], &[]), now));
    assert!(!filter.accepts_at(&project(0, "/w/ete", &[], &[]), now));
    filter.query = "RUST".to_string();
    assert!(filter.accepts_at(&project(0, "/w/x", &["rust"], &[]), now));
    // The type label itself is not lowered.
    assert!(!filter.accepts_at(&project(0, "/w/x", &["RUST"], &[]), now));
}

fn ids(sort: Sort, projects: &[Project]) -> Vec<usize> {
    let mut list: Vec<&Project> = projects.iter().collect();
    sort.apply(&mut list);
    list.iter().map(|p| p.id).collect()
}

#[test]
fn sorts_the_largest_and_the_oldest_first() {
    let mut projects = vec![
        project(0, "/w/c", &["rust"], &[Some(10)]),
        project(1, "/w/a", &["node"], &[Some(500)]),
        project(2, "/w/b", &["rust"], &[Some(500)]),
        project(3, "/w/d", &["node"], &[Some(1)]),
    ];
    projects[0].last_activity = Some(at(50));
    projects[1].last_activity = Some(at(70));
    projects[2].last_activity = Some(at(60));
    assert_eq!(ids(Sort::Size, &projects), [1, 2, 0, 3]);
    // Missing timestamps sort last.
    assert_eq!(ids(Sort::Age, &projects), [0, 2, 1, 3]);
    assert_eq!(ids(Sort::Path, &projects), [1, 2, 0, 3]);
    assert_eq!(ids(Sort::Type, &projects), [1, 3, 2, 0]);
}

#[test]
fn sorting_is_stable() {
    let projects: Vec<Project> =
        (0..20).map(|id| project(id, "/w/same", &["t"], &[Some((id % 3) as u64)])).collect();
    let sorted = ids(Sort::Type, &projects);
    for pair in sorted.windows(2) {
        let (a, b) = (pair[0], pair[1]);
        assert!(a % 3 > b % 3 || (a % 3 == b % 3 && a < b), "{sorted:?}");
    }
}

#[test]
fn orders_follow_each_other() {
    assert_eq!(Sort::Size.next(), Sort::Age);
    assert_eq!(Sort::Age.next(), Sort::Path);
    assert_eq!(Sort::Path.next(), Sort::Type);
    assert_eq!(Sort::Type.next(), Sort::Size);
    let labels = [Sort::Size, Sort::Age, Sort::Path, Sort::Type].map(|s| s.label());
    assert_eq!(labels, ["size", "age", "path", "type"]);
}

#[test]
fn the_home_directory_is_a_tilde() {
    let home = Some(path("/home/me"));
    assert_eq!(tilde_from(&path("/home/me"), &home), "~");
    assert_eq!(tilde_from(&path("/home/me/dev/x"), &home), "~/dev/x");
    assert_eq!(tilde_from(&path("/home/meg"), &home), "/home/meg");
    assert_eq!(tilde_from(&path("/home/me/x"), &None), "/home/me/x");
    if let Some(real) = dirs::home_dir() {
        let root = FsPath::from_text(&real.to_string_lossy());
        assert_eq!(tilde(&root), "~");
        assert_eq!(tilde(&root.entry("x")), "~/x");
    }
}

#[test]
fn a_lowered_query_is_looked_up() {
    let mut filter = Filter::default();
    let p = project(0, "/w/Web", &["rust"], &[Some(1)]);
    filter.query = "anything".to_string();
    let now = at(0);
    assert!(filter.accepts_lowered(&p, now, "we", "/w/web"));
    assert!(filter.accepts_lowered(&p, now, "us", "/w/web"));
    assert!(!filter.accepts_lowered(&p, now, "We", "/w/web"));
    filter.query = String::new();
    assert!(filter.accepts_lowered(&p, now, "x", "y"));
}

#[test]
fn undated_projects_come_behind_all_dated_ones() {
    let mut projects = vec![project(0, "/r/a", &[], &[]), project(1, "/r/b", &[], &[])];
    projects[1].last_activity = Some(at(86_400));
    assert_eq!(ids(Sort::Age, &projects), [1, 0]);
    projects[1].last_activity = Some(at(-86_400));
    assert_eq!(ids(Sort::Age, &projects), [1, 0]);
    projects[1].last_activity = None;
    assert_eq!(ids(Sort::Age, &projects), [0, 1]);
}
