use rusty_broom::cli::{
    can_measure, clean_plan, clean_targets, closing, confirm, init_target, is_consent, is_failure,
    path_notice, progress_line, settings_for, shown_projects, CleanArgs, CliError, Consent,
    Selection, SortArg, NO_CONSENT,
};
use rusty_broom::clock::{Duration, Timestamp};
use rusty_broom::config::{Config, ProjectType, Settings};
use rusty_broom::engine::Event;
use rusty_broom::path::FsPath;
use rusty_broom::project::{Artifact, CleanState, Filter, Project, Sort};
use rusty_broom::size::DirStat;
use rusty_broom::store::Store;

fn path(text: &str) -> FsPath {
    FsPath::from_text(text)
}

fn config() -> Config {
    let rust = ProjectType {
        name: "rust".to_string(),
        markers: vec!["Cargo.toml".to_string()],
        artifacts: vec!["target".to_string()],
        require_all_markers: false,
        enabled: true,
    };
    Config { settings: Settings::default(), project_types: vec![rust] }
}

#[test]
fn thresholds_have_a_precedence() {
    let config = config();
    let mut selection = Selection::with_roots(Vec::new());
    assert_eq!(selection.older_than(&config), Ok(Duration::from_secs(30 * 86_400)));
    selection.older_than = Some("1y".to_string());
    assert_eq!(selection.older_than(&config), Ok(Duration::from_secs(365 * 86_400)));
    selection.all = true;
    assert_eq!(selection.older_than(&config), Ok(Duration::zero()));
    selection.all = false;
    selection.older_than = Some("x".to_string());
    assert_eq!(
        selection.older_than(&config).unwrap_err().message(),
        "no number in duration \"x\""
    );
    let mut bad = config.clone();
    bad.settings.older_than = "5q".to_string();
    let error = Selection::with_roots(Vec::new()).older_than(&bad).unwrap_err();
    assert_eq!(error.message(), "settings.older_than = \"5q\"");
}

#[test]
fn filters_come_from_the_selection() {
    let config = config();
    let mut selection = Selection::with_roots(Vec::new());
    let filter = selection.filter(&config).unwrap();
    assert_eq!((filter.min_size, filter.query.as_str()), (0, ""));
    assert!(filter.with_artifacts_only);
    selection.min_size = Some("500M".to_string());
    selection.query = Some("web".to_string());
    selection.all = true;
    let filter = selection.filter(&config).unwrap();
    assert_eq!((filter.min_size, filter.query.as_str()), (500 << 20, "web"));
    assert_eq!(filter.older_than, Duration::zero());
    selection.min_size = Some("many".to_string());
    assert_eq!(selection.filter(&config).unwrap_err().message(), "invalid size \"many\"");
}

#[test]
fn scans_come_from_the_selection() {
    let config = config();
    let mut selection = Selection::with_roots(Vec::new());
    let cwd = path("/here");
    let options = selection.scan_options(&config, Ok(cwd.clone())).unwrap();
    assert_eq!(options.roots, vec![cwd.clone()]);
    assert_eq!((options.max_depth, options.descend_into_projects), (8, false));
    let gone = || Err("No such file or directory (os error 2)".to_string());
    let error = selection.scan_options(&config, gone()).unwrap_err();
    assert!(matches!(error, CliError::NoCurrentDir { .. }));
    assert_eq!(error.message(), "No such file or directory (os error 2)");
    selection.roots = vec![path("/a"), path("/b")];
    selection.max_depth = Some(2);
    selection.nested = true;
    let options = selection.scan_options(&config, gone()).unwrap();
    assert_eq!(options.roots.len(), 2);
    assert_eq!((options.max_depth, options.descend_into_projects), (2, true));
    selection.types = vec!["perl".to_string()];
    assert_eq!(
        selection.scan_options(&config, gone()).unwrap_err().message(),
        "unknown project type \"perl\"; known types: rust"
    );
    assert_eq!(selection.roots_or_cwd(gone()), Ok(vec![path("/a"), path("/b")]));
}

#[test]
fn the_git_check_can_be_switched_off() {
    let config = config();
    let mut selection = Selection::with_roots(Vec::new());
    assert!(settings_for(&config, &selection).require_git_ignored);
    selection.no_git_check = true;
    assert!(!settings_for(&config, &selection).require_git_ignored);
}

#[test]
fn sort_arguments_are_orders() {
    assert_eq!(Sort::from(SortArg::Size), Sort::Size);
    assert_eq!(Sort::from(SortArg::Age), Sort::Age);
    assert_eq!(Sort::from(SortArg::Path), Sort::Path);
    assert_eq!(Sort::from(SortArg::Type), Sort::Type);
}

fn store(sizes: &[(&str, u64)]) -> Store {
    let mut store = Store::new();
    for (id, (root, bytes)) in sizes.iter().enumerate() {
        let mut p = Project::new(id, path(root), path("/w"), vec!["rust".to_string()]);
        p.resolved = true;
        p.last_activity = Some(Timestamp::new(1_000, 0));
        if *bytes > 0 {
            p.artifacts = vec![Artifact {
                path: path(root).entry("target"),
                pattern: "target".to_string(),
                stat: Some(DirStat { bytes: *bytes, files: 1, newest: None }),
            }];
        }
        store.apply(Event::Found(Box::new(p)));
    }
    store
}

#[test]
fn scans_show_the_accepted_projects_in_order() {
    let store = store(&[("/w/a", 5), ("/w/b", 50), ("/w/c", 0), ("/w/d", 500)]);
    assert!(can_measure(&store));
    let filter = Filter::default();
    let now = Timestamp::new(2_000, 0);
    let ids = |limit| -> Vec<usize> {
        shown_projects(&store, &filter, Sort::Size, limit, now).iter().map(|p| p.id).collect()
    };
    assert_eq!(ids(None), [3, 1, 0]);
    assert_eq!(ids(Some(2)), [3, 1]);
    assert_eq!(ids(Some(9)), [3, 1, 0]);
    assert_eq!(ids(Some(0)), Vec::<usize>::new());
}

#[test]
fn cleaning_takes_the_cleanable_ones() {
    let mut store = store(&[("/w/a", 5), ("/w/b", 50), ("/w/c", 0), ("/w/d", 500)]);
    store.projects[3].state = CleanState::Running;
    let targets = clean_targets(&store, &Filter::default(), Timestamp::new(2_000, 0));
    let plan = clean_plan(&targets);
    assert_eq!(
        plan,
        vec![
            (1, path("/w/b"), vec![path("/w/b/target")]),
            (0, path("/w/a"), vec![path("/w/a/target")]),
        ]
    );
}

fn clean_args(yes: bool, dry_run: bool) -> CleanArgs {
    CleanArgs { selection: Selection::with_roots(Vec::new()), yes, dry_run }
}

#[test]
fn deleting_needs_consent() {
    assert_eq!(confirm(&clean_args(true, false), 1, 0, false), Consent::Granted);
    assert_eq!(confirm(&clean_args(true, true), 1, 0, true), Consent::Withheld);
    assert_eq!(confirm(&clean_args(false, true), 1, 0, false), Consent::Withheld);
    assert_eq!(confirm(&clean_args(false, false), 1, 0, false), Consent::Unobtainable);
    assert_eq!(
        NO_CONSENT,
        "refusing to delete without confirmation; pass --yes or use --dry-run"
    );
    assert_eq!(
        confirm(&clean_args(false, false), 3, 4 << 30, true),
        Consent::Ask {
            prompt: "Delete artifacts of 3 project(s), freeing about 4.00 GiB? [y/N] ".to_string()
        }
    );
    for answer in ["y", "Y", "yes", " y \n"] {
        assert!(is_consent(answer), "{answer:?}");
    }
    for answer in ["", "n", "YES", "Yes", "yep", "\n"] {
        assert!(!is_consent(answer), "{answer:?}");
    }
}

#[test]
fn the_end_is_told() {
    assert_eq!(closing(1536, 0), ("Freed 1.50 KiB.".to_string(), None));
    assert_eq!(
        closing(0, 2),
        (
            "Freed 0 B.".to_string(),
            Some("2 project(s) could not be fully cleaned".to_string())
        )
    );
    let failed = Event::CleanFinished { id: 0, freed: 0, errors: vec!["x".to_string()] };
    assert!(is_failure(&failed));
    assert!(!is_failure(&Event::CleanFinished { id: 0, freed: 0, errors: Vec::new() }));
    assert!(!is_failure(&Event::CleanStarted { id: 0 }));
    let mut store = store(&[("/w/a", 5), ("/w/b", 50)]);
    store.dirs_scanned = 48;
    assert_eq!(progress_line(&store), "scanning\u{2026} 48 dirs, 2 projects");
}

#[test]
fn a_configuration_is_not_overwritten_by_chance() {
    let user = || Some(path("/c/config.toml"));
    assert_eq!(init_target(user(), false, false), Ok(path("/c/config.toml")));
    assert_eq!(init_target(user(), true, true), Ok(path("/c/config.toml")));
    assert_eq!(
        init_target(user(), true, false).unwrap_err().message(),
        "/c/config.toml already exists; pass --force to overwrite"
    );
    assert_eq!(
        init_target(None, false, true).unwrap_err().message(),
        "cannot determine the user configuration directory"
    );
}

#[test]
fn the_file_in_use_is_told() {
    let file = Some(path("/c/config.toml"));
    assert_eq!(path_notice(&Some(path("x.toml")), &file), "x.toml\n");
    assert_eq!(
        path_notice(&None, &file),
        "(built-in defaults)\nrun `rusty-broom config init` to create /c/config.toml\n"
    );
    assert_eq!(path_notice(&None, &None), "(built-in defaults)\n");
}
