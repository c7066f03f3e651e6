use rusty_broom::clock::Timestamp;
use rusty_broom::config::{Config, ProjectType, Settings};
use rusty_broom::engine::Event;
use rusty_broom::path::FsPath;
use rusty_broom::project::{Artifact, GitStatus, Project};
use rusty_broom::report::{json_totals, summary, table, table_at, types};
use rusty_broom::size::DirStat;
use rusty_broom::store::Store;

fn path(text: &str) -> FsPath {
    FsPath::from_text(text)
}

fn store() -> Store {
    let mut store = Store::new();
    for (id, root, bytes, git) in [
        (0, "/home/me/old", 4 << 30, GitStatus::Ignored),
        (1, "/srv/web", 300 << 20, GitStatus::NoRepo),
        (2, "/srv/new", 0, GitStatus::Pending),
    ] {
        let mut p = Project::new(id, path(root), path("/"), vec!["rust".to_string()]);
        p.git = git;
        p.last_activity = Some(Timestamp::new(1_000_000, 0));
        p.artifacts = vec![Artifact {
            path: path(root).entry("target"),
            pattern: "target".to_string(),
            stat: Some(DirStat { bytes, files: 1000, newest: None }),
        }];
        store.apply(Event::Found(Box::new(p)));
    }
    store.projects[1].types = vec!["a-very-long-type".to_string(), "another".to_string()];
    store.projects[1].artifacts.push(Artifact {
        path: path("/elsewhere/x"),
        pattern: "x".to_string(),
        stat: None,
    });
    store
}

#[test]
fn an_empty_table_says_so() {
    assert_eq!(table(&Vec::new(), true), "No matching projects.\n");
}

#[test]
fn tables_are_aligned() {
    let store = store();
    let now = Timestamp::new(1_000_000 + 200 * 86_400, 0);
    let home = Some(path("/home/me"));
    let two = vec![&store.projects[0], &store.projects[1]];
    assert_eq!(
        table_at(&two, false, now, &home),
        "TYPE                       SIZE  IDLE      PROJECT\n\
         rust                   4.00 GiB  6 months  ~/old\n\
         a-very-long-type+an\u{2026}    300 MiB  6 months  /srv/web  [no-git]\n"
    );
    assert_eq!(
        table_at(&vec![&store.projects[0]], true, now, &home),
        "TYPE       SIZE  IDLE      PROJECT\n\
         rust   4.00 GiB  6 months  ~/old\n\
         \x20      4.00 GiB              target\n"
    );
    let long = table_at(&vec![&store.projects[1]], true, now, &None);
    assert!(long.ends_with("        \u{2014}              /elsewhere/x\n"), "{long}");
}

#[test]
fn the_table_reads_the_clock() {
    let store = store();
    let text = table(&vec![&store.projects[0]], false);
    assert!(text.contains("years"), "{text}");
}

#[test]
fn the_summary_counts() {
    let mut store = store();
    let shown = vec![&store.projects[0]];
    assert_eq!(
        summary(&store, &shown),
        "\n1 project \u{b7} 4.00 GiB reclaimable \u{b7} 1000 files \u{b7} 2 filtered out\n"
    );
    let shown = vec![&store.projects[0], &store.projects[1], &store.projects[2]];
    assert_eq!(
        summary(&store, &shown),
        "\n3 projects \u{b7} 4.29 GiB reclaimable \u{b7} 3000 files\n\
         1 project could not be verified against git \u{2014} check it before cleaning.\n"
    );
    store.skipped_paths = 1;
    store.projects[2].git = GitStatus::Disabled;
    let shown = vec![&store.projects[1], &store.projects[2], &store.projects[0]];
    assert_eq!(
        summary(&store, &shown),
        "\n3 projects \u{b7} 4.29 GiB reclaimable \u{b7} 3000 files\n\
         1 path kept because git does not ignore it.\n\
         2 projects could not be verified against git \u{2014} check them before cleaning.\n"
    );
    store.skipped_paths = 2;
    let shown = vec![&store.projects[0]];
    assert!(summary(&store, &shown).ends_with("2 paths kept because git does not ignore them.\n"));
}

#[test]
fn json_has_totals() {
    let store = store();
    let totals = json_totals(&vec![&store.projects[0], &store.projects[1]]);
    assert_eq!((totals.projects, totals.bytes, totals.files), (2, (4 << 30) + (300 << 20), 2000));
}

#[test]
fn types_are_listed() {
    let kind = |name: &str, all: bool, enabled: bool| ProjectType {
        name: name.to_string(),
        markers: vec!["A".to_string(), "B".to_string()],
        artifacts: vec!["x".to_string(), "y".to_string()],
        require_all_markers: all,
        enabled,
    };
    let config = Config {
        settings: Settings::default(),
        project_types: vec![kind("unity", true, true), kind("latex", false, false)],
    };
    assert_eq!(
        types(&config),
        "unity\n  markers   all of A, B\n  artifacts x, y\n\n\
         latex  (disabled)\n  markers   any of A, B\n  artifacts x, y\n\n"
    );
}
