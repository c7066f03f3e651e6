use rusty_broom::clean::{remove_all_from, Deed, Report};
use rusty_broom::cli::clean_plan;
use rusty_broom::engine::{conclude_resolve, Event};
use rusty_broom::path::FsPath;
use rusty_broom::project::Project;
use rusty_broom::store::Store;

fn path(text: &str) -> FsPath {
    FsPath::from_text(text)
}

#[test]
fn only_what_git_ignores_is_deleted() {
    let root = path("/w/p/app");
    let mut store = Store::new();
    let project = Project::new(0, root.clone(), path("/w"), vec!["node".to_string()]);
    store.apply(Event::Found(Box::new(project)));

    // A committed `dist` is not reported by git; a path outside is, but is refused.
    let candidates = vec![
        ("dist".to_string(), path("/w/p/app/dist")),
        ("node_modules".to_string(), path("/w/p/app/node_modules")),
        ("x".to_string(), path("/etc/x")),
    ];
    let verdict = Ok(vec!["node_modules".to_string(), "/etc/x".to_string()]);
    let (event, _) = conclude_resolve(0, &root, candidates, true, verdict);
    store.apply(event);
    assert_eq!(store.skipped_paths, 1);

    let plan = clean_plan(&store.all());
    assert_eq!(plan.len(), 1);
    let (id, from, paths) = &plan[0];
    assert_eq!((*id, from), (0, &root));
    assert_eq!(paths, &vec![path("/w/p/app/node_modules"), path("/etc/x")]);

    let mut removal = remove_all_from(from, paths.clone(), None);
    let mut touched = Vec::new();
    while let Some(deed) = removal.pending() {
        let (at, report) = match deed {
            Deed::Inspect(p) => (p, Report::Present { is_dir: true, is_link: false }),
            Deed::Measure(p) => (p, Report::Measured { bytes: 5 }),
            Deed::RemoveTree(p) | Deed::RemoveFile(p) => (p, Report::Removed),
        };
        touched.push(at.to_text());
        removal.take(report);
    }
    assert!(touched.iter().all(|t| t == "/w/p/app/node_modules"), "{touched:?}");
    let outcome = removal.finish();
    assert_eq!((outcome.freed, outcome.removed.len()), (5, 1));
    assert_eq!(outcome.errors, ["refusing to delete /etc/x: outside its project root"]);
}

#[test]
fn paths_read_back() {
    for text in ["/", "/a", "/a/b c/d", "a/b", "./a", "../x", "/a/../b", ""] {
        let once = path(text);
        assert_eq!(once.to_text(), text);
        assert_eq!(path(&once.to_text()), once);
    }
    assert_eq!(path("//a/./b//"), path("/a/b"));
}
