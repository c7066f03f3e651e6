use rusty_broom::clean::{
    check, check_against, remove_all, remove_all_from, Deed, Outcome, Refusal, Removal, Report,
};
use rusty_broom::path::FsPath;

fn path(text: &str) -> FsPath {
    FsPath::from_text(text)
}

#[test]
fn rejects_dangerous_targets() {
    let root = path("/Users/someone/dev/app");
    assert_eq!(check(&root, &root), Err(Refusal::IsRoot));
    assert_eq!(
        check(&root, &path("/Users/someone/dev/other/target")),
        Err(Refusal::NotInsideRoot)
    );
    assert_eq!(
        check(&path("/tmp"), &path("/tmp/target")),
        Err(Refusal::RootTooShallow)
    );
    assert!(check(&root, &path("/Users/someone/dev/app/target")).is_ok());
}

#[test]
fn rejects_parent_traversal() {
    let root = path("/Users/someone/dev/app");
    assert_eq!(
        check(&root, &path("/Users/someone/dev/app/../secrets")),
        Err(Refusal::NotInsideRoot)
    );
}

#[test]
fn the_home_directory_is_no_project() {
    let home = Some(path("/home/me"));
    assert_eq!(
        check_against(&path("/home/me"), &path("/home/me/target"), &home),
        Err(Refusal::RootIsHome)
    );
    assert_eq!(check_against(&path("/home/me/x"), &path("/home/me/x/target"), &home), Ok(()));
    assert_eq!(check_against(&path("/home/me"), &path("/home/me/target"), &None), Ok(()));
}

#[test]
fn the_real_home_directory_is_no_project() {
    // Whatever the home directory is, it is refused as a root, or is not deep
    // enough to be one.
    if let Some(home) = dirs::home_dir() {
        let root = FsPath::from_text(&home.to_string_lossy());
        let target = root.entry("target");
        assert!(matches!(
            check(&root, &target),
            Err(Refusal::RootIsHome) | Err(Refusal::RootTooShallow)
        ));
    }
}

#[test]
fn refusals_say_why() {
    let target = path("/a/b/c");
    assert_eq!(
        Refusal::RootTooShallow.message(&target),
        "refusing to touch /a/b/c: project root is too close to the filesystem root"
    );
    assert_eq!(
        Refusal::RootIsHome.message(&target),
        "refusing to touch /a/b/c: project root is the home directory"
    );
    assert_eq!(
        Refusal::NotInsideRoot.message(&target),
        "refusing to delete /a/b/c: outside its project root"
    );
    assert_eq!(
        Refusal::IsRoot.message(&target),
        "refusing to delete /a/b/c: it is the project root itself"
    );
    assert_eq!(
        Refusal::BehindLink.message(&target),
        "refusing to delete /a/b/c: behind a symbolic link"
    );
}

#[test]
fn paths_are_named_as_given_and_handled_in_plain_form() {
    let root = path("/w//p/app/");
    let paths = vec![path("/w/p//app/link/"), path("/w/p//app/.")];
    let (deeds, outcome) = run(remove_all_from(&root, paths, None), |deed| match deed {
        Deed::Inspect(_) => Report::Present { is_dir: false, is_link: true },
        _ => Report::Failed { reason: "denied".to_string() },
    });
    let texts: Vec<String> = deeds
        .iter()
        .map(|deed| match deed {
            Deed::Inspect(p) | Deed::Measure(p) | Deed::RemoveTree(p) | Deed::RemoveFile(p) => {
                p.to_text()
            }
        })
        .collect();
    assert_eq!(texts, ["/w/p/app/link", "/w/p/app/link"]);
    assert_eq!(
        outcome.errors,
        [
            "/w/p//app/link/: denied",
            "refusing to delete /w/p//app/.: it is the project root itself",
        ]
    );
}

/// Answer every deed by what `answer` says, and note the deeds.
fn run(mut removal: Removal, answer: fn(&Deed) -> Report) -> (Vec<Deed>, Outcome) {
    let mut deeds = Vec::new();
    while let Some(deed) = removal.pending() {
        let report = answer(&deed);
        assert!(removal.can_take(&report));
        removal.take(report);
        deeds.push(deed);
    }
    (deeds, removal.finish())
}

#[test]
fn directories_are_measured_and_deleted_as_trees() {
    let root = path("/w/p/app");
    let removal = remove_all_from(&root, vec![path("/w/p/app/target"), path("/w/p/app/link")], None);
    let (deeds, outcome) = run(removal, |deed| match deed {
        Deed::Inspect(p) => Report::Present { is_dir: true, is_link: p.to_text().ends_with("link") },
        Deed::Measure(_) => Report::Measured { bytes: 8192 },
        Deed::RemoveTree(_) | Deed::RemoveFile(_) => Report::Removed,
    });
    assert_eq!(
        deeds,
        vec![
            Deed::Inspect(path("/w/p/app/target")),
            Deed::Measure(path("/w/p/app/target")),
            Deed::RemoveTree(path("/w/p/app/target")),
            Deed::Inspect(path("/w/p/app/link")),
            Deed::RemoveFile(path("/w/p/app/link")),
        ]
    );
    assert_eq!(outcome.freed, 8192);
    assert_eq!(outcome.removed, vec![path("/w/p/app/target"), path("/w/p/app/link")]);
    assert!(outcome.errors.is_empty());
}

#[test]
fn removes_a_directory_and_reports_the_size() {
    let root = path("/tmp/rb-clean/proj");
    let target = root.entry("target");
    let removal = remove_all_from(&root, vec![target.clone()], None);
    let (_, outcome) = run(removal, |deed| match deed {
        Deed::Inspect(_) => Report::Present { is_dir: true, is_link: false },
        Deed::Measure(_) => Report::Measured { bytes: 8192 },
        _ => Report::Removed,
    });
    assert!(outcome.errors.is_empty(), "{:?}", outcome.errors);
    assert!(outcome.freed >= 8192, "freed {}", outcome.freed);
    assert_eq!(outcome.removed, vec![target.clone()]);

    // Deleting again is a no-op rather than a failure.
    let again = run(remove_all_from(&root, vec![target], None), |_| Report::Missing).1;
    assert!(again.errors.is_empty());
    assert_eq!(again.freed, 0);
}

#[test]
fn deleting_again_is_a_no_op() {
    let removal = remove_all_from(&path("/w/p/app"), vec![path("/w/p/app/target")], None);
    let (deeds, outcome) = run(removal, |_| Report::Missing);
    assert_eq!(deeds.len(), 1);
    assert_eq!(outcome, Outcome::default());
}

#[test]
fn refused_paths_are_never_handed_out() {
    let root = path("/w/p/app");
    let paths = vec![
        path("/w/p/app"),
        path("/etc/passwd"),
        path("/w/p/app/x/../../y"),
        path("/w/p/app/ok"),
        path("/w/p"),
    ];
    let (deeds, outcome) = run(remove_all_from(&root, paths, None), |deed| match deed {
        Deed::Inspect(_) => Report::Present { is_dir: false, is_link: false },
        _ => Report::Failed { reason: "denied".to_string() },
    });
    assert_eq!(
        deeds,
        vec![Deed::Inspect(path("/w/p/app/ok")), Deed::RemoveFile(path("/w/p/app/ok"))]
    );
    assert_eq!(outcome.removed, vec![]);
    assert_eq!(
        outcome.errors,
        vec![
            "refusing to delete /w/p/app: it is the project root itself",
            "refusing to delete /etc/passwd: outside its project root",
            "refusing to delete /w/p/app/x/../../y: outside its project root",
            "/w/p/app/ok: denied",
            "refusing to delete /w/p: outside its project root",
        ]
    );
}

#[test]
fn a_shallow_root_deletes_nothing() {
    let (deeds, outcome) = run(remove_all(&path("/tmp"), vec![path("/tmp/a")]), |_| Report::Removed);
    assert!(deeds.is_empty());
    assert_eq!(outcome.errors.len(), 1);
}

#[test]
fn links_on_the_way_are_refused() {
    let root = path("/w/p/app");
    let paths = vec![path("/w/p/app/link/x"), path("/w/p/app/a/b/target"), path("/w/p/app/file/y")];
    let (deeds, outcome) = run(remove_all_from(&root, paths, None), |deed| match deed {
        Deed::Inspect(p) => match p.to_text().as_str() {
            "/w/p/app/link" => Report::Present { is_dir: false, is_link: true },
            "/w/p/app/file" => Report::Present { is_dir: false, is_link: false },
            _ => Report::Present { is_dir: true, is_link: false },
        },
        Deed::Measure(_) => Report::Measured { bytes: 7 },
        _ => Report::Removed,
    });
    assert_eq!(
        deeds,
        vec![
            Deed::Inspect(path("/w/p/app/link/x")),
            Deed::Inspect(path("/w/p/app/link")),
            Deed::Inspect(path("/w/p/app/a/b/target")),
            Deed::Inspect(path("/w/p/app/a")),
            Deed::Inspect(path("/w/p/app/a/b")),
            Deed::Measure(path("/w/p/app/a/b/target")),
            Deed::RemoveTree(path("/w/p/app/a/b/target")),
            Deed::Inspect(path("/w/p/app/file/y")),
            Deed::Inspect(path("/w/p/app/file")),
        ]
    );
    assert_eq!(outcome.removed, vec![path("/w/p/app/a/b/target")]);
    assert_eq!(outcome.freed, 7);
    assert_eq!(outcome.errors, ["refusing to delete /w/p/app/link/x: behind a symbolic link"]);
}

#[test]
fn a_missing_path_behind_a_link_is_no_failure() {
    let root = path("/w/p/app");
    let removal = remove_all_from(&root, vec![path("/w/p/app/link/x")], None);
    let (deeds, outcome) = run(removal, |deed| match deed {
        Deed::Inspect(p) if p.to_text().ends_with("/link") => {
            Report::Present { is_dir: false, is_link: true }
        }
        _ => Report::Missing,
    });
    assert_eq!(deeds, vec![Deed::Inspect(path("/w/p/app/link/x"))]);
    assert_eq!(outcome, Outcome::default());
}

#[test]
fn a_directory_that_vanishes_on_the_way_is_no_failure() {
    let root = path("/w/p/app");
    let removal = remove_all_from(&root, vec![path("/w/p/app/a/b/target")], None);
    let (deeds, outcome) = run(removal, |deed| match deed {
        Deed::Inspect(p) if p.to_text().ends_with("/b") => Report::Missing,
        _ => Report::Present { is_dir: true, is_link: false },
    });
    assert_eq!(
        deeds,
        vec![
            Deed::Inspect(path("/w/p/app/a/b/target")),
            Deed::Inspect(path("/w/p/app/a")),
            Deed::Inspect(path("/w/p/app/a/b")),
        ]
    );
    assert_eq!(outcome, Outcome::default());
}
