use rusty_broom::glob::{
    drop_nested, exists_match, has_wildcard, resolve, Entry, Query, Reply, Resolver,
};
use rusty_broom::path::FsPath;

fn path(text: &str) -> FsPath {
    FsPath::from_text(text)
}

#[test]
fn wildcards() {
    assert!(rusty_broom::glob::matches("target", "target"));
    assert!(!rusty_broom::glob::matches("target", "targets"));
    assert!(rusty_broom::glob::matches("*.egg-info", "rusty.egg-info"));
    assert!(rusty_broom::glob::matches("cmake-build-*", "cmake-build-debug"));
    assert!(rusty_broom::glob::matches("*", "anything"));
    assert!(rusty_broom::glob::matches("*.tar.gz", "a.tar.gz"));
    assert!(!rusty_broom::glob::matches("*.tar.gz", "a.tar.bz2"));
    assert!(rusty_broom::glob::matches("?ar", "bar"));
    assert!(!rusty_broom::glob::matches("?ar", "bbar"));
    assert!(rusty_broom::glob::matches("a*b*c", "azzbzzc"));
    assert!(!rusty_broom::glob::matches("a*b*c", "azzbzz"));
}

#[test]
fn drops_nested_paths() {
    let paths = vec![
        path("/p/dist"),
        path("/p/dist/inner"),
        path("/p/build"),
    ];
    let kept = drop_nested(paths);
    assert_eq!(
        kept,
        vec![path("/p/build"), path("/p/dist")]
    );
}

#[test]
fn rejects_escaping_patterns() {
    let root = path("/tmp");
    assert!(resolve(&root, "../etc").finish().is_empty());
    assert!(resolve(&root, "/etc").finish().is_empty());
    assert!(resolve(&root, "").finish().is_empty());
}

#[test]
fn stars_match_stars() {
    assert!(rusty_broom::glob::matches("*", "*x"));
    assert!(rusty_broom::glob::matches("**", ""));
    assert!(rusty_broom::glob::matches("a?c", "a*c"));
    assert!(!rusty_broom::glob::matches("?", ""));
    assert!(rusty_broom::glob::matches("", ""));
    assert!(rusty_broom::glob::matches("*\u{e9}", "caf\u{e9}"));
    assert!(has_wildcard("a*") && has_wildcard("?") && !has_wildcard("abc"));
}

/// A small file system: directories end in a slash.
struct Disk(Vec<&'static str>);

impl Disk {
    fn is_dir(&self, at: &str) -> bool {
        at == "/" || self.0.iter().any(|p| p.starts_with(&format!("{at}/")))
    }

    fn is_there(&self, at: &str) -> bool {
        self.is_dir(at) || self.0.contains(&at)
    }

    fn list(&self, at: &str) -> Option<Vec<Entry>> {
        if !self.is_dir(at) {
            return None;
        }
        let mut names: Vec<String> = Vec::new();
        for p in &self.0 {
            if let Some(rest) = p.strip_prefix(&format!("{at}/")) {
                let name = rest.split('/').next().unwrap().to_string();
                if !name.is_empty() && !names.contains(&name) {
                    names.push(name);
                }
            }
        }
        names.reverse();
        let entry = |name: String| Entry {
            is_dir: self.is_dir(&format!("{at}/{name}")),
            name: name.into_bytes(),
        };
        Some(names.into_iter().map(entry).collect())
    }
}

fn run(mut resolver: Resolver, disk: &Disk) -> Resolver {
    while let Some(query) = resolver.pending() {
        let reply = match query {
            Query::List(p) => Reply::Entries(disk.list(&p.to_text())),
            Query::Exists(p) => Reply::Flag(disk.is_there(&p.to_text())),
            Query::IsDir(p) => Reply::Flag(disk.is_dir(&p.to_text())),
        };
        resolver.answer(reply);
    }
    resolver
}

fn found(disk: &Disk, pattern: &str) -> Vec<String> {
    let resolver = run(resolve(&path("/p"), pattern), disk);
    resolver.finish().iter().map(|p| p.to_text()).collect()
}

#[test]
fn patterns_find_what_exists() {
    let disk = Disk(vec![
        "/p/target/debug/",
        "/p/a.egg-info/",
        "/p/b.egg-info",
        "/p/app/build.gradle",
        "/p/x/__pycache__/",
        "/p/x/y/__pycache__/",
        "/p/__pycache__/",
        "/p/node_modules/z/__pycache__/",
    ]);
    assert_eq!(found(&disk, "target"), ["/p/target"]);
    assert_eq!(found(&disk, "./target/"), ["/p/target"]);
    assert_eq!(found(&disk, "missing"), Vec::<String>::new());
    assert_eq!(found(&disk, "*.egg-info"), ["/p/a.egg-info", "/p/b.egg-info"]);
    assert_eq!(found(&disk, "app/build.gradle"), ["/p/app/build.gradle"]);
    assert_eq!(found(&disk, "a*/build.*"), ["/p/app/build.gradle"]);
    // A file on the way leads nowhere.
    assert_eq!(found(&disk, "b.egg-info/x"), Vec::<String>::new());
    // `**` crosses any number of directories, but not the pruned ones.
    assert_eq!(
        found(&disk, "**/__pycache__"),
        ["/p/__pycache__", "/p/x/__pycache__", "/p/x/y/__pycache__"]
    );
    assert!(exists_match(run(resolve(&path("/p"), "app/*.gradle"), &disk)));
    assert!(!exists_match(run(resolve(&path("/p"), "app/*.kts"), &disk)));
}

#[test]
fn matches_stay_inside_the_root() {
    let disk = Disk(vec!["/p/a/b/c/", "/p/a/d", "/q/secret"]);
    for pattern in ["**", "*", "a/*", "**/d", "a/b/../../../q/secret", "~/x", "..", "a/.."] {
        for p in found(&disk, pattern) {
            assert!(p == "/p" || p.starts_with("/p/"), "{pattern}: {p}");
        }
    }
    assert!(found(&disk, "a/..").is_empty());
    assert!(resolve(&path("/p"), "~").pending().is_none());
}

#[test]
fn recursion_is_bounded() {
    let deep = "/p/1/2/3/4/5/6/7/8/9/10/11/12/13/deep";
    let disk = Disk(vec![deep, "/p/1/2/3/4/5/6/7/8/9/10/11/12/near"]);
    assert_eq!(found(&disk, "**/near").len(), 1);
    assert!(found(&disk, "**/deep").is_empty());
}

#[test]
fn outermost_paths_are_kept_once() {
    let paths = vec![path("/a/b"), path("/a/b"), path("/a/bc"), path("/a/b/c"), path("/z/a/b")];
    let kept: Vec<String> = drop_nested(paths).iter().map(|p| p.to_text()).collect();
    assert_eq!(kept, ["/a/b", "/a/bc", "/z/a/b"]);
}

#[test]
fn a_star_takes_anything() {
    for name in ["", "a", "*", "*abc", "**", "?"] {
        assert!(rusty_broom::glob::matches("*", name), "{name}");
    }
    assert!(rusty_broom::glob::matches("*c", "*abc"));
}
