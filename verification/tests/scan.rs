use rusty_broom::clock::Timestamp;
use rusty_broom::config::{Config, ProjectType, Settings};
use rusty_broom::glob::{resolve, Entry, Query, Reply};
use rusty_broom::path::FsPath;
use rusty_broom::scan::{
    artifact_patterns, build_candidate, date_project, disk_markers, keep_outermost, match_types,
    names_in, walk, Candidate, ScanOptions, Visit, WalkStep,
};
use rusty_broom::size::{Item, ItemKind, Leaf};

fn path(text: &str) -> FsPath {
    FsPath::from_text(text)
}

fn strings(list: &[&str]) -> Vec<String> {
    list.iter().map(|s| s.to_string()).collect()
}

fn kind(name: &str, markers: &[&str], artifacts: &[&str]) -> ProjectType {
    ProjectType {
        name: name.to_string(),
        markers: strings(markers),
        artifacts: strings(artifacts),
        require_all_markers: false,
        enabled: true,
    }
}

fn config() -> Config {
    let mut settings = Settings::default();
    settings.prune_dirs = strings(&["Library"]);
    let mut unity = kind("unity", &["Assets", "ProjectSettings"], &["Temp"]);
    unity.require_all_markers = true;
    Config {
        settings,
        project_types: vec![
            kind("rust", &["Cargo.toml"], &["target"]),
            kind("node", &["package.json"], &["node_modules", "dist"]),
            kind("dotnet", &["*.sln", "src/*.csproj"], &["bin"]),
            kind("none", &[], &["x"]),
            unity,
        ],
    }
}

fn options(depth: usize) -> ScanOptions {
    ScanOptions::from_config(&config(), vec![path("/r")], &Vec::new(), Some(depth))
}

#[test]
fn options_come_from_the_configuration() {
    let config = config();
    let options = ScanOptions::from_config(&config, vec![path("/r")], &strings(&["node"]), None);
    assert_eq!(options.max_depth, 8);
    assert_eq!(options.prune_dirs, ["Library"]);
    assert_eq!(options.types.len(), 1);
    assert!(options.skip_hidden && !options.descend_into_projects);
}

#[test]
fn markers_identify_types() {
    let types = config().project_types;
    let names = strings(&["Cargo.toml", "package.json", "Assets", "app.sln"]);
    assert_eq!(match_types(&names, &types, &Vec::new()), ["rust", "node"]);
    let mut asked = disk_markers(&types);
    asked.sort();
    assert_eq!(asked, ["*.sln", "src/*.csproj"]);
    assert_eq!(match_types(&names, &types, &strings(&["*.sln"])), ["rust", "node", "dotnet"]);
    let both = strings(&["Assets", "ProjectSettings"]);
    assert_eq!(match_types(&both, &types, &Vec::new()), ["unity"]);
}

#[test]
fn patterns_come_from_the_matched_types() {
    let types = config().project_types;
    let patterns = artifact_patterns(&types, &strings(&["node", "rust"]));
    assert_eq!(patterns, ["target", "node_modules", "dist"]);
}

#[test]
fn the_outermost_artifacts_are_kept() {
    let found = vec![
        ("**/node_modules".to_string(), path("/r/p/node_modules/left/node_modules")),
        ("node_modules".to_string(), path("/r/p/node_modules")),
        ("**/node_modules".to_string(), path("/r/p/node_modules")),
        ("dist".to_string(), path("/r/p/dist")),
    ];
    assert_eq!(
        keep_outermost(&found),
        vec![
            ("dist".to_string(), path("/r/p/dist")),
            ("**/node_modules".to_string(), path("/r/p/node_modules")),
        ]
    );
}

#[test]
fn candidates_hold_what_was_found() {
    let artifacts = vec![("target".to_string(), path("/r/p/target"))];
    let c = build_candidate(
        path("/r/p"),
        path("/r"),
        strings(&["rust"]),
        &vec![
            ("**/debug".to_string(), path("/r/p/target/debug")),
            ("target".to_string(), path("/r/p/target")),
        ],
        Some(Timestamp::new(5, 0)),
        2,
    );
    assert_eq!((c.root, c.scan_root, c.types), (path("/r/p"), path("/r"), strings(&["rust"])));
    assert_eq!((c.artifacts, c.source_files), (artifacts, 2));
}

fn file(name: &str, at: i64) -> Item {
    let leaf = Leaf { bytes: Some(1), modified: Some(Timestamp::new(at, 0)) };
    Item { name: name.as_bytes().to_vec(), kind: ItemKind::File(leaf) }
}

fn dir(name: &str) -> Item {
    Item { name: name.as_bytes().to_vec(), kind: ItemKind::Dir }
}

#[test]
fn only_own_files_date_a_project() {
    let link = Item {
        name: b"link".to_vec(),
        kind: ItemKind::Link(Leaf { bytes: Some(1), modified: Some(Timestamp::new(999, 0)) }),
    };
    let mut dating = date_project(&path("/r/p"), vec![path("/r/p/target")], &options(4));
    let mut asked = Vec::new();
    let mut link = Some(link);
    while let Some(at) = dating.pending() {
        asked.push(at.to_text());
        let listing = match at.to_text().as_str() {
            "/r/p" => Some(vec![
                file("Cargo.toml", 10),
                dir("target"),
                dir(".git"),
                dir("Library"),
                dir("src"),
                link.take().unwrap(),
            ]),
            "/r/p/src" => Some(vec![file("main.rs", 20)]),
            _ => panic!("{at:?}"),
        };
        dating.absorb(listing);
    }
    assert_eq!(asked, ["/r/p", "/r/p/src"]);
    assert_eq!(dating.finish(Some(Timestamp::new(500, 0))), (Some(Timestamp::new(20, 0)), 2));
}

#[test]
fn a_project_without_files_is_dated_by_its_root() {
    let mut dating = date_project(&path("/r/p"), Vec::new(), &options(4));
    dating.absorb(None);
    assert!(dating.pending().is_none());
    assert_eq!(dating.finish(Some(Timestamp::new(500, 0))), (Some(Timestamp::new(500, 0)), 0));
}

#[test]
fn dating_stops_at_the_cap() {
    let mut dating = date_project(&path("/r/p"), Vec::new(), &options(4));
    let mut items: Vec<Item> = (0..50_000).map(|i| file(&format!("f{i}"), i)).collect();
    items.push(dir("more"));
    dating.absorb(Some(items));
    assert!(dating.pending().is_none());
    assert_eq!(dating.finish(None), (Some(Timestamp::new(49_999, 0)), 50_000));
}

/// A small file system: directories end in a slash.
fn list(files: &[&str], at: &str) -> Option<Vec<Entry>> {
    let front = format!("{at}/");
    let mut out: Vec<Entry> = Vec::new();
    for f in files {
        if let Some(rest) = f.strip_prefix(&front) {
            let name = rest.split('/').next().unwrap().as_bytes().to_vec();
            let is_dir = rest.contains('/');
            if !name.is_empty() && !out.iter().any(|e| e.name == name) {
                out.push(Entry { name, is_dir });
            }
        }
    }
    if out.is_empty() && !files.contains(&front.as_str()) {
        return None;
    }
    Some(out)
}

/// The directories visited, and those of them that are projects.
fn visits(options: &ScanOptions, files: &[&str]) -> (Vec<String>, Vec<String>) {
    let mut walker = walk(options);
    let (mut seen, mut projects) = (Vec::new(), Vec::new());
    loop {
        match walker.pending() {
            WalkStep::Canonicalise(root) => walker.enter_root(Some(root)),
            WalkStep::Visit => {
                assert!(walker.can_visit());
                let visit = walker.visit();
                seen.push(visit.dir.to_text());
                assert_eq!(visit.count, seen.len() as u64);
                if let Some(entries) = list(files, &visit.dir.to_text()) {
                    let matched = match_types(&names_in(&entries), &options.types, &Vec::new());
                    if !matched.is_empty() {
                        projects.push(visit.dir.to_text());
                    }
                    walker.descend(&visit, &entries, !matched.is_empty());
                }
            }
            WalkStep::Done => return (seen, projects),
        }
    }
}

#[test]
fn walks_what_the_rules_allow() {
    let files = [
        "/r/svc/Cargo.toml", "/r/svc/src/main.rs", "/r/.hidden/Cargo.toml",
        "/r/Library/x/Cargo.toml", "/r/a/b/c/Cargo.toml", "/r/file",
    ];
    let (seen, projects) = visits(&options(3), &files);
    assert_eq!(seen, ["/r", "/r/a", "/r/a/b", "/r/a/b/c", "/r/svc"]);
    assert_eq!(projects, ["/r/a/b/c", "/r/svc"]);
    let (seen, _) = visits(&options(2), &files);
    assert_eq!(seen, ["/r", "/r/a", "/r/a/b", "/r/svc"]);
    let (seen, _) = visits(&options(0), &files);
    assert_eq!(seen, ["/r"]);
    let mut all = options(8);
    all.skip_hidden = false;
    all.prune_dirs = Vec::new();
    assert_eq!(visits(&all, &files).1.len(), 4);
}

/// Expand a pattern on the small file system.
fn expand(files: &[&str], root: &FsPath, pattern: &str) -> Vec<FsPath> {
    let mut resolver = resolve(root, pattern);
    while let Some(query) = resolver.pending() {
        let reply = match query {
            Query::List(dir) => Reply::Entries(list(files, &dir.to_text())),
            Query::Exists(path) => {
                let text = path.to_text();
                let front = format!("{text}/");
                Reply::Flag(files.iter().any(|f| **f == text || f.starts_with(&front)))
            }
            Query::IsDir(path) => Reply::Flag(list(files, &path.to_text()).is_some()),
        };
        resolver.answer(reply);
    }
    resolver.finish()
}

/// The projects that a whole scan of the small file system finds.
fn collect(options: &ScanOptions, files: &[&str]) -> Vec<Candidate> {
    let mut found = Vec::new();
    let mut walker = walk(options);
    loop {
        match walker.pending() {
            WalkStep::Canonicalise(root) => walker.enter_root(Some(root)),
            WalkStep::Done => return found,
            WalkStep::Visit => {
                let visit = walker.visit();
                let Some(entries) = list(files, &visit.dir.to_text()) else {
                    continue;
                };
                let mut on_disk = disk_markers(&options.types);
                on_disk.retain(|m| !expand(files, &visit.dir, m).is_empty());
                let matched = match_types(&names_in(&entries), &options.types, &on_disk);
                let is_project = !matched.is_empty();
                if is_project {
                    found.push(candidate(options, files, &visit, matched));
                }
                walker.descend(&visit, &entries, is_project);
            }
        }
    }
}

fn candidate(
    options: &ScanOptions,
    files: &[&str],
    visit: &Visit,
    matched: Vec<String>,
) -> Candidate {
    let mut pairs = Vec::new();
    for pattern in artifact_patterns(&options.types, &matched) {
        for path in expand(files, &visit.dir, &pattern) {
            pairs.push((pattern.clone(), path));
        }
    }
    let own = keep_outermost(&pairs).into_iter().map(|(_, p)| p).collect();
    let mut dating = date_project(&visit.dir, own, options);
    while let Some(at) = dating.pending() {
        let listing = list(files, &at.to_text()).map(|entries| {
            let items = entries.into_iter().map(|e| {
                let name = String::from_utf8(e.name).unwrap();
                if e.is_dir { dir(&name) } else { file(&name, 7) }
            });
            items.collect()
        });
        assert!(dating.can_absorb(&listing));
        dating.absorb(listing);
    }
    let (last_activity, source_files) = dating.finish(None);
    build_candidate(
        visit.dir.clone(),
        visit.scan_root.clone(),
        matched,
        &pairs,
        last_activity,
        source_files,
    )
}

fn artifact_paths(candidate: &Candidate) -> Vec<String> {
    candidate.artifacts.iter().map(|(_, p)| p.to_text()).collect()
}

#[test]
fn finds_a_rust_project_and_its_target() {
    let files =
        ["/r/svc/target/debug/", "/r/svc/src/", "/r/svc/Cargo.toml", "/r/svc/src/main.rs"];
    let found = collect(&options(4), &files);
    assert_eq!(found.len(), 1, "{found:#?}");
    let candidate = &found[0];
    assert_eq!(candidate.types, vec!["rust"]);
    assert_eq!(artifact_paths(candidate), vec!["/r/svc/target"]);
    assert!(candidate.last_activity.is_some());
    assert_eq!(candidate.source_files, 2);
}

#[test]
fn reports_both_types_of_a_polyglot_project() {
    let files =
        ["/r/app/target/", "/r/app/node_modules/", "/r/app/Cargo.toml", "/r/app/package.json"];
    let found = collect(&options(4), &files);
    assert_eq!(found.len(), 1);
    assert_eq!(found[0].types, vec!["rust", "node"]);
    assert_eq!(found[0].artifacts.len(), 2);
}

#[test]
fn does_not_descend_into_a_project_by_default() {
    let files = ["/r/workspace/Cargo.toml", "/r/workspace/crates/inner/Cargo.toml"];
    let found = collect(&options(4), &files);
    assert_eq!(found.len(), 1);
    assert_eq!(found[0].root, path("/r/workspace"));

    let mut nested = options(4);
    nested.descend_into_projects = true;
    assert_eq!(collect(&nested, &files).len(), 2);
}

#[test]
fn keeps_the_outermost_of_overlapping_artifacts() {
    let files = ["/r/mono/node_modules/left/node_modules/", "/r/mono/package.json"];
    let mut overlapping = options(4);
    overlapping.types[1].artifacts.push("**/node_modules".to_string());
    let found = collect(&overlapping, &files);
    assert_eq!(found.len(), 1);
    assert_eq!(artifact_paths(&found[0]), vec!["/r/mono/node_modules"]);
}

#[test]
fn markers_may_lie_deeper() {
    let files = ["/r/net/src/a.csproj", "/r/net/bin/"];
    let found = collect(&options(4), &files);
    assert_eq!(found.len(), 1);
    assert_eq!((found[0].root.to_text().as_str(), found[0].types[0].as_str()), ("/r/net", "dotnet"));
    assert_eq!(artifact_paths(&found[0]), vec!["/r/net/bin"]);
}

#[test]
fn roots_are_walked_in_order() {
    let mut options = options(4);
    options.roots = vec![path("/one"), path("/two")];
    let mut walker = walk(&options);
    assert_eq!(walker.pending(), WalkStep::Canonicalise(path("/one")));
    walker.enter_root(Some(path("/real")));
    let visit = walker.visit();
    assert_eq!((visit.dir, visit.scan_root, visit.depth), (path("/real"), path("/real"), 0));
    assert_eq!(walker.pending(), WalkStep::Canonicalise(path("/two")));
    walker.enter_root(None);
    assert_eq!(walker.visit().dir, path("/two"));
    assert_eq!(walker.pending(), WalkStep::Done);
}
