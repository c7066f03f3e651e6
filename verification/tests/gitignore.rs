use rusty_broom::gitignore::{
    check_ignore_input, echoed_names, parse_check_ignore, partition_ignored, relative_names,
};
use rusty_broom::path::FsPath;
use rusty_broom::project::GitStatus;

fn path(text: &str) -> FsPath {
    FsPath::from_text(text)
}

#[test]
fn no_candidates_is_trivially_ignored() {
    for verdict in [Ok(Vec::new()), Err(GitStatus::NoRepo), Err(GitStatus::Unavailable)] {
        let (keep, dropped, status) = partition_ignored(&path("/tmp"), Vec::new(), verdict);
        assert!(keep.is_empty() && dropped.is_empty());
        assert_eq!(status, GitStatus::Ignored);
    }
}

#[test]
fn only_reported_paths_are_kept() {
    let root = path("/w/app");
    let candidates = vec![path("/w/app/target"), path("/w/app/dist"), path("/w/app/a/b")];
    assert_eq!(relative_names(&root, &candidates), ["target", "dist", "a/b"]);
    let verdict = Ok(vec!["a/b".to_string(), "target".to_string()]);
    let (keep, dropped, status) = partition_ignored(&root, candidates, verdict);
    assert_eq!(keep, vec![path("/w/app/target"), path("/w/app/a/b")]);
    assert_eq!(dropped, vec![path("/w/app/dist")]);
    assert_eq!(status, GitStatus::Ignored);
}

#[test]
fn outside_a_repo_keeps_everything() {
    let dir = path("/tmp");
    let candidates = vec![dir.entry("target")];
    let verdict = parse_check_ignore(Some(128), &Vec::new());
    let (keep, dropped, status) = partition_ignored(&dir, candidates.clone(), verdict);
    assert_eq!(status, GitStatus::NoRepo);
    assert_eq!(keep, candidates);
    assert!(dropped.is_empty());
}

#[test]
fn without_a_verdict_everything_is_kept() {
    let candidates = vec![path("/w/app/target")];
    for status in [GitStatus::NoRepo, GitStatus::Unavailable] {
        let (keep, dropped, got) =
            partition_ignored(&path("/w/app"), candidates.clone(), Err(status));
        assert_eq!(keep, candidates);
        assert!(dropped.is_empty());
        assert_eq!(got, status);
    }
}

#[test]
fn names_are_closed_by_zero_bytes() {
    let names = vec!["target".to_string(), "\u{e9}".to_string()];
    assert_eq!(check_ignore_input(&names), b"target\0\xc3\xa9\0");
    assert_eq!(check_ignore_input(&Vec::new()), b"");
}

#[test]
fn exit_codes_decide() {
    let out = b"target\0dist/\0a//\0\0".to_vec();
    assert_eq!(
        parse_check_ignore(Some(0), &out),
        Ok(vec!["target".to_string(), "dist".to_string(), "a".to_string()])
    );
    assert_eq!(parse_check_ignore(Some(1), &Vec::new()), Ok(Vec::new()));
    assert_eq!(parse_check_ignore(Some(128), &out), Err(GitStatus::NoRepo));
    assert_eq!(parse_check_ignore(Some(2), &out), Err(GitStatus::Unavailable));
    assert_eq!(parse_check_ignore(None, &out), Err(GitStatus::Unavailable));
    // What is not Unicode is replaced.
    assert_eq!(parse_check_ignore(Some(0), &b"a\xff\0".to_vec()), Ok(vec!["a\u{fffd}".to_string()]));
}

#[test]
fn names_are_read_from_what_git_echoed() {
    assert_eq!(echoed_names("a\0b/\0\0c d"), ["a", "b", "c d"]);
    assert!(echoed_names("").is_empty());
}
