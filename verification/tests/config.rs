use rusty_broom::clock::Duration;
use rusty_broom::config::{
    config_path_at, config_path_in, discover_config_path, user_config_path, Config, ConfigError,
    ProjectType, Settings,
};
use rusty_broom::path::FsPath;

fn kind(name: &str, enabled: bool, artifacts: &[&str]) -> ProjectType {
    ProjectType {
        name: name.to_string(),
        markers: vec![format!("{name}.toml")],
        artifacts: artifacts.iter().map(|a| a.to_string()).collect(),
        require_all_markers: false,
        enabled,
    }
}

fn config(types: Vec<ProjectType>) -> Config {
    Config { settings: Settings::default(), project_types: types }
}

fn names(types: &[ProjectType]) -> Vec<&str> {
    types.iter().map(|t| t.name.as_str()).collect()
}

#[test]
fn settings_have_defaults() {
    let s = Settings::default();
    assert_eq!(s.older_than, "30d");
    assert_eq!((s.max_depth, s.workers), (8, 0));
    assert!(s.skip_hidden && s.require_git_ignored && s.extend_default_types);
    assert!(!s.descend_into_projects && !s.follow_links && s.prune_dirs.is_empty());
}

#[test]
fn user_types_win() {
    let mut defaults = config(vec![kind("rust", true, &["target"]), kind("node", true, &["dist"])]);
    defaults.settings.prune_dirs = vec!["Library".to_string()];
    defaults.settings.max_depth = 3;
    let mut user = config(vec![kind("zig", true, &["zig-out"]), kind("rust", false, &["out"])]);
    user.settings.older_than = "1y".to_string();
    let merged = user.clone().merged_with_defaults(defaults.clone());
    assert_eq!(names(&merged.project_types), ["rust", "node", "zig"]);
    assert_eq!(merged.project_types[0].artifacts, ["out"]);
    assert!(!merged.project_types[0].enabled);
    assert_eq!(merged.settings.older_than, "1y");
    assert_eq!(merged.settings.max_depth, 8);
    assert_eq!(merged.settings.prune_dirs, ["Library"]);

    user.settings.prune_dirs = vec!["x".to_string()];
    assert_eq!(user.clone().merged_with_defaults(defaults.clone()).settings.prune_dirs, ["x"]);

    user.settings.extend_default_types = false;
    let alone = user.clone().merged_with_defaults(defaults.clone());
    assert_eq!(alone, user);
}

#[test]
fn loading_merges_a_file_with_the_catalogue() {
    let defaults = config(vec![kind("rust", true, &["target"])]);
    let (used, from) = Config::load(None, defaults.clone());
    assert_eq!((used, from), (defaults.clone(), None));
    let file = FsPath::from_text("/etc/x.toml");
    let (used, from) =
        Config::load(Some((config(vec![kind("go", true, &[])]), file.clone())), defaults);
    assert_eq!(names(&used.project_types), ["rust", "go"]);
    assert_eq!(from, Some(file));
}

#[test]
fn an_explicit_file_must_exist() {
    let file = FsPath::from_text("/nope.toml");
    let found = Some(FsPath::from_text("/found.toml"));
    assert_eq!(
        Config::source(Some(file.clone()), true, found.clone()),
        Ok(Some(file.clone()))
    );
    let error = Config::source(Some(file), false, found.clone()).unwrap_err();
    assert_eq!(error.message(), "config file not found: /nope.toml");
    assert_eq!(Config::source(None, false, found.clone()), Ok(found));
    assert_eq!(Config::source(None, true, None), Ok(None));
}

#[test]
fn a_request_overrides_enabled() {
    let c = config(vec![kind("rust", true, &[]), kind("latex", false, &[]), kind("go", true, &[])]);
    assert_eq!(names(&c.active_types(&Vec::new())), ["rust", "go"]);
    let only = vec!["go".to_string(), "latex".to_string()];
    assert_eq!(names(&c.active_types(&only)), ["latex", "go"]);
}

#[test]
fn bad_thresholds_are_reported() {
    let mut c = config(Vec::new());
    assert_eq!(c.default_older_than(), Ok(Duration::from_secs(30 * 86_400)));
    c.settings.older_than = "soon".to_string();
    let error = c.default_older_than().unwrap_err();
    assert_eq!(error.message(), "settings.older_than = \"soon\"");
    assert!(matches!(
        error,
        ConfigError::OlderThan { cause, .. } if cause.message() == "no number in duration \"soon\""
    ));
}

#[test]
fn unknown_types_are_reported() {
    let c = config(vec![kind("rust", true, &[]), kind("go", true, &[])]);
    assert_eq!(c.validate_type_names(&vec!["go".to_string()]), Ok(()));
    let wanted = vec!["go".to_string(), "perl".to_string(), "cobol".to_string()];
    let error = c.validate_type_names(&wanted).unwrap_err();
    assert_eq!(error.message(), "unknown project type \"perl\"; known types: rust, go");
}

#[test]
fn the_local_file_comes_first() {
    let user = Some(FsPath::from_text("/c/rusty-broom/config.toml"));
    let local = Some(FsPath::from_text(".rusty-broom.toml"));
    assert_eq!(discover_config_path(true, user.clone(), true), local);
    assert_eq!(discover_config_path(false, user.clone(), true), user);
    assert_eq!(discover_config_path(false, user, false), None);
    assert_eq!(discover_config_path(false, None, false), None);
}

#[test]
fn the_user_file_lies_in_the_config_directory() {
    let dir = FsPath::from_text("/home/me/.config");
    assert_eq!(config_path_in(&dir).to_text(), "/home/me/.config/rusty-broom/config.toml");
    assert_eq!(config_path_at(None), None);
    assert_eq!(config_path_at(Some(dir.clone())), Some(config_path_in(&dir)));
    let expected =
        dirs::config_dir().map(|d| d.join("rusty-broom").join("config.toml").display().to_string());
    assert_eq!(user_config_path().map(|p| p.to_text()), expected);
}

#[test]
fn config_faults_are_worded() {
    let error = ConfigError::UnknownType {
        name: "x".to_string(),
        known: vec!["a".to_string(), "b".to_string()],
    };
    assert_eq!(error.worded("<x>"), "unknown project type <x>; known types: a, b");
    let error = ConfigError::NotFound { path: FsPath::from_text("/x") };
    assert_eq!(error.worded("<x>"), "config file not found: <x>");
}
