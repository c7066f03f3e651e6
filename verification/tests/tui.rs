use rusty_broom::clock::{Duration, Timestamp};
use rusty_broom::engine::Event;
use rusty_broom::humantime::parse_duration;
use rusty_broom::path::FsPath;
use rusty_broom::project::{Artifact, CleanState, Filter, GitStatus, Project};
use rusty_broom::size::DirStat;
use rusty_broom::tui::app::{build_age_presets, App, Effect, KeyCode, KeyEvent, Mode};
use rusty_broom::tui::ui::{
    can_draw, draw, draw_at, ellipsize_start, Colour, Line, Screen, CONFIRM_TITLE, DETAILS_TITLE,
    HEADER_TITLE,
};

fn path(text: &str) -> FsPath {
    FsPath::from_text(text)
}

fn now() -> Timestamp {
    Timestamp::new(1_000_000_000, 0)
}

fn tick(secs: u64) -> Duration {
    Duration::from_secs(secs)
}

/// An app pre-loaded with two synthetic projects.
fn app_with_projects() -> App {
    let root = path("/w/rb-ui");
    let filter = Filter {
        older_than: Duration::zero(),
        ..Filter::default()
    };
    let mut app = App::new(vec![root.clone()], filter);

    for (id, name, bytes, git) in [
        (0usize, "old-service", 4 << 30, GitStatus::Ignored),
        (1, "web-frontend", 300 << 20, GitStatus::NoRepo),
    ] {
        let mut project =
            Project::new(id, root.entry(name), root.clone(), vec!["rust".to_string()]);
        project.resolved = true;
        project.git = git;
        project.source_files = 42;
        project.last_activity = Some(Timestamp::new(1_000_000_000 - 200 * 86400, 0));
        project.artifacts = vec![Artifact {
            path: root.entry(name).entry("target"),
            pattern: "target".to_string(),
            stat: Some(DirStat {
                bytes,
                files: 1000,
                newest: Some(now()),
            }),
        }];
        app.store.apply(Event::Found(Box::new(project)));
    }
    app.store.scanning = false;
    app.pump(Vec::new(), now(), tick(0));
    app
}

fn text(line: &Line) -> String {
    line.spans.iter().map(|s| s.text.as_str()).collect()
}

fn flatten(screen: &Screen) -> String {
    let mut out = HEADER_TITLE.to_string();
    let mut add = |line: String| {
        out.push('\n');
        out.push_str(&line);
    };
    screen.header.iter().for_each(|l| add(text(l)));
    add(screen.table_title.to_string());
    for row in &screen.rows {
        add(row.cells.iter().map(text).collect::<Vec<_>>().join(" "));
    }
    add(DETAILS_TITLE.to_string());
    screen.details.iter().for_each(|l| add(text(l)));
    add(text(&screen.footer));
    if let Some(overlay) = &screen.overlay {
        add(overlay.title.to_string());
        overlay.lines.iter().for_each(|l| add(text(l)));
    }
    out
}

fn render(app: &mut App) -> String {
    assert!(can_draw(app));
    flatten(&draw_at(app, 110, now(), &None))
}

fn press(app: &mut App, code: KeyCode) -> Effect {
    assert!(app.can_request());
    app.on_key(KeyEvent::press(code), tick(0))
}

#[test]
fn presets_include_the_initial_threshold() {
    let initial = parse_duration("45d").unwrap();
    let presets = build_age_presets(initial);
    assert!(
        presets
            .iter()
            .any(|(label, d)| label == "45d" && *d == initial)
    );
    // Ascending, starting with "off".
    assert_eq!(presets[0].1, Duration::zero());
    assert!(presets.windows(2).all(|w| w[0].1 <= w[1].1));
}

#[test]
fn presets_are_not_duplicated() {
    let presets = build_age_presets(parse_duration("30d").unwrap());
    assert_eq!(presets.len(), 8);
}

#[test]
fn presets_mean_what_they_say() {
    let presets = build_age_presets(Duration::zero());
    let labels: Vec<&str> = presets.iter().map(|p| p.0.as_str()).collect();
    assert_eq!(labels, ["off", "7d", "14d", "30d", "90d", "6mo", "1y", "2y"]);
    for (label, span) in presets {
        assert_eq!(parse_duration(&label), Ok(span));
    }
    let last = build_age_presets(parse_duration("9y").unwrap());
    assert_eq!(last[8].0, "9y");
}

#[test]
fn renders_the_project_list() {
    let mut app = app_with_projects();
    let screen = render(&mut app);

    assert!(screen.contains("rusty-broom"), "{screen}");
    assert!(screen.contains("old-service"), "{screen}");
    assert!(screen.contains("web-frontend"), "{screen}");
    // Largest first, and the total is the sum of both.
    assert!(screen.contains("4.00 GiB"), "{screen}");
    assert!(screen.contains("4.29 GiB reclaimable"), "{screen}");
    // The project outside a repo is flagged rather than silently trusted.
    assert!(screen.contains("no-git"), "{screen}");
    assert!(screen.contains("details"), "{screen}");
}

#[test]
fn marking_then_cleaning_asks_for_confirmation() {
    let mut app = app_with_projects();
    press(&mut app, KeyCode::Char(' '));
    assert_eq!(app.marked.len(), 1);

    press(&mut app, KeyCode::Char('c'));
    let screen = render(&mut app);
    assert!(screen.contains("confirm"), "{screen}");
    assert!(screen.contains("y delete"), "{screen}");

    // Anything other than `y` backs out without touching the disk.
    assert_eq!(press(&mut app, KeyCode::Char('n')), Effect::Nothing);
    assert!(matches!(app.mode, Mode::Normal));
    assert!(!render(&mut app).contains("confirm"));
}

#[test]
fn only_y_confirms() {
    for code in [KeyCode::Enter, KeyCode::Char('Y'), KeyCode::Esc, KeyCode::Char(' '), KeyCode::Other]
    {
        let mut app = app_with_projects();
        press(&mut app, KeyCode::Char('a'));
        press(&mut app, KeyCode::Char('c'));
        assert_eq!(press(&mut app, code), Effect::Nothing);
        assert_eq!(app.mode, Mode::Normal);
        assert_eq!(app.marked.len(), 2);
        assert!(render(&mut app).contains("cancelled"));
    }
}

#[test]
fn search_filters_the_list() {
    let mut app = app_with_projects();
    press(&mut app, KeyCode::Char('/'));
    for ch in "web".chars() {
        press(&mut app, KeyCode::Char(ch));
    }
    press(&mut app, KeyCode::Enter);
    app.pump(Vec::new(), now(), tick(0));

    assert_eq!(app.view.len(), 1);
    let screen = render(&mut app);
    assert!(screen.contains("web-frontend"), "{screen}");
    assert!(!screen.contains("old-service"), "{screen}");
}

#[test]
fn age_threshold_can_hide_everything() {
    let mut app = app_with_projects();
    // The synthetic projects are ~200 days old; 1y hides them, off shows them.
    while app.age_label() != "1y" {
        press(&mut app, KeyCode::Char('o'));
    }
    app.pump(Vec::new(), now(), tick(0));
    assert!(app.view.is_empty());

    while app.age_label() != "off" {
        press(&mut app, KeyCode::Char('O'));
    }
    app.pump(Vec::new(), now(), tick(0));
    assert_eq!(app.view.len(), 2);
}

#[test]
fn help_overlay_opens_and_closes() {
    let mut app = app_with_projects();
    press(&mut app, KeyCode::Char('?'));
    assert!(render(&mut app).contains("keys"));
    press(&mut app, KeyCode::Char('x'));
    assert!(!render(&mut app).contains("any key to close"));
}

#[test]
fn q_quits() {
    let mut app = app_with_projects();
    press(&mut app, KeyCode::Char('q'));
    assert!(app.quit);
}

#[test]
fn a_confirmed_cleaning_names_roots_and_paths() {
    let mut app = app_with_projects();
    press(&mut app, KeyCode::Char('a'));
    assert_eq!(app.marked.len(), 2);
    press(&mut app, KeyCode::Enter);
    assert_eq!(
        app.mode,
        Mode::Confirm { targets: vec![0, 1], bytes: (4 << 30) + (300 << 20) }
    );
    let screen = render(&mut app);
    assert!(screen.contains("Delete artifacts of 2 project(s), freeing about 4.29 GiB."));
    assert!(screen.contains("1 of them could not be verified against git."), "{screen}");
    let effect = press(&mut app, KeyCode::Char('y'));
    assert_eq!(
        effect,
        Effect::Clean(vec![
            (0, path("/w/rb-ui/old-service"), vec![path("/w/rb-ui/old-service/target")]),
            (1, path("/w/rb-ui/web-frontend"), vec![path("/w/rb-ui/web-frontend/target")]),
        ])
    );
    assert!(render(&mut app).contains("cleaning 2 project(s)"));
}

#[test]
fn without_marks_the_selected_project_is_cleaned() {
    let mut app = app_with_projects();
    press(&mut app, KeyCode::Down);
    press(&mut app, KeyCode::Char('c'));
    assert!(matches!(&app.mode, Mode::Confirm { targets, .. } if targets == &vec![1]));
    press(&mut app, KeyCode::Esc);
    assert!(render(&mut app).contains("cancelled"));
    app.store.projects[1].state = CleanState::Running;
    press(&mut app, KeyCode::Char('c'));
    assert!(render(&mut app).contains("nothing to clean here"));
}

#[test]
fn events_are_folded_in() {
    let mut app = app_with_projects();
    press(&mut app, KeyCode::Char('a'));
    let events = vec![
        Event::CleanStarted { id: 0 },
        Event::CleanFinished { id: 0, freed: 4 << 30, errors: Vec::new() },
        Event::CleanFinished { id: 1, freed: 1, errors: vec!["denied".to_string()] },
    ];
    assert!(app.can_fold(&events));
    app.pump(events, now(), tick(10));
    assert!(app.marked.is_empty());
    assert_eq!(app.freed(), (4 << 30) + 1);
    // The cleaned project has nothing left to show for.
    assert_eq!(app.view, vec![1]);
    let screen = render(&mut app);
    assert!(screen.contains("clean failed: denied"), "{screen}");
    assert!(screen.contains("failed"), "{screen}");
    assert!(screen.contains("freed 4.00 GiB"), "{screen}");
    // Four seconds later the message is still there, and then it is gone.
    app.pump(Vec::new(), now(), tick(14));
    assert!(render(&mut app).contains("clean failed"));
    app.pump(Vec::new(), now(), Duration::new(14, 1));
    assert!(!render(&mut app).contains("clean failed"));
    press(&mut app, KeyCode::Char('v'));
    app.pump(Vec::new(), now(), tick(20));
    assert_eq!(app.view, vec![1, 0]);
    assert!(render(&mut app).contains("-4.00 GiB"));
}

#[test]
fn totals_that_do_not_fit_cannot_be_folded() {
    let app = app_with_projects();
    let event = |freed| Event::CleanFinished { id: 0, freed, errors: Vec::new() };
    assert!(app.can_fold(&vec![event(u64::MAX)]));
    assert!(!app.can_fold(&vec![event(u64::MAX), event(1)]));
}

#[test]
fn the_selection_moves_and_follows_its_project() {
    let mut app = app_with_projects();
    assert_eq!(app.selected_id(), Some(0));
    press(&mut app, KeyCode::Up);
    assert_eq!(app.selected, Some(0));
    press(&mut app, KeyCode::PageDown);
    assert_eq!(app.selected, Some(1));
    press(&mut app, KeyCode::Char('g'));
    press(&mut app, KeyCode::Char('G'));
    assert_eq!(app.selected().unwrap().id, 1);
    // The smaller project becomes the larger one, and stays selected.
    app.store.projects[0].artifacts[0].stat = None;
    app.pump(Vec::new(), now(), tick(0));
    assert_eq!(app.view, vec![1, 0]);
    assert_eq!(app.selected, Some(0));
    press(&mut app, KeyCode::Home);
    press(&mut app, KeyCode::End);
    press(&mut app, KeyCode::PageUp);
    assert_eq!(app.selected, Some(0));
}

#[test]
fn keys_do_what_the_help_says() {
    let mut app = app_with_projects();
    press(&mut app, KeyCode::Char('s'));
    assert!(render(&mut app).contains("sorted by age"));
    press(&mut app, KeyCode::Char('A'));
    assert!(render(&mut app).contains("selection cleared"));
    press(&mut app, KeyCode::Char('a'));
    assert!(render(&mut app).contains("2 projects selected"));
    assert!(render(&mut app).contains("2 marked (4.29 GiB)"));
    press(&mut app, KeyCode::Char('o'));
    assert!(render(&mut app).contains("idle for at least 7d"));
    press(&mut app, KeyCode::Char('O'));
    assert!(render(&mut app).contains("age filter off"));
    press(&mut app, KeyCode::Char('O'));
    assert_eq!(app.age_label(), "2y");
    press(&mut app, KeyCode::Char('v'));
    assert!(render(&mut app).contains("showing all projects"));
    press(&mut app, KeyCode::Char('v'));
    assert!(render(&mut app).contains("showing projects with artifacts"));
    press(&mut app, KeyCode::Char('/'));
    press(&mut app, KeyCode::Char('a'));
    press(&mut app, KeyCode::Char('b'));
    press(&mut app, KeyCode::Backspace);
    assert_eq!(app.filter.query, "a");
    assert!(render(&mut app).contains("find a\u{2588}   enter to keep"));
    press(&mut app, KeyCode::Esc);
    assert_eq!(app.filter.query, "");
    assert!(!app.quit);
    let released = KeyEvent { code: KeyCode::Char('q'), control: false, pressed: false };
    assert_eq!(app.on_key(released, tick(0)), Effect::Nothing);
    assert!(!app.quit);
    let interrupt = KeyEvent { code: KeyCode::Char('c'), control: true, pressed: true };
    app.on_key(interrupt, tick(0));
    assert!(app.quit);
}

#[test]
fn rescanning_forgets_everything() {
    let mut app = app_with_projects();
    press(&mut app, KeyCode::Char(' '));
    assert_eq!(press(&mut app, KeyCode::Char('r')), Effect::Rescan);
    assert!(app.store.projects.is_empty() && app.marked.is_empty() && app.view.is_empty());
    assert!(app.store.scanning);
    assert!(render(&mut app).contains("searching\u{2026}"));
    app.store.scanning = false;
    assert!(render(&mut app).contains("nothing matches the current filter"));
    assert!(render(&mut app).contains("Select a project to see what would be removed."));
}

#[test]
fn details_are_complete() {
    let mut app = app_with_projects();
    app.store.projects[0].artifacts[0].stat =
        Some(DirStat { bytes: 4 << 30, files: 9, newest: Some(Timestamp::new(1_000_000_000 - 7200, 0)) });
    let screen = render(&mut app);
    assert!(screen.contains("/w/rb-ui/old-service   rust"), "{screen}");
    assert!(
        screen.contains("idle 6 months   built 2 hours   sources 42 files   git git-ignored"),
        "{screen}"
    );
    assert!(screen.contains("  4.00 GiB  target   (target)"), "{screen}");
    let one = app.store.projects[0].artifacts[0].clone();
    app.store.projects[0].artifacts = vec![one.clone(), one.clone(), one.clone(), one.clone(), one.clone(), one];
    assert!(render(&mut app).contains("\u{2026} and 2 more"));
    app.store.projects[0].artifacts = Vec::new();
    assert!(render(&mut app).contains("nothing to remove"));
    app.store.projects[0].resolved = false;
    assert!(render(&mut app).contains("resolving artifacts\u{2026}"));
    let errors = ["e1", "e2", "e3", "e4"].map(|e| e.to_string()).to_vec();
    app.store.projects[0].state = CleanState::Failed { errors };
    let screen = render(&mut app);
    assert!(screen.contains("e3") && !screen.contains("e4"), "{screen}");
}

#[test]
fn rows_are_coloured() {
    let mut app = app_with_projects();
    press(&mut app, KeyCode::Char(' '));
    app.store.projects[1].last_activity = Some(Timestamp::new(0, 0));
    let screen = draw_at(&app, 110, now(), &None);
    assert!(screen.rows[0].bold && !screen.rows[1].bold);
    assert_eq!(text(&screen.rows[0].cells[0]), "\u{2713}");
    assert_eq!(screen.rows[1].cells[3].spans[0].style.colour, Some(Colour::Red));
    assert_eq!(screen.rows[1].cells[4].spans[0].style.colour, Some(Colour::Yellow));
    app.store.projects[1].root = path("/w/rb-ui/deep/er");
    app.store.projects[1].resolved = false;
    app.store.projects[1].artifacts[0].stat = None;
    let screen = draw_at(&app, 110, now(), &None);
    let path_cell = &screen.rows[1].cells[5];
    assert_eq!((path_cell.spans[0].text.as_str(), path_cell.spans[1].text.as_str()), ("deep/", "er"));
    assert_eq!(text(&screen.rows[1].cells[2]), "~0 B");
}

#[test]
fn the_screen_reads_the_clock() {
    let app = app_with_projects();
    let screen = draw(&app, 80);
    // More than twenty years after the synthetic present.
    assert!(text(&screen.rows[0].cells[3]).ends_with("years"));
    assert_eq!(screen.overlay, None);
}

#[test]
fn long_confirmations_are_cut() {
    let mut app = app_with_projects();
    for id in 2..9 {
        let mut p = app.store.projects[0].clone();
        p.id = id;
        app.store.apply(Event::Found(Box::new(p)));
    }
    app.pump(Vec::new(), now(), tick(0));
    press(&mut app, KeyCode::Char('a'));
    press(&mut app, KeyCode::Char('c'));
    let screen = draw_at(&app, 40, now(), &None);
    let overlay = screen.overlay.unwrap();
    assert_eq!(overlay.title, CONFIRM_TITLE);
    let lines: Vec<String> = overlay.lines.iter().map(text).collect();
    assert_eq!(lines[0], "Delete artifacts of 9 project(s), freeing about 32.3 GiB.");
    assert_eq!(lines[2], "  4.00 GiB  /w/rb-ui/old-service");
    assert_eq!(lines[8], "\u{2026} and 3 more");
    assert_eq!(lines.last().unwrap(), "y delete    any other key cancel");
    assert!(draw_at(&app, 20, now(), &None).overlay.unwrap().lines[2].spans[1].text.starts_with('\u{2026}'));
}

#[test]
fn long_texts_keep_their_end() {
    assert_eq!(ellipsize_start("abcdef", 6), "abcdef");
    assert_eq!(ellipsize_start("abcdef", 4), "\u{2026}def");
    assert_eq!(ellipsize_start("abcdef", 1), "\u{2026}");
    assert_eq!(ellipsize_start("abcdef", 0), "");
    assert_eq!(ellipsize_start("", 0), "");
}
