//! What the interface shows, as lines of styled text.

use vstd::prelude::*;

use crate::clock::{now, seconds, span_between, Duration, Timestamp, NANOS};
use crate::fmt::{bytes, maybe_bytes, maybe_size_text, size_text};
use crate::humantime::{age_at, age_text, format_age};
use crate::path::{path_facts, FsPath, PathFact};
use crate::places::home_dir;
use crate::project::{
    artifact_views, lemma_totals_grow, newest_build, opt_path, project_views, tilde_from,
    tilde_text, total_size, Artifact, ArtifactFact, CleanState, GitStatus, Project, ProjectFact,
    ProjectId, StateFact,
};
use crate::report::{artifact_bytes, measured};
use crate::store::StoreFact;
use crate::text::{
    char_count, chars_of, decimal, digits, join, joined, lemma_texts_push, pad_left, pad_right,
    padded_left, padded_right, string_of_range, texts,
};
use crate::tui::app::{known, App, AppFact, Mode, ModeFact};

verus! {

/// The keys, in the last line.
pub const KEYS: &'static str =
    "j/k move \u{b7} space mark \u{b7} a all \u{b7} c clean \u{b7} o age \u{b7} s sort \u{b7} / find \u{b7} v show \u{b7} r rescan \u{b7} ? help \u{b7} q quit";

/// A project idle for longer than this many seconds is highlighted as clearly
/// abandoned.
pub const VERY_OLD: u64 = 31_536_000;

/// The width of the confirmation box.
pub const CONFIRM_WIDTH: usize = 76;

#[derive(Debug, Clone, Copy, PartialEq, Eq, Structural)]
pub enum Colour {
    Cyan,
    DarkGray,
    Yellow,
    Green,
    Red,
}

#[derive(Debug, Clone, Copy, PartialEq, Eq, Structural)]
pub struct Style {
    pub colour: Option<Colour>,
    pub bold: bool,
}

/// A piece of text in one style.
#[derive(Debug, PartialEq, Eq)]
pub struct Span {
    pub text: String,
    pub style: Style,
}

/// A line of text.
#[derive(Debug, PartialEq, Eq)]
pub struct Line {
    pub spans: Vec<Span>,
}

/// A row of the table: mark, types, size, age, git, path.
#[derive(Debug, PartialEq, Eq)]
pub struct Row {
    pub cells: Vec<Line>,
    pub bold: bool,
}

/// What a [`Span`] says.
pub struct SpanFact {
    pub text: Seq<char>,
    pub style: Style,
}

/// What a [`Row`] says.
pub struct RowFact {
    pub cells: Seq<Seq<SpanFact>>,
    pub bold: bool,
}

impl View for Span {
    type V = SpanFact;

    open spec fn view(&self) -> SpanFact {
        SpanFact { text: self.text@, style: self.style }
    }
}

impl View for Line {
    type V = Seq<SpanFact>;

    open spec fn view(&self) -> Seq<SpanFact> {
        self.spans@.map_values(|s: Span| s@)
    }
}

/// Views of a list of lines.
pub open spec fn line_views(lines: Seq<Line>) -> Seq<Seq<SpanFact>> {
    lines.map_values(|l: Line| l@)
}

proof fn lemma_line_views_push(lines: Seq<Line>, line: Line)
    ensures
        line_views(lines.push(line)) == line_views(lines).push(line@),
{
    assert(line_views(lines.push(line)) =~= line_views(lines).push(line@));
}

impl View for Row {
    type V = RowFact;

    open spec fn view(&self) -> RowFact {
        RowFact { cells: line_views(self.cells@), bold: self.bold }
    }
}

/// Views of a list of rows.
pub open spec fn row_views(rows: Seq<Row>) -> Seq<RowFact> {
    rows.map_values(|r: Row| r@)
}

/// Text in the usual style.
pub open spec fn plain(text: Seq<char>) -> SpanFact {
    SpanFact { text, style: Style { colour: None, bold: false } }
}

/// Bold text.
pub open spec fn strong(text: Seq<char>) -> SpanFact {
    SpanFact { text, style: Style { colour: None, bold: true } }
}

/// Coloured text.
pub open spec fn tinted(text: Seq<char>, colour: Colour) -> SpanFact {
    SpanFact { text, style: Style { colour: Some(colour), bold: false } }
}

/// Bold coloured text.
pub open spec fn vivid(text: Seq<char>, colour: Colour) -> SpanFact {
    SpanFact { text, style: Style { colour: Some(colour), bold: true } }
}

impl Line {
    fn new() -> (r: Line)
        ensures
            r@ == Seq::<SpanFact>::empty(),
    {
        let r = Line { spans: Vec::new() };
        assert(r@ =~= Seq::<SpanFact>::empty());
        r
    }

    fn push(&mut self, text: String, style: Style)
        ensures
            final(self)@ == old(self)@.push(SpanFact { text: text@, style }),
    {
        let ghost before = self@;
        let span = Span { text, style };
        let ghost fact = span@;
        self.spans.push(span);
        assert(self@ =~= before.push(fact));
    }

    fn plain(&mut self, text: &str)
        ensures
            final(self)@ == old(self)@.push(plain(text@)),
    {
        self.push(text.to_owned(), Style { colour: None, bold: false });
    }

    fn strong(&mut self, text: &str)
        ensures
            final(self)@ == old(self)@.push(strong(text@)),
    {
        self.push(text.to_owned(), Style { colour: None, bold: true });
    }

    fn tinted(&mut self, text: &str, colour: Colour)
        ensures
            final(self)@ == old(self)@.push(tinted(text@, colour)),
    {
        self.push(text.to_owned(), Style { colour: Some(colour), bold: false });
    }

    fn vivid(&mut self, text: &str, colour: Colour)
        ensures
            final(self)@ == old(self)@.push(vivid(text@, colour)),
    {
        self.push(text.to_owned(), Style { colour: Some(colour), bold: true });
    }
}

/// At most `max` characters of the text, the end of it, behind an ellipsis
/// where something was cut off.
pub open spec fn ellipsized(text: Seq<char>, max: int) -> Seq<char> {
    if text.len() <= max {
        text
    } else if max <= 0 {
        seq![]
    } else {
        "\u{2026}"@ + text.skip(text.len() - (max - 1))
    }
}

/// Shorten to `max` characters, keeping the end: the interesting part of a
/// path is its last few components.
pub fn ellipsize_start(text: &str, max: usize) -> (r: String)
    ensures
        r@ == ellipsized(text@, max as int),
        r@.len() <= max,
        text@.len() > max ==> r@.len() == max,
{
    let chars = chars_of(text);
    let length = chars.len();
    if length <= max {
        return text.to_owned();
    }
    if max == 0 {
        let none = String::new();
        assert(none@ =~= seq![]);
        return none;
    }
    proof {
        reveal_strlit("\u{2026}");
    }
    let mut out = "\u{2026}".to_owned();
    let from: usize = length - (max - 1);
    out.append(string_of_range(&chars, from, length).as_str());
    assert(chars@.subrange(from as int, length as int) =~= text@.skip(from as int));
    out
}

/// `a - b`, but not below nothing.
pub open spec fn less(a: int, b: int) -> int {
    if a > b {
        a - b
    } else {
        0
    }
}

/// The roots, as the user recognises them.
pub open spec fn roots_text(roots: Seq<PathFact>, home: Option<Seq<Seq<u8>>>) -> Seq<char> {
    joined(roots.map_values(|r: PathFact| tilde_text(r, home)), ", "@)
}

/// The first line of the header: the roots and how the scan stands.
pub open spec fn root_line(st: AppFact, width: int, home: Option<Seq<Seq<u8>>>) -> Seq<SpanFact> {
    seq![
        tinted("root "@, Colour::DarkGray),
        // Leave room for the scan status that follows on the same line.
        plain(ellipsized(roots_text(st.roots, home), less(width, 30))),
        plain("   "@),
        if st.store.scanning {
            tinted(
                "scanning\u{2026} "@ + digits(st.store.dirs_scanned as nat) + " dirs"@,
                Colour::Yellow,
            )
        } else {
            tinted(digits(st.store.dirs_scanned as nat) + " dirs scanned"@, Colour::DarkGray)
        },
    ]
}

/// What is always in the second line of the header.
pub open spec fn stats_start(st: AppFact) -> Seq<SpanFact> {
    seq![
        tinted("idle \u{2265} "@, Colour::DarkGray),
        tinted(st.ages[st.age_index as int].0, Colour::Cyan),
        plain("   "@),
        tinted("sort "@, Colour::DarkGray),
        tinted(st.sort.label_text(), Colour::Cyan),
        plain("   "@),
        plain(digits(st.view.len()) + "/"@ + digits(st.store.all().len()) + " projects"@),
        plain("   "@),
        vivid(size_text(total_size(st.visible())) + " reclaimable"@, Colour::Yellow),
    ]
}

/// What is there about marked projects.
pub open spec fn stats_marked(st: AppFact) -> Seq<SpanFact> {
    if st.marked.is_empty() {
        seq![]
    } else {
        seq![
            plain("   "@),
            tinted(
                digits(st.marked.len()) + " marked ("@ + size_text(st.marked_bytes()) + ")"@,
                Colour::Green,
            ),
        ]
    }
}

/// What is there about what was freed.
pub open spec fn stats_freed(st: AppFact) -> Seq<SpanFact> {
    if st.store.freed == 0 {
        seq![]
    } else {
        seq![plain("   "@), vivid("freed "@ + size_text(st.store.freed), Colour::Green)]
    }
}

/// The header of the screen, `width` columns wide.
pub open spec fn header(st: AppFact, width: int, home: Option<Seq<Seq<u8>>>) -> Seq<Seq<SpanFact>> {
    seq![
        root_line(st, width, home),
        stats_start(st) + stats_marked(st) + stats_freed(st),
    ]
}

fn shown_roots(roots: &Vec<FsPath>, home: &Option<FsPath>) -> (r: String)
    ensures
        r@ == roots_text(path_facts(roots@), opt_path(*home)),
{
    let ghost place = opt_path(*home);
    let ghost all = path_facts(roots@).map_values(|r: PathFact| tilde_text(r, place));
    let mut parts: Vec<String> = Vec::new();
    let mut i: usize = 0;
    while i < roots.len()
        invariant
            0 <= i <= roots.len(),
            place == opt_path(*home),
            all == path_facts(roots@).map_values(|r: PathFact| tilde_text(r, place)),
            texts(parts@) =~= all.take(i as int),
        decreases roots.len() - i,
    {
        let part = tilde_from(&roots[i], home);
        proof {
            lemma_texts_push(parts@, part);
        }
        parts.push(part);
        i = i + 1;
    }
    assert(all.take(all.len() as int) =~= all);
    join(&parts, ", ")
}

/// The header of the screen, `width` columns wide.
pub fn draw_header(app: &App, width: usize, home: &Option<FsPath>) -> (r: Vec<Line>)
    requires
        app@.is_valid(),
        app@.fits(),
    ensures
        line_views(r@) == header(app@, width as int, opt_path(*home)),
{
    let ghost st = app@;
    let roots = shown_roots(&app.roots, home);
    let mut first = Line::new();
    first.tinted("root ", Colour::DarkGray);
    first.plain(ellipsize_start(roots.as_str(), width.saturating_sub(30)).as_str());
    first.plain("   ");
    if app.store.scanning {
        let mut text = "scanning\u{2026} ".to_owned();
        text.append(decimal(app.store.dirs_scanned).as_str());
        text.append(" dirs");
        first.tinted(text.as_str(), Colour::Yellow);
    } else {
        let mut text = decimal(app.store.dirs_scanned);
        text.append(" dirs scanned");
        first.tinted(text.as_str(), Colour::DarkGray);
    }
    assert(first@ =~= root_line(st, width as int, opt_path(*home)));
    let mut second = Line::new();
    second.tinted("idle \u{2265} ", Colour::DarkGray);
    second.tinted(app.age_label(), Colour::Cyan);
    second.plain("   ");
    second.tinted("sort ", Colour::DarkGray);
    second.tinted(app.sort.label(), Colour::Cyan);
    second.plain("   ");
    let all = app.store.all();
    assert(project_views(all@).len() == all@.len());
    let mut count = decimal(app.view.len() as u64);
    count.append("/");
    count.append(decimal(all.len() as u64).as_str());
    count.append(" projects");
    second.plain(count.as_str());
    second.plain("   ");
    let mut size = bytes(app.visible_bytes());
    size.append(" reclaimable");
    second.vivid(size.as_str(), Colour::Yellow);
    assert(second@ =~= stats_start(st));
    if !app.marked.is_empty() {
        let mut text = decimal(app.marked.len() as u64);
        text.append(" marked (");
        text.append(bytes(app.marked_bytes()).as_str());
        text.append(")");
        second.plain("   ");
        second.tinted(text.as_str(), Colour::Green);
    }
    assert(second@ =~= stats_start(st) + stats_marked(st));
    if app.freed() > 0 {
        let mut text = "freed ".to_owned();
        text.append(bytes(app.freed()).as_str());
        second.plain("   ");
        second.vivid(text.as_str(), Colour::Green);
    }
    assert(second@ =~= stats_start(st) + stats_marked(st) + stats_freed(st));
    let mut out: Vec<Line> = Vec::new();
    out.push(first);
    out.push(second);
    assert(line_views(out@) =~= header(st, width as int, opt_path(*home)));
    out
}

/// Size plus a hint that measuring is still in progress.
pub open spec fn size_span(p: ProjectFact) -> SpanFact {
    match p.state {
        StateFact::Running => tinted("cleaning"@, Colour::Yellow),
        StateFact::Done { freed } => tinted("-"@ + size_text(freed as nat), Colour::Green),
        StateFact::Failed { .. } => tinted("failed"@, Colour::Red),
        StateFact::Idle => if p.is_measured() {
            tinted(size_text(p.size()), Colour::Yellow)
        } else {
            tinted("~"@ + size_text(p.size()), Colour::DarkGray)
        },
    }
}

pub open spec fn git_colour(git: GitStatus) -> Colour {
    match git {
        GitStatus::Ignored => Colour::Green,
        GitStatus::NoRepo => Colour::Yellow,
        GitStatus::Disabled => Colour::Yellow,
        GitStatus::Unavailable => Colour::Red,
        GitStatus::Pending => Colour::DarkGray,
    }
}

/// The age, highlighted where the project is clearly abandoned.
pub open spec fn age_span(p: ProjectFact, now: int) -> SpanFact {
    let text = p.age_label(now);
    match p.age(now) {
        Some(age) => if age >= seconds(VERY_OLD as nat) {
            tinted(text, Colour::Red)
        } else {
            plain(text)
        },
        None => tinted(text, Colour::DarkGray),
    }
}

/// Position just behind the last slash; nothing where there is none.
pub open spec fn name_start(text: Seq<char>) -> int
    decreases text.len(),
{
    if text.len() == 0 || text.last() == '/' {
        text.len() as int
    } else {
        name_start(text.drop_last())
    }
}

/// The path with its last component brought out.
pub open spec fn path_spans(p: ProjectFact) -> Seq<SpanFact> {
    let text = p.display_path();
    let at = name_start(text);
    seq![tinted(text.take(at), Colour::DarkGray), plain(text.skip(at))]
}

/// The row of a project.
pub open spec fn project_row(p: ProjectFact, marked: bool, now: int) -> RowFact {
    RowFact {
        cells: seq![
            seq![
                if marked {
                    vivid("\u{2713}"@, Colour::Green)
                } else {
                    plain(" "@)
                },
            ],
            seq![plain(p.type_label())],
            seq![size_span(p)],
            seq![age_span(p, now)],
            seq![tinted(p.git.label_text(), git_colour(p.git))],
            path_spans(p),
        ],
        bold: marked,
    }
}

/// The rows of the table.
pub open spec fn rows(st: AppFact, now: int) -> Seq<RowFact> {
    st.visible().map_values(|p: ProjectFact| project_row(p, st.marked.contains(p.id), now))
}

fn size_cell(line: &mut Line, project: &Project)
    requires
        project@.size() <= u64::MAX,
    ensures
        final(line)@ == old(line)@.push(size_span(project@)),
{
    match &project.state {
        CleanState::Running => line.tinted("cleaning", Colour::Yellow),
        CleanState::Done { freed } => {
            let mut text = "-".to_owned();
            text.append(bytes(*freed).as_str());
            line.tinted(text.as_str(), Colour::Green);
        },
        CleanState::Failed { .. } => line.tinted("failed", Colour::Red),
        CleanState::Idle => {
            let size = bytes(project.size());
            if project.is_measured() {
                line.tinted(size.as_str(), Colour::Yellow);
            } else {
                let mut text = "~".to_owned();
                text.append(size.as_str());
                line.tinted(text.as_str(), Colour::DarkGray);
            }
        },
    }
}

fn git_cell(line: &mut Line, status: GitStatus)
    ensures
        final(line)@ == old(line)@.push(tinted(status.label_text(), git_colour(status))),
{
    let colour = match status {
        GitStatus::Ignored => Colour::Green,
        GitStatus::NoRepo | GitStatus::Disabled => Colour::Yellow,
        GitStatus::Unavailable => Colour::Red,
        GitStatus::Pending => Colour::DarkGray,
    };
    line.tinted(status.label(), colour);
}

fn age_cell(line: &mut Line, project: &Project, now: Timestamp)
    ensures
        final(line)@ == old(line)@.push(age_span(project@, now@)),
{
    let text = project.age_label_at(now);
    match project.age_at(now) {
        Some(age) => {
            if age.at_least(&Duration::from_secs(VERY_OLD)) {
                line.tinted(text.as_str(), Colour::Red);
            } else {
                line.plain(text.as_str());
            }
        },
        None => line.tinted(text.as_str(), Colour::DarkGray),
    }
}

fn path_line(project: &Project) -> (r: Line)
    ensures
        r@ == path_spans(project@),
{
    let display = project.display_path();
    let chars = chars_of(display.as_str());
    let mut at: usize = chars.len();
    assert(chars@.take(chars@.len() as int) =~= chars@);
    while at > 0 && chars[at - 1] != '/'
        invariant
            0 <= at <= chars.len(),
            name_start(chars@) == name_start(chars@.take(at as int)),
        decreases at,
    {
        assert(chars@.take(at as int).drop_last() =~= chars@.take(at - 1));
        at = at - 1;
    }
    proof {
        assert(chars@.subrange(0, at as int) =~= chars@.take(at as int));
        assert(chars@.subrange(at as int, chars@.len() as int) =~= chars@.skip(at as int));
    }
    let parent = string_of_range(&chars, 0, at);
    let name = string_of_range(&chars, at, chars.len());
    let mut line = Line::new();
    line.tinted(parent.as_str(), Colour::DarkGray);
    line.plain(name.as_str());
    assert(line@ =~= path_spans(project@));
    line
}

fn build_row(project: &Project, marked: bool, now: Timestamp) -> (r: Row)
    requires
        project@.size() <= u64::MAX,
    ensures
        r@ == project_row(project@, marked, now@),
{
    let mut mark = Line::new();
    if marked {
        mark.vivid("\u{2713}", Colour::Green);
    } else {
        mark.plain(" ");
    }
    let mut types = Line::new();
    types.plain(project.type_label().as_str());
    let mut size = Line::new();
    size_cell(&mut size, project);
    let mut age = Line::new();
    age_cell(&mut age, project, now);
    let mut git = Line::new();
    git_cell(&mut git, project.git);
    let mut cells: Vec<Line> = Vec::new();
    let path = path_line(project);
    let ghost goal = project_row(project@, marked, now@).cells;
    proof {
        assert(mark@ =~= goal[0]);
        assert(types@ =~= goal[1]);
        assert(size@ =~= goal[2]);
        assert(age@ =~= goal[3]);
        assert(git@ =~= goal[4]);
    }
    cells.push(mark);
    cells.push(types);
    cells.push(size);
    cells.push(age);
    cells.push(git);
    cells.push(path);
    assert(line_views(cells@) =~= goal);
    Row { cells, bold: marked }
}

/// The rows of the table at the time `now`.
pub fn build_rows(app: &App, now: Timestamp) -> (r: Vec<Row>)
    requires
        total_size(app@.visible()) <= u64::MAX,
    ensures
        row_views(r@) == rows(app@, now@),
{
    broadcast use vstd::std_specs::hash::group_hash_axioms;

    let ghost st = app@;
    let ghost goal = rows(st, now@);
    let shown = app.visible();
    let ghost facts = project_views(shown@);
    let mut out: Vec<Row> = Vec::new();
    let mut i: usize = 0;
    while i < shown.len()
        invariant
            0 <= i <= shown.len(),
            st == app@,
            facts == project_views(shown@),
            facts == st.visible(),
            total_size(facts) <= u64::MAX,
            goal == rows(st, now@),
            row_views(out@) =~= goal.take(i as int),
        decreases shown.len() - i,
    {
        let project = shown[i];
        proof {
            lemma_totals_grow(facts, i + 1);
            assert(facts[i as int] == project@);
        }
        let marked = app.marked.contains(&project.id);
        let row = build_row(project, marked, now);
        let ghost before = out@;
        out.push(row);
        proof {
            assert(goal[i as int] == row@);
            assert(row_views(out@) =~= row_views(before).push(row@));
        }
        i = i + 1;
    }
    assert(goal.take(goal.len() as int) =~= goal);
    out
}

/// The title of the table.
pub fn table_title(app: &App) -> (r: &'static str)
    ensures
        r@ == if app@.view.len() > 0 {
            " projects "@
        } else if app@.store.scanning {
            " searching\u{2026} "@
        } else {
            " nothing matches the current filter "@
        },
{
    let empty = app.view.len() == 0;
    if empty && app.store.scanning {
        " searching\u{2026} "
    } else if empty {
        " nothing matches the current filter "
    } else {
        " projects "
    }
}

/// The path and the types of a project, in `width` columns.
pub open spec fn headline_spans(
    p: ProjectFact,
    width: int,
    home: Option<Seq<Seq<u8>>>,
) -> Seq<SpanFact> {
    seq![
        strong(ellipsized(tilde_text(p.root, home), less(width, p.type_label().len() as int + 3))),
        tinted("   "@ + p.type_label(), Colour::Cyan),
    ]
}

/// When the artifacts were last written, at the time `now`.
pub open spec fn built_text(p: ProjectFact, now: int) -> Seq<char> {
    match newest_build(p.artifacts) {
        Some(t) => age_text(span_between(t, now) / (NANOS as nat)),
        None => "unknown"@,
    }
}

/// What is known of a project, in one line.
pub open spec fn facts_spans(p: ProjectFact, now: int) -> Seq<SpanFact> {
    seq![
        tinted("idle "@, Colour::DarkGray),
        plain(p.age_label(now)),
        tinted("   built "@, Colour::DarkGray),
        plain(built_text(p, now)),
        tinted("   sources "@, Colour::DarkGray),
        plain(digits(p.source_files as nat) + " files"@),
        tinted("   git "@, Colour::DarkGray),
        tinted(p.git.label_text(), git_colour(p.git)),
    ]
}

/// The line of an artifact of the project at `root`.
pub open spec fn artifact_spans(a: ArtifactFact, root: PathFact) -> Seq<SpanFact> {
    seq![
        tinted(
            padded_left(maybe_size_text(artifact_bytes(a)), 10) + "  "@,
            Colour::Yellow,
        ),
        plain(a.path.relative_to(root).shown()),
        tinted("   ("@ + a.pattern + ")"@, Colour::DarkGray),
    ]
}

/// The first `max` of a list.
pub open spec fn at_most<A>(list: Seq<A>, max: int) -> Seq<A> {
    if list.len() <= max {
        list
    } else {
        list.take(max)
    }
}

/// How many are left out.
pub open spec fn more_line(count: nat, max: nat) -> Seq<Seq<SpanFact>> {
    if count > max {
        seq![
            seq![
                tinted(
                    "\u{2026} and "@ + digits((count - max) as nat) + " more"@,
                    Colour::DarkGray,
                ),
            ],
        ]
    } else {
        seq![]
    }
}

/// What failed, or what would be removed.
pub open spec fn content_lines(p: ProjectFact) -> Seq<Seq<SpanFact>> {
    match p.state {
        StateFact::Failed { errors } => at_most(errors, 3).map_values(
            |e: Seq<char>| seq![tinted(e, Colour::Red)],
        ),
        _ => if p.artifacts.len() == 0 {
            seq![
                seq![
                    tinted(
                        if p.resolved {
                            "nothing to remove"@
                        } else {
                            "resolving artifacts\u{2026}"@
                        },
                        Colour::DarkGray,
                    ),
                ],
            ]
        } else {
            at_most(p.artifacts, 4).map_values(|a: ArtifactFact| artifact_spans(a, p.root))
                + more_line(p.artifacts.len(), 4)
        },
    }
}

/// The details of the selected project, in `width` columns.
pub open spec fn details(
    st: AppFact,
    width: int,
    now: int,
    home: Option<Seq<Seq<u8>>>,
) -> Seq<Seq<SpanFact>> {
    match st.selected_project() {
        None => seq![
            seq![
                tinted("Select a project to see what would be removed."@, Colour::DarkGray),
            ],
        ],
        Some(p) => seq![
            headline_spans(p, less(width, 2), home),
            facts_spans(p, now),
        ] + content_lines(p),
    }
}

fn headline(project: &Project, width: usize, home: &Option<FsPath>) -> (r: Line)
    ensures
        r@ == headline_spans(project@, width as int, opt_path(*home)),
{
    let types = project.type_label();
    let path = tilde_from(&project.root, home);
    let room = width.saturating_sub(char_count(types.as_str()).saturating_add(3));
    let mut line = Line::new();
    line.strong(ellipsize_start(path.as_str(), room).as_str());
    let mut text = "   ".to_owned();
    text.append(types.as_str());
    line.tinted(text.as_str(), Colour::Cyan);
    assert(line@ =~= headline_spans(project@, width as int, opt_path(*home)));
    line
}

fn facts_line(project: &Project, now: Timestamp) -> (r: Line)
    ensures
        r@ == facts_spans(project@, now@),
{
    let built = match project.last_build() {
        Some(at) => format_age(age_at(at, now)),
        None => "unknown".to_owned(),
    };
    let mut line = Line::new();
    line.tinted("idle ", Colour::DarkGray);
    line.plain(project.age_label_at(now).as_str());
    line.tinted("   built ", Colour::DarkGray);
    line.plain(built.as_str());
    line.tinted("   sources ", Colour::DarkGray);
    let mut files = decimal(project.source_files);
    files.append(" files");
    line.plain(files.as_str());
    line.tinted("   git ", Colour::DarkGray);
    git_cell(&mut line, project.git);
    assert(line@ =~= facts_spans(project@, now@));
    line
}

fn artifact_line(artifact: &Artifact, root: &FsPath) -> (r: Line)
    ensures
        r@ == artifact_spans(artifact@, root.fact()),
{
    let mut size = pad_left(maybe_bytes(measured(artifact)).as_str(), 10);
    size.append("  ");
    let mut pattern = "   (".to_owned();
    pattern.append(artifact.pattern.as_str());
    pattern.append(")");
    let mut line = Line::new();
    line.tinted(size.as_str(), Colour::Yellow);
    line.plain(artifact.path.relative_to(root).to_text().as_str());
    line.tinted(pattern.as_str(), Colour::DarkGray);
    assert(line@ =~= artifact_spans(artifact@, root.fact()));
    line
}

fn add_more(lines: &mut Vec<Line>, count: usize, max: usize)
    ensures
        line_views(final(lines)@) == line_views(old(lines)@) + more_line(count as nat, max as nat),
{
    let ghost before = lines@;
    if count > max {
        let mut text = "\u{2026} and ".to_owned();
        text.append(decimal((count - max) as u64).as_str());
        text.append(" more");
        let mut line = Line::new();
        line.tinted(text.as_str(), Colour::DarkGray);
        proof {
            lemma_line_views_push(lines@, line);
            assert(line@ =~= more_line(count as nat, max as nat)[0]);
        }
        lines.push(line);
    }
    assert(line_views(lines@) =~= line_views(before) + more_line(count as nat, max as nat));
}

fn add_content(lines: &mut Vec<Line>, project: &Project)
    ensures
        line_views(final(lines)@) == line_views(old(lines)@) + content_lines(project@),
{
    let ghost before = line_views(lines@);
    let ghost p = project@;
    match &project.state {
        CleanState::Failed { errors } => {
            let ghost goal = content_lines(p);
            let count = if errors.len() < 3 {
                errors.len()
            } else {
                3
            };
            assert(texts(errors@).len() == errors@.len());
            assert(goal.len() == count);
            let mut i: usize = 0;
            assert(before + goal.take(0) =~= before);
            while i < count
                invariant
                    0 <= i <= count <= errors@.len(),
                    goal.len() == count,
                    forall|k: int|
                        0 <= k < count ==> #[trigger] goal[k] == seq![
                            tinted(errors@[k]@, Colour::Red),
                        ],
                    line_views(lines@) =~= before + goal.take(i as int),
                decreases count - i,
            {
                let mut line = Line::new();
                line.tinted(errors[i].as_str(), Colour::Red);
                proof {
                    assert(line@ =~= goal[i as int]);
                    lemma_line_views_push(lines@, line);
                }
                lines.push(line);
                i = i + 1;
            }
            assert(goal.take(goal.len() as int) =~= goal);
        },
        _ => {
            assert(artifact_views(project.artifacts@).len() == project.artifacts@.len());
            if project.artifacts.len() == 0 {
                let mut line = Line::new();
                line.tinted(
                    if project.resolved {
                        "nothing to remove"
                    } else {
                        "resolving artifacts\u{2026}"
                    },
                    Colour::DarkGray,
                );
                proof {
                    assert(line@ =~= content_lines(p)[0]);
                    lemma_line_views_push(lines@, line);
                }
                lines.push(line);
                assert(line_views(lines@) =~= before + content_lines(p));
            } else {
                let ghost goal = at_most(p.artifacts, 4).map_values(
                    |a: ArtifactFact| artifact_spans(a, p.root),
                );
                let count = if project.artifacts.len() < 4 {
                    project.artifacts.len()
                } else {
                    4
                };
                let mut i: usize = 0;
                assert(before + goal.take(0) =~= before);
                while i < count
                    invariant
                        0 <= i <= count <= project.artifacts@.len(),
                        goal.len() == count,
                        p == project@,
                        forall|k: int|
                            0 <= k < count ==> #[trigger] goal[k] == artifact_spans(
                                project.artifacts@[k]@,
                                p.root,
                            ),
                        line_views(lines@) =~= before + goal.take(i as int),
                    decreases count - i,
                {
                    let line = artifact_line(&project.artifacts[i], &project.root);
                    proof {
                        assert(line@ == goal[i as int]);
                        lemma_line_views_push(lines@, line);
                    }
                    lines.push(line);
                    i = i + 1;
                }
                assert(goal.take(goal.len() as int) =~= goal);
                add_more(lines, project.artifacts.len(), 4);
                assert(line_views(lines@) =~= before + content_lines(p));
            }
        },
    }
}

/// The details of the selected project at the time `now`, in `width` columns.
pub fn draw_details(app: &App, width: usize, now: Timestamp, home: &Option<FsPath>) -> (r: Vec<Line>)
    ensures
        line_views(r@) == details(app@, width as int, now@, opt_path(*home)),
{
    let ghost goal = details(app@, width as int, now@, opt_path(*home));
    let mut lines: Vec<Line> = Vec::new();
    match app.selected() {
        None => {
            let mut line = Line::new();
            line.tinted("Select a project to see what would be removed.", Colour::DarkGray);
            assert(line@ =~= goal[0]);
            lines.push(line);
            assert(line_views(lines@) =~= goal);
        },
        Some(project) => {
            let first = headline(project, width.saturating_sub(2), home);
            let second = facts_line(project, now);
            let ghost top = seq![first@, second@];
            lines.push(first);
            lines.push(second);
            assert(line_views(lines@) =~= top);
            add_content(&mut lines, project);
        },
    }
    lines
}

/// The last line of the screen.
pub open spec fn footer(st: AppFact) -> Seq<SpanFact> {
    match st.mode {
        ModeFact::Search { input } => seq![
            vivid("find "@, Colour::Cyan),
            plain(input),
            tinted("\u{2588}"@, Colour::Cyan),
            tinted("   enter to keep \u{b7} esc to clear"@, Colour::DarkGray),
        ],
        _ => match st.status {
            Some((message, _)) => seq![tinted(message, Colour::Cyan)],
            None => seq![tinted(KEYS@, Colour::DarkGray)],
        },
    }
}

/// The last line of the screen.
pub fn draw_footer(app: &App) -> (r: Line)
    ensures
        r@ == footer(app@),
{
    let mut line = Line::new();
    match &app.mode {
        Mode::Search { input } => {
            line.vivid("find ", Colour::Cyan);
            line.plain(input.as_str());
            line.tinted("\u{2588}", Colour::Cyan);
            line.tinted("   enter to keep \u{b7} esc to clear", Colour::DarkGray);
        },
        _ => match &app.status {
            Some((message, _)) => line.tinted(message.as_str(), Colour::Cyan),
            None => line.tinted(KEYS, Colour::DarkGray),
        },
    }
    assert(line@ =~= footer(app@));
    line
}

/// One line of the help: keys and what they do.
pub open spec fn help_line(keys: Seq<char>, what: Seq<char>) -> Seq<SpanFact> {
    seq![tinted(padded_right(keys, 20), Colour::Cyan), plain(what)]
}

/// The help.
pub open spec fn help() -> Seq<Seq<SpanFact>> {
    seq![
        seq![
            tinted("Only paths git reports as ignored are ever deleted."@, Colour::DarkGray),
        ],
        seq![plain(""@)],
        help_line("j / k, \u{2193} / \u{2191}"@, "move"@),
        help_line("g / G, PgUp / PgDn"@, "jump"@),
        help_line("space"@, "mark or unmark the project"@),
        help_line("a / A"@, "mark everything visible / clear marks"@),
        help_line("c or enter"@, "clean the marked projects (or the selected one)"@),
        help_line("o / O"@, "raise or lower the idle threshold"@),
        help_line("s"@, "change the sort order"@),
        help_line("/"@, "filter by path or type"@),
        help_line("v"@, "show projects with nothing to reclaim as well"@),
        help_line("r"@, "rescan from scratch"@),
        help_line("q, esc"@, "quit"@),
        seq![plain(""@)],
        seq![tinted("any key to close"@, Colour::DarkGray)],
    ]
}

fn add_help(lines: &mut Vec<Line>, keys: &str, what: &str)
    ensures
        line_views(final(lines)@) == line_views(old(lines)@).push(help_line(keys@, what@)),
{
    let mut line = Line::new();
    line.tinted(pad_right(keys, 20).as_str(), Colour::Cyan);
    line.plain(what);
    proof {
        assert(line@ =~= help_line(keys@, what@));
        lemma_line_views_push(lines@, line);
    }
    lines.push(line);
}

fn add_note(lines: &mut Vec<Line>, text: &str)
    ensures
        line_views(final(lines)@) == line_views(old(lines)@).push(
            seq![tinted(text@, Colour::DarkGray)],
        ),
{
    let mut line = Line::new();
    line.tinted(text, Colour::DarkGray);
    proof {
        assert(line@ =~= seq![tinted(text@, Colour::DarkGray)]);
        lemma_line_views_push(lines@, line);
    }
    lines.push(line);
}

fn add_gap(lines: &mut Vec<Line>)
    ensures
        line_views(final(lines)@) == line_views(old(lines)@).push(seq![plain(""@)]),
{
    let mut line = Line::new();
    line.plain("");
    proof {
        assert(line@ =~= seq![plain(""@)]);
        lemma_line_views_push(lines@, line);
    }
    lines.push(line);
}

/// The help.
pub fn draw_help() -> (r: Vec<Line>)
    ensures
        line_views(r@) == help(),
{
    let mut lines: Vec<Line> = Vec::new();
    assert(line_views(lines@) =~= seq![]);
    add_note(&mut lines, "Only paths git reports as ignored are ever deleted.");
    add_gap(&mut lines);
    add_help(&mut lines, "j / k, \u{2193} / \u{2191}", "move");
    add_help(&mut lines, "g / G, PgUp / PgDn", "jump");
    add_help(&mut lines, "space", "mark or unmark the project");
    add_help(&mut lines, "a / A", "mark everything visible / clear marks");
    add_help(&mut lines, "c or enter", "clean the marked projects (or the selected one)");
    add_help(&mut lines, "o / O", "raise or lower the idle threshold");
    add_help(&mut lines, "s", "change the sort order");
    add_help(&mut lines, "/", "filter by path or type");
    add_help(&mut lines, "v", "show projects with nothing to reclaim as well");
    add_help(&mut lines, "r", "rescan from scratch");
    add_help(&mut lines, "q, esc", "quit");
    add_gap(&mut lines);
    add_note(&mut lines, "any key to close");
    assert(line_views(lines@) =~= help());
    lines
}

/// What is about to be deleted.
pub open spec fn confirm_line(count: nat, total: nat) -> Seq<SpanFact> {
    seq![
        plain("Delete artifacts of "@),
        strong(digits(count) + " project(s)"@),
        plain(", freeing about "@),
        vivid(size_text(total), Colour::Yellow),
        plain("."@),
    ]
}

/// The line of a project that is about to be cleaned.
pub open spec fn target_spans(p: ProjectFact, inner: int, home: Option<Seq<Seq<u8>>>) -> Seq<SpanFact> {
    seq![
        tinted(padded_left(size_text(p.size()), 10) + "  "@, Colour::Yellow),
        plain(ellipsized(tilde_text(p.root, home), less(inner, 12))),
    ]
}

/// How many of the projects could not be verified against git.
pub open spec fn unverified(projects: Seq<ProjectFact>) -> nat
    decreases projects.len(),
{
    if projects.len() == 0 {
        0
    } else {
        unverified(projects.drop_last()) + if projects.last().git != GitStatus::Ignored {
            1nat
        } else {
            0nat
        }
    }
}

/// A warning where git could not be asked.
pub open spec fn warning(count: nat) -> Seq<Seq<SpanFact>> {
    if count == 0 {
        seq![]
    } else {
        seq![
            seq![plain(""@)],
            seq![
                vivid(
                    digits(count) + " of them could not be verified against git."@,
                    Colour::Red,
                ),
            ],
        ]
    }
}

/// What can be answered.
pub open spec fn answers_line() -> Seq<SpanFact> {
    seq![
        vivid("y"@, Colour::Green),
        plain(" delete    "@),
        tinted("any other key"@, Colour::Cyan),
        plain(" cancel"@),
    ]
}

/// The question before a deletion, on a screen of `width` columns. Paths are
/// shortened to the inner width of the box so that nothing wraps.
pub open spec fn confirmation(
    st: AppFact,
    targets: Seq<ProjectId>,
    total: nat,
    width: int,
    home: Option<Seq<Seq<u8>>>,
) -> Seq<Seq<SpanFact>> {
    let inner = less(if width < CONFIRM_WIDTH {
        width
    } else {
        CONFIRM_WIDTH as int
    }, 2);
    seq![confirm_line(targets.len(), total), seq![plain(""@)]] + known(
        st.store,
        at_most(targets, 6),
    ).map_values(|p: ProjectFact| target_spans(p, inner, home)) + more_line(targets.len(), 6)
        + warning(unverified(known(st.store, targets))) + seq![seq![plain(""@)], answers_line()]
}

fn count_unverified(app: &App, targets: &Vec<ProjectId>) -> (r: usize)
    ensures
        r == unverified(known(app@.store, targets@)),
{
    let mut count: usize = 0;
    let mut i: usize = 0;
    assert(targets@.take(0) =~= seq![]);
    while i < targets.len()
        invariant
            0 <= i <= targets.len(),
            count <= i,
            count == unverified(known(app@.store, targets@.take(i as int))),
        decreases targets.len() - i,
    {
        assert(targets@.take(i + 1).drop_last() =~= targets@.take(i as int));
        assert(targets@.take(i + 1).last() == targets@[i as int]);
        let ghost before = known(app@.store, targets@.take(i as int));
        if let Some(project) = app.store.get(targets[i]) {
            assert(before.push(project@).drop_last() =~= before);
            if project.git.is_unverified() {
                count = count + 1;
            }
        }
        i = i + 1;
    }
    assert(targets@.take(targets@.len() as int) =~= targets@);
    count
}

/// Every known target can be measured up.
pub open spec fn targets_measurable(st: AppFact, targets: Seq<ProjectId>) -> bool {
    forall|i: int|
        0 <= i < targets.len() && #[trigger] st.store.knows(targets[i])
            ==> st.store.projects[targets[i] as int].size() <= u64::MAX
}

/// Whether everything that is shown can be told, for a valid state.
pub fn can_draw(app: &App) -> (r: bool)
    requires
        app@.is_valid(),
    ensures
        r == can_be_drawn(app@),
{
    if !app.fits() {
        return false;
    }
    match &app.mode {
        Mode::Confirm { targets, .. } => can_confirm(app, targets),
        _ => true,
    }
}

/// Whether every known target can be measured up.
pub fn can_confirm(app: &App, targets: &Vec<ProjectId>) -> (r: bool)
    ensures
        r == targets_measurable(app@, targets@),
{
    let mut i: usize = 0;
    while i < targets.len()
        invariant
            0 <= i <= targets.len(),
            forall|k: int|
                0 <= k < i && #[trigger] app@.store.knows(targets@[k])
                    ==> app@.store.projects[targets@[k] as int].size() <= u64::MAX,
        decreases targets.len() - i,
    {
        if let Some(project) = app.store.get(targets[i]) {
            if project.checked_size().is_none() {
                assert(app@.store.knows(targets@[i as int]));
                return false;
            }
        }
        i = i + 1;
    }
    true
}

/// The question before a deletion, on a screen of `width` columns.
pub fn draw_confirm(
    app: &App,
    targets: &Vec<ProjectId>,
    total: u64,
    width: usize,
    home: &Option<FsPath>,
) -> (r: Vec<Line>)
    requires
        targets_measurable(app@, targets@),
    ensures
        line_views(r@) == confirmation(app@, targets@, total as nat, width as int, opt_path(*home)),
{
    let ghost st = app@;
    let ghost place = opt_path(*home);
    let outer = if width < CONFIRM_WIDTH {
        width
    } else {
        CONFIRM_WIDTH
    };
    let inner = outer.saturating_sub(2);
    let mut first = Line::new();
    first.plain("Delete artifacts of ");
    let mut count = decimal(targets.len() as u64);
    count.append(" project(s)");
    first.strong(count.as_str());
    first.plain(", freeing about ");
    first.vivid(bytes(total).as_str(), Colour::Yellow);
    first.plain(".");
    let ghost top = seq![confirm_line(targets@.len(), total as nat), seq![plain(""@)]];
    let mut lines: Vec<Line> = Vec::new();
    assert(line_views(lines@) =~= seq![]);
    proof {
        assert(first@ =~= confirm_line(targets@.len(), total as nat));
        lemma_line_views_push(lines@, first);
    }
    lines.push(first);
    add_gap(&mut lines);
    assert(line_views(lines@) =~= top);
    let ghost some = at_most(targets@, 6);
    let ghost draw = |p: ProjectFact| target_spans(p, inner as int, place);
    let shown = if targets.len() < 6 {
        targets.len()
    } else {
        6
    };
    let mut i: usize = 0;
    assert(some.take(0) =~= seq![]);
    assert(top + known(st.store, some.take(0)).map_values(draw) =~= top);
    while i < shown
        invariant
            0 <= i <= shown <= targets@.len(),
            some.len() == shown,
            st == app@,
            place == opt_path(*home),
            draw == (|p: ProjectFact| target_spans(p, inner as int, place)),
            forall|k: int| 0 <= k < shown ==> #[trigger] some[k] == targets@[k],
            targets_measurable(st, targets@),
            line_views(lines@) == top + known(st.store, some.take(i as int)).map_values(draw),
        decreases shown - i,
    {
        let ghost before = known(st.store, some.take(i as int));
        assert(some.take(i + 1).drop_last() =~= some.take(i as int));
        assert(some.take(i + 1).last() == targets@[i as int]);
        assert(some[i as int] == targets@[i as int]);
        if let Some(project) = app.store.get(targets[i]) {
            assert(st.store.knows(targets@[i as int]));
            let mut size = pad_left(bytes(project.size()).as_str(), 10);
            size.append("  ");
            let path = tilde_from(&project.root, home);
            let mut line = Line::new();
            line.tinted(size.as_str(), Colour::Yellow);
            line.plain(ellipsize_start(path.as_str(), inner.saturating_sub(12)).as_str());
            proof {
                assert(line@ =~= target_spans(project@, inner as int, place));
                lemma_line_views_push(lines@, line);
                assert(before.push(project@).map_values(draw) =~= before.map_values(draw).push(
                    line@,
                ));
                assert((top + before.map_values(draw)).push(line@) =~= top + before.map_values(
                    draw,
                ).push(line@));
            }
            lines.push(line);
        }
        i = i + 1;
    }
    assert(some.take(some.len() as int) =~= some);
    add_more(&mut lines, targets.len(), 6);
    let unsure = count_unverified(app, targets);
    let ghost so_far = line_views(lines@);
    if unsure > 0 {
        add_gap(&mut lines);
        let mut text = decimal(unsure as u64);
        text.append(" of them could not be verified against git.");
        let mut line = Line::new();
        line.vivid(text.as_str(), Colour::Red);
        proof {
            lemma_line_views_push(lines@, line);
            assert(line@ =~= warning(unsure as nat)[1]);
        }
        lines.push(line);
    }
    assert(line_views(lines@) =~= so_far + warning(unsure as nat));
    add_gap(&mut lines);
    let mut last = Line::new();
    last.vivid("y", Colour::Green);
    last.plain(" delete    ");
    last.tinted("any other key", Colour::Cyan);
    last.plain(" cancel");
    proof {
        assert(last@ =~= answers_line());
        lemma_line_views_push(lines@, last);
    }
    lines.push(last);
    assert(line_views(lines@) =~= confirmation(
        st,
        targets@,
        total as nat,
        width as int,
        place,
    ));
    lines
}

/// A box in front of everything else.
#[derive(Debug, PartialEq, Eq)]
pub struct Overlay {
    pub title: &'static str,
    pub border: Colour,
    pub width: usize,
    pub lines: Vec<Line>,
}

/// What an [`Overlay`] says.
pub struct OverlayFact {
    pub title: Seq<char>,
    pub border: Colour,
    pub width: usize,
    pub lines: Seq<Seq<SpanFact>>,
}

impl View for Overlay {
    type V = OverlayFact;

    open spec fn view(&self) -> OverlayFact {
        OverlayFact {
            title: self.title@,
            border: self.border,
            width: self.width,
            lines: line_views(self.lines@),
        }
    }
}

/// The whole screen.
#[derive(Debug, PartialEq, Eq)]
pub struct Screen {
    pub header: Vec<Line>,
    pub table_title: &'static str,
    pub rows: Vec<Row>,
    pub selected: Option<usize>,
    pub details: Vec<Line>,
    pub footer: Line,
    pub overlay: Option<Overlay>,
}

/// What a [`Screen`] says.
pub struct ScreenFact {
    pub header: Seq<Seq<SpanFact>>,
    pub table_title: Seq<char>,
    pub rows: Seq<RowFact>,
    pub selected: Option<usize>,
    pub details: Seq<Seq<SpanFact>>,
    pub footer: Seq<SpanFact>,
    pub overlay: Option<OverlayFact>,
}

impl View for Screen {
    type V = ScreenFact;

    open spec fn view(&self) -> ScreenFact {
        ScreenFact {
            header: line_views(self.header@),
            table_title: self.table_title@,
            rows: row_views(self.rows@),
            selected: self.selected,
            details: line_views(self.details@),
            footer: self.footer@,
            overlay: match self.overlay {
                Some(o) => Some(o@),
                None => None,
            },
        }
    }
}

/// The title of the header.
pub const HEADER_TITLE: &'static str = " rusty-broom ";

/// The title of the details.
pub const DETAILS_TITLE: &'static str = " details ";

/// The title of the help.
pub const HELP_TITLE: &'static str = " keys ";

/// The title of the question before a deletion.
pub const CONFIRM_TITLE: &'static str = " confirm ";

/// The width of the help.
pub const HELP_WIDTH: usize = 68;

/// The box in front of everything else: the help, or the question before a
/// deletion.
pub open spec fn overlay_of(st: AppFact, width: int, home: Option<Seq<Seq<u8>>>) -> Option<
    OverlayFact,
> {
    match st.mode {
        ModeFact::Help => Some(
            OverlayFact {
                title: HELP_TITLE@,
                border: Colour::Cyan,
                width: HELP_WIDTH,
                lines: help(),
            },
        ),
        ModeFact::Confirm { targets, bytes } => Some(
            OverlayFact {
                title: CONFIRM_TITLE@,
                border: Colour::Red,
                width: CONFIRM_WIDTH,
                lines: confirmation(st, targets, bytes as nat, width, home),
            },
        ),
        _ => None,
    }
}

/// Everything that is shown can be told.
pub open spec fn can_be_drawn(st: AppFact) -> bool {
    &&& st.is_valid()
    &&& st.fits()
    &&& st.mode matches ModeFact::Confirm { targets, .. } ==> targets_measurable(st, targets)
}

/// The screen of `width` columns, at the time `now`.
pub open spec fn screen(st: AppFact, width: int, now: int, home: Option<Seq<Seq<u8>>>) -> ScreenFact {
    ScreenFact {
        header: header(st, width, home),
        table_title: if st.view.len() > 0 {
            " projects "@
        } else if st.store.scanning {
            " searching\u{2026} "@
        } else {
            " nothing matches the current filter "@
        },
        rows: rows(st, now),
        selected: st.selected,
        details: details(st, width, now, home),
        footer: footer(st),
        overlay: overlay_of(st, width, home),
    }
}

/// The screen of `width` columns, at the time `now`, with `home` as the home
/// directory.
pub fn draw_at(app: &App, width: usize, now: Timestamp, home: &Option<FsPath>) -> (r: Screen)
    requires
        can_be_drawn(app@),
    ensures
        r@ == screen(app@, width as int, now@, opt_path(*home)),
{
    let overlay = match &app.mode {
        Mode::Help => Some(
            Overlay {
                title: HELP_TITLE,
                border: Colour::Cyan,
                width: HELP_WIDTH,
                lines: draw_help(),
            },
        ),
        Mode::Confirm { targets, bytes } => Some(
            Overlay {
                title: CONFIRM_TITLE,
                border: Colour::Red,
                width: CONFIRM_WIDTH,
                lines: draw_confirm(app, targets, *bytes, width, home),
            },
        ),
        _ => None,
    };
    Screen {
        header: draw_header(app, width, home),
        table_title: table_title(app),
        rows: build_rows(app, now),
        selected: app.selected,
        details: draw_details(app, width, now, home),
        footer: draw_footer(app),
        overlay,
    }
}

/// The screen of `width` columns, at the moment of the call.
pub fn draw(app: &App, width: usize) -> (r: Screen)
    requires
        can_be_drawn(app@),
    ensures
        exists|now: int, home: Option<Seq<Seq<u8>>>|
            r@ == #[trigger] screen(app@, width as int, now, home),
{
    draw_at(app, width, now(), &home_dir())
}

/// Nothing but a confirmation puts the question on screen, and it names as many
/// projects as would be cleaned.
pub proof fn law_question_is_shown(st: AppFact, width: int, now: int, home: Option<Seq<Seq<u8>>>)
    ensures
        st.mode is Confirm <==> screen(st, width, now, home).overlay is Some && screen(
            st,
            width,
            now,
            home,
        ).overlay->Some_0.title == CONFIRM_TITLE@,
        st.mode matches ModeFact::Confirm { targets, bytes } ==> screen(
            st,
            width,
            now,
            home,
        ).overlay->Some_0.lines[0] == confirm_line(targets.len(), bytes as nat),
{
    reveal_strlit(" keys ");
    reveal_strlit(" confirm ");
    assert(HELP_TITLE@.len() == 6 && CONFIRM_TITLE@.len() == 9);
}

/// What the size column says: the size, with a tilde before it while it is still being
/// measured; or, once a cleaning has begun, how that stands.
pub proof fn law_sizes_are_hinted(p: ProjectFact)
    ensures
        p.state == StateFact::Idle && p.is_measured() ==> size_span(p).text == size_text(p.size()),
        p.state == StateFact::Idle && !p.is_measured() ==> size_span(p).text == "~"@ + size_text(
            p.size(),
        ),
        p.state == StateFact::Running ==> size_span(p).text == "cleaning"@,
        p.state matches StateFact::Done { freed } ==> size_span(p).text == "-"@ + size_text(
            freed as nat,
        ),
        p.state is Failed ==> size_span(p).text == "failed"@,
{
}

/// Every project shown has a row: its mark, its types, its size, its age, what git had
/// to say, and its path in two parts.
pub proof fn law_rows_show_projects(st: AppFact, now: int, i: int)
    requires
        0 <= i < st.visible().len(),
    ensures
        ({
            let p = st.visible()[i];
            let row = rows(st, now)[i];
            &&& rows(st, now).len() == st.visible().len()
            &&& row.cells.len() == 6
            &&& row.bold == st.marked.contains(p.id)
            &&& row.cells[0].len() == 1 && (row.cells[0][0].text == "\u{2713}"@
                <==> st.marked.contains(p.id))
            &&& row.cells[1].len() == 1 && row.cells[1][0].text == p.type_label()
            &&& row.cells[2].len() == 1 && row.cells[2][0] == size_span(p)
            &&& row.cells[3].len() == 1 && row.cells[3][0].text == p.age_label(now)
            &&& row.cells[4].len() == 1 && row.cells[4][0].text == (match p.git {
                GitStatus::Ignored => "git-ignored"@,
                GitStatus::NoRepo => "no-git"@,
                GitStatus::Disabled => "unchecked"@,
                GitStatus::Unavailable => "git-error"@,
                GitStatus::Pending => "\u{2026}"@,
            })
            &&& row.cells[5].len() == 2 && row.cells[5][0].text + row.cells[5][1].text
                == p.display_path()
        }),
{
    reveal_strlit("\u{2713}");
    reveal_strlit(" ");
    let p = st.visible()[i];
    let text = p.display_path();
    lemma_name_start(text);
    assert(text.take(name_start(text)) + text.skip(name_start(text)) =~= text);
    assert(" "@[0] == ' ' && "\u{2713}"@[0] == '\u{2713}');
}

proof fn lemma_name_start(text: Seq<char>)
    ensures
        0 <= name_start(text) <= text.len(),
    decreases text.len(),
{
    if text.len() > 0 {
        lemma_name_start(text.drop_last());
    }
}

/// The question names up to six of the projects that would be cleaned, with size and
/// path, says how many more there are, and warns of those that git could not vouch for.
pub proof fn law_question_names_targets(
    st: AppFact,
    targets: Seq<ProjectId>,
    total: nat,
    width: int,
    home: Option<Seq<Seq<u8>>>,
    i: int,
)
    requires
        forall|k: int| 0 <= k < targets.len() ==> st.store.knows(#[trigger] targets[k]),
        0 <= i < targets.len(),
        i < 6,
    ensures
        ({
            let lines = confirmation(st, targets, total, width, home);
            let p = st.store.projects[targets[i] as int];
            &&& lines.len() >= i + 3
            &&& lines[0].len() == 5 && lines[0][1].text == digits(targets.len()) + " project(s)"@
                && lines[0][3].text == size_text(total)
            &&& lines[i + 2].len() == 2
            &&& lines[i + 2][0].text == padded_left(size_text(p.size()), 10) + "  "@
            &&& lines[i + 2][1].text == ellipsized(
                tilde_text(p.root, home),
                less(
                    less(
                        if width < 76 {
                            width
                        } else {
                            76
                        },
                        2,
                    ),
                    12,
                ),
            )
            &&& targets.len() > 6 ==> lines[8].len() == 1 && lines[8][0].text == "\u{2026} and "@
                + digits((targets.len() - 6) as nat) + " more"@
            &&& lines.last().len() == 4 && lines.last()[0].text == "y"@ && lines.last()[2].text
                == "any other key"@
        }),
{
    let few = at_most(targets, 6);
    assert forall|k: int| 0 <= k < few.len() implies st.store.knows(#[trigger] few[k]) by {
        assert(few[k] == targets[k]);
    }
    lemma_all_known(st.store, few);
    assert(few[i] == targets[i]);
    let shown = known(st.store, few);
    assert(shown.len() == few.len() && shown[i] == st.store.projects[targets[i] as int]);
}

proof fn lemma_all_known(store: StoreFact, ids: Seq<ProjectId>)
    requires
        forall|k: int| 0 <= k < ids.len() ==> store.knows(#[trigger] ids[k]),
    ensures
        known(store, ids).len() == ids.len(),
        forall|k: int| 0 <= k < ids.len() ==> known(store, ids)[k] == store.projects[(#[trigger] ids[k]) as int],
    decreases ids.len(),
{
    if ids.len() > 0 {
        let init = ids.drop_last();
        assert forall|k: int| 0 <= k < init.len() implies store.knows(#[trigger] init[k]) by {
            assert(init[k] == ids[k]);
        }
        lemma_all_known(store, init);
        assert(store.knows(ids[ids.len() - 1]));
        assert forall|k: int| 0 <= k < ids.len() implies known(store, ids)[k]
            == store.projects[(#[trigger] ids[k]) as int] by {
            if k < init.len() {
                assert(init[k] == ids[k]);
            }
        }
    }
}

/// Of the projects that would be cleaned, each counts as unverified that git has not
/// confirmed.
pub proof fn law_unverified_are_counted(projects: Seq<ProjectFact>, p: ProjectFact)
    ensures
        unverified(projects.push(p)) == unverified(projects) + if p.git == GitStatus::Ignored {
            0nat
        } else {
            1nat
        },
        unverified(seq![]) == 0,
        warning(unverified(projects.push(p))).len() == if unverified(projects.push(p)) == 0 {
            0nat
        } else {
            2nat
        },
        unverified(projects) > 0 ==> warning(unverified(projects))[1][0].text == digits(
            unverified(projects),
        ) + " of them could not be verified against git."@,
{
    assert(projects.push(p).drop_last() =~= projects);
}

/// The details of a project show up to four of its artifacts, with size, path and
/// pattern, and say how many more there are; where a cleaning failed, up to three errors.
pub proof fn law_details_show_artifacts(p: ProjectFact, i: int)
    ensures
        !(p.state is Failed) && 0 <= i < p.artifacts.len() && i < 4 ==> content_lines(p).len() > i
            && content_lines(p)[i].len() == 3 && content_lines(p)[i][1].text
            == p.artifacts[i].path.relative_to(p.root).shown() && content_lines(p)[i][2].text
            == "   ("@ + p.artifacts[i].pattern + ")"@,
        !(p.state is Failed) && p.artifacts.len() > 4 ==> content_lines(p).len() == 5
            && content_lines(p)[4][0].text == "\u{2026} and "@ + digits(
            (p.artifacts.len() - 4) as nat,
        ) + " more"@,
        !(p.state is Failed) && p.artifacts.len() == 0 ==> content_lines(p).len() == 1
            && content_lines(p)[0][0].text == if p.resolved {
            "nothing to remove"@
        } else {
            "resolving artifacts\u{2026}"@
        },
        p.state matches StateFact::Failed { errors } ==> (0 <= i < errors.len() && i < 3
            ==> content_lines(p).len() > i && content_lines(p)[i][0].text == errors[i]),
{
}

/// A path is shortened from its start: its end stays, behind an ellipsis.
pub proof fn law_shortened_paths_keep_their_end(text: Seq<char>, max: int)
    requires
        max > 0,
    ensures
        text.len() <= max ==> ellipsized(text, max) == text,
        text.len() > max ==> ellipsized(text, max).len() == max && ellipsized(text, max)[0]
            == '\u{2026}' && ellipsized(text, max).skip(1) == text.skip(text.len() - max + 1),
{
    reveal_strlit("\u{2026}");
    if text.len() > max {
        assert(ellipsized(text, max).skip(1) =~= text.skip(text.len() - max + 1));
    }
}

/// What the header says: how the scan stands, the threshold and the order in use, how
/// many projects are shown of how many, what they hold together, what is marked and what
/// was freed.
pub proof fn law_header_tells_the_state(st: AppFact, width: int, home: Option<Seq<Seq<u8>>>)
    ensures
        ({
            let lines = header(st, width, home);
            let (first, second) = (lines[0], lines[1]);
            &&& lines.len() == 2
            &&& first[1].text == ellipsized(roots_text(st.roots, home), less(width, 30))
            &&& st.store.scanning ==> first[3].text == "scanning\u{2026} "@ + digits(
                st.store.dirs_scanned as nat,
            ) + " dirs"@
            &&& !st.store.scanning ==> first[3].text == digits(st.store.dirs_scanned as nat)
                + " dirs scanned"@
            &&& second[1].text == st.ages[st.age_index as int].0
            &&& second[4].text == st.sort.label_text()
            &&& second[6].text == digits(st.view.len()) + "/"@ + digits(st.store.all().len())
                + " projects"@
            &&& second[8].text == size_text(total_size(st.visible())) + " reclaimable"@
            &&& !st.marked.is_empty() ==> second[10].text == digits(st.marked.len()) + " marked ("@
                + size_text(st.marked_bytes()) + ")"@
            &&& st.marked.is_empty() && st.store.freed > 0 ==> second[10].text == "freed "@
                + size_text(st.store.freed)
            &&& !st.marked.is_empty() && st.store.freed > 0 ==> second[12].text == "freed "@
                + size_text(st.store.freed)
        }),
{
}

} // verus!
