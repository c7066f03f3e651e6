//! Non-interactive output, as the text to be printed.

use vstd::prelude::*;

use crate::cli::sizes_fit;
use crate::clock::{now, Timestamp};
use crate::config::{type_views, Config, TypeFact};
use crate::fmt::{bytes, maybe_bytes, maybe_size_text, size_text};
use crate::humantime::{counted, plural};
use crate::path::{FsPath, PathFact};
use crate::places::home_dir;
use crate::project::{
    artifact_views, opt_path, project_views, sum_files, sum_sizes, tilde_from, tilde_text,
    total_files, total_size, totals_fit, Artifact, ArtifactFact, GitStatus, Project, ProjectFact,
};
use crate::store::{Store, StoreFact};
use crate::text::{
    char_count, chars_of, decimal, digits, join, joined, pad_left, pad_right, padded_left,
    padded_right, string_of_range,
};

verus! {

/// At most `width` characters of the text, the last of them an ellipsis where
/// something was cut off.
pub open spec fn truncated(text: Seq<char>, width: int) -> Seq<char> {
    if text.len() <= width {
        text
    } else {
        text.take(if width < 1 {
            0
        } else {
            width - 1
        }) + "\u{2026}"@
    }
}

pub(crate) fn truncate(text: &str, width: usize) -> (r: String)
    ensures
        r@ == truncated(text@, width as int),
{
    let chars = chars_of(text);
    if chars.len() <= width {
        return text.to_owned();
    }
    let keep = width.saturating_sub(1);
    let mut out = string_of_range(&chars, 0, keep);
    assert(chars@.subrange(0, keep as int) =~= text@.take(keep as int));
    out.append("\u{2026}");
    out
}

/// The longest type label, but at least `TYPE` and at most twenty characters.
pub open spec fn type_width(projects: Seq<ProjectFact>) -> int {
    let widest = widest_type(projects);
    if widest > 20 {
        20
    } else {
        widest
    }
}

/// The length of the longest type label, at least that of `TYPE`.
pub open spec fn widest_type(projects: Seq<ProjectFact>) -> int
    decreases projects.len(),
{
    if projects.len() == 0 {
        4
    } else {
        let before = widest_type(projects.drop_last());
        let length = projects.last().type_label().len() as int;
        if length > before {
            length
        } else {
            before
        }
    }
}

/// The length of the longest age label, at least three characters.
pub open spec fn age_width(projects: Seq<ProjectFact>, now: int) -> int
    decreases projects.len(),
{
    if projects.len() == 0 {
        3
    } else {
        let before = age_width(projects.drop_last(), now);
        let length = projects.last().age_label(now).len() as int;
        if length > before {
            length
        } else {
            before
        }
    }
}

/// The line with the column titles.
pub open spec fn title_line(types: int, ages: int) -> Seq<char> {
    padded_right("TYPE"@, types) + "  "@ + padded_left("SIZE"@, 9) + "  "@ + padded_right(
        "IDLE"@,
        ages,
    ) + "  PROJECT\n"@
}

/// A note on projects whose artifacts git did not confirm.
pub open spec fn git_note(git: GitStatus) -> Seq<char> {
    if git == GitStatus::Ignored {
        seq![]
    } else {
        "  ["@ + git.label_text() + "]"@
    }
}

/// The line of a project.
pub open spec fn project_line(
    p: ProjectFact,
    types: int,
    ages: int,
    now: int,
    home: Option<Seq<Seq<u8>>>,
) -> Seq<char> {
    padded_right(truncated(p.type_label(), types), types) + "  "@ + padded_left(
        size_text(p.size()),
        9,
    ) + "  "@ + padded_right(p.age_label(now), ages) + "  "@ + tilde_text(p.root, home) + git_note(
        p.git,
    ) + "\n"@
}

/// The bytes that an artifact occupies, if it was measured.
pub open spec fn artifact_bytes(a: ArtifactFact) -> Option<u64> {
    match a.stat {
        Some(s) => Some(s.bytes as u64),
        None => None,
    }
}

/// The line of an artifact of the project at `root`.
pub open spec fn artifact_line(
    a: ArtifactFact,
    root: PathFact,
    types: int,
    ages: int,
) -> Seq<char> {
    padded_right(""@, types) + "  "@ + padded_left(maybe_size_text(artifact_bytes(a)), 9) + "  "@
        + padded_right(""@, ages) + "    "@ + a.path.relative_to(root).shown() + "\n"@
}

/// The lines of the artifacts of the project at `root`.
pub open spec fn artifact_lines(
    artifacts: Seq<ArtifactFact>,
    root: PathFact,
    types: int,
    ages: int,
) -> Seq<char>
    decreases artifacts.len(),
{
    if artifacts.len() == 0 {
        seq![]
    } else {
        artifact_lines(artifacts.drop_last(), root, types, ages) + artifact_line(
            artifacts.last(),
            root,
            types,
            ages,
        )
    }
}

/// The lines of the projects, each followed by its artifacts if `long`.
pub open spec fn project_lines(
    projects: Seq<ProjectFact>,
    long: bool,
    types: int,
    ages: int,
    now: int,
    home: Option<Seq<Seq<u8>>>,
) -> Seq<char>
    decreases projects.len(),
{
    if projects.len() == 0 {
        seq![]
    } else {
        let p = projects.last();
        project_lines(projects.drop_last(), long, types, ages, now, home) + project_line(
            p,
            types,
            ages,
            now,
            home,
        ) + if long {
            artifact_lines(p.artifacts, p.root, types, ages)
        } else {
            seq![]
        }
    }
}

/// The project table.
pub open spec fn table_text(
    projects: Seq<ProjectFact>,
    long: bool,
    now: int,
    home: Option<Seq<Seq<u8>>>,
) -> Seq<char> {
    if projects.len() == 0 {
        "No matching projects.\n"@
    } else {
        let types = type_width(projects);
        let ages = age_width(projects, now);
        title_line(types, ages) + project_lines(projects, long, types, ages, now, home)
    }
}

fn type_column(projects: &Vec<&Project>) -> (r: usize)
    ensures
        r == type_width(project_views(projects@)),
{
    let ghost all = project_views(projects@);
    let mut widest: usize = 4;
    let mut i: usize = 0;
    assert(all.take(0) =~= seq![]);
    while i < projects.len()
        invariant
            0 <= i <= projects.len(),
            all == project_views(projects@),
            widest == widest_type(all.take(i as int)),
        decreases projects.len() - i,
    {
        assert(all.take(i + 1).drop_last() =~= all.take(i as int));
        assert(all.take(i + 1).last() == projects@[i as int]@);
        let length = char_count(projects[i].type_label().as_str());
        if length > widest {
            widest = length;
        }
        i = i + 1;
    }
    assert(all.take(all.len() as int) =~= all);
    if widest > 20 {
        20
    } else {
        widest
    }
}

fn age_column(projects: &Vec<&Project>, now: Timestamp) -> (r: usize)
    ensures
        r == age_width(project_views(projects@), now@),
{
    let ghost all = project_views(projects@);
    let mut widest: usize = 3;
    let mut i: usize = 0;
    assert(all.take(0) =~= seq![]);
    while i < projects.len()
        invariant
            0 <= i <= projects.len(),
            all == project_views(projects@),
            widest == age_width(all.take(i as int), now@),
        decreases projects.len() - i,
    {
        assert(all.take(i + 1).drop_last() =~= all.take(i as int));
        assert(all.take(i + 1).last() == projects@[i as int]@);
        let length = char_count(projects[i].age_label_at(now).as_str());
        if length > widest {
            widest = length;
        }
        i = i + 1;
    }
    assert(all.take(all.len() as int) =~= all);
    widest
}

/// Bytes of an artifact, if it was measured.
pub(crate) fn measured(artifact: &Artifact) -> (r: Option<u64>)
    ensures
        r == artifact_bytes(artifact@),
{
    match artifact.stat {
        Some(stat) => Some(stat.bytes),
        None => None,
    }
}

fn add_artifacts(out: &mut String, project: &Project, types: usize, ages: usize)
    ensures
        final(out)@ == old(out)@ + artifact_lines(
            project@.artifacts,
            project@.root,
            types as int,
            ages as int,
        ),
{
    let ghost before = out@;
    let ghost all = project@.artifacts;
    let ghost root = project@.root;
    let mut i: usize = 0;
    assert(all.take(0) =~= seq![]);
    assert(before + artifact_lines(all.take(0), root, types as int, ages as int) =~= before);
    while i < project.artifacts.len()
        invariant
            0 <= i <= project.artifacts.len(),
            all == artifact_views(project.artifacts@),
            root == project.root.fact(),
            out@ == before + artifact_lines(all.take(i as int), root, types as int, ages as int),
        decreases project.artifacts.len() - i,
    {
        let artifact = &project.artifacts[i];
        assert(all.take(i + 1).drop_last() =~= all.take(i as int));
        assert(all.take(i + 1).last() == artifact@);
        let mut line = pad_right("", types);
        line.append("  ");
        line.append(pad_left(maybe_bytes(measured(artifact)).as_str(), 9).as_str());
        line.append("  ");
        line.append(pad_right("", ages).as_str());
        line.append("    ");
        line.append(artifact.path.relative_to(&project.root).to_text().as_str());
        line.append("\n");
        assert(line@ == artifact_line(artifact@, root, types as int, ages as int));
        out.append(line.as_str());
        assert(out@ =~= before + (artifact_lines(
            all.take(i as int),
            root,
            types as int,
            ages as int,
        ) + line@));
        i = i + 1;
    }
    assert(all.take(all.len() as int) =~= all);
}

fn line_of(
    project: &Project,
    types: usize,
    ages: usize,
    now: Timestamp,
    home: &Option<FsPath>,
) -> (r: String)
    requires
        project@.fits(),
    ensures
        r@ == project_line(project@, types as int, ages as int, now@, opt_path(*home)),
{
    let label = truncate(project.type_label().as_str(), types);
    let mut out = pad_right(label.as_str(), types);
    out.append("  ");
    out.append(pad_left(bytes(project.size()).as_str(), 9).as_str());
    out.append("  ");
    out.append(pad_right(project.age_label_at(now).as_str(), ages).as_str());
    out.append("  ");
    out.append(tilde_from(&project.root, home).as_str());
    if project.git.is_unverified() {
        let ghost before = out@;
        out.append("  [");
        out.append(project.git.label());
        out.append("]");
        assert(out@ =~= before + git_note(project.git));
    } else {
        assert(out@ =~= out@ + git_note(project.git));
    }
    out.append("\n");
    out
}

/// The project table at the time `now`, with `home` as the home directory.
/// `long` adds one line per artifact path.
pub fn table_at(
    projects: &Vec<&Project>,
    long: bool,
    now: Timestamp,
    home: &Option<FsPath>,
) -> (r: String)
    requires
        sizes_fit(project_views(projects@)),
    ensures
        r@ == table_text(project_views(projects@), long, now@, opt_path(*home)),
{
    let ghost all = project_views(projects@);
    if projects.len() == 0 {
        return "No matching projects.\n".to_owned();
    }
    let types = type_column(projects);
    let ages = age_column(projects, now);
    let mut out = pad_right("TYPE", types);
    out.append("  ");
    out.append(pad_left("SIZE", 9).as_str());
    out.append("  ");
    out.append(pad_right("IDLE", ages).as_str());
    out.append("  PROJECT\n");
    let ghost title = out@;
    let ghost place = opt_path(*home);
    let mut i: usize = 0;
    assert(all.take(0) =~= seq![]);
    assert(title + project_lines(all.take(0), long, types as int, ages as int, now@, place)
        =~= title);
    while i < projects.len()
        invariant
            0 <= i <= projects.len(),
            all == project_views(projects@),
            sizes_fit(all),
            place == opt_path(*home),
            out@ == title + project_lines(
                all.take(i as int),
                long,
                types as int,
                ages as int,
                now@,
                place,
            ),
        decreases projects.len() - i,
    {
        let project = projects[i];
        let ghost sofar = project_lines(
            all.take(i as int),
            long,
            types as int,
            ages as int,
            now@,
            place,
        );
        assert(all.take(i + 1).drop_last() =~= all.take(i as int));
        assert(all.take(i + 1).last() == project@);
        assert(all[i as int] == project@);
        let line = line_of(project, types, ages, now, home);
        out.append(line.as_str());
        if long {
            let ghost before = out@;
            add_artifacts(&mut out, project, types, ages);
            assert(out@ =~= title + (sofar + line@ + artifact_lines(
                project@.artifacts,
                project@.root,
                types as int,
                ages as int,
            )));
        } else {
            assert(out@ =~= title + (sofar + line@ + seq![]));
        }
        i = i + 1;
    }
    assert(all.take(all.len() as int) =~= all);
    out
}

/// The project table. `long` adds one line per artifact path.
pub fn table(projects: &Vec<&Project>, long: bool) -> (r: String)
    requires
        sizes_fit(project_views(projects@)),
    ensures
        exists|now: int, home: Option<Seq<Seq<u8>>>|
            r@ == #[trigger] table_text(project_views(projects@), long, now, home),
{
    table_at(projects, long, now(), &home_dir())
}

/// How many projects could not be verified against git.
pub open spec fn unverified_count(projects: Seq<ProjectFact>) -> nat
    decreases projects.len(),
{
    if projects.len() == 0 {
        0
    } else {
        unverified_count(projects.drop_last()) + if projects.last().git != GitStatus::Ignored
            && projects.last().git != GitStatus::Pending {
            1nat
        } else {
            0nat
        }
    }
}

/// One-line totals plus any caveats worth surfacing.
pub open spec fn summary_text(store: StoreFact, shown: Seq<ProjectFact>) -> Seq<char> {
    let hidden = store.all().len() - shown.len();
    let unverified = unverified_count(shown);
    "\n"@ + counted(shown.len(), "project"@) + " \u{b7} "@ + size_text(total_size(shown))
        + " reclaimable \u{b7} "@ + counted(total_files(shown), "file"@) + if hidden > 0 {
        " \u{b7} "@ + digits(hidden as nat) + " filtered out"@
    } else {
        seq![]
    } + "\n"@ + if store.skipped_paths > 0 {
        counted(store.skipped_paths, "path"@) + " kept because git does not ignore "@ + if store.skipped_paths
            == 1 {
            "it"@
        } else {
            "them"@
        } + ".\n"@
    } else {
        seq![]
    } + if unverified > 0 {
        counted(unverified, "project"@) + " could not be verified against git \u{2014} check "@
            + if unverified == 1 {
            "it"@
        } else {
            "them"@
        } + " before cleaning.\n"@
    } else {
        seq![]
    }
}

fn count_unverified(projects: &Vec<&Project>) -> (r: usize)
    ensures
        r == unverified_count(project_views(projects@)),
{
    let ghost all = project_views(projects@);
    let mut count: usize = 0;
    let mut i: usize = 0;
    assert(all.take(0) =~= seq![]);
    while i < projects.len()
        invariant
            0 <= i <= projects.len(),
            all == project_views(projects@),
            count <= i,
            count == unverified_count(all.take(i as int)),
        decreases projects.len() - i,
    {
        assert(all.take(i + 1).drop_last() =~= all.take(i as int));
        assert(all.take(i + 1).last() == projects@[i as int]@);
        let git = projects[i].git;
        if git.is_unverified() && git != GitStatus::Pending {
            count = count + 1;
        }
        i = i + 1;
    }
    assert(all.take(all.len() as int) =~= all);
    count
}

/// One-line totals plus any caveats worth surfacing.
pub fn summary(store: &Store, shown: &Vec<&Project>) -> (r: String)
    requires
        totals_fit(project_views(shown@)),
        shown@.len() <= store@.all().len(),
    ensures
        r@ == summary_text(store@, project_views(shown@)),
{
    let ghost facts = project_views(shown@);
    let total = sum_sizes(shown);
    let files = sum_files(shown);
    let all = store.all();
    assert(project_views(all@).len() == all@.len() && facts.len() == shown@.len());
    let hidden: usize = all.len() - shown.len();
    let mut out = "\n".to_owned();
    out.append(plural(shown.len() as u64, "project").as_str());
    out.append(" \u{b7} ");
    out.append(bytes(total).as_str());
    out.append(" reclaimable \u{b7} ");
    out.append(plural(files, "file").as_str());
    let ghost head = out@;
    let ghost mut tail: Seq<char> = seq![];
    if hidden > 0 {
        let mut note = " \u{b7} ".to_owned();
        note.append(decimal(hidden as u64).as_str());
        note.append(" filtered out");
        out.append(note.as_str());
        proof {
            tail = note@;
        }
    }
    assert(out@ =~= head + tail);
    out.append("\n");
    let ghost head = out@;
    let ghost mut tail: Seq<char> = seq![];
    if store.skipped_paths > 0 {
        let mut note = plural(store.skipped_paths as u64, "path");
        note.append(" kept because git does not ignore ");
        note.append(if store.skipped_paths == 1 {
            "it"
        } else {
            "them"
        });
        note.append(".\n");
        out.append(note.as_str());
        proof {
            tail = note@;
        }
    }
    assert(out@ =~= head + tail);
    let unverified = count_unverified(shown);
    let ghost head = out@;
    let ghost mut tail: Seq<char> = seq![];
    if unverified > 0 {
        let mut note = plural(unverified as u64, "project");
        note.append(" could not be verified against git \u{2014} check ");
        note.append(if unverified == 1 {
            "it"
        } else {
            "them"
        });
        note.append(" before cleaning.\n");
        out.append(note.as_str());
        proof {
            tail = note@;
        }
    }
    assert(out@ =~= head + tail);
    out
}

/// The totals of the machine-readable report.
#[derive(Debug, Clone, Copy, PartialEq, Eq)]
pub struct Totals {
    pub projects: usize,
    pub bytes: u64,
    pub files: u64,
}

/// The totals of the machine-readable report.
pub fn json_totals(projects: &Vec<&Project>) -> (r: Totals)
    requires
        totals_fit(project_views(projects@)),
    ensures
        r.projects == projects@.len(),
        r.bytes == total_size(project_views(projects@)),
        r.files == total_files(project_views(projects@)),
{
    Totals { projects: projects.len(), bytes: sum_sizes(projects), files: sum_files(projects) }
}

/// The paragraph on one project type.
pub open spec fn type_text(t: TypeFact) -> Seq<char> {
    t.name + if t.enabled {
        ""@
    } else {
        "  (disabled)"@
    } + "\n  markers   "@ + if t.require_all_markers {
        "all of"@
    } else {
        "any of"@
    } + " "@ + joined(t.markers, ", "@) + "\n  artifacts "@ + joined(t.artifacts, ", "@) + "\n\n"@
}

/// The paragraphs on the project types.
pub open spec fn types_text(types: Seq<TypeFact>) -> Seq<char>
    decreases types.len(),
{
    if types.len() == 0 {
        seq![]
    } else {
        types_text(types.drop_last()) + type_text(types.last())
    }
}

/// `rusty-broom types`
pub fn types(config: &Config) -> (r: String)
    ensures
        r@ == types_text(config@.project_types),
{
    let ghost all = config@.project_types;
    let mut out = String::new();
    let mut i: usize = 0;
    assert(all.take(0) =~= seq![]);
    assert(out@ =~= types_text(all.take(0)));
    while i < config.project_types.len()
        invariant
            0 <= i <= config.project_types.len(),
            all == type_views(config.project_types@),
            out@ == types_text(all.take(i as int)),
        decreases config.project_types.len() - i,
    {
        let t = &config.project_types[i];
        assert(all.take(i + 1).drop_last() =~= all.take(i as int));
        assert(all.take(i + 1).last() == t@);
        let mut text = t.name.clone();
        text.append(if t.enabled {
            ""
        } else {
            "  (disabled)"
        });
        text.append("\n  markers   ");
        text.append(if t.require_all_markers {
            "all of"
        } else {
            "any of"
        });
        text.append(" ");
        text.append(join(&t.markers, ", ").as_str());
        text.append("\n  artifacts ");
        text.append(join(&t.artifacts, ", ").as_str());
        text.append("\n\n");
        out.append(text.as_str());
        i = i + 1;
    }
    assert(all.take(all.len() as int) =~= all);
    out
}

/// Every project has its row in the table: its types, its size, its age and its path,
/// and what git had to say unless all was confirmed.
pub proof fn law_each_project_has_a_row(
    projects: Seq<ProjectFact>,
    p: ProjectFact,
    long: bool,
    types: int,
    ages: int,
    now: int,
    home: Option<Seq<Seq<u8>>>,
)
    ensures
        project_lines(projects.push(p), long, types, ages, now, home) == project_lines(
            projects,
            long,
            types,
            ages,
            now,
            home,
        ) + (padded_right(truncated(p.type_label(), types), types) + "  "@ + padded_left(
            size_text(p.size()),
            9,
        ) + "  "@ + padded_right(p.age_label(now), ages) + "  "@ + tilde_text(p.root, home) + (
        match p.git {
            GitStatus::Ignored => seq![],
            GitStatus::NoRepo => "  ["@ + "no-git"@ + "]"@,
            GitStatus::Disabled => "  ["@ + "unchecked"@ + "]"@,
            GitStatus::Unavailable => "  ["@ + "git-error"@ + "]"@,
            GitStatus::Pending => "  ["@ + "\u{2026}"@ + "]"@,
        }) + "\n"@) + if long {
            artifact_lines(p.artifacts, p.root, types, ages)
        } else {
            seq![]
        },
        project_lines(seq![], long, types, ages, now, home).len() == 0,
{
    assert(projects.push(p).drop_last() =~= projects);
}

/// In a long table every artifact has its row below its project: its size, or a dash
/// where it is not measured, and its path from the project.
pub proof fn law_each_artifact_has_a_row(
    artifacts: Seq<ArtifactFact>,
    a: ArtifactFact,
    root: PathFact,
    types: int,
    ages: int,
)
    requires
        a.stat matches Some(s) ==> s.bytes <= u64::MAX,
    ensures
        artifact_lines(artifacts.push(a), root, types, ages) == artifact_lines(
            artifacts,
            root,
            types,
            ages,
        ) + (padded_right(""@, types) + "  "@ + padded_left(
            match a.stat {
                Some(s) => size_text(s.bytes),
                None => "\u{2014}"@,
            },
            9,
        ) + "  "@ + padded_right(""@, ages) + "    "@ + a.path.relative_to(root).shown() + "\n"@),
        artifact_lines(seq![], root, types, ages).len() == 0,
{
    assert(artifacts.push(a).drop_last() =~= artifacts);
}

/// The table is its title and the rows of all its projects, in order; the columns are
/// wide enough for every age, and for every type label up to twenty characters.
pub proof fn law_table_holds_all_rows(
    projects: Seq<ProjectFact>,
    long: bool,
    now: int,
    home: Option<Seq<Seq<u8>>>,
    i: int,
)
    ensures
        projects.len() == 0 ==> table_text(projects, long, now, home) == "No matching projects.\n"@,
        projects.len() > 0 ==> table_text(projects, long, now, home) == padded_right(
            "TYPE"@,
            type_width(projects),
        ) + "  "@ + padded_left("SIZE"@, 9) + "  "@ + padded_right("IDLE"@, age_width(projects, now))
            + "  PROJECT\n"@ + project_lines(
            projects,
            long,
            type_width(projects),
            age_width(projects, now),
            now,
            home,
        ),
        4 <= type_width(projects) <= 20,
        3 <= age_width(projects, now),
        0 <= i < projects.len() ==> (type_width(projects) >= projects[i].type_label().len()
            || type_width(projects) == 20) && age_width(projects, now) >= projects[i].age_label(
            now,
        ).len(),
    decreases projects.len(),
{
    if projects.len() > 0 {
        let init = projects.drop_last();
        law_table_holds_all_rows(init, long, now, home, i);
        if i == projects.len() - 1 {
            assert(projects[i] == projects.last());
        }
    }
}

/// A text is cut to the width, with an ellipsis in the place of what is cut off.
pub proof fn law_cut_texts_fit(text: Seq<char>, width: int)
    requires
        width > 0,
    ensures
        truncated(text, width).len() <= width,
        text.len() <= width ==> truncated(text, width) == text,
        text.len() > width ==> truncated(text, width).len() == width && truncated(text, width).last()
            == '\u{2026}' && truncated(text, width).drop_last() == text.take(width - 1),
{
    reveal_strlit("\u{2026}");
    if text.len() > width {
        assert(truncated(text, width).drop_last() =~= text.take(width - 1));
    }
}

/// The totals count every project shown once.
pub proof fn law_totals_count_every_project(shown: Seq<ProjectFact>, p: ProjectFact)
    ensures
        total_size(shown.push(p)) == total_size(shown) + p.size(),
        total_files(shown.push(p)) == total_files(shown) + p.file_count(),
        unverified_count(shown.push(p)) == unverified_count(shown) + if p.git == GitStatus::NoRepo
            || p.git == GitStatus::Disabled || p.git == GitStatus::Unavailable {
            1nat
        } else {
            0nat
        },
        total_size(seq![]) == 0 && total_files(seq![]) == 0 && unverified_count(seq![]) == 0,
{
    assert(shown.push(p).drop_last() =~= shown);
}

/// What the summary says: how many projects are shown and what they hold, how many were
/// filtered out, how many paths git kept back, and how many projects git could not
/// vouch for.
pub proof fn law_summary_tells_the_totals(store: StoreFact, shown: Seq<ProjectFact>)
    ensures
        ({
            let hidden = store.all().len() - shown.len();
            let first = "\n"@ + (if shown.len() == 1 {
                "1 "@ + "project"@
            } else {
                digits(shown.len()) + " "@ + "project"@ + "s"@
            }) + " \u{b7} "@ + size_text(total_size(shown)) + " reclaimable \u{b7} "@ + (if total_files(
                shown,
            ) == 1 {
                "1 "@ + "file"@
            } else {
                digits(total_files(shown)) + " "@ + "file"@ + "s"@
            });
            let text = summary_text(store, shown);
            &&& text.len() >= first.len() && text.take(first.len() as int) == first
            &&& hidden <= 0 && store.skipped_paths == 0 && unverified_count(shown) == 0 ==> text
                == first + "\n"@
            &&& hidden > 0 && store.skipped_paths == 0 && unverified_count(shown) == 0 ==> text
                == first + (" \u{b7} "@ + digits(hidden as nat) + " filtered out"@) + "\n"@
            &&& hidden <= 0 && store.skipped_paths > 1 && unverified_count(shown) == 0 ==> text
                == first + "\n"@ + (digits(store.skipped_paths) + " "@ + "path"@ + "s"@
                + " kept because git does not ignore "@ + "them"@ + ".\n"@)
            &&& hidden <= 0 && store.skipped_paths == 0 && unverified_count(shown) > 1 ==> text
                == first + "\n"@ + (digits(unverified_count(shown)) + " "@ + "project"@ + "s"@
                + " could not be verified against git \u{2014} check "@ + "them"@
                + " before cleaning.\n"@)
        }),
{
    let hidden = store.all().len() - shown.len();
    let first = "\n"@ + counted(shown.len(), "project"@) + " \u{b7} "@ + size_text(
        total_size(shown),
    ) + " reclaimable \u{b7} "@ + counted(total_files(shown), "file"@);
    let text = summary_text(store, shown);
    assert(text.take(first.len() as int) =~= first);
    if hidden <= 0 && store.skipped_paths == 0 && unverified_count(shown) == 0 {
        assert(text =~= first + "\n"@);
    }
    if hidden > 0 && store.skipped_paths == 0 && unverified_count(shown) == 0 {
        assert(text =~= first + (" \u{b7} "@ + digits(hidden as nat) + " filtered out"@) + "\n"@);
    }
    if hidden <= 0 && store.skipped_paths > 1 && unverified_count(shown) == 0 {
        assert(text =~= first + "\n"@ + (digits(store.skipped_paths) + " "@ + "path"@ + "s"@
            + " kept because git does not ignore "@ + "them"@ + ".\n"@));
    }
    if hidden <= 0 && store.skipped_paths == 0 && unverified_count(shown) > 1 {
        assert(text =~= first + "\n"@ + (digits(unverified_count(shown)) + " "@ + "project"@ + "s"@
            + " could not be verified against git \u{2014} check "@ + "them"@
            + " before cleaning.\n"@));
    }
}

} // verus!
