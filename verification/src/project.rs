//! The data model shared by the command line and the interactive interface.

use vstd::prelude::*;

use crate::clock::{later, later_of, now, span_between, time_view, Duration, Timestamp, NANOS};
use crate::humantime::{age_at, age_text, format_age};
use crate::order::{
    is_preorder, is_rearrangement, law_sorted_list, lexed, order_int, order_u64, precedes, sort_positions,
    sorts_range, stably_sorted, Order,
};
use crate::path::{
    lemma_path_facts_push, lemma_path_order_total, order_paths, part_order, path_facts, path_order,
    within, FsPath, PathFact,
};
use crate::places::home_dir;
use crate::size::{stat_view, DirStat, StatFact};
use crate::text::{
    char_order, clone_texts, contains_text, join, joined, law_occurrences,
    lemma_text_order_total, lowercase, occurs_in, order_texts, text_order, texts, to_lowercase,
};

verus! {

pub type ProjectId = usize;

/// A directory recognised as a project, together with the artifacts that may be
/// removed from it.
#[derive(Debug, PartialEq, Eq)]
pub struct Project {
    pub id: ProjectId,
    pub root: FsPath,
    /// Root this project was discovered under, used to shorten paths for display.
    pub scan_root: FsPath,
    /// Every matching type name, most specific first.
    pub types: Vec<String>,
    pub artifacts: Vec<Artifact>,
    /// Newest modification time among the project's own (non-artifact) files.
    pub last_activity: Option<Timestamp>,
    pub source_files: u64,
    pub git: GitStatus,
    /// False until the artifact list has been resolved by a worker.
    pub resolved: bool,
    pub state: CleanState,
}

#[derive(Debug, PartialEq, Eq)]
pub struct Artifact {
    pub path: FsPath,
    /// Pattern from the configuration that produced this path.
    pub pattern: String,
    pub stat: Option<DirStat>,
}

/// Whether git confirmed that the artifacts are ignored.
#[derive(Debug, Clone, Copy, PartialEq, Eq, Structural)]
pub enum GitStatus {
    /// Paths were filtered through `git check-ignore`.
    Ignored,
    /// Not a git work tree: nothing was filtered.
    NoRepo,
    /// Filtering was switched off in the configuration.
    Disabled,
    /// `git` could not be run; nothing was filtered.
    Unavailable,
    /// Not determined yet.
    Pending,
}

#[derive(Debug, PartialEq, Eq)]
pub enum CleanState {
    Idle,
    Running,
    Done { freed: u64 },
    Failed { errors: Vec<String> },
}

/// What an [`Artifact`] says.
pub struct ArtifactFact {
    pub path: PathFact,
    pub pattern: Seq<char>,
    pub stat: Option<StatFact>,
}

/// What a [`CleanState`] says.
pub enum StateFact {
    Idle,
    Running,
    Done { freed: u64 },
    Failed { errors: Seq<Seq<char>> },
}

/// What a [`Project`] says.
pub struct ProjectFact {
    pub id: ProjectId,
    pub root: PathFact,
    pub scan_root: PathFact,
    pub types: Seq<Seq<char>>,
    pub artifacts: Seq<ArtifactFact>,
    pub last_activity: Option<int>,
    pub source_files: u64,
    pub git: GitStatus,
    pub resolved: bool,
    pub state: StateFact,
}

impl View for Artifact {
    type V = ArtifactFact;

    open spec fn view(&self) -> ArtifactFact {
        ArtifactFact { path: self.path.fact(), pattern: self.pattern@, stat: stat_view(self.stat) }
    }
}

impl View for CleanState {
    type V = StateFact;

    open spec fn view(&self) -> StateFact {
        match *self {
            CleanState::Idle => StateFact::Idle,
            CleanState::Running => StateFact::Running,
            CleanState::Done { freed } => StateFact::Done { freed },
            CleanState::Failed { errors } => StateFact::Failed { errors: texts(errors@) },
        }
    }
}

impl View for Project {
    type V = ProjectFact;

    open spec fn view(&self) -> ProjectFact {
        ProjectFact {
            id: self.id,
            root: self.root.fact(),
            scan_root: self.scan_root.fact(),
            types: texts(self.types@),
            artifacts: artifact_views(self.artifacts@),
            last_activity: time_view(self.last_activity),
            source_files: self.source_files,
            git: self.git,
            resolved: self.resolved,
            state: self.state@,
        }
    }
}

/// Views of a list of artifacts.
pub open spec fn artifact_views(list: Seq<Artifact>) -> Seq<ArtifactFact> {
    list.map_values(|a: Artifact| a@)
}

pub proof fn lemma_artifact_views_push(list: Seq<Artifact>, a: Artifact)
    ensures
        artifact_views(list.push(a)) == artifact_views(list).push(a@),
{
    assert(artifact_views(list.push(a)) =~= artifact_views(list).push(a@));
}

/// Views of a list of borrowed projects.
pub open spec fn project_views(list: Seq<&Project>) -> Seq<ProjectFact> {
    list.map_values(|p: &Project| p@)
}

impl GitStatus {
    pub open spec fn label_text(self) -> Seq<char> {
        match self {
            GitStatus::Ignored => "git-ignored"@,
            GitStatus::NoRepo => "no-git"@,
            GitStatus::Disabled => "unchecked"@,
            GitStatus::Unavailable => "git-error"@,
            GitStatus::Pending => "\u{2026}"@,
        }
    }

    pub fn label(self) -> (r: &'static str)
        ensures
            r@ == self.label_text(),
    {
        match self {
            GitStatus::Ignored => "git-ignored",
            GitStatus::NoRepo => "no-git",
            GitStatus::Disabled => "unchecked",
            GitStatus::Unavailable => "git-error",
            GitStatus::Pending => "\u{2026}",
        }
    }

    /// True when we could not prove the artifacts are ignored by git.
    pub fn is_unverified(self) -> (r: bool)
        ensures
            r == (self != GitStatus::Ignored),
    {
        match self {
            GitStatus::Ignored => false,
            _ => true,
        }
    }
}

/// Bytes of the artifacts measured so far.
pub open spec fn measured_bytes(artifacts: Seq<ArtifactFact>) -> nat
    decreases artifacts.len(),
{
    if artifacts.len() == 0 {
        0
    } else {
        measured_bytes(artifacts.drop_last()) + match artifacts.last().stat {
            Some(s) => s.bytes,
            None => 0,
        }
    }
}

/// Files of the artifacts measured so far.
pub open spec fn measured_files(artifacts: Seq<ArtifactFact>) -> nat
    decreases artifacts.len(),
{
    if artifacts.len() == 0 {
        0
    } else {
        measured_files(artifacts.drop_last()) + match artifacts.last().stat {
            Some(s) => s.files,
            None => 0,
        }
    }
}

/// Newest modification time of the artifacts measured so far.
pub open spec fn newest_build(artifacts: Seq<ArtifactFact>) -> Option<int>
    decreases artifacts.len(),
{
    if artifacts.len() == 0 {
        None
    } else {
        later_of(
            newest_build(artifacts.drop_last()),
            match artifacts.last().stat {
                Some(s) => s.newest,
                None => None,
            },
        )
    }
}

proof fn lemma_measured_grows(artifacts: Seq<ArtifactFact>, upto: int)
    requires
        0 <= upto <= artifacts.len(),
    ensures
        measured_bytes(artifacts.take(upto)) <= measured_bytes(artifacts),
        measured_files(artifacts.take(upto)) <= measured_files(artifacts),
    decreases artifacts.len() - upto,
{
    if upto < artifacts.len() {
        lemma_measured_grows(artifacts, upto + 1);
        assert(artifacts.take(upto + 1).drop_last() =~= artifacts.take(upto));
    } else {
        assert(artifacts.take(upto) =~= artifacts);
    }
}

impl ProjectFact {
    /// A project about which nothing but its place is known.
    pub open spec fn fresh(
        id: ProjectId,
        root: PathFact,
        scan_root: PathFact,
        types: Seq<Seq<char>>,
    ) -> ProjectFact {
        ProjectFact {
            id,
            root,
            scan_root,
            types,
            artifacts: seq![],
            last_activity: None,
            source_files: 0,
            git: GitStatus::Pending,
            resolved: false,
            state: StateFact::Idle,
        }
    }

    /// `unknown`, or the type names with a `+` between each two.
    pub open spec fn type_label(self) -> Seq<char> {
        if self.types.len() == 0 {
            "unknown"@
        } else {
            joined(self.types, "+"@)
        }
    }

    pub open spec fn display_path(self) -> Seq<char> {
        self.root.relative_to(self.scan_root).shown()
    }

    /// The age at the time `now`, in nanoseconds.
    pub open spec fn age(self, now: int) -> Option<nat> {
        match self.last_activity {
            Some(t) => Some(span_between(t, now)),
            None => None,
        }
    }

    pub open spec fn age_label(self, now: int) -> Seq<char> {
        match self.age(now) {
            Some(age) => age_text(age / (NANOS as nat)),
            None => "unknown"@,
        }
    }

    pub open spec fn size(self) -> nat {
        measured_bytes(self.artifacts)
    }

    pub open spec fn file_count(self) -> nat {
        measured_files(self.artifacts)
    }

    /// The totals can be held by machine integers.
    pub open spec fn fits(self) -> bool {
        self.size() <= u64::MAX && self.file_count() <= u64::MAX
    }

    pub open spec fn is_measured(self) -> bool {
        self.resolved && forall|i: int|
            0 <= i < self.artifacts.len() ==> (#[trigger] self.artifacts[i]).stat is Some
    }

    pub open spec fn artifact_paths(self) -> Seq<PathFact> {
        self.artifacts.map_values(|a: ArtifactFact| a.path)
    }

    pub open spec fn is_cleanable(self) -> bool {
        self.artifacts.len() > 0 && self.state is Idle
    }
}

impl Clone for Artifact {
    fn clone(&self) -> (r: Artifact)
        ensures
            r@ == self@,
    {
        Artifact { path: self.path.clone(), pattern: self.pattern.clone(), stat: self.stat }
    }
}

/// A copy of a list of artifacts.
pub fn clone_artifacts(list: &Vec<Artifact>) -> (r: Vec<Artifact>)
    ensures
        artifact_views(r@) == artifact_views(list@),
{
    let mut out: Vec<Artifact> = Vec::new();
    let mut i: usize = 0;
    while i < list.len()
        invariant
            0 <= i <= list.len(),
            artifact_views(out@) =~= artifact_views(list@).take(i as int),
        decreases list.len() - i,
    {
        let copy = list[i].clone();
        proof {
            lemma_artifact_views_push(out@, copy);
        }
        out.push(copy);
        i = i + 1;
    }
    assert(artifact_views(list@).take(list@.len() as int) =~= artifact_views(list@));
    out
}

impl Clone for CleanState {
    fn clone(&self) -> (r: CleanState)
        ensures
            r@ == self@,
    {
        match self {
            CleanState::Idle => CleanState::Idle,
            CleanState::Running => CleanState::Running,
            CleanState::Done { freed } => CleanState::Done { freed: *freed },
            CleanState::Failed { errors } => CleanState::Failed { errors: clone_texts(errors) },
        }
    }
}

impl Clone for Project {
    fn clone(&self) -> (r: Project)
        ensures
            r@ == self@,
    {
        Project {
            id: self.id,
            root: self.root.clone(),
            scan_root: self.scan_root.clone(),
            types: clone_texts(&self.types),
            artifacts: clone_artifacts(&self.artifacts),
            last_activity: self.last_activity,
            source_files: self.source_files,
            git: self.git,
            resolved: self.resolved,
            state: self.state.clone(),
        }
    }
}

impl Project {
    pub fn new(id: ProjectId, root: FsPath, scan_root: FsPath, types: Vec<String>) -> (r: Project)
        ensures
            r@ == ProjectFact::fresh(id, root.fact(), scan_root.fact(), texts(types@)),
    {
        let r = Project {
            id,
            root,
            scan_root,
            types,
            artifacts: Vec::new(),
            last_activity: None,
            source_files: 0,
            git: GitStatus::Pending,
            resolved: false,
            state: CleanState::Idle,
        };
        assert(artifact_views(r.artifacts@) =~= seq![]);
        r
    }

    /// Primary type label, e.g. `rust` or `node+rust` for a polyglot project.
    pub fn type_label(&self) -> (r: String)
        ensures
            r@ == self@.type_label(),
    {
        if self.types.len() == 0 {
            "unknown".to_owned()
        } else {
            join(&self.types, "+")
        }
    }

    /// Path relative to the scan root, which is what the user recognises.
    pub fn display_path(&self) -> (r: String)
        ensures
            r@ == self@.display_path(),
    {
        self.root.relative_to(&self.scan_root).to_text()
    }

    /// Time since the last activity, at the time `now`.
    pub fn age_at(&self, now: Timestamp) -> (r: Option<Duration>)
        ensures
            r is Some <==> self@.age(now@) is Some,
            r matches Some(age) ==> self@.age(now@) == Some(age@),
    {
        match self.last_activity {
            Some(t) => Some(age_at(t, now)),
            None => None,
        }
    }

    /// Time since the last activity, at the moment of the call.
    pub fn age(&self) -> (r: Option<Duration>)
        ensures
            r is Some <==> self@.last_activity is Some,
            r matches Some(age) ==> exists|now: int| #[trigger] self@.age(now) == Some(age@),
    {
        self.age_at(now())
    }

    /// The wording of the age, at the time `now`.
    pub fn age_label_at(&self, now: Timestamp) -> (r: String)
        ensures
            r@ == self@.age_label(now@),
    {
        match self.age_at(now) {
            Some(age) => format_age(age),
            None => "unknown".to_owned(),
        }
    }

    /// The wording of the age, at the moment of the call.
    pub fn age_label(&self) -> (r: String)
        ensures
            exists|now: int| r@ == #[trigger] self@.age_label(now),
    {
        self.age_label_at(now())
    }

    /// Whether [`Project::size`] and [`Project::file_count`] can be told.
    pub fn fits(&self) -> (r: bool)
        ensures
            r == self@.fits(),
    {
        let ghost all = artifact_views(self.artifacts@);
        let mut bytes: u64 = 0;
        let mut files: u64 = 0;
        let mut i: usize = 0;
        assert(all.take(0) =~= seq![]);
        while i < self.artifacts.len()
            invariant
                0 <= i <= self.artifacts.len(),
                all == artifact_views(self.artifacts@),
                bytes == measured_bytes(all.take(i as int)),
                files == measured_files(all.take(i as int)),
            decreases self.artifacts.len() - i,
        {
            proof {
                assert(all.take(i + 1).drop_last() =~= all.take(i as int));
                assert(all.take(i + 1).last() == self.artifacts@[i as int]@);
                lemma_measured_grows(all, i + 1);
            }
            if let Some(stat) = self.artifacts[i].stat {
                match (bytes.checked_add(stat.bytes), files.checked_add(stat.files)) {
                    (Some(b), Some(f)) => {
                        bytes = b;
                        files = f;
                    },
                    _ => {
                        return false;
                    },
                }
            }
            i = i + 1;
        }
        assert(all.take(all.len() as int) =~= all);
        true
    }

    /// Sum of the artifact sizes measured so far, if it can be told.
    pub fn checked_size(&self) -> (r: Option<u64>)
        ensures
            r is Some <==> self@.size() <= u64::MAX,
            r matches Some(size) ==> size == self@.size(),
    {
        let ghost all = artifact_views(self.artifacts@);
        let mut sum: u64 = 0;
        let mut i: usize = 0;
        assert(all.take(0) =~= seq![]);
        while i < self.artifacts.len()
            invariant
                0 <= i <= self.artifacts.len(),
                all == artifact_views(self.artifacts@),
                sum == measured_bytes(all.take(i as int)),
            decreases self.artifacts.len() - i,
        {
            proof {
                assert(all.take(i + 1).drop_last() =~= all.take(i as int));
                assert(all.take(i + 1).last() == self.artifacts@[i as int]@);
                lemma_measured_grows(all, i + 1);
            }
            if let Some(stat) = self.artifacts[i].stat {
                match sum.checked_add(stat.bytes) {
                    Some(total) => {
                        sum = total;
                    },
                    None => {
                        return None;
                    },
                }
            }
            i = i + 1;
        }
        assert(all.take(all.len() as int) =~= all);
        Some(sum)
    }

    /// Sum of the artifact sizes measured so far.
    pub fn size(&self) -> (r: u64)
        requires
            self@.size() <= u64::MAX,
        ensures
            r == self@.size(),
    {
        let ghost all = artifact_views(self.artifacts@);
        let mut sum: u64 = 0;
        let mut i: usize = 0;
        assert(all.take(0) =~= seq![]);
        while i < self.artifacts.len()
            invariant
                0 <= i <= self.artifacts.len(),
                all == artifact_views(self.artifacts@),
                measured_bytes(all) <= u64::MAX,
                sum == measured_bytes(all.take(i as int)),
            decreases self.artifacts.len() - i,
        {
            proof {
                assert(all.take(i + 1).drop_last() =~= all.take(i as int));
                assert(all.take(i + 1).last() == self.artifacts@[i as int]@);
                lemma_measured_grows(all, i + 1);
            }
            if let Some(stat) = self.artifacts[i].stat {
                sum = sum + stat.bytes;
            }
            i = i + 1;
        }
        assert(all.take(all.len() as int) =~= all);
        sum
    }

    /// Number of files in the artifacts measured so far.
    pub fn file_count(&self) -> (r: u64)
        requires
            self@.file_count() <= u64::MAX,
        ensures
            r == self@.file_count(),
    {
        let ghost all = artifact_views(self.artifacts@);
        let mut sum: u64 = 0;
        let mut i: usize = 0;
        assert(all.take(0) =~= seq![]);
        while i < self.artifacts.len()
            invariant
                0 <= i <= self.artifacts.len(),
                all == artifact_views(self.artifacts@),
                measured_files(all) <= u64::MAX,
                sum == measured_files(all.take(i as int)),
            decreases self.artifacts.len() - i,
        {
            proof {
                assert(all.take(i + 1).drop_last() =~= all.take(i as int));
                assert(all.take(i + 1).last() == self.artifacts@[i as int]@);
                lemma_measured_grows(all, i + 1);
            }
            if let Some(stat) = self.artifacts[i].stat {
                sum = sum + stat.files;
            }
            i = i + 1;
        }
        assert(all.take(all.len() as int) =~= all);
        sum
    }

    /// True once every artifact has been measured.
    pub fn is_measured(&self) -> (r: bool)
        ensures
            r == self@.is_measured(),
    {
        if !self.resolved {
            return false;
        }
        let mut i: usize = 0;
        while i < self.artifacts.len()
            invariant
                0 <= i <= self.artifacts.len(),
                forall|k: int| 0 <= k < i ==> (#[trigger] self@.artifacts[k]).stat is Some,
            decreases self.artifacts.len() - i,
        {
            assert(self@.artifacts[i as int] == self.artifacts@[i as int]@);
            if self.artifacts[i].stat.is_none() {
                return false;
            }
            i = i + 1;
        }
        true
    }

    /// Newest modification time across all artifacts, effectively "last built".
    pub fn last_build(&self) -> (r: Option<Timestamp>)
        ensures
            time_view(r) == newest_build(self@.artifacts),
    {
        let ghost all = artifact_views(self.artifacts@);
        let mut newest: Option<Timestamp> = None;
        let mut i: usize = 0;
        assert(all.take(0) =~= seq![]);
        while i < self.artifacts.len()
            invariant
                0 <= i <= self.artifacts.len(),
                all == artifact_views(self.artifacts@),
                time_view(newest) == newest_build(all.take(i as int)),
            decreases self.artifacts.len() - i,
        {
            assert(all.take(i + 1).drop_last() =~= all.take(i as int));
            assert(all.take(i + 1).last() == self.artifacts@[i as int]@);
            if let Some(stat) = self.artifacts[i].stat {
                newest = later(newest, stat.newest);
            }
            i = i + 1;
        }
        assert(all.take(all.len() as int) =~= all);
        newest
    }

    pub fn artifact_paths(&self) -> (r: Vec<FsPath>)
        ensures
            path_facts(r@) == self@.artifact_paths(),
    {
        let mut out: Vec<FsPath> = Vec::new();
        let mut i: usize = 0;
        while i < self.artifacts.len()
            invariant
                0 <= i <= self.artifacts.len(),
                path_facts(out@) =~= self@.artifact_paths().take(i as int),
            decreases self.artifacts.len() - i,
        {
            let path = self.artifacts[i].path.clone();
            proof {
                lemma_path_facts_push(out@, path);
            }
            out.push(path);
            i = i + 1;
        }
        assert(self@.artifact_paths().take(self.artifacts@.len() as int)
            =~= self@.artifact_paths());
        out
    }

    pub fn is_cleanable(&self) -> (r: bool)
        ensures
            r == self@.is_cleanable(),
    {
        let idle = match self.state {
            CleanState::Idle => true,
            _ => false,
        };
        self.artifacts.len() > 0 && idle
    }
}

/// Which projects to show or act on.
#[derive(Debug, PartialEq, Eq)]
pub struct Filter {
    /// Minimum time since the last source change. An empty span disables the check.
    pub older_than: Duration,
    pub min_size: u64,
    /// Case-insensitive substring of the project path.
    pub query: String,
    /// Only keep projects with at least one artifact.
    pub with_artifacts_only: bool,
}

/// What a [`Filter`] says.
pub struct FilterFact {
    pub older_than: nat,
    pub min_size: u64,
    pub query: Seq<char>,
    pub with_artifacts_only: bool,
}

impl View for Filter {
    type V = FilterFact;

    open spec fn view(&self) -> FilterFact {
        FilterFact {
            older_than: self.older_than@,
            min_size: self.min_size,
            query: self.query@,
            with_artifacts_only: self.with_artifacts_only,
        }
    }
}

impl FilterFact {
    /// Old enough at the time `now`. Without a timestamp a project cannot be
    /// proved stale; keeping it out is the conservative choice.
    pub open spec fn accepts_age(self, p: ProjectFact, now: int) -> bool {
        self.older_than == 0 || (p.age(now) is Some && p.age(now)->Some_0 >= self.older_than)
    }

    /// To be shown at the time `now`, where `needle` is the lower case query and
    /// `haystack` the lower case path. The query stands in the path or in the
    /// type label; an unmeasured project is kept whatever its size may turn out
    /// to be.
    pub open spec fn accepts_lowered(
        self,
        p: ProjectFact,
        now: int,
        needle: Seq<char>,
        haystack: Seq<char>,
    ) -> bool {
        &&& self.accepts_age(p, now)
        &&& self.with_artifacts_only && p.resolved ==> p.artifacts.len() > 0
        &&& self.min_size > 0 && p.is_measured() ==> p.size() >= self.min_size
        &&& self.query.len() == 0 || occurs_in(haystack, needle) || occurs_in(
            p.type_label(),
            needle,
        )
    }

    /// To be shown at the time `now`.
    pub open spec fn accepts(self, p: ProjectFact, now: int) -> bool {
        self.accepts_lowered(p, now, lowercase(self.query), lowercase(p.root.shown()))
    }
}

impl Default for Filter {
    fn default() -> (r: Filter)
        ensures
            r@ == (FilterFact {
                older_than: 0,
                min_size: 0,
                query: seq![],
                with_artifacts_only: true,
            }),
    {
        let query = String::new();
        assert(query@ =~= seq![]);
        Filter { older_than: Duration::zero(), min_size: 0, query, with_artifacts_only: true }
    }
}

impl Clone for Filter {
    fn clone(&self) -> (r: Filter)
        ensures
            r@ == self@,
    {
        Filter {
            older_than: self.older_than,
            min_size: self.min_size,
            query: self.query.clone(),
            with_artifacts_only: self.with_artifacts_only,
        }
    }
}

impl Filter {
    /// Whether the project is old enough at the time `now`.
    pub fn accepts_age_at(&self, project: &Project, now: Timestamp) -> (r: bool)
        ensures
            r == self@.accepts_age(project@, now@),
    {
        if self.older_than.is_zero() {
            return true;
        }
        match project.age_at(now) {
            Some(age) => age.at_least(&self.older_than),
            // Without a timestamp we cannot prove the project is stale; keeping
            // it out of the list is the conservative choice.
            None => false,
        }
    }

    /// Age is known right after discovery, so this can run before sizing.
    pub fn accepts_age(&self, project: &Project) -> (r: bool)
        ensures
            exists|now: int| r == #[trigger] self@.accepts_age(project@, now),
    {
        self.accepts_age_at(project, now())
    }

    /// Whether the project is to be shown at the time `now`, given the query and
    /// the project's path in lower case.
    pub fn accepts_lowered(
        &self,
        project: &Project,
        now: Timestamp,
        needle: &str,
        haystack: &str,
    ) -> (r: bool)
        requires
            project@.size() <= u64::MAX,
        ensures
            r == self@.accepts_lowered(project@, now@, needle@, haystack@),
    {
        if !self.accepts_age_at(project, now) {
            return false;
        }
        if self.with_artifacts_only && project.resolved && project.artifacts.len() == 0 {
            return false;
        }
        // An unmeasured project is kept: its size is not known yet and hiding
        // it would make the list jump around while sizing runs.
        if self.min_size > 0 && project.is_measured() && project.size() < self.min_size {
            return false;
        }
        self.query.as_str().is_empty() || contains_text(haystack, needle) || contains_text(
            project.type_label().as_str(),
            needle,
        )
    }

    /// Whether the project is to be shown at the time `now`.
    pub fn accepts_at(&self, project: &Project, now: Timestamp) -> (r: bool)
        requires
            project@.size() <= u64::MAX,
        ensures
            r == self@.accepts(project@, now@),
    {
        let needle = to_lowercase(self.query.as_str());
        let haystack = to_lowercase(project.root.to_text().as_str());
        self.accepts_lowered(project, now, needle.as_str(), haystack.as_str())
    }

    /// Whether the project is to be shown at the moment of the call.
    pub fn accepts(&self, project: &Project) -> (r: bool)
        requires
            project@.size() <= u64::MAX,
        ensures
            exists|now: int| r == #[trigger] self@.accepts(project@, now),
    {
        self.accepts_at(project, now())
    }
}

#[derive(Debug, Clone, Copy, PartialEq, Eq, Structural)]
pub enum Sort {
    Size,
    Age,
    Path,
    Type,
}

/// How two points in time compare where one may be missing: the earlier comes
/// first, and a missing one comes last.
pub open spec fn activity_order(a: Option<int>, b: Option<int>) -> Order {
    match (a, b) {
        (Some(x), Some(y)) => order_int(x, y),
        (Some(_), None) => Order::Before,
        (None, Some(_)) => Order::After,
        (None, None) => Order::Same,
    }
}

impl Sort {
    pub open spec fn label_text(self) -> Seq<char> {
        match self {
            Sort::Size => "size"@,
            Sort::Age => "age"@,
            Sort::Path => "path"@,
            Sort::Type => "type"@,
        }
    }

    pub open spec fn following(self) -> Sort {
        match self {
            Sort::Size => Sort::Age,
            Sort::Age => Sort::Path,
            Sort::Path => Sort::Type,
            Sort::Type => Sort::Size,
        }
    }

    /// How two projects compare: the largest first, the oldest first with those
    /// without a timestamp last, by path, or by type label with the largest first within a type.
    pub open spec fn order(self, a: ProjectFact, b: ProjectFact) -> Order {
        match self {
            Sort::Size => order_int(b.size() as int, a.size() as int).or_else(
                path_order(a.root.parts, b.root.parts),
            ),
            Sort::Age => activity_order(a.last_activity, b.last_activity).or_else(
                path_order(a.root.parts, b.root.parts),
            ),
            Sort::Path => path_order(a.root.parts, b.root.parts),
            Sort::Type => text_order(a.type_label(), b.type_label()).or_else(
                order_int(b.size() as int, a.size() as int),
            ),
        }
    }

    /// [`Sort::order`] of what two borrowed projects say.
    pub open spec fn ordering<'a>(self) -> spec_fn(&'a Project, &'a Project) -> Order {
        |a: &'a Project, b: &'a Project| self.order(a@, b@)
    }

    pub fn label(self) -> (r: &'static str)
        ensures
            r@ == self.label_text(),
    {
        match self {
            Sort::Size => "size",
            Sort::Age => "age",
            Sort::Path => "path",
            Sort::Type => "type",
        }
    }

    /// The order that follows in the cycle size, age, path, type.
    pub fn next(self) -> (r: Sort)
        ensures
            r == self.following(),
    {
        match self {
            Sort::Size => Sort::Age,
            Sort::Age => Sort::Path,
            Sort::Path => Sort::Type,
            Sort::Type => Sort::Size,
        }
    }

    fn order_of(self, a: &Project, b: &Project) -> (r: Order)
        requires
            a@.size() <= u64::MAX,
            b@.size() <= u64::MAX,
        ensures
            r == self.order(a@, b@),
    {
        match self {
            Sort::Size => match order_u64(b.size(), a.size()) {
                Order::Same => order_paths(&a.root, &b.root),
                decided => decided,
            },
            Sort::Age => {
                // Missing timestamps sort last.
                let by_age = match (&a.last_activity, &b.last_activity) {
                    (Some(x), Some(y)) => x.order(y),
                    (Some(_), None) => Order::Before,
                    (None, Some(_)) => Order::After,
                    (None, None) => Order::Same,
                };
                match by_age {
                    Order::Same => order_paths(&a.root, &b.root),
                    decided => decided,
                }
            },
            Sort::Path => order_paths(&a.root, &b.root),
            Sort::Type => match order_texts(a.type_label().as_str(), b.type_label().as_str()) {
                Order::Same => order_u64(b.size(), a.size()),
                decided => decided,
            },
        }
    }

    /// Order `projects` in place. Largest / oldest first, since that is what the
    /// user is looking for.
    pub fn apply<'a>(self, projects: &mut Vec<&'a Project>)
        requires
            forall|i: int|
                0 <= i < old(projects)@.len() ==> (#[trigger] old(projects)@[i])@.size() <= u64::MAX,
        ensures
            stably_sorted(old(projects)@, final(projects)@, self.ordering()),
    {
        let ghost before = projects@;
        let ghost f = |i: int, j: int| self.ordering()(before[i], before[j]);
        proof {
            lemma_sort_preorder(self, before);
        }
        let mut out: Vec<&'a Project> = Vec::new();
        let list: &Vec<&'a Project> = &*projects;
        let order = |a: usize, b: usize| -> (r: Order)
            requires
                a < list.len(),
                b < list.len(),
                list@[a as int]@.size() <= u64::MAX,
                list@[b as int]@.size() <= u64::MAX,
            ensures
                r == self.order(list@[a as int]@, list@[b as int]@),
            { self.order_of(list[a], list[b]) };
        let perm = sort_positions(0, list.len(), &order, Ghost(f));
        let mut i: usize = 0;
        while i < perm.len()
            invariant
                0 <= i <= perm.len(),
                list@ == before,
                forall|k: int| 0 <= k < perm@.len() ==> 0 <= #[trigger] perm@[k] < list@.len(),
                out@ =~= Seq::new(i as nat, |k: int| before[perm@[k] as int]),
            decreases perm.len() - i,
        {
            out.push(list[perm[i]]);
            i = i + 1;
        }
        assert(is_rearrangement(before, out@, perm@, self.ordering()));
        *projects = out;
    }
}

proof fn lemma_path_triple(a: Seq<Seq<u8>>, b: Seq<Seq<u8>>, c: Seq<Seq<u8>>)
    ensures
        path_order(a, b) == path_order(b, a).flipped(),
        path_order(a, b) != Order::After && path_order(b, c) != Order::After ==> path_order(a, c)
            != Order::After,
{
    lemma_path_order_total();
    let f = lexed(part_order());
    assert(f(a, b) == f(b, a).flipped());
    assert(f(a, b) != Order::After && f(b, c) != Order::After ==> f(a, c) != Order::After);
}

proof fn lemma_label_triple(a: Seq<char>, b: Seq<char>, c: Seq<char>)
    ensures
        text_order(a, b) == text_order(b, a).flipped(),
        text_order(a, b) != Order::After && text_order(b, c) != Order::After ==> text_order(a, c)
            != Order::After,
        text_order(a, b) == Order::Same ==> a == b,
{
    lemma_text_order_total();
    let f = lexed(char_order());
    assert(f(a, b) == f(b, a).flipped());
    assert(f(a, b) != Order::After && f(b, c) != Order::After ==> f(a, c) != Order::After);
    assert(f(a, b) == Order::Same ==> a == b);
}

proof fn lemma_sort_flips(sort: Sort, x: ProjectFact, y: ProjectFact)
    ensures
        sort.order(x, y) == sort.order(y, x).flipped(),
{
    lemma_path_triple(x.root.parts, y.root.parts, y.root.parts);
    lemma_label_triple(x.type_label(), y.type_label(), y.type_label());
}

proof fn lemma_sort_chains(sort: Sort, x: ProjectFact, y: ProjectFact, z: ProjectFact)
    requires
        sort.order(x, y) != Order::After,
        sort.order(y, z) != Order::After,
    ensures
        sort.order(x, z) != Order::After,
{
    lemma_path_triple(x.root.parts, y.root.parts, z.root.parts);
    if sort == Sort::Type {
        let (a, b, c) = (x.type_label(), y.type_label(), z.type_label());
        lemma_label_triple(a, b, c);
        lemma_label_triple(b, c, a);
        lemma_label_triple(a, c, b);
        lemma_label_triple(c, a, b);
        if text_order(a, c) == Order::Same {
            assert(text_order(b, a) == text_order(a, b).flipped());
            lemma_label_triple(b, a, a);
        }
    }
}

proof fn lemma_sort_preorder(sort: Sort, list: Seq<&Project>)
    ensures
        is_preorder(|i: int, j: int| sort.ordering()(list[i], list[j])),
{
    let f = |i: int, j: int| sort.ordering()(list[i], list[j]);
    assert forall|a: int, b: int| #[trigger] f(a, b) == f(b, a).flipped() by {
        lemma_sort_flips(sort, list[a]@, list[b]@);
    }
    assert forall|a: int, b: int, c: int|
        #![trigger f(a, b), f(b, c)]
        f(a, b) != Order::After && f(b, c) != Order::After implies f(a, c) != Order::After by {
        lemma_sort_chains(sort, list[a]@, list[b]@, list[c]@);
    }
}

/// [`Sort::order`] as a comparison of its own.
pub open spec fn fact_ordering(sort: Sort) -> spec_fn(ProjectFact, ProjectFact) -> Order {
    |a: ProjectFact, b: ProjectFact| sort.order(a, b)
}

/// Sorting projects sorts what they say.
pub proof fn lemma_sorted_views(sort: Sort, input: Seq<&Project>, out: Seq<&Project>)
    requires
        stably_sorted(input, out, sort.ordering()),
    ensures
        stably_sorted(project_views(input), project_views(out), fact_ordering(sort)),
{
    let perm = choose|perm: Seq<usize>| #[trigger]
        is_rearrangement(input, out, perm, sort.ordering());
    let f = |i: int, j: int| sort.ordering()(input[i], input[j]);
    let facts = project_views(input);
    let g = |i: int, j: int| fact_ordering(sort)(facts[i], facts[j]);
    assert(sorts_range(perm, 0, input.len() as int, f));
    assert(sorts_range(perm, 0, facts.len() as int, g)) by {
        assert forall|i: int, j: int|
            #![trigger perm[i], perm[j]]
            0 <= i < j < perm.len() implies precedes(g, perm[i] as int, perm[j] as int) by {
            assert(precedes(f, perm[i] as int, perm[j] as int));
            assert(facts[perm[i] as int] == input[perm[i] as int]@);
            assert(facts[perm[j] as int] == input[perm[j] as int]@);
        }
    }
    assert(project_views(out) =~= Seq::new(perm.len(), |i: int| facts[perm[i] as int]));
    assert(is_rearrangement(facts, project_views(out), perm, fact_ordering(sort)));
}

/// A sorted list of projects starts with what the user is looking for: the
/// largest first, the oldest first and those without a timestamp last, or in the
/// order of the paths or the type labels. Nothing is lost and nothing is added.
pub proof fn law_sorted_projects(sort: Sort, input: Seq<ProjectFact>, out: Seq<ProjectFact>)
    requires
        stably_sorted(input, out, fact_ordering(sort)),
        input.len() <= usize::MAX,
    ensures
        out.len() == input.len(),
        forall|p: ProjectFact| #[trigger] out.contains(p) <==> input.contains(p),
        forall|i: int, j: int|
            #![trigger out[i], out[j]]
            0 <= i < j < out.len() ==> match sort {
                Sort::Size => out[i].size() >= out[j].size(),
                Sort::Age => match (out[i].last_activity, out[j].last_activity) {
                    (Some(x), Some(y)) => x <= y,
                    (None, Some(_)) => false,
                    _ => true,
                },
                Sort::Path => path_order(out[i].root.parts, out[j].root.parts) != Order::After,
                Sort::Type => text_order(out[i].type_label(), out[j].type_label())
                    != Order::After,
            },
{
    law_sorted_list(input, out, fact_ordering(sort));
    assert forall|i: int, j: int|
        #![trigger out[i], out[j]]
        0 <= i < j < out.len() implies sort.order(out[i], out[j]) != Order::After by {
        assert(fact_ordering(sort)(out[i], out[j]) == sort.order(out[i], out[j]));
    }
}

/// Going through the orders visits all four and comes back to the first.
pub proof fn law_sort_orders_cycle(sort: Sort)
    ensures
        sort.following().following().following().following() == sort,
        sort.following() != sort,
        sort.following().following() != sort,
{
}

/// Bytes of the artifacts of all the projects.
pub open spec fn total_size(projects: Seq<ProjectFact>) -> nat
    decreases projects.len(),
{
    if projects.len() == 0 {
        0
    } else {
        total_size(projects.drop_last()) + projects.last().size()
    }
}

/// Files in the artifacts of all the projects.
pub open spec fn total_files(projects: Seq<ProjectFact>) -> nat
    decreases projects.len(),
{
    if projects.len() == 0 {
        0
    } else {
        total_files(projects.drop_last()) + projects.last().file_count()
    }
}

/// The totals can be held by machine integers.
pub open spec fn totals_fit(projects: Seq<ProjectFact>) -> bool {
    total_size(projects) <= u64::MAX && total_files(projects) <= u64::MAX
}

/// A longer list adds up to no less, and to no less than each of its members.
pub proof fn lemma_totals_grow(projects: Seq<ProjectFact>, upto: int)
    requires
        0 <= upto <= projects.len(),
    ensures
        total_size(projects.take(upto)) <= total_size(projects),
        total_files(projects.take(upto)) <= total_files(projects),
        upto > 0 ==> projects[upto - 1].size() <= total_size(projects),
        upto > 0 ==> projects[upto - 1].file_count() <= total_files(projects),
    decreases projects.len() - upto,
{
    if upto < projects.len() {
        lemma_totals_grow(projects, upto + 1);
        assert(projects.take(upto + 1).drop_last() =~= projects.take(upto));
    } else {
        assert(projects.take(upto) =~= projects);
    }
    if upto > 0 {
        assert(projects.take(upto).last() == projects[upto - 1]);
    }
}

/// Whether the totals over the projects can be told.
pub fn can_total(projects: &Vec<&Project>) -> (r: bool)
    ensures
        r == totals_fit(project_views(projects@)),
{
    let ghost all = project_views(projects@);
    let mut bytes: u64 = 0;
    let mut files: u64 = 0;
    let mut i: usize = 0;
    assert(all.take(0) =~= seq![]);
    while i < projects.len()
        invariant
            0 <= i <= projects.len(),
            all == project_views(projects@),
            bytes == total_size(all.take(i as int)),
            files == total_files(all.take(i as int)),
        decreases projects.len() - i,
    {
        proof {
            assert(all.take(i + 1).drop_last() =~= all.take(i as int));
            assert(all.take(i + 1).last() == projects@[i as int]@);
            lemma_totals_grow(all, i + 1);
        }
        if !projects[i].fits() {
            return false;
        }
        match (bytes.checked_add(projects[i].size()), files.checked_add(projects[i].file_count())) {
            (Some(b), Some(f)) => {
                bytes = b;
                files = f;
            },
            _ => {
                return false;
            },
        }
        i = i + 1;
    }
    assert(all.take(all.len() as int) =~= all);
    true
}

/// Whether the sizes of the projects can be added up.
pub fn sizes_add_up(projects: &Vec<&Project>) -> (r: bool)
    ensures
        r == (total_size(project_views(projects@)) <= u64::MAX),
{
    let ghost all = project_views(projects@);
    let mut sum: u64 = 0;
    let mut i: usize = 0;
    assert(all.take(0) =~= seq![]);
    while i < projects.len()
        invariant
            0 <= i <= projects.len(),
            all == project_views(projects@),
            sum == total_size(all.take(i as int)),
        decreases projects.len() - i,
    {
        proof {
            assert(all.take(i + 1).drop_last() =~= all.take(i as int));
            assert(all.take(i + 1).last() == projects@[i as int]@);
            lemma_totals_grow(all, i + 1);
        }
        match projects[i].checked_size() {
            Some(size) => match sum.checked_add(size) {
                Some(total) => {
                    sum = total;
                },
                None => {
                    return false;
                },
            },
            None => {
                return false;
            },
        }
        i = i + 1;
    }
    assert(all.take(all.len() as int) =~= all);
    true
}

/// Bytes of the artifacts of all the projects.
pub fn sum_sizes(projects: &Vec<&Project>) -> (r: u64)
    requires
        total_size(project_views(projects@)) <= u64::MAX,
    ensures
        r == total_size(project_views(projects@)),
{
    let ghost all = project_views(projects@);
    let mut sum: u64 = 0;
    let mut i: usize = 0;
    assert(all.take(0) =~= seq![]);
    while i < projects.len()
        invariant
            0 <= i <= projects.len(),
            all == project_views(projects@),
            total_size(all) <= u64::MAX,
            sum == total_size(all.take(i as int)),
        decreases projects.len() - i,
    {
        proof {
            assert(all.take(i + 1).drop_last() =~= all.take(i as int));
            assert(all.take(i + 1).last() == projects@[i as int]@);
            lemma_totals_grow(all, i + 1);
        }
        sum = sum + projects[i].size();
        i = i + 1;
    }
    assert(all.take(all.len() as int) =~= all);
    sum
}

/// Files in the artifacts of all the projects.
pub fn sum_files(projects: &Vec<&Project>) -> (r: u64)
    requires
        total_files(project_views(projects@)) <= u64::MAX,
    ensures
        r == total_files(project_views(projects@)),
{
    let ghost all = project_views(projects@);
    let mut sum: u64 = 0;
    let mut i: usize = 0;
    assert(all.take(0) =~= seq![]);
    while i < projects.len()
        invariant
            0 <= i <= projects.len(),
            all == project_views(projects@),
            total_files(all) <= u64::MAX,
            sum == total_files(all.take(i as int)),
        decreases projects.len() - i,
    {
        proof {
            assert(all.take(i + 1).drop_last() =~= all.take(i as int));
            assert(all.take(i + 1).last() == projects@[i as int]@);
            lemma_totals_grow(all, i + 1);
        }
        sum = sum + projects[i].file_count();
        i = i + 1;
    }
    assert(all.take(all.len() as int) =~= all);
    sum
}

/// A path with the home directory in front of it replaced by `~`.
pub open spec fn tilde_text(path: PathFact, home: Option<Seq<Seq<u8>>>) -> Seq<char> {
    match home {
        Some(home) if within(path.parts, home) => if path.parts.len() == home.len() {
            "~"@
        } else {
            "~/"@ + path.skip(home.len()).shown()
        },
        _ => path.shown(),
    }
}

/// The view of an optional path.
pub open spec fn opt_path(path: Option<FsPath>) -> Option<Seq<Seq<u8>>> {
    match path {
        Some(p) => Some(p@),
        None => None,
    }
}

/// Shorten a path for display by replacing the prefix `home` with `~`.
pub fn tilde_from(path: &FsPath, home: &Option<FsPath>) -> (r: String)
    ensures
        r@ == tilde_text(path.fact(), opt_path(*home)),
{
    match home {
        Some(home) => match path.strip_prefix(home) {
            Some(rest) => {
                if rest.length() == 0 {
                    return "~".to_owned();
                }
                let mut out = "~/".to_owned();
                out.append(rest.to_text().as_str());
                out
            },
            None => path.to_text(),
        },
        None => path.to_text(),
    }
}

/// Shorten a path for display by replacing the home prefix with `~`.
pub fn tilde(path: &FsPath) -> (r: String)
    ensures
        exists|home: Option<Seq<Seq<u8>>>| r@ == #[trigger] tilde_text(path.fact(), home),
{
    tilde_from(path, &home_dir())
}

/// Which projects are shown. With a threshold, the last activity has to be known and to
/// lie at least that far back; without one, any will do. A project whose artifacts are
/// known has to have some, if so asked. A least size counts once every artifact is
/// measured. What is looked for has to stand, in lower case, in the path as it is shown
/// or in the type label.
pub proof fn law_filter_accepts(f: FilterFact, p: ProjectFact, now: int)
    ensures
        f.accepts(p, now) <==> {
            &&& f.older_than == 0 || (p.last_activity matches Some(t) && now - t >= f.older_than)
            &&& f.with_artifacts_only && p.resolved ==> p.artifacts.len() > 0
            &&& f.min_size > 0 && p.resolved && (forall|i: int|
                0 <= i < p.artifacts.len() ==> (#[trigger] p.artifacts[i]).stat is Some)
                ==> p.size() >= f.min_size
            &&& f.query.len() == 0 || (exists|at: int|
                0 <= at <= lowercase(p.root.shown()).len() - lowercase(f.query).len()
                    && #[trigger] lowercase(p.root.shown()).subrange(
                    at,
                    at + lowercase(f.query).len(),
                ) == lowercase(f.query)) || (exists|at: int|
                0 <= at <= p.type_label().len() - lowercase(f.query).len()
                    && #[trigger] p.type_label().subrange(at, at + lowercase(f.query).len())
                    == lowercase(f.query))
        },
{
    let needle = lowercase(f.query);
    law_occurrences(lowercase(p.root.shown()), needle);
    law_occurrences(p.type_label(), needle);
}

/// The totals of a project: each measured artifact counts with its bytes and its files,
/// one that is not measured yet counts nothing.
pub proof fn law_project_totals_add_up(p: ProjectFact, a: ArtifactFact)
    ensures
        ({
            let more = ProjectFact { artifacts: p.artifacts.push(a), ..p };
            &&& more.size() == p.size() + match a.stat {
                Some(s) => s.bytes,
                None => 0,
            }
            &&& more.file_count() == p.file_count() + match a.stat {
                Some(s) => s.files,
                None => 0,
            }
            &&& a.stat matches Some(s) ==> s.newest matches Some(t) ==> newest_build(
                more.artifacts,
            ) matches Some(n) && n >= t
            &&& more.is_measured() <==> p.is_measured() && a.stat is Some
            &&& more.is_cleanable() <==> p.state == StateFact::Idle
            &&& more.artifact_paths() == p.artifact_paths().push(a.path)
        }),
        p.artifacts.len() == 0 ==> p.size() == 0 && p.file_count() == 0 && newest_build(
            p.artifacts,
        ) is None && !p.is_cleanable() && p.is_measured() == p.resolved,
{
    let more = ProjectFact { artifacts: p.artifacts.push(a), ..p };
    assert(p.artifacts.push(a).drop_last() =~= p.artifacts);
    assert(more.artifact_paths() =~= p.artifact_paths().push(a.path));
    if more.is_measured() {
        assert forall|i: int| 0 <= i < p.artifacts.len() implies (#[trigger] p.artifacts[i]).stat is Some by {
            assert(more.artifacts[i] == p.artifacts[i]);
        }
        assert(more.artifacts[p.artifacts.len() as int] == a);
    }
}

/// A project is labelled by its types with a `+` between each two.
pub proof fn law_types_are_joined(p: ProjectFact, name: Seq<char>)
    ensures
        p.types.len() == 0 ==> p.type_label() == "unknown"@ && (ProjectFact {
            types: p.types.push(name),
            ..p
        }).type_label() == name,
        p.types.len() > 0 ==> (ProjectFact { types: p.types.push(name), ..p }).type_label()
            == p.type_label() + "+"@ + name,
{
    assert(p.types.push(name).drop_last() =~= p.types);
}

/// Where the order asked for leaves two projects level, the path decides, or, within a
/// type, the size.
pub proof fn law_ties_are_broken(sort: Sort, a: ProjectFact, b: ProjectFact)
    ensures
        sort == Sort::Size && a.size() == b.size() ==> sort.order(a, b) == path_order(
            a.root.parts,
            b.root.parts,
        ),
        sort == Sort::Age && a.last_activity == b.last_activity ==> sort.order(a, b) == path_order(
            a.root.parts,
            b.root.parts,
        ),
        sort == Sort::Type && a.type_label() == b.type_label() && a.size() > b.size()
            ==> sort.order(a, b) == Order::Before,
        sort == Sort::Type && a.type_label() == b.type_label() && a.size() == b.size()
            ==> sort.order(a, b) == Order::Same,
{
    lemma_text_order_total();
    let f = lexed(char_order());
    assert(f(a.type_label(), a.type_label()) == f(a.type_label(), a.type_label()).flipped());
}

/// The orders follow one another as size, age, path, type, and are called so.
pub proof fn law_sort_orders_are_named(sort: Sort)
    ensures
        Sort::Size.following() == Sort::Age && Sort::Age.following() == Sort::Path
            && Sort::Path.following() == Sort::Type,
        Sort::Size.label_text() == "size"@ && Sort::Age.label_text() == "age"@
            && Sort::Path.label_text() == "path"@ && Sort::Type.label_text() == "type"@,
{
}

/// Paths are shortened for display: one below the scan root to what lies below it, one
/// below the home directory to a tilde and what lies below that. Others are shown as they
/// are.
pub proof fn law_paths_are_shortened(p: ProjectFact, path: PathFact, home: Seq<Seq<u8>>)
    ensures
        within(p.root.parts, p.scan_root.parts) ==> p.display_path() == p.root.skip(
            p.scan_root.parts.len(),
        ).shown(),
        !within(p.root.parts, p.scan_root.parts) ==> p.display_path() == p.root.shown(),
        path.parts == home ==> tilde_text(path, Some(home)) == "~"@,
        within(path.parts, home) && path.parts.len() > home.len() ==> tilde_text(path, Some(home))
            == "~/"@ + path.skip(home.len()).shown(),
        !within(path.parts, home) ==> tilde_text(path, Some(home)) == path.shown(),
        tilde_text(path, None) == path.shown(),
{
    if path.parts == home {
        assert(path.parts.take(home.len() as int) =~= home);
    }
}

/// What git's word is called, and that only a confirmation counts as verified.
pub proof fn law_git_statuses_are_named(git: GitStatus)
    ensures
        git == GitStatus::Ignored ==> git.label_text() == "git-ignored"@,
        git == GitStatus::NoRepo ==> git.label_text() == "no-git"@,
        git == GitStatus::Disabled ==> git.label_text() == "unchecked"@,
        git == GitStatus::Unavailable ==> git.label_text() == "git-error"@,
        git == GitStatus::Pending ==> git.label_text() == "\u{2026}"@,
{
}

} // verus!
