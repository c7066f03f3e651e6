//! Accumulated pipeline state, shared by the command line and the interface.

use vstd::prelude::*;

use crate::engine::{Event, EventFact};
use crate::glob::lemma_push_contains;
use crate::path::{opt_fact, path_facts, FsPath, PathFact};
use crate::project::{
    artifact_views, project_views, ArtifactFact, CleanState, Project, ProjectFact,
    ProjectId, StateFact,
};
use crate::size::StatFact;
use crate::text::texts;

verus! {

#[derive(Debug, PartialEq, Eq)]
pub struct Store {
    /// Projects indexed by id; the scanner hands out ids in order.
    pub projects: Vec<Project>,
    pub dirs_scanned: u64,
    pub scanning: bool,
    pub current_dir: Option<FsPath>,
    /// Artifact paths left alone because git does not ignore them.
    pub skipped_paths: usize,
    pub freed: u64,
}

/// What a [`Store`] says.
pub struct StoreFact {
    pub projects: Seq<ProjectFact>,
    pub dirs_scanned: u64,
    pub scanning: bool,
    pub current_dir: Option<PathFact>,
    pub skipped_paths: nat,
    pub freed: nat,
}

impl View for Store {
    type V = StoreFact;

    open spec fn view(&self) -> StoreFact {
        StoreFact {
            projects: owned_views(self.projects@),
            dirs_scanned: self.dirs_scanned,
            scanning: self.scanning,
            current_dir: opt_fact(self.current_dir),
            skipped_paths: self.skipped_paths as nat,
            freed: self.freed as nat,
        }
    }
}

/// Views of a list of projects.
pub open spec fn owned_views(list: Seq<Project>) -> Seq<ProjectFact> {
    list.map_values(|p: Project| p@)
}

/// What stands for a project that has not been found.
pub open spec fn placeholder() -> ProjectFact {
    ProjectFact::fresh(
        usize::MAX,
        PathFact::plain(seq![]),
        PathFact::plain(seq![]),
        seq![],
    )
}

/// `projects`, filled up with placeholders to `count`.
pub open spec fn filled_up(projects: Seq<ProjectFact>, count: nat) -> Seq<ProjectFact> {
    if count <= projects.len() {
        projects
    } else {
        projects + Seq::new((count - projects.len()) as nat, |i: int| placeholder())
    }
}

impl StoreFact {
    /// The projects that were actually discovered, in id order.
    pub open spec fn all(self) -> Seq<ProjectFact> {
        self.projects.filter(|p: ProjectFact| p.id != usize::MAX)
    }

    /// The project `id` is known.
    pub open spec fn knows(self, id: ProjectId) -> bool {
        id < self.projects.len()
    }

    pub open spec fn with_project(self, id: ProjectId, project: ProjectFact) -> StoreFact {
        StoreFact { projects: self.projects.update(id as int, project), ..self }
    }

    /// The totals stay within machine integers.
    pub open spec fn has_room(self, event: EventFact) -> bool {
        match event {
            EventFact::Found(project) => project.id < usize::MAX,
            EventFact::Artifacts { skipped, .. } => self.skipped_paths + skipped.len()
                <= usize::MAX,
            EventFact::CleanFinished { freed, .. } => self.freed + freed <= u64::MAX,
            _ => true,
        }
    }

    /// The event is folded in.
    pub open spec fn applied(self, event: EventFact) -> StoreFact {
        match event {
            EventFact::Found(project) => StoreFact {
                projects: filled_up(self.projects, project.id as nat + 1),
                ..self
            }.with_project(project.id, project),
            EventFact::Progress { dirs, current } => StoreFact {
                dirs_scanned: dirs,
                current_dir: Some(current),
                ..self
            },
            EventFact::ScanFinished { dirs } => StoreFact {
                dirs_scanned: if self.dirs_scanned >= dirs {
                    self.dirs_scanned
                } else {
                    dirs
                },
                scanning: false,
                current_dir: None,
                ..self
            },
            EventFact::Artifacts { id, artifacts, git, skipped } => {
                let counted = StoreFact {
                    skipped_paths: self.skipped_paths + skipped.len(),
                    ..self
                };
                if self.knows(id) {
                    counted.with_project(
                        id,
                        ProjectFact { artifacts, git, resolved: true, ..self.projects[id as int] },
                    )
                } else {
                    counted
                }
            },
            EventFact::Sized { id, index, stat } => if self.knows(id) && index
                < self.projects[id as int].artifacts.len() {
                let project = self.projects[id as int];
                let artifact = project.artifacts[index as int];
                self.with_project(
                    id,
                    ProjectFact {
                        artifacts: project.artifacts.update(
                            index as int,
                            ArtifactFact { stat: Some(stat), ..artifact },
                        ),
                        ..project
                    },
                )
            } else {
                self
            },
            EventFact::CleanStarted { id } => if self.knows(id) {
                self.with_project(
                    id,
                    ProjectFact { state: StateFact::Running, ..self.projects[id as int] },
                )
            } else {
                self
            },
            EventFact::CleanFinished { id, freed, errors } => {
                let counted = StoreFact { freed: self.freed + freed as nat, ..self };
                if self.knows(id) {
                    counted.with_project(id, self.projects[id as int].cleaned(freed, errors))
                } else {
                    counted
                }
            },
        }
    }

    /// The project that the event touches.
    pub open spec fn touched(self, event: EventFact) -> Option<ProjectId> {
        match event {
            EventFact::Found(project) => Some(project.id),
            EventFact::Artifacts { id, .. } => if self.knows(id) {
                Some(id)
            } else {
                None
            },
            EventFact::Sized { id, index, .. } => if self.knows(id) && index
                < self.projects[id as int].artifacts.len() {
                Some(id)
            } else {
                None
            },
            EventFact::CleanStarted { id } => if self.knows(id) {
                Some(id)
            } else {
                None
            },
            EventFact::CleanFinished { id, .. } => if self.knows(id) {
                Some(id)
            } else {
                None
            },
            _ => None,
        }
    }

    /// Every project stands at its own id, or is a placeholder.
    pub open spec fn is_indexed(self) -> bool {
        forall|i: int|
            0 <= i < self.projects.len() ==> (#[trigger] self.projects[i]).id == i
                || self.projects[i].id == usize::MAX
    }
}

impl ProjectFact {
    /// The cleaning is over. Where nothing failed the artifacts are gone.
    pub open spec fn cleaned(self, freed: u64, errors: Seq<Seq<char>>) -> ProjectFact {
        if errors.len() == 0 {
            ProjectFact { state: StateFact::Done { freed }, artifacts: seq![], ..self }
        } else {
            ProjectFact { state: StateFact::Failed { errors }, ..self }
        }
    }
}

/// Every project stays at its own id, whatever event comes.
pub proof fn law_projects_stay_indexed(st: StoreFact, event: EventFact)
    requires
        st.is_indexed(),
        st.has_room(event),
    ensures
        st.applied(event).is_indexed(),
        st.projects.len() <= st.applied(event).projects.len(),
{
    let next = st.applied(event);
    assert forall|i: int| 0 <= i < next.projects.len() implies (#[trigger] next.projects[i]).id == i
        || next.projects[i].id == usize::MAX by {
        if i < st.projects.len() {
            assert(st.projects[i].id == i || st.projects[i].id == usize::MAX);
        }
    }
}

/// An event changes no project but the one that it touches.
pub proof fn law_other_projects_are_untouched(st: StoreFact, event: EventFact, i: int)
    requires
        0 <= i < st.projects.len(),
        st.touched(event) != Some(i as usize),
    ensures
        st.applied(event).projects[i] == st.projects[i],
{
}

/// A project that was cleaned without errors has nothing left to reclaim and is
/// not cleaned again; one that failed keeps its artifacts and its errors.
pub proof fn law_cleaned_project(
    st: StoreFact,
    id: ProjectId,
    freed: u64,
    errors: Seq<Seq<char>>,
)
    requires
        st.knows(id),
    ensures
        ({
            let after = st.applied(EventFact::CleanFinished { id, freed, errors });
            let project = after.projects[id as int];
            &&& after.freed == st.freed + freed
            &&& !project.is_cleanable()
            &&& errors.len() == 0 ==> project.size() == 0 && project.artifacts.len() == 0
            &&& errors.len() > 0 ==> project.artifacts == st.projects[id as int].artifacts
                && project.state == (StateFact::Failed { errors })
        }),
{
}

/// Measurements of the artifacts of one project, in the order they come in.
pub open spec fn delivered(
    st: StoreFact,
    id: ProjectId,
    sized: Seq<(usize, StatFact)>,
) -> StoreFact
    decreases sized.len(),
{
    if sized.len() == 0 {
        st
    } else {
        delivered(st, id, sized.drop_last()).applied(
            EventFact::Sized { id, index: sized.last().0, stat: sized.last().1 },
        )
    }
}

/// The measurement of the artifact at position `i` is among those.
pub open spec fn is_sized(sized: Seq<(usize, StatFact)>, i: int) -> bool {
    exists|j: int| 0 <= j < sized.len() && (#[trigger] sized[j]).0 == i
}

/// A project is measured exactly when it is resolved and the measurement of every
/// artifact that had none has come in, in whatever order; the artifacts
/// themselves stay what they are.
pub proof fn law_project_gets_measured(
    st: StoreFact,
    id: ProjectId,
    sized: Seq<(usize, StatFact)>,
)
    requires
        st.knows(id),
    ensures
        delivered(st, id, sized).projects[id as int].is_measured() <==> {
            &&& st.projects[id as int].resolved
            &&& forall|i: int|
                0 <= i < st.projects[id as int].artifacts.len() ==> is_sized(sized, i)
                    || (#[trigger] st.projects[id as int].artifacts[i]).stat is Some
        },
        delivered(st, id, sized).projects[id as int].artifact_paths()
            == st.projects[id as int].artifact_paths(),
{
    lemma_delivered(st, id, sized);
    let p = st.projects[id as int];
    let q = delivered(st, id, sized).projects[id as int];
    assert(q.artifact_paths() =~= p.artifact_paths());
    if q.is_measured() {
        assert forall|i: int| 0 <= i < p.artifacts.len() implies is_sized(sized, i) || (
        #[trigger] p.artifacts[i]).stat is Some by {
            assert(q.artifacts[i].stat is Some);
        }
    }
    if p.resolved && forall|i: int|
        0 <= i < p.artifacts.len() ==> is_sized(sized, i) || (#[trigger] p.artifacts[i]).stat is Some {
        assert forall|i: int| 0 <= i < q.artifacts.len() implies (#[trigger] q.artifacts[i]).stat is Some by {
            assert(p.artifacts[i].stat is Some || is_sized(sized, i));
        }
    }
}

proof fn lemma_delivered(st: StoreFact, id: ProjectId, sized: Seq<(usize, StatFact)>)
    requires
        st.knows(id),
    ensures
        ({
            let after = delivered(st, id, sized);
            let (p, q) = (st.projects[id as int], after.projects[id as int]);
            &&& after.knows(id)
            &&& q.resolved == p.resolved
            &&& q.artifacts.len() == p.artifacts.len()
            &&& forall|i: int|
                0 <= i < q.artifacts.len() ==> (#[trigger] q.artifacts[i]).path
                    == p.artifacts[i].path
            &&& forall|i: int|
                0 <= i < q.artifacts.len() ==> ((#[trigger] q.artifacts[i]).stat is Some <==> is_sized(
                    sized,
                    i,
                ) || p.artifacts[i].stat is Some)
        }),
    decreases sized.len(),
{
    if sized.len() > 0 {
        let init = sized.drop_last();
        lemma_delivered(st, id, init);
        let before = delivered(st, id, init);
        let after = delivered(st, id, sized);
        let (p, q) = (before.projects[id as int], after.projects[id as int]);
        assert forall|i: int| 0 <= i < q.artifacts.len() implies ((#[trigger] q.artifacts[i]).stat is Some
            <==> is_sized(sized, i) || st.projects[id as int].artifacts[i].stat is Some) by {
            assert(p.artifacts[i].path == st.projects[id as int].artifacts[i].path);
            assert(p.artifacts[i].stat is Some <==> is_sized(init, i)
                || st.projects[id as int].artifacts[i].stat is Some);
            assert(sized[sized.len() - 1] == sized.last());
            if is_sized(init, i) {
                let j = choose|j: int| 0 <= j < init.len() && (#[trigger] init[j]).0 == i;
                assert(sized[j].0 == i);
            }
            if is_sized(sized, i) {
                let j = choose|j: int| 0 <= j < sized.len() && (#[trigger] sized[j]).0 == i;
                if j < init.len() {
                    assert(init[j].0 == i);
                }
            }
        }
    }
}

impl Default for Store {
    fn default() -> (r: Store)
        ensures
            r@ == (StoreFact {
                projects: seq![],
                dirs_scanned: 0,
                scanning: false,
                current_dir: None,
                skipped_paths: 0,
                freed: 0,
            }),
    {
        let r = Store {
            projects: Vec::new(),
            dirs_scanned: 0,
            scanning: false,
            current_dir: None,
            skipped_paths: 0,
            freed: 0,
        };
        assert(owned_views(r.projects@) =~= seq![]);
        r
    }
}

impl Store {
    pub fn new() -> (r: Store)
        ensures
            r@ == (StoreFact {
                projects: seq![],
                dirs_scanned: 0,
                scanning: true,
                current_dir: None,
                skipped_paths: 0,
                freed: 0,
            }),
            r@.is_indexed(),
    {
        let mut store = Store::default();
        store.scanning = true;
        store
    }

    pub fn get(&self, id: ProjectId) -> (r: Option<&Project>)
        ensures
            r is Some <==> self@.knows(id),
            r matches Some(project) ==> *project == self.projects@[id as int] && project@
                == self@.projects[id as int],
    {
        if id < self.projects.len() {
            Some(&self.projects[id])
        } else {
            None
        }
    }

    /// Whether the event can be folded in.
    pub fn can_apply(&self, event: &Event) -> (r: bool)
        ensures
            r == self@.has_room(event@),
    {
        match event {
            Event::Found(project) => project.id < usize::MAX,
            Event::Artifacts { skipped, .. } => {
                let n = skipped.len();
                assert(path_facts(skipped@).len() == n);
                self.skipped_paths.checked_add(n).is_some()
            },
            Event::CleanFinished { freed, .. } => self.freed.checked_add(*freed).is_some(),
            _ => true,
        }
    }

    /// Put `project` in the place of the project `id`.
    fn replace(&mut self, id: ProjectId, project: Project)
        requires
            id < old(self).projects@.len(),
        ensures
            final(self)@ == old(self)@.with_project(id, project@),
    {
        let ghost before = self.projects@;
        self.projects.set(id, project);
        assert(owned_views(self.projects@) =~= owned_views(before).update(id as int, project@));
    }

    /// Fold one event in. Returns the project it touched, if any.
    pub fn apply(&mut self, event: Event) -> (r: Option<ProjectId>)
        requires
            old(self)@.has_room(event@),
        ensures
            final(self)@ == old(self)@.applied(event@),
            r == old(self)@.touched(event@),
    {
        let ghost before = self@;
        match event {
            Event::Found(project) => {
                let id = project.id;
                // Ids are sequential, but stay robust if one ever goes missing.
                while self.projects.len() <= id
                    invariant
                        id < usize::MAX,
                        self.projects.len() <= before.projects.len() || self.projects.len() <= id
                            + 1,
                        before.projects.len() <= self.projects.len(),
                        self@ == (StoreFact {
                            projects: filled_up(before.projects, self.projects@.len()),
                            ..before
                        }),
                    decreases id + 1 - self.projects.len(),
                {
                    let empty = Project::new(
                        usize::MAX,
                        FsPath::empty(),
                        FsPath::empty(),
                        Vec::new(),
                    );
                    assert(texts(empty.types@) =~= seq![]);
                    assert(empty@ == placeholder());
                    let ghost sofar = self.projects@;
                    self.projects.push(empty);
                    assert(owned_views(self.projects@) =~= owned_views(sofar).push(placeholder()));
                    assert(owned_views(sofar).push(placeholder()) =~= filled_up(
                        before.projects,
                        (sofar.len() + 1) as nat,
                    ));
                    assert(owned_views(self.projects@) =~= filled_up(
                        before.projects,
                        self.projects@.len(),
                    ));
                }
                let ghost found = project@;
                assert(filled_up(before.projects, self.projects@.len()) =~= filled_up(
                    before.projects,
                    found.id as nat + 1,
                ));
                self.replace(id, *project);
                Some(id)
            },
            Event::Progress { dirs, current } => {
                self.dirs_scanned = dirs;
                self.current_dir = Some(current);
                None
            },
            Event::ScanFinished { dirs } => {
                if self.dirs_scanned < dirs {
                    self.dirs_scanned = dirs;
                }
                self.scanning = false;
                self.current_dir = None;
                None
            },
            Event::Artifacts { id, artifacts, git, skipped } => {
                assert(path_facts(skipped@).len() == skipped@.len());
                self.skipped_paths = self.skipped_paths + skipped.len();
                if id >= self.projects.len() {
                    return None;
                }
                let mut project = self.projects[id].clone();
                project.artifacts = artifacts;
                project.git = git;
                project.resolved = true;
                self.replace(id, project);
                Some(id)
            },
            Event::Sized { id, index, stat } => {
                if id >= self.projects.len() {
                    return None;
                }
                assert(self.projects@[id as int]@ == before.projects[id as int]);
                if index >= self.projects[id].artifacts.len() {
                    return None;
                }
                let mut project = self.projects[id].clone();
                assert(artifact_views(project.artifacts@).len() == project.artifacts@.len());
                assert(artifact_views(self.projects@[id as int].artifacts@).len()
                    == self.projects@[id as int].artifacts@.len());
                let ghost listed = project.artifacts@;
                let mut artifact = project.artifacts[index].clone();
                artifact.stat = Some(stat);
                project.artifacts.set(index, artifact);
                assert(artifact_views(project.artifacts@) =~= artifact_views(listed).update(
                    index as int,
                    artifact@,
                ));
                self.replace(id, project);
                Some(id)
            },
            Event::CleanStarted { id } => {
                if id >= self.projects.len() {
                    return None;
                }
                let mut project = self.projects[id].clone();
                project.state = CleanState::Running;
                self.replace(id, project);
                Some(id)
            },
            Event::CleanFinished { id, freed, errors } => {
                self.freed = self.freed + freed;
                if id >= self.projects.len() {
                    return None;
                }
                let mut project = self.projects[id].clone();
                assert(texts(errors@).len() == errors@.len());
                if errors.len() == 0 {
                    project.state = CleanState::Done { freed };
                    // The artifacts are gone; keep the row but show nothing to
                    // reclaim.
                    project.artifacts = Vec::new();
                    assert(artifact_views(project.artifacts@) =~= seq![]);
                } else {
                    project.state = CleanState::Failed { errors };
                }
                self.replace(id, project);
                Some(id)
            },
        }
    }

    /// Projects that were actually discovered, in id order.
    pub fn all(&self) -> (r: Vec<&Project>)
        ensures
            project_views(r@) == self@.all(),
    {
        let ghost every = self@.projects;
        let ghost found = |p: ProjectFact| p.id != usize::MAX;
        let mut out: Vec<&Project> = Vec::new();
        let mut i: usize = 0;
        proof {
            reveal(Seq::filter);
            assert(project_views(out@) =~= every.take(0).filter(found));
        }
        while i < self.projects.len()
            invariant
                0 <= i <= self.projects.len(),
                every == self@.projects,
                found == (|p: ProjectFact| p.id != usize::MAX),
                project_views(out@) == every.take(i as int).filter(found),
            decreases self.projects.len() - i,
        {
            let project = &self.projects[i];
            proof {
                reveal(Seq::filter);
                assert(every.take(i + 1).drop_last() =~= every.take(i as int));
                assert(every.take(i + 1).last() == project@);
            }
            if project.id != usize::MAX {
                let ghost before = out@;
                out.push(project);
                assert(project_views(out@) =~= project_views(before).push(project@));
            }
            i = i + 1;
        }
        assert(every.take(every.len() as int) =~= every);
        out
    }
}

/// What each event leaves behind, and that it leaves everything else as it is.
pub proof fn law_events_leave_their_mark(st: StoreFact, event: EventFact, id: ProjectId)
    requires
        st.has_room(event),
    ensures
        ({
            let next = st.applied(event);
            match event {
                EventFact::Found(p) => {
                    &&& p.id < next.projects.len() && next.projects[p.id as int] == p
                    &&& (st.dirs_scanned, st.scanning, st.skipped_paths, st.freed) == (
                        next.dirs_scanned,
                        next.scanning,
                        next.skipped_paths,
                        next.freed,
                    )
                },
                EventFact::Progress { dirs, current } => next.dirs_scanned == dirs
                    && next.current_dir == Some(current) && next.projects == st.projects
                    && next.scanning == st.scanning && next.skipped_paths == st.skipped_paths
                    && next.freed == st.freed,
                EventFact::ScanFinished { dirs } => !next.scanning && next.current_dir is None
                    && next.dirs_scanned >= dirs && next.dirs_scanned >= st.dirs_scanned && (
                next.dirs_scanned == dirs || next.dirs_scanned == st.dirs_scanned) && next.projects
                    == st.projects && next.skipped_paths == st.skipped_paths && next.freed
                    == st.freed,
                EventFact::Artifacts { id: i, artifacts, git, skipped } => {
                    &&& next.skipped_paths == st.skipped_paths + skipped.len()
                    &&& next.freed == st.freed && next.scanning == st.scanning
                    &&& i == id && id < st.projects.len() ==> {
                        let (p, q) = (st.projects[id as int], next.projects[id as int]);
                        &&& q.artifacts == artifacts && q.git == git && q.resolved
                        &&& (q.id, q.root, q.scan_root, q.types) == (
                            p.id,
                            p.root,
                            p.scan_root,
                            p.types,
                        )
                        &&& (q.last_activity, q.source_files, q.state) == (
                            p.last_activity,
                            p.source_files,
                            p.state,
                        )
                    }
                },
                EventFact::Sized { id: i, index, stat } => {
                    &&& next.freed == st.freed && next.skipped_paths == st.skipped_paths
                    &&& i == id && id < st.projects.len() && index
                        < st.projects[id as int].artifacts.len() ==> {
                        let (p, q) = (st.projects[id as int], next.projects[id as int]);
                        let (a, b) = (p.artifacts[index as int], q.artifacts[index as int]);
                        &&& b.stat == Some(stat) && b.path == a.path && b.pattern == a.pattern
                        &&& q.artifacts.len() == p.artifacts.len()
                        &&& forall|k: int|
                            0 <= k < p.artifacts.len() && k != index ==> q.artifacts[k]
                                == #[trigger] p.artifacts[k]
                        &&& (q.id, q.root, q.types, q.git, q.resolved, q.state) == (
                            p.id,
                            p.root,
                            p.types,
                            p.git,
                            p.resolved,
                            p.state,
                        )
                        &&& q.last_activity == p.last_activity
                    }
                },
                EventFact::CleanStarted { id: i } => {
                    &&& next.freed == st.freed && next.skipped_paths == st.skipped_paths
                    &&& i == id && id < st.projects.len() ==> {
                        let (p, q) = (st.projects[id as int], next.projects[id as int]);
                        &&& q.state == StateFact::Running
                        &&& (q.id, q.root, q.artifacts) == (p.id, p.root, p.artifacts)
                    }
                },
                EventFact::CleanFinished { id: i, freed, errors } => {
                    &&& next.freed == st.freed + freed
                    &&& i == id && id < st.projects.len() ==> {
                        let (p, q) = (st.projects[id as int], next.projects[id as int]);
                        &&& errors.len() == 0 ==> q.state == (StateFact::Done { freed })
                            && q.artifacts.len() == 0
                        &&& errors.len() > 0 ==> q.state == (StateFact::Failed { errors })
                            && q.artifacts == p.artifacts
                        &&& (q.id, q.root, q.types, q.git) == (p.id, p.root, p.types, p.git)
                        &&& q.last_activity == p.last_activity
                    }
                },
            }
        }),
{
}

/// All projects are those that were found; what only fills a gap is none of them.
pub proof fn law_all_projects_are_found_ones(st: StoreFact, p: ProjectFact)
    ensures
        st.all().contains(p) <==> st.projects.contains(p) && p.id != usize::MAX,
{
    lemma_filter_members(st.projects, |p: ProjectFact| p.id != usize::MAX, p);
}

pub proof fn lemma_filter_members<A>(s: Seq<A>, pred: spec_fn(A) -> bool, x: A)
    ensures
        s.filter(pred).contains(x) <==> s.contains(x) && pred(x),
    decreases s.len(),
{
    reveal(Seq::filter);
    if s.len() > 0 {
        let init = s.drop_last();
        lemma_filter_members(init, pred, x);
        assert(s =~= init.push(s.last()));
        lemma_push_contains(init, s.last(), x);
        lemma_push_contains(init.filter(pred), s.last(), x);
    }
}

} // verus!
