//! The background pipeline shared by both front-ends.
//!
//! One thread walks the roots and streams projects out as it finds them; a pool
//! of workers then resolves each project's artifacts against git, measures them,
//! and later performs the deletions. Everything reaches the caller as [`Event`]s,
//! so the interface never blocks on disk I/O and the command line can simply
//! drain the same stream to completion. What the threads decide is decided here.

use std::collections::VecDeque;

use vstd::prelude::*;

use crate::clean::Outcome;
use crate::gitignore::{
    check_ignore_input, framed, git_name, git_names, law_partition, partition, partition_ignored,
    relative_names, verdict_view,
};
use crate::glob::lemma_push_contains;
use crate::path::{
    clone_paths, lemma_path_facts_push, parts_of, path_facts, FsPath, PathFact,
};
use crate::project::{
    artifact_views, lemma_artifact_views_push, Artifact, ArtifactFact, GitStatus, Project,
    ProjectFact, ProjectId,
};
use crate::scan::{pair_paths, pair_views, Candidate, CandidateFact};
use crate::size::{DirStat, StatFact};
use crate::text::texts;

verus! {

/// How often the scanner reports progress, in directories.
pub const PROGRESS_EVERY: u64 = 16;

#[derive(Debug, PartialEq, Eq)]
pub enum Event {
    /// A project was discovered. Its artifact list is not resolved yet.
    Found(Box<Project>),
    Progress { dirs: u64, current: FsPath },
    ScanFinished { dirs: u64 },
    /// The final artifact list for a project, after git filtering.
    Artifacts {
        id: ProjectId,
        artifacts: Vec<Artifact>,
        git: GitStatus,
        /// Paths dropped because git does not ignore them.
        skipped: Vec<FsPath>,
    },
    Sized { id: ProjectId, index: usize, stat: DirStat },
    CleanStarted { id: ProjectId },
    CleanFinished { id: ProjectId, freed: u64, errors: Vec<String> },
}

/// What an [`Event`] says.
pub enum EventFact {
    Found(ProjectFact),
    Progress { dirs: u64, current: PathFact },
    ScanFinished { dirs: u64 },
    Artifacts {
        id: ProjectId,
        artifacts: Seq<ArtifactFact>,
        git: GitStatus,
        skipped: Seq<PathFact>,
    },
    Sized { id: ProjectId, index: usize, stat: StatFact },
    CleanStarted { id: ProjectId },
    CleanFinished { id: ProjectId, freed: u64, errors: Seq<Seq<char>> },
}

impl View for Event {
    type V = EventFact;

    open spec fn view(&self) -> EventFact {
        match *self {
            Event::Found(project) => EventFact::Found(project@),
            Event::Progress { dirs, current } => EventFact::Progress { dirs, current: current.fact() },
            Event::ScanFinished { dirs } => EventFact::ScanFinished { dirs },
            Event::Artifacts { id, artifacts, git, skipped } => EventFact::Artifacts {
                id,
                artifacts: artifact_views(artifacts@),
                git,
                skipped: path_facts(skipped@),
            },
            Event::Sized { id, index, stat } => EventFact::Sized { id, index, stat: stat@ },
            Event::CleanStarted { id } => EventFact::CleanStarted { id },
            Event::CleanFinished { id, freed, errors } => EventFact::CleanFinished {
                id,
                freed,
                errors: texts(errors@),
            },
        }
    }
}

/// A piece of work for a worker.
#[derive(Debug, PartialEq, Eq)]
pub enum Job {
    Resolve { id: ProjectId, root: FsPath, candidates: Vec<(String, FsPath)> },
    Size { id: ProjectId, index: usize, path: FsPath },
    Clean { id: ProjectId, root: FsPath, paths: Vec<FsPath> },
}

/// What a [`Job`] says.
pub enum JobFact {
    Resolve {
        id: ProjectId,
        root: PathFact,
        candidates: Seq<(Seq<char>, PathFact)>,
    },
    Size { id: ProjectId, index: usize, path: PathFact },
    Clean { id: ProjectId, root: PathFact, paths: Seq<PathFact> },
}

impl View for Job {
    type V = JobFact;

    open spec fn view(&self) -> JobFact {
        match *self {
            Job::Resolve { id, root, candidates } => JobFact::Resolve {
                id,
                root: root.fact(),
                candidates: pair_views(candidates@),
            },
            Job::Size { id, index, path } => JobFact::Size { id, index, path: path.fact() },
            Job::Clean { id, root, paths } => JobFact::Clean {
                id,
                root: root.fact(),
                paths: path_facts(paths@),
            },
        }
    }
}

/// Views of a list of jobs.
pub open spec fn job_views(jobs: Seq<Job>) -> Seq<JobFact> {
    jobs.map_values(|j: Job| j@)
}

/// What a worker that looks for work is told.
#[derive(Debug, PartialEq, Eq)]
pub enum Popped {
    Job(Job),
    /// There is none now; wait until the queue changes.
    Wait,
    /// There will be none any more.
    Closed,
}

/// A work queue that also tracks how much work is outstanding, so that a
/// consumer can wait for the pipeline to go idle.
pub struct Queue {
    jobs: VecDeque<Job>,
    pending: usize,
    scanning: bool,
    closed: bool,
}

/// The state of a [`Queue`].
pub struct QueueFact {
    pub jobs: Seq<JobFact>,
    /// Jobs pushed but not yet finished.
    pub pending: nat,
    pub scanning: bool,
    pub closed: bool,
}

impl View for Queue {
    type V = QueueFact;

    closed spec fn view(&self) -> QueueFact {
        QueueFact {
            jobs: job_views(self.jobs@),
            pending: self.pending as nat,
            scanning: self.scanning,
            closed: self.closed,
        }
    }
}

impl QueueFact {
    /// Every queued job is among those outstanding.
    pub open spec fn is_valid(self) -> bool {
        self.jobs.len() <= self.pending
    }

    /// Some job has been taken up and is not yet finished.
    pub open spec fn is_busy(self) -> bool {
        self.jobs.len() < self.pending
    }

    /// The scan is over and no work is left, or the queue is closed.
    pub open spec fn is_idle(self) -> bool {
        self.closed || (!self.scanning && self.pending == 0)
    }

    /// A job is added, at the front or at the end. A closed queue takes none.
    pub open spec fn pushed(self, job: JobFact, front: bool) -> QueueFact {
        if self.closed {
            self
        } else {
            QueueFact {
                jobs: if front {
                    seq![job] + self.jobs
                } else {
                    self.jobs.push(job)
                },
                pending: self.pending + 1,
                ..self
            }
        }
    }

    /// The job at the front is taken up.
    pub open spec fn popped(self) -> QueueFact {
        QueueFact { jobs: self.jobs.skip(1), ..self }
    }

    /// A job that was taken up is finished.
    pub open spec fn finished(self) -> QueueFact {
        QueueFact {
            pending: if self.pending == 0 {
                0
            } else {
                (self.pending - 1) as nat
            },
            ..self
        }
    }

    /// The scan is over.
    pub open spec fn scanned(self) -> QueueFact {
        QueueFact { scanning: false, ..self }
    }

    /// What is queued is dropped, and no more jobs are taken.
    pub open spec fn shut(self) -> QueueFact {
        QueueFact { jobs: seq![], closed: true, ..self }
    }

    /// Nothing has been queued yet.
    pub open spec fn fresh() -> QueueFact {
        QueueFact { jobs: seq![], pending: 0, scanning: true, closed: false }
    }
}

/// An idle queue that was not closed holds no job and waits for none.
pub proof fn law_idle_means_done(q: QueueFact)
    requires
        q.is_valid(),
        q.is_idle(),
        !q.closed,
    ensures
        q.jobs.len() == 0,
        !q.is_busy(),
        !q.scanning,
{
}

impl Queue {
    pub fn new() -> (r: Queue)
        ensures
            r@ == QueueFact::fresh(),
            r@.is_valid(),
    {
        let r = Queue { jobs: VecDeque::new(), pending: 0, scanning: true, closed: false };
        assert(job_views(r.jobs@) =~= seq![]);
        r
    }

    /// Whether another job can be counted.
    pub fn can_push(&self) -> (r: bool)
        ensures
            r == (self@.pending < usize::MAX),
    {
        self.pending < usize::MAX
    }

    /// Add a job, at the front if it is urgent. A closed queue takes none.
    pub fn push(&mut self, job: Job, front: bool)
        requires
            old(self)@.pending < usize::MAX,
        ensures
            final(self)@ == old(self)@.pushed(job@, front),
            old(self)@.is_valid() ==> final(self)@.is_valid(),
    {
        if self.closed {
            return;
        }
        let ghost before = self.jobs@;
        self.pending = self.pending + 1;
        if front {
            self.jobs.push_front(job);
            assert(job_views(self.jobs@) =~= seq![job@] + job_views(before));
        } else {
            self.jobs.push_back(job);
            assert(job_views(self.jobs@) =~= job_views(before).push(job@));
        }
    }

    /// Add a job in its place: clean jobs jump the queue so that the user sees a
    /// reaction at once, all others wait their turn.
    pub fn submit(&mut self, job: Job)
        requires
            old(self)@.pending < usize::MAX,
        ensures
            final(self)@ == old(self)@.pushed(job@, job is Clean),
            old(self)@.is_valid() ==> final(self)@.is_valid(),
    {
        let urgent = match job {
            Job::Clean { .. } => true,
            _ => false,
        };
        self.push(job, urgent);
    }

    /// Take up the job at the front, if there is one.
    pub fn pop(&mut self) -> (r: Popped)
        ensures
            match r {
                Popped::Job(job) => old(self)@.jobs.len() > 0 && job@ == old(self)@.jobs[0]
                    && final(self)@ == old(self)@.popped(),
                Popped::Wait => old(self)@.jobs.len() == 0 && !old(self)@.closed && final(self)@
                    == old(self)@,
                Popped::Closed => old(self)@.jobs.len() == 0 && old(self)@.closed && final(self)@
                    == old(self)@,
            },
            old(self)@.is_valid() ==> final(self)@.is_valid(),
            old(self)@.is_valid() && r is Job ==> final(self)@.is_busy(),
    {
        let ghost before = self.jobs@;
        match self.jobs.pop_front() {
            Some(job) => {
                assert(job_views(self.jobs@) =~= job_views(before).skip(1));
                Popped::Job(job)
            },
            None => if self.closed {
                Popped::Closed
            } else {
                Popped::Wait
            },
        }
    }

    /// A job that was taken up is finished.
    pub fn finish_job(&mut self)
        ensures
            final(self)@ == old(self)@.finished(),
            old(self)@.is_busy() ==> final(self)@.is_valid(),
    {
        self.pending = self.pending.saturating_sub(1);
    }

    /// The scan is over.
    pub fn scan_finished(&mut self)
        ensures
            final(self)@ == old(self)@.scanned(),
    {
        self.scanning = false;
    }

    /// Whether the scan is over and no work is left.
    pub fn is_idle(&self) -> (r: bool)
        ensures
            r == self@.is_idle(),
    {
        self.closed || (!self.scanning && self.pending == 0)
    }

    /// Drop what is queued and take no more jobs.
    pub fn close(&mut self)
        ensures
            final(self)@ == old(self)@.shut(),
            final(self)@.is_valid(),
    {
        self.closed = true;
        self.jobs.clear();
        assert(job_views(self.jobs@) =~= seq![]);
    }
}

/// How many workers to run: as many as configured, or, where that is left open,
/// as many as the machine runs at once, between two and eight; four where the
/// machine does not tell.
pub fn worker_count(configured: usize, available: Option<usize>) -> (r: usize)
    ensures
        r == if configured > 0 {
            configured
        } else {
            match available {
                Some(n) => if n < 2 {
                    2
                } else if n > 8 {
                    8
                } else {
                    n
                },
                None => 4,
            }
        },
{
    if configured > 0 {
        return configured;
    }
    match available {
        Some(n) => if n < 2 {
            2
        } else if n > 8 {
            8
        } else {
            n
        },
        None => 4,
    }
}

/// What the scanner has to remember: the next project id and how many
/// directories it has seen.
pub struct Scanner {
    next_id: usize,
    dirs: u64,
}

/// The state of a [`Scanner`].
pub struct ScannerFact {
    pub next_id: nat,
    pub dirs: u64,
}

impl View for Scanner {
    type V = ScannerFact;

    closed spec fn view(&self) -> ScannerFact {
        ScannerFact { next_id: self.next_id as nat, dirs: self.dirs }
    }
}

/// What is announced of the project `id` when it is found.
pub open spec fn found_event(id: nat, candidate: CandidateFact) -> EventFact {
    EventFact::Found(
        ProjectFact {
            last_activity: candidate.last_activity,
            source_files: candidate.source_files,
            ..ProjectFact::fresh(
                id as usize,
                candidate.root,
                candidate.scan_root,
                candidate.types,
            )
        },
    )
}

/// The first job on the project `id`: to resolve its artifacts.
pub open spec fn resolve_job(id: nat, candidate: CandidateFact) -> JobFact {
    JobFact::Resolve { id: id as usize, root: candidate.root, candidates: candidate.artifacts }
}

impl Scanner {
    pub fn new() -> (r: Scanner)
        ensures
            r@ == (ScannerFact { next_id: 0, dirs: 0 }),
    {
        Scanner { next_id: 0, dirs: 0 }
    }

    /// Whether another project can be given an id.
    pub fn can_find(&self) -> (r: bool)
        ensures
            r == (self@.next_id < usize::MAX),
    {
        self.next_id < usize::MAX
    }

    /// A project was found: what to announce and what to queue. Project ids are
    /// handed out in order.
    pub fn found(&mut self, candidate: Candidate) -> (r: (Event, Job))
        requires
            old(self)@.next_id < usize::MAX,
        ensures
            final(self)@ == (ScannerFact { next_id: old(self)@.next_id + 1, ..old(self)@ }),
            r.0@ == found_event(old(self)@.next_id, candidate@),
            r.1@ == resolve_job(old(self)@.next_id, candidate@),
    {
        let id = self.next_id;
        self.next_id = self.next_id + 1;
        let mut project = Project::new(
            id,
            candidate.root.clone(),
            candidate.scan_root,
            candidate.types,
        );
        project.last_activity = candidate.last_activity;
        project.source_files = candidate.source_files;
        let job = Job::Resolve { id, root: candidate.root, candidates: candidate.artifacts };
        (Event::Found(Box::new(project)), job)
    }

    /// A directory was taken up, the `count`th. Progress is advisory and the
    /// walk is much faster than any redraw, so it is announced every so often
    /// instead of per directory.
    pub fn progress(&mut self, count: u64, current: &FsPath) -> (r: Option<Event>)
        ensures
            final(self)@ == (ScannerFact { dirs: count, ..old(self)@ }),
            r is Some <==> count % 16 == 0,
            r matches Some(event) ==> event@ == (EventFact::Progress {
                dirs: count,
                current: current.fact(),
            }),
    {
        self.dirs = count;
        if count % PROGRESS_EVERY == 0 {
            Some(Event::Progress { dirs: count, current: current.clone() })
        } else {
            None
        }
    }

    /// The walk is over: what to announce.
    pub fn finished(&self) -> (r: Event)
        ensures
            r@ == (EventFact::ScanFinished { dirs: self@.dirs }),
    {
        Event::ScanFinished { dirs: self.dirs }
    }
}

/// The pattern that came last with `path`.
pub open spec fn last_pattern(
    candidates: Seq<(Seq<char>, PathFact)>,
    path: PathFact,
) -> Seq<char>
    decreases candidates.len(),
{
    if candidates.len() == 0 {
        seq![]
    } else if candidates.last().1.parts == path.parts {
        candidates.last().0
    } else {
        last_pattern(candidates.drop_last(), path)
    }
}

/// The artifacts at the paths `kept`. A path that occurs again has no pattern.
pub open spec fn artifacts_at(
    kept: Seq<PathFact>,
    candidates: Seq<(Seq<char>, PathFact)>,
) -> Seq<ArtifactFact> {
    Seq::new(
        kept.len(),
        |i: int|
            ArtifactFact {
                path: kept[i],
                pattern: if parts_of(kept).take(i).contains(kept[i].parts) {
                    seq![]
                } else {
                    last_pattern(candidates, kept[i])
                },
                stat: None,
            },
    )
}

/// The artifacts that may be deleted, what git had to say, and the paths that
/// were dropped because git does not ignore them.
pub open spec fn resolution(
    root: PathFact,
    candidates: Seq<(Seq<char>, PathFact)>,
    require_git_ignored: bool,
    verdict: Result<Seq<Seq<char>>, GitStatus>,
) -> (Seq<ArtifactFact>, GitStatus, Seq<PathFact>) {
    let paths = pair_paths(candidates);
    if require_git_ignored {
        let (kept, dropped, git) = partition(root, paths, verdict);
        (artifacts_at(kept, candidates), git, dropped)
    } else {
        (artifacts_at(paths, candidates), GitStatus::Disabled, seq![])
    }
}

/// Where git is asked and answers, every artifact that may be deleted is one
/// that git reported as ignored, none that it did not report is among them, and
/// each candidate is either among the artifacts or among the skipped paths.
pub proof fn law_only_ignored_paths_are_artifacts(
    root: PathFact,
    candidates: Seq<(Seq<char>, PathFact)>,
    ignored: Seq<Seq<char>>,
)
    ensures
        ({
            let (artifacts, git, skipped) = resolution(
                root,
                candidates,
                true,
                Ok::<Seq<Seq<char>>, GitStatus>(ignored),
            );
            &&& git == GitStatus::Ignored
            &&& forall|i: int|
                0 <= i < artifacts.len() ==> ignored.contains(
                    git_name(root, (#[trigger] artifacts[i]).path),
                )
            &&& forall|p: PathFact| #[trigger]
                skipped.contains(p) ==> !ignored.contains(git_name(root, p))
            &&& artifacts.map_values(|a: ArtifactFact| a.path).to_multiset().add(
                skipped.to_multiset(),
            ) == pair_paths(candidates).to_multiset()
        }),
{
    let verdict = Ok::<Seq<Seq<char>>, GitStatus>(ignored);
    let paths = pair_paths(candidates);
    let (kept, dropped, git) = partition(root, paths, verdict);
    law_partition(root, paths, verdict);
    let artifacts = artifacts_at(kept, candidates);
    assert forall|i: int| 0 <= i < artifacts.len() implies ignored.contains(
        git_name(root, (#[trigger] artifacts[i]).path),
    ) by {
        assert(kept.contains(kept[i]));
    }
    assert(artifacts.map_values(|a: ArtifactFact| a.path) =~= kept);
}

fn paths_of(candidates: &Vec<(String, FsPath)>) -> (r: Vec<FsPath>)
    ensures
        path_facts(r@) == pair_paths(pair_views(candidates@)),
{
    let ghost all = pair_paths(pair_views(candidates@));
    let mut out: Vec<FsPath> = Vec::new();
    let mut i: usize = 0;
    while i < candidates.len()
        invariant
            0 <= i <= candidates.len(),
            all == pair_paths(pair_views(candidates@)),
            path_facts(out@) =~= all.take(i as int),
        decreases candidates.len() - i,
    {
        let path = candidates[i].1.clone();
        proof {
            lemma_path_facts_push(out@, path);
        }
        out.push(path);
        i = i + 1;
    }
    assert(all.take(all.len() as int) =~= all);
    out
}

fn pattern_of(candidates: &Vec<(String, FsPath)>, path: &FsPath) -> (r: String)
    ensures
        r@ == last_pattern(pair_views(candidates@), path.fact()),
{
    let ghost all = pair_views(candidates@);
    let mut i: usize = candidates.len();
    assert(all.take(all.len() as int) =~= all);
    while i > 0
        invariant
            0 <= i <= candidates.len(),
            all == pair_views(candidates@),
            last_pattern(all, path.fact()) == last_pattern(all.take(i as int), path.fact()),
        decreases i,
    {
        assert(all.take(i as int).drop_last() =~= all.take(i - 1));
        assert(all.take(i as int).last() == (candidates@[i - 1].0@, candidates@[i - 1].1.fact()));
        if candidates[i - 1].1.same(path) {
            return candidates[i - 1].0.clone();
        }
        i = i - 1;
    }
    let none = String::new();
    assert(none@ =~= seq![]);
    none
}

/// Turn candidate paths into the artifacts we are allowed to delete, given git's
/// verdict on their names.
pub fn resolve(
    root: &FsPath,
    candidates: Vec<(String, FsPath)>,
    require_git_ignored: bool,
    verdict: Result<Vec<String>, GitStatus>,
) -> (r: (Vec<Artifact>, GitStatus, Vec<FsPath>))
    ensures
        (artifact_views(r.0@), r.1, path_facts(r.2@)) == resolution(
            root.fact(),
            pair_views(candidates@),
            require_git_ignored,
            verdict_view(verdict),
        ),
{
    let ghost all = pair_views(candidates@);
    let paths = paths_of(&candidates);
    let (kept, skipped, git) = if require_git_ignored {
        partition_ignored(root, paths, verdict)
    } else {
        let none: Vec<FsPath> = Vec::new();
        assert(path_facts(none@) =~= seq![]);
        (paths, none, GitStatus::Disabled)
    };
    let ghost goal = artifacts_at(path_facts(kept@), all);
    let mut artifacts: Vec<Artifact> = Vec::new();
    let mut i: usize = 0;
    while i < kept.len()
        invariant
            0 <= i <= kept.len(),
            all == pair_views(candidates@),
            goal == artifacts_at(path_facts(kept@), all),
            artifact_views(artifacts@) =~= goal.take(i as int),
        decreases kept.len() - i,
    {
        let path = kept[i].clone();
        let mut seen = false;
        let mut k: usize = 0;
        while k < i
            invariant
                0 <= k <= i < kept.len(),
                path.fact() == kept@[i as int].fact(),
                seen == parts_of(path_facts(kept@)).take(k as int).contains(path@),
            decreases i - k,
        {
            let ghost views = parts_of(path_facts(kept@));
            assert(views.take(k + 1) =~= views.take(k as int).push(views[k as int]));
            if kept[k].same(&path) {
                seen = true;
            }
            proof {
                lemma_push_contains(views.take(k as int), views[k as int], path@);
            }
            k = k + 1;
        }
        let pattern = if seen {
            let none = String::new();
            assert(none@ =~= seq![]);
            none
        } else {
            pattern_of(&candidates, &path)
        };
        let artifact = Artifact { path, pattern, stat: None };
        proof {
            assert(goal[i as int] == artifact@);
            lemma_artifact_views_push(artifacts@, artifact);
        }
        artifacts.push(artifact);
        i = i + 1;
    }
    assert(goal.take(goal.len() as int) =~= goal);
    (artifacts, git, skipped)
}

/// What a worker does outside the library before a job can be concluded.
#[derive(Debug, PartialEq, Eq)]
pub enum Errand {
    /// Finish the job and stop working: the pipeline is shutting down.
    Stop,
    /// Nothing; no verdict of git is needed.
    Nothing,
    /// Run `git -C <root> check-ignore --stdin -z` on this input.
    AskGit { root: FsPath, input: Vec<u8> },
    /// Measure the path.
    Measure { path: FsPath },
    /// Announce that cleaning starts, and delete the paths.
    Delete { id: ProjectId, root: FsPath, paths: Vec<FsPath> },
}

/// The errand that a job calls for.
pub open spec fn is_errand(job: JobFact, cancelled: bool, require_git_ignored: bool, errand: Errand) -> bool {
    if cancelled {
        errand is Stop
    } else {
        match job {
            JobFact::Resolve { id, root, candidates } => if require_git_ignored
                && candidates.len() > 0 {
                errand matches Errand::AskGit { root: r, input } && r.fact() == root && input@ == framed(
                    git_names(root, pair_paths(candidates)),
                )
            } else {
                errand is Nothing
            },
            JobFact::Size { path, .. } => errand matches Errand::Measure { path: p } && p.fact() == path,
            JobFact::Clean { id, root, paths } => errand matches Errand::Delete {
                id: i,
                root: r,
                paths: p,
            } && i == id && r.fact() == root && path_facts(p@) == paths,
        }
    }
}

/// What a worker that has taken up `job` does first.
pub fn errand_for(job: &Job, cancelled: bool, require_git_ignored: bool) -> (r: Errand)
    ensures
        is_errand(job@, cancelled, require_git_ignored, r),
{
    if cancelled {
        return Errand::Stop;
    }
    match job {
        Job::Resolve { root, candidates, .. } => {
            if require_git_ignored && candidates.len() > 0 {
                let paths = paths_of(candidates);
                let names = relative_names(root, &paths);
                Errand::AskGit { root: root.clone(), input: check_ignore_input(&names) }
            } else {
                Errand::Nothing
            }
        },
        Job::Size { path, .. } => Errand::Measure { path: path.clone() },
        Job::Clean { id, root, paths } => Errand::Delete {
            id: *id,
            root: root.clone(),
            paths: clone_paths(paths),
        },
    }
}

/// One measuring job for each artifact, in order.
pub open spec fn size_jobs(id: ProjectId, artifacts: Seq<ArtifactFact>) -> Seq<JobFact> {
    Seq::new(
        artifacts.len(),
        |i: int| JobFact::Size { id, index: i as usize, path: artifacts[i].path },
    )
}

/// What came of an errand.
pub enum Answer {
    Git(Result<Seq<Seq<char>>, GitStatus>),
    Size(StatFact),
    Deletion { freed: u64, errors: Seq<Seq<char>> },
}

/// What is announced of a job once its errand is run, and what is queued then.
pub open spec fn conclusion(job: JobFact, require_git_ignored: bool, answer: Answer) -> Option<
    (EventFact, Seq<JobFact>),
> {
    match (job, answer) {
        (JobFact::Resolve { id, root, candidates }, Answer::Git(verdict)) => {
            let (artifacts, git, skipped) = resolution(
                root,
                candidates,
                require_git_ignored,
                verdict,
            );
            Some(
                (
                    EventFact::Artifacts { id, artifacts, git, skipped },
                    size_jobs(id, artifacts),
                ),
            )
        },
        (JobFact::Size { id, index, .. }, Answer::Size(stat)) => Some(
            (EventFact::Sized { id, index, stat }, seq![]),
        ),
        (JobFact::Clean { id, .. }, Answer::Deletion { freed, errors }) => Some(
            (EventFact::CleanFinished { id, freed, errors }, seq![]),
        ),
        _ => None,
    }
}

/// A project's candidates have been put to git, or need not be: what to
/// announce, and then what to queue. The measurements are queued only after the
/// consumer knows how many artifacts to expect, so it can tell when a project
/// is done.
pub fn conclude_resolve(
    id: ProjectId,
    root: &FsPath,
    candidates: Vec<(String, FsPath)>,
    require_git_ignored: bool,
    verdict: Result<Vec<String>, GitStatus>,
) -> (r: (Event, Vec<Job>))
    ensures
        conclusion(
            (JobFact::Resolve { id, root: root.fact(), candidates: pair_views(candidates@) }),
            require_git_ignored,
            Answer::Git(verdict_view(verdict)),
        ) == Some((r.0@, job_views(r.1@))),
{
    let (artifacts, git, skipped) = resolve(root, candidates, require_git_ignored, verdict);
    let ghost goal = size_jobs(id, artifact_views(artifacts@));
    let mut jobs: Vec<Job> = Vec::new();
    let mut index: usize = 0;
    while index < artifacts.len()
        invariant
            0 <= index <= artifacts.len(),
            goal == size_jobs(id, artifact_views(artifacts@)),
            job_views(jobs@) =~= goal.take(index as int),
        decreases artifacts.len() - index,
    {
        let job = Job::Size { id, index, path: artifacts[index].path.clone() };
        let ghost before = jobs@;
        jobs.push(job);
        proof {
            assert(goal[index as int] == job@);
            assert(job_views(jobs@) =~= job_views(before).push(job@));
        }
        index = index + 1;
    }
    assert(goal.take(goal.len() as int) =~= goal);
    (Event::Artifacts { id, artifacts, git, skipped }, jobs)
}

/// An artifact was measured: what to announce.
pub fn conclude_size(id: ProjectId, index: usize, stat: DirStat) -> (r: Event)
    ensures
        r@ == (EventFact::Sized { id, index, stat: stat@ }),
        forall|path: PathFact, checked: bool| #[trigger]
            conclusion(
                (JobFact::Size { id, index, path }),
                checked,
                Answer::Size(stat@),
            ) == Some((r@, Seq::<JobFact>::empty())),
{
    Event::Sized { id, index, stat }
}

/// The artifacts of a project were deleted: what to announce.
pub fn conclude_clean(id: ProjectId, outcome: Outcome) -> (r: Event)
    ensures
        r@ == (EventFact::CleanFinished { id, freed: outcome.freed, errors: outcome@.errors }),
        forall|root: PathFact, paths: Seq<PathFact>, checked: bool| #[trigger]
            conclusion(
                (JobFact::Clean { id, root, paths }),
                checked,
                (Answer::Deletion { freed: outcome.freed, errors: outcome@.errors }),
            ) == Some((r@, Seq::<JobFact>::empty())),
{
    Event::CleanFinished { id, freed: outcome.freed, errors: outcome.errors }
}

/// Where git is not asked, or does not answer, every candidate is an artifact and none
/// is skipped; it shows in the status. An artifact is not measured yet, and where no
/// other candidate has its path it stands with the pattern that found it.
pub proof fn law_candidates_become_artifacts(
    root: PathFact,
    candidates: Seq<(Seq<char>, PathFact)>,
    checked: bool,
    verdict: Result<Seq<Seq<char>>, GitStatus>,
    i: int,
)
    ensures
        ({
            let (artifacts, git, skipped) = resolution(root, candidates, checked, verdict);
            &&& !checked || verdict is Err ==> artifacts.len() == candidates.len() && skipped.len()
                == 0
            &&& !checked ==> git == GitStatus::Disabled
            &&& checked && candidates.len() > 0 ==> (verdict matches Err(status) ==> git == status)
            &&& 0 <= i < artifacts.len() ==> artifacts[i].stat is None
            &&& (!checked || verdict is Err) && 0 <= i < candidates.len() ==> {
                &&& artifacts[i].path == candidates[i].1
                &&& (forall|j: int|
                    0 <= j < candidates.len() && j != i ==> (#[trigger] candidates[j]).1.parts
                        != candidates[i].1.parts) ==> artifacts[i].pattern == candidates[i].0
            }
        }),
{
    let paths = pair_paths(candidates);
    if 0 <= i < candidates.len() && forall|j: int|
        0 <= j < candidates.len() && j != i ==> (#[trigger] candidates[j]).1.parts
            != candidates[i].1.parts {
        assert(paths[i] == candidates[i].1);
        assert(!parts_of(paths).take(i).contains(paths[i].parts)) by {
            if parts_of(paths).take(i).contains(paths[i].parts) {
                let j = choose|j: int|
                    0 <= j < i && parts_of(paths).take(i)[j] == paths[i].parts;
                assert(candidates[j].1.parts == candidates[i].1.parts);
            }
        }
        lemma_only_pattern(candidates, i);
    }
}

proof fn lemma_only_pattern(candidates: Seq<(Seq<char>, PathFact)>, i: int)
    requires
        0 <= i < candidates.len(),
        forall|j: int|
            i < j < candidates.len() ==> (#[trigger] candidates[j]).1.parts
                != candidates[i].1.parts,
    ensures
        last_pattern(candidates, candidates[i].1) == candidates[i].0,
    decreases candidates.len(),
{
    if i < candidates.len() - 1 {
        let init = candidates.drop_last();
        assert(candidates[candidates.len() - 1] == candidates.last());
        assert forall|j: int| i < j < init.len() implies (#[trigger] init[j]).1.parts
            != init[i].1.parts by {
            assert(init[j] == candidates[j]);
        }
        lemma_only_pattern(init, i);
    }
}

/// Each artifact gets one measuring job, of its own path.
pub proof fn law_each_artifact_is_measured(id: ProjectId, artifacts: Seq<ArtifactFact>, i: int)
    requires
        0 <= i < artifacts.len(),
    ensures
        size_jobs(id, artifacts).len() == artifacts.len(),
        size_jobs(id, artifacts)[i] == (JobFact::Size {
            id,
            index: i as usize,
            path: artifacts[i].path,
        }),
{
}

/// Jobs wait their turn, urgent ones do not; each is outstanding from when it is queued
/// until it is finished. A closed queue takes none and holds none.
pub proof fn law_jobs_wait_their_turn(q: QueueFact, job: JobFact)
    ensures
        !q.closed ==> q.pushed(job, false).jobs == q.jobs.push(job) && q.pushed(job, true).jobs[0]
            == job && q.pushed(job, true).jobs.skip(1) == q.jobs && q.pushed(job, false).pending
            == q.pending + 1 && q.pushed(job, true).pending == q.pending + 1,
        q.closed ==> q.pushed(job, false) == q && q.pushed(job, true) == q,
        q.shut().closed && q.shut().jobs.len() == 0,
        q.popped().pending == q.pending,
        q.pending > 0 ==> q.finished().pending == q.pending - 1,
        q.is_idle() <==> q.closed || (!q.scanning && q.pending == 0),
{
    assert((seq![job] + q.jobs).skip(1) =~= q.jobs);
}

/// What a worker does with a job: git is asked about every candidate, by name, wherever
/// only ignored paths may go and there is a candidate at all; an artifact is measured at
/// its path; a deletion concerns all its paths; and once work is cancelled nothing is done.
pub proof fn law_errands_serve_the_job(job: JobFact, cancelled: bool, checked: bool, errand: Errand)
    requires
        is_errand(job, cancelled, checked, errand),
    ensures
        cancelled <==> errand is Stop,
        !cancelled ==> match job {
            JobFact::Resolve { root, candidates, .. } => if checked && candidates.len() > 0 {
                errand matches Errand::AskGit { root: at, input } && at.fact() == root && input@
                    == framed(
                    candidates.map_values(
                        |c: (Seq<char>, PathFact)| c.1.relative_to(root).shown(),
                    ),
                )
            } else {
                errand is Nothing
            },
            JobFact::Size { path, .. } => errand matches Errand::Measure { path: p } && p.fact()
                == path,
            JobFact::Clean { id, root, paths } => errand matches Errand::Delete {
                id: i,
                root: r,
                paths: p,
            } && i == id && r.fact() == root && path_facts(p@) == paths,
        },
{
    if let JobFact::Resolve { root, candidates, .. } = job {
        assert(git_names(root, pair_paths(candidates)) =~= candidates.map_values(
            |c: (Seq<char>, PathFact)| c.1.relative_to(root).shown(),
        ));
    }
}

/// What comes of a job is announced for its own project, and only the resolving of a
/// project brings more jobs: one for each of its artifacts.
pub proof fn law_conclusions_belong_to_the_job(job: JobFact, checked: bool, answer: Answer)
    ensures
        conclusion(job, checked, answer) matches Some((event, next)) ==> match (job, answer) {
            (JobFact::Resolve { id, .. }, _) => (event matches EventFact::Artifacts {
                id: i,
                artifacts,
                ..
            } && i == id && next.len() == artifacts.len()),
            (JobFact::Size { id, index, .. }, Answer::Size(stat)) => event == (EventFact::Sized {
                id,
                index,
                stat,
            }) && next.len() == 0,
            (JobFact::Clean { id, .. }, Answer::Deletion { freed, errors }) => event == (
            EventFact::CleanFinished { id, freed, errors }) && next.len() == 0,
            _ => false,
        },
        job is Resolve && answer is Git ==> conclusion(job, checked, answer) is Some,
        job is Size && answer is Size ==> conclusion(job, checked, answer) is Some,
        job is Clean && answer is Deletion ==> conclusion(job, checked, answer) is Some,
{
}

/// A project that was found is announced with all that was found out about it, under the
/// next id, and its candidates are resolved under the same id.
pub proof fn law_found_projects_are_announced(id: nat, c: CandidateFact)
    requires
        id <= usize::MAX,
    ensures
        found_event(id, c) matches EventFact::Found(p) && p.id == id && p.root == c.root
            && p.scan_root == c.scan_root && p.types == c.types && p.last_activity
            == c.last_activity && p.source_files == c.source_files && p.artifacts.len() == 0
            && !p.resolved && p.git == GitStatus::Pending,
        resolve_job(id, c) matches JobFact::Resolve { id: i, root, candidates } && i == id && root
            == c.root && candidates == c.artifacts,
{
}

} // verus!
