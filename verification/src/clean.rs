//! Deleting artifacts, with the guard rails that make that acceptable.

use vstd::prelude::*;

use crate::glob::lemma_push_contains;
use crate::path::{
    dot_dot_part, lemma_path_facts_push, name_count, path_facts, within, FsPath, PathFact,
};
use crate::places::home_dir;
use crate::project::opt_path;
use crate::text::{lemma_texts_push, texts};

verus! {

#[derive(Debug, PartialEq, Eq)]
pub struct Outcome {
    pub freed: u64,
    pub removed: Vec<FsPath>,
    pub errors: Vec<String>,
}

/// What an [`Outcome`] says.
pub struct OutcomeFact {
    pub freed: nat,
    pub removed: Seq<PathFact>,
    pub errors: Seq<Seq<char>>,
}

impl View for Outcome {
    type V = OutcomeFact;

    open spec fn view(&self) -> OutcomeFact {
        OutcomeFact {
            freed: self.freed as nat,
            removed: path_facts(self.removed@),
            errors: texts(self.errors@),
        }
    }
}

impl OutcomeFact {
    /// Nothing has happened.
    pub open spec fn none() -> OutcomeFact {
        OutcomeFact { freed: 0, removed: seq![], errors: seq![] }
    }

    pub open spec fn with_error(self, message: Seq<char>) -> OutcomeFact {
        OutcomeFact { errors: self.errors.push(message), ..self }
    }

    pub open spec fn with_removed(self, path: PathFact, freed: nat) -> OutcomeFact {
        OutcomeFact { freed: self.freed + freed, removed: self.removed.push(path), ..self }
    }
}

impl Default for Outcome {
    fn default() -> (r: Outcome)
        ensures
            r@ == OutcomeFact::none(),
    {
        let r = Outcome { freed: 0, removed: Vec::new(), errors: Vec::new() };
        assert(path_facts(r.removed@) =~= seq![] && texts(r.errors@) =~= seq![]);
        r
    }
}

/// Reasons a target is refused before any deletion happens. The last is found
/// out on disk; the others show in the paths.
#[derive(Debug, Clone, Copy, PartialEq, Eq, Structural)]
pub enum Refusal {
    RootTooShallow,
    RootIsHome,
    NotInsideRoot,
    IsRoot,
    BehindLink,
}

impl Refusal {
    /// The wording for the target `path`.
    pub open spec fn wording(self, path: Seq<char>) -> Seq<char> {
        match self {
            Refusal::RootTooShallow => "refusing to touch "@ + path
                + ": project root is too close to the filesystem root"@,
            Refusal::RootIsHome => "refusing to touch "@ + path
                + ": project root is the home directory"@,
            Refusal::NotInsideRoot => "refusing to delete "@ + path + ": outside its project root"@,
            Refusal::IsRoot => "refusing to delete "@ + path + ": it is the project root itself"@,
            Refusal::BehindLink => "refusing to delete "@ + path + ": behind a symbolic link"@,
        }
    }

    pub fn message(&self, target: &FsPath) -> (r: String)
        ensures
            r@ == self.wording(target.fact().shown()),
    {
        let (before, after) = match self {
            Refusal::RootTooShallow => (
                "refusing to touch ",
                ": project root is too close to the filesystem root",
            ),
            Refusal::RootIsHome => ("refusing to touch ", ": project root is the home directory"),
            Refusal::NotInsideRoot => ("refusing to delete ", ": outside its project root"),
            Refusal::IsRoot => ("refusing to delete ", ": it is the project root itself"),
            Refusal::BehindLink => ("refusing to delete ", ": behind a symbolic link"),
        };
        let mut out = before.to_owned();
        out.append(target.to_text().as_str());
        out.append(after);
        out
    }
}

/// Why `target` must not be deleted for the project `root`, if so, with `home`
/// as the home directory.
pub open spec fn refusal(
    root: Seq<Seq<u8>>,
    target: Seq<Seq<u8>>,
    home: Option<Seq<Seq<u8>>>,
) -> Option<Refusal> {
    if name_count(root) < 2 {
        Some(Refusal::RootTooShallow)
    } else if home == Some(root) {
        Some(Refusal::RootIsHome)
    } else if target == root {
        Some(Refusal::IsRoot)
    } else if !within(target, root) || target.contains(dot_dot_part()) {
        Some(Refusal::NotInsideRoot)
    } else {
        None
    }
}

/// A checked target lies strictly below its root and is reached without
/// climbing; the root is neither the home directory nor close to the root of
/// the file system.
pub proof fn law_checked_target_is_inside(
    root: Seq<Seq<u8>>,
    target: Seq<Seq<u8>>,
    home: Option<Seq<Seq<u8>>>,
)
    requires
        refusal(root, target, home) is None,
    ensures
        within(target, root),
        target.len() > root.len(),
        !target.contains(dot_dot_part()),
        name_count(root) >= 2,
        home != Some(root),
        home matches Some(dir) ==> within(dir, root) ==> dir.len() > root.len(),
{
    if target.len() == root.len() {
        assert(target.take(root.len() as int) =~= target);
    }
    if let Some(dir) = home {
        if within(dir, root) && dir.len() == root.len() {
            assert(dir.take(root.len() as int) =~= dir);
        }
    }
}

/// The checks refuse nothing else: whatever lies below a root that is deep enough
/// and not the home directory, however far below it, passes them, unless it is
/// reached by climbing.
pub proof fn law_nothing_else_is_refused(
    root: Seq<Seq<u8>>,
    rest: Seq<Seq<u8>>,
    home: Option<Seq<Seq<u8>>>,
)
    requires
        name_count(root) >= 2,
        home != Some(root),
        rest.len() > 0,
        forall|i: int| 0 <= i < root.len() ==> #[trigger] root[i] != seq![46u8, 46u8],
        forall|i: int| 0 <= i < rest.len() ==> #[trigger] rest[i] != seq![46u8, 46u8],
    ensures
        refusal(root, root + rest, home) is None,
{
    let target = root + rest;
    assert(target.take(root.len() as int) =~= root);
    assert(target.len() > root.len());
    if target.contains(dot_dot_part()) {
        let k = choose|k: int| 0 <= k < target.len() && target[k] == dot_dot_part();
        if k < root.len() {
            assert(root[k] == target[k]);
        } else {
            assert(rest[k - root.len()] == target[k]);
        }
    }
}

/// Every refusal has its reason, and the reason comes first that concerns the
/// root.
pub proof fn law_refusals_have_reasons(
    root: Seq<Seq<u8>>,
    target: Seq<Seq<u8>>,
    home: Option<Seq<Seq<u8>>>,
)
    ensures
        refusal(root, target, home) == Some(Refusal::RootTooShallow) <==> name_count(root) < 2,
        refusal(root, target, home) == Some(Refusal::RootIsHome) <==> name_count(root) >= 2
            && home == Some(root),
        refusal(root, target, home) == Some(Refusal::IsRoot) <==> name_count(root) >= 2 && home
            != Some(root) && target == root,
        refusal(root, target, home) == Some(Refusal::NotInsideRoot) ==> target.contains(
            seq![46u8, 46u8],
        ) || forall|rest: Seq<Seq<u8>>| target != #[trigger] (root + rest),
        refusal(root, target, home) != Some(Refusal::BehindLink),
{
    if !within(target, root) {
        assert forall|rest: Seq<Seq<u8>>| target != #[trigger] (root + rest) by {
            assert((root + rest).take(root.len() as int) =~= root);
        }
    }
}

/// What lies between a root and a checked target, or is the target, passes the
/// checks too.
proof fn lemma_way_is_checked(
    root: Seq<Seq<u8>>,
    target: Seq<Seq<u8>>,
    home: Option<Seq<Seq<u8>>>,
    n: int,
)
    requires
        refusal(root, target, home) is None,
        root.len() < n <= target.len(),
    ensures
        refusal(root, target.take(n), home) is None,
{
    let part = target.take(n);
    assert(part.take(root.len() as int) =~= target.take(root.len() as int));
    if part.contains(dot_dot_part()) {
        let k = choose|k: int| 0 <= k < part.len() && part[k] == dot_dot_part();
        assert(target[k] == dot_dot_part());
    }
}

/// The view of a check's outcome.
pub open spec fn refused(r: Result<(), Refusal>) -> Option<Refusal> {
    match r {
        Ok(_) => None,
        Err(refusal) => Some(refusal),
    }
}

/// Verify that `target` is a sane thing to delete for project `root`, with
/// `home` as the home directory.
pub fn check_against(root: &FsPath, target: &FsPath, home: &Option<FsPath>) -> (r: Result<
    (),
    Refusal,
>)
    ensures
        refused(r) == refusal(root@, target@, opt_path(*home)),
{
    if root.name_count() < 2 {
        return Err(Refusal::RootTooShallow);
    }
    if let Some(home) = home {
        if home.same(root) {
            return Err(Refusal::RootIsHome);
        }
    }
    if target.same(root) {
        return Err(Refusal::IsRoot);
    }
    // Both paths come from the scanner, which canonicalises roots and builds
    // targets by joining plain components, so a prefix test is sufficient.
    if !target.within(root) || target.climbs() {
        return Err(Refusal::NotInsideRoot);
    }
    Ok(())
}

/// Verify that `target` is a sane thing to delete for project `root`.
///
/// The checks are deliberately paranoid: a bad configuration entry or a crafted
/// symlink must not turn this tool into `rm -rf ~`.
pub fn check(root: &FsPath, target: &FsPath) -> (r: Result<(), Refusal>)
    ensures
        exists|home: Option<Seq<Seq<u8>>>| refused(r) == #[trigger] refusal(root@, target@, home),
{
    check_against(root, target, &home_dir())
}

/// Something to be done to a path.
#[derive(Debug, PartialEq, Eq)]
pub enum Deed {
    /// Find out what is there. Links are not followed.
    Inspect(FsPath),
    /// Measure the directory.
    Measure(FsPath),
    /// Delete the directory and everything below it.
    RemoveTree(FsPath),
    /// Delete the file, or the link itself.
    RemoveFile(FsPath),
}

/// What a [`Deed`] is.
pub enum DeedFact {
    Inspect(Seq<Seq<u8>>),
    Measure(Seq<Seq<u8>>),
    RemoveTree(Seq<Seq<u8>>),
    RemoveFile(Seq<Seq<u8>>),
}

impl View for Deed {
    type V = DeedFact;

    open spec fn view(&self) -> DeedFact {
        match *self {
            Deed::Inspect(p) => DeedFact::Inspect(p@),
            Deed::Measure(p) => DeedFact::Measure(p@),
            Deed::RemoveTree(p) => DeedFact::RemoveTree(p@),
            Deed::RemoveFile(p) => DeedFact::RemoveFile(p@),
        }
    }
}

impl Deed {
    /// The path that it is done to.
    pub open spec fn target(self) -> PathFact {
        match self {
            Deed::Inspect(p) => p.fact(),
            Deed::Measure(p) => p.fact(),
            Deed::RemoveTree(p) => p.fact(),
            Deed::RemoveFile(p) => p.fact(),
        }
    }
}

impl DeedFact {
    /// The deed treats its path as a directory with everything in it.
    pub open spec fn is_on_tree(self) -> bool {
        self is Measure || self is RemoveTree
    }

    pub open spec fn path(self) -> Seq<Seq<u8>> {
        match self {
            DeedFact::Inspect(p) => p,
            DeedFact::Measure(p) => p,
            DeedFact::RemoveTree(p) => p,
            DeedFact::RemoveFile(p) => p,
        }
    }
}

/// What came of a [`Deed`].
#[derive(Debug, PartialEq, Eq)]
pub enum Report {
    /// Nothing is there.
    Missing,
    /// Something is there.
    Present { is_dir: bool, is_link: bool },
    /// What the directory occupies.
    Measured { bytes: u64 },
    /// It is gone.
    Removed,
    /// It could not be deleted, for this reason.
    Failed { reason: String },
}

/// What has been found out about the path that is being dealt with.
#[derive(Debug, Clone, Copy, PartialEq, Eq, Structural)]
enum Stage {
    Fresh,
    Approach { known: usize, tree: bool },
    IsTree,
    Doomed { tree: bool, freed: u64 },
}

/// What has been found out about the path that is being dealt with.
pub enum StageFact {
    /// Nothing yet.
    Fresh,
    /// It is there, as a directory that is no link or as something else. What its
    /// first `known` components lead to is the root, or a directory below it that
    /// is no link, and so is all that lies between.
    Approach { known: nat, tree: bool },
    /// It is a directory that is no link, and so is all on the way to it.
    IsTree,
    /// It is to be deleted, as a tree or as a file, and occupies `freed` bytes.
    Doomed { tree: bool, freed: u64 },
}

impl View for Stage {
    type V = StageFact;

    closed spec fn view(&self) -> StageFact {
        match *self {
            Stage::Fresh => StageFact::Fresh,
            Stage::Approach { known, tree } => StageFact::Approach { known: known as nat, tree },
            Stage::IsTree => StageFact::IsTree,
            Stage::Doomed { tree, freed } => StageFact::Doomed { tree, freed },
        }
    }
}

/// How far a deletion has come.
pub struct RemovalFact {
    pub root: Seq<Seq<u8>>,
    pub home: Option<Seq<Seq<u8>>>,
    /// The paths still to be dealt with, in order.
    pub todo: Seq<PathFact>,
    /// How far the first of them is.
    pub stage: StageFact,
    pub outcome: OutcomeFact,
}

impl RemovalFact {
    /// The next path may be deleted, as far as its components tell.
    pub open spec fn is_safe(self) -> bool {
        self.todo.len() > 0 ==> {
            &&& refusal(self.root, self.todo[0].parts, self.home) is None
            &&& self.stage matches StageFact::Approach { known, .. } ==> self.root.len() <= known
                && known + 1 < self.todo[0].parts.len()
        }
    }

    /// Refused paths are passed over, each with its message.
    pub open spec fn settled(self) -> RemovalFact
        decreases self.todo.len(),
    {
        if self.todo.len() == 0 {
            self
        } else {
            match refusal(self.root, self.todo[0].parts, self.home) {
                Some(why) => RemovalFact {
                    todo: self.todo.skip(1),
                    outcome: self.outcome.with_error(why.wording(self.todo[0].shown())),
                    ..self
                }.settled(),
                None => self,
            }
        }
    }

    /// The first path is taken off the list.
    pub open spec fn without_first(self, outcome: OutcomeFact) -> RemovalFact {
        RemovalFact {
            todo: self.todo.skip(1),
            stage: StageFact::Fresh,
            outcome,
            ..self
        }
    }

    /// The first path is dealt with.
    pub open spec fn past(self, outcome: OutcomeFact) -> RemovalFact {
        self.without_first(outcome).settled()
    }

    /// The path is there, and the directories that its first `known` components
    /// lead through are looked at: the next is the turn of the one below them, or
    /// of the path itself. Only a real directory is measured and deleted as a
    /// tree; what a file or a link occupies is not counted.
    pub open spec fn approached(self, known: nat, tree: bool) -> RemovalFact {
        RemovalFact {
            stage: if known + 1 < self.todo[0].parts.len() {
                StageFact::Approach { known, tree }
            } else if tree {
                StageFact::IsTree
            } else {
                StageFact::Doomed { tree: false, freed: 0 }
            },
            ..self
        }
    }

    /// What is to be done next. First the path is looked at, then the directories
    /// on the way to it, from the root down.
    pub open spec fn deed(self) -> Option<DeedFact> {
        if self.todo.len() == 0 {
            None
        } else {
            Some(
                match self.stage {
                    StageFact::Fresh => DeedFact::Inspect(self.todo[0].parts),
                    StageFact::Approach { known, .. } => DeedFact::Inspect(
                        self.todo[0].parts.take(known as int + 1),
                    ),
                    StageFact::IsTree => DeedFact::Measure(self.todo[0].parts),
                    StageFact::Doomed { tree: true, .. } => DeedFact::RemoveTree(self.todo[0].parts),
                    StageFact::Doomed { tree: false, .. } => DeedFact::RemoveFile(self.todo[0].parts),
                },
            )
        }
    }

    /// `report` tells what came of the next deed.
    pub open spec fn expects(self, report: Report) -> bool {
        match self.deed() {
            None => false,
            Some(DeedFact::Inspect(_)) => report is Missing || report is Present,
            Some(DeedFact::Measure(_)) => report is Measured,
            Some(_) => report is Removed || report is Failed,
        }
    }

    /// The total stays within a machine integer.
    pub open spec fn has_room(self, report: Report) -> bool {
        match (self.stage, report) {
            (StageFact::Doomed { freed, .. }, Report::Removed) => self.outcome.freed + freed
                <= u64::MAX,
            _ => true,
        }
    }

    /// What is on the way to the path is there: a link is refused, and behind what
    /// is no directory there is nothing to delete.
    pub open spec fn after_passage(
        self,
        known: nat,
        tree: bool,
        is_dir: bool,
        is_link: bool,
    ) -> RemovalFact {
        if is_link {
            self.past(
                self.outcome.with_error(Refusal::BehindLink.wording(self.todo[0].shown())),
            )
        } else if is_dir {
            self.approached(known + 1, tree)
        } else {
            self.past(self.outcome)
        }
    }

    /// The next deed was done and this came of it. A missing path is passed
    /// over, whatever is on the way to it.
    pub open spec fn after(self, report: Report) -> RemovalFact {
        match (self.stage, report) {
            (StageFact::Fresh, Report::Missing) => self.past(self.outcome),
            (StageFact::Fresh, Report::Present { is_dir, is_link }) => self.approached(
                self.root.len(),
                is_dir && !is_link,
            ),
            (StageFact::Approach { .. }, Report::Missing) => self.past(self.outcome),
            (
                StageFact::Approach { known, tree },
                Report::Present { is_dir, is_link },
            ) => self.after_passage(known, tree, is_dir, is_link),
            (StageFact::IsTree, Report::Measured { bytes }) => RemovalFact {
                stage: StageFact::Doomed { tree: true, freed: bytes },
                ..self
            },
            (StageFact::Doomed { freed, .. }, Report::Removed) => self.past(
                self.outcome.with_removed(self.todo[0], freed as nat),
            ),
            (StageFact::Doomed { .. }, Report::Failed { reason }) => self.past(
                self.outcome.with_error(self.todo[0].shown() + ": "@ + reason@),
            ),
            _ => self,
        }
    }
}

/// Nothing has been looked at yet.
pub open spec fn removal_begun(
    root: Seq<Seq<u8>>,
    paths: Seq<PathFact>,
    home: Option<Seq<Seq<u8>>>,
) -> RemovalFact {
    RemovalFact {
        root,
        home,
        todo: paths,
        stage: StageFact::Fresh,
        outcome: OutcomeFact::none(),
    }
}

/// The state in which a deletion starts.
pub open spec fn removal_start(
    root: Seq<Seq<u8>>,
    paths: Seq<PathFact>,
    home: Option<Seq<Seq<u8>>>,
) -> RemovalFact {
    removal_begun(root, paths, home).settled()
}

/// A deletion on its way: it asks for one deed at a time.
pub struct Removal {
    root: FsPath,
    home: Option<FsPath>,
    paths: Vec<FsPath>,
    at: usize,
    stage: Stage,
    outcome: Outcome,
}

impl View for Removal {
    type V = RemovalFact;

    closed spec fn view(&self) -> RemovalFact {
        RemovalFact {
            root: self.root@,
            home: opt_path(self.home),
            todo: path_facts(self.paths@).skip(self.at as int),
            stage: self.stage@,
            outcome: self.outcome@,
        }
    }
}

/// Delete every path, collecting what was freed and what failed, with `home` as
/// the home directory.
pub fn remove_all_from(root: &FsPath, paths: Vec<FsPath>, home: Option<FsPath>) -> (r: Removal)
    ensures
        r.is_valid(),
        r@ == removal_start(root@, path_facts(paths@), opt_path(home)),
{
    let mut removal = Removal {
        root: root.clone(),
        home,
        paths,
        at: 0,
        stage: Stage::Fresh,
        outcome: Outcome::default(),
    };
    assert(path_facts(paths@).skip(0) =~= path_facts(paths@));
    removal.settle();
    removal
}

/// Delete every path, collecting what was freed and what failed.
///
/// A missing path is not an error: the artifact may have been removed since the
/// scan, and the goal is idempotence.
pub fn remove_all(root: &FsPath, paths: Vec<FsPath>) -> (r: Removal)
    ensures
        r.is_valid(),
        exists|home: Option<Seq<Seq<u8>>>|
            r@ == #[trigger] removal_start(root@, path_facts(paths@), home),
{
    remove_all_from(root, paths, home_dir())
}

impl Removal {
    /// The next path is safe to delete, or there is none.
    pub closed spec fn is_valid(self) -> bool {
        self.at <= self.paths@.len() && self@.is_safe()
    }

    fn settle(&mut self)
        requires
            old(self).at <= old(self).paths@.len(),
            old(self)@.stage is Fresh,
        ensures
            final(self).is_valid(),
            final(self)@ == old(self)@.settled(),
    {
        let ghost goal = self@.settled();
        while self.at < self.paths.len()
            invariant
                self.at <= self.paths@.len(),
                self@.stage is Fresh,
                self@.settled() == goal,
            ensures
                self.at <= self.paths@.len(),
                self@.is_safe(),
                self@ == goal,
            decreases self.paths.len() - self.at,
        {
            let ghost before = self@;
            assert(before.todo[0] == self.paths@[self.at as int].fact());
            let target = &self.paths[self.at];
            match check_against(&self.root, target, &self.home) {
                Ok(_) => {
                    break;
                },
                Err(why) => {
                    let message = why.message(target);
                    proof {
                        lemma_texts_push(self.outcome.errors@, message);
                    }
                    self.outcome.errors.push(message);
                    self.at = self.at + 1;
                    proof {
                        assert(self@.todo =~= before.todo.skip(1));
                        assert(self@ == (RemovalFact {
                            todo: before.todo.skip(1),
                            outcome: before.outcome.with_error(
                                why.wording(before.todo[0].shown()),
                            ),
                            ..before
                        }));
                    }
                },
            }
        }
    }

    /// What is to be done next, always to a path that may be deleted; none when
    /// all paths are dealt with. The path is in plain form: with a separator behind
    /// it, the system would follow a link.
    pub fn pending(&self) -> (r: Option<Deed>)
        requires
            self.is_valid(),
        ensures
            r is Some <==> self@.deed() is Some,
            r matches Some(deed) ==> self@.deed() == Some(deed@) && deed.target() == PathFact::plain(
                deed@.path(),
            ) && refusal(self@.root, deed@.path(), self@.home) is None,
    {
        if self.at == self.paths.len() {
            return None;
        }
        assert(self@.todo[0] == self.paths@[self.at as int].fact());
        let path = self.paths[self.at].plain();
        let length = path.length();
        proof {
            if let StageFact::Approach { known, .. } = self@.stage {
                lemma_way_is_checked(self@.root, self@.todo[0].parts, self@.home, known as int + 1);
            }
        }
        let deed = match self.stage {
            Stage::Fresh => Deed::Inspect(path),
            Stage::Approach { known, .. } => Deed::Inspect(path.upto(known + 1)),
            Stage::IsTree => Deed::Measure(path),
            Stage::Doomed { tree, .. } => if tree {
                Deed::RemoveTree(path)
            } else {
                Deed::RemoveFile(path)
            },
        };
        Some(deed)
    }

    /// Whether what was freed can still be counted in.
    pub fn can_take(&self, report: &Report) -> (r: bool)
        ensures
            r == self@.has_room(*report),
    {
        match (self.stage, report) {
            (Stage::Doomed { freed, .. }, Report::Removed) => self.outcome.freed.checked_add(
                freed,
            ).is_some(),
            _ => true,
        }
    }

    /// Take what came of the pending deed.
    pub fn take(&mut self, report: Report)
        requires
            old(self).is_valid(),
            old(self)@.expects(report),
            old(self)@.has_room(report),
        ensures
            final(self).is_valid(),
            final(self)@ == old(self)@.after(report),
    {
        let ghost before = self@;
        assert(before.todo[0] == self.paths@[self.at as int].fact());
        match (self.stage, report) {
            (Stage::Fresh, Report::Missing) => {
                self.pass();
            },
            (Stage::Fresh, Report::Present { is_dir, is_link }) => {
                proof {
                    law_checked_target_is_inside(before.root, before.todo[0].parts, before.home);
                }
                self.approach(self.root.length(), is_dir && !is_link);
            },
            (Stage::Approach { .. }, Report::Missing) => {
                self.pass();
            },
            (Stage::Approach { known, tree }, Report::Present { is_dir, is_link }) => {
                if is_link {
                    let message = Refusal::BehindLink.message(&self.paths[self.at]);
                    proof {
                        lemma_texts_push(self.outcome.errors@, message);
                    }
                    self.outcome.errors.push(message);
                    self.pass();
                } else if is_dir {
                    let length = self.paths[self.at].length();
                    assert(known + 1 < length);
                    self.approach(known + 1, tree);
                } else {
                    self.pass();
                }
            },
            (Stage::IsTree, Report::Measured { bytes }) => {
                self.stage = Stage::Doomed { tree: true, freed: bytes };
            },
            (Stage::Doomed { freed, .. }, Report::Removed) => {
                let path = self.paths[self.at].clone();
                proof {
                    lemma_path_facts_push(self.outcome.removed@, path);
                }
                self.outcome.removed.push(path);
                self.outcome.freed = self.outcome.freed + freed;
                self.pass();
            },
            (Stage::Doomed { .. }, Report::Failed { reason }) => {
                let mut message = self.paths[self.at].to_text();
                message.append(": ");
                message.append(reason.as_str());
                proof {
                    lemma_texts_push(self.outcome.errors@, message);
                }
                self.outcome.errors.push(message);
                self.pass();
            },
            _ => {},
        }
    }

    fn approach(&mut self, known: usize, tree: bool)
        requires
            old(self).is_valid(),
            old(self)@.todo.len() > 0,
            old(self)@.root.len() <= known < old(self)@.todo[0].parts.len(),
        ensures
            final(self).is_valid(),
            final(self)@ == old(self)@.approached(known as nat, tree),
    {
        assert(self@.todo[0] == self.paths@[self.at as int].fact());
        let length = self.paths[self.at].length();
        self.stage =
        if known + 1 < length {
            Stage::Approach { known, tree }
        } else if tree {
            Stage::IsTree
        } else {
            Stage::Doomed { tree: false, freed: 0 }
        };
    }

    fn pass(&mut self)
        requires
            old(self).at < old(self).paths@.len(),
        ensures
            final(self).is_valid(),
            final(self)@ == old(self)@.past(old(self)@.outcome),
    {
        let ghost before = self@;
        assert(self.at < self.paths.len());
        self.at = self.at + 1;
        self.stage = Stage::Fresh;
        assert(self@.todo =~= before.todo.skip(1));
        self.settle();
    }

    /// What was freed, what was deleted and what failed.
    pub fn finish(self) -> (r: Outcome)
        ensures
            r@ == self@.outcome,
    {
        self.outcome
    }
}

/// Passing over refused paths only adds messages.
proof fn lemma_settled_keeps(st: RemovalFact)
    requires
        st.stage is Fresh,
    ensures
        st.settled().root == st.root,
        st.settled().home == st.home,
        st.settled().stage == st.stage,
        st.settled().outcome.freed == st.outcome.freed,
        st.settled().outcome.removed == st.outcome.removed,
        st.settled().is_safe(),
        st.settled().todo.len() <= st.todo.len(),
        st.settled().todo == st.todo.skip(st.todo.len() - st.settled().todo.len()),
        forall|p: PathFact| #[trigger]
            st.settled().todo.contains(p) ==> st.todo.contains(p),
    decreases st.todo.len(),
{
    assert(st.todo.skip(0) =~= st.todo);
    if st.todo.len() > 0 {
        match refusal(st.root, st.todo[0].parts, st.home) {
            Some(why) => {
                let next = RemovalFact {
                    todo: st.todo.skip(1),
                    outcome: st.outcome.with_error(why.wording(st.todo[0].shown())),
                    ..st
                };
                lemma_settled_keeps(next);
                let gone = next.todo.len() - next.settled().todo.len();
                assert(st.todo.skip(1).skip(gone) =~= st.todo.skip(gone + 1));
            },
            None => {},
        }
    }
    let gone = st.todo.len() - st.settled().todo.len();
    assert forall|p: PathFact| #[trigger] st.settled().todo.contains(p) implies st.todo.contains(
        p,
    ) by {
        let k = choose|k: int| 0 <= k < st.settled().todo.len() && st.settled().todo[k] == p;
        assert(st.todo[k + gone] == p);
    }
}

/// What is said where the path at the front is dealt with by `report`.
spec fn noted(st: RemovalFact, report: Report) -> OutcomeFact {
    match (st.stage, report) {
        (StageFact::Doomed { freed, .. }, Report::Removed) => st.outcome.with_removed(
            st.todo[0],
            freed as nat,
        ),
        (StageFact::Doomed { .. }, Report::Failed { reason }) => st.outcome.with_error(
            st.todo[0].shown() + ": "@ + reason@,
        ),
        (StageFact::Approach { .. }, Report::Present { is_link: true, .. }) => st.outcome.with_error(
            Refusal::BehindLink.wording(st.todo[0].shown()),
        ),
        _ => st.outcome,
    }
}

/// A report either deals with the path at the front or leaves all but its stage.
proof fn lemma_after(st: RemovalFact, report: Report)
    requires
        st.is_safe(),
        st.expects(report),
    ensures
        st.after(report) == st.past(noted(st, report)) || st.after(report) == (RemovalFact {
            stage: st.after(report).stage,
            ..st
        }),
        st.after(report) != st.past(noted(st, report)) ==> st.after(report).is_safe(),
        report is Removed ==> st.stage is Doomed,
{
    law_checked_target_is_inside(st.root, st.todo[0].parts, st.home);
}

/// The root and the home directory stay what they are. Only a path that was
/// handed out for deletion, and therefore checked, joins those removed; what
/// was removed before stays so, and the total grows by what was measured.
pub proof fn law_only_checked_paths_go(st: RemovalFact, report: Report)
    requires
        st.is_safe(),
        st.expects(report),
    ensures
        st.after(report).root == st.root,
        st.after(report).home == st.home,
        st.after(report).is_safe(),
        st.after(report).outcome.removed == st.outcome.removed || (report is Removed && refusal(
            st.root,
            st.todo[0].parts,
            st.home,
        ) is None && st.after(report).outcome.removed == st.outcome.removed.push(st.todo[0])),
        st.after(report).outcome.freed == st.outcome.freed + if let (
            StageFact::Doomed { freed, .. },
            Report::Removed,
        ) = (st.stage, report) {
            freed as nat
        } else {
            0
        },
{
    lemma_after(st, report);
    lemma_settled_keeps(st.without_first(noted(st, report)));
}

/// The reports of a whole deletion, one after the other; one that does not
/// belong to the deed at hand changes nothing.
pub open spec fn run(st: RemovalFact, reports: Seq<Report>) -> RemovalFact
    decreases reports.len(),
{
    if reports.len() == 0 {
        st
    } else {
        let before = run(st, reports.drop_last());
        if before.expects(reports.last()) {
            before.after(reports.last())
        } else {
            before
        }
    }
}

/// Whatever is reported in the course of a deletion, the next deed passes the
/// checks; it looks at one of the given paths or at a directory on the way to
/// it, or it is done to one of the given paths; and what was removed are such
/// paths.
pub proof fn law_deeds_concern_checked_paths(
    root: Seq<Seq<u8>>,
    paths: Seq<PathFact>,
    home: Option<Seq<Seq<u8>>>,
    reports: Seq<Report>,
)
    ensures
        ({
            let st = run(removal_start(root, paths, home), reports);
            &&& st.root == root && st.home == home
            &&& st.deed() matches Some(deed) ==> {
                &&& refusal(root, deed.path(), home) is None
                &&& paths.contains(st.todo[0]) && within(st.todo[0].parts, deed.path())
                &&& deed !is Inspect ==> deed.path() == st.todo[0].parts
            }
            &&& forall|p: PathFact| #[trigger]
                st.outcome.removed.contains(p) ==> paths.contains(p) && refusal(root, p.parts, home) is None
        }),
{
    lemma_run_keeps(root, paths, home, reports);
    let st = run(removal_start(root, paths, home), reports);
    if st.todo.len() > 0 {
        assert(st.todo.contains(st.todo[0]));
        assert(st.todo[0].parts.take(st.todo[0].parts.len() as int) =~= st.todo[0].parts);
        if let StageFact::Approach { known, .. } = st.stage {
            lemma_way_is_checked(root, st.todo[0].parts, home, known as int + 1);
        }
    }
}

proof fn lemma_run_keeps(
    root: Seq<Seq<u8>>,
    paths: Seq<PathFact>,
    home: Option<Seq<Seq<u8>>>,
    reports: Seq<Report>,
)
    ensures
        ({
            let st = run(removal_start(root, paths, home), reports);
            &&& st.root == root && st.home == home
            &&& st.is_safe()
            &&& forall|p: PathFact| #[trigger] st.todo.contains(p) ==> paths.contains(p)
            &&& forall|p: PathFact| #[trigger]
                st.outcome.removed.contains(p) ==> paths.contains(p) && refusal(root, p.parts, home) is None
        }),
    decreases reports.len(),
{
    let start = removal_start(root, paths, home);
    if reports.len() == 0 {
        lemma_settled_keeps(removal_begun(root, paths, home));
    } else {
        lemma_run_keeps(root, paths, home, reports.drop_last());
        let st = run(start, reports.drop_last());
        let report = reports.last();
        if st.expects(report) {
            law_only_checked_paths_go(st, report);
            let next = st.after(report);
            lemma_after_todo(st, report);
            assert(st.todo.contains(st.todo[0]));
            assert forall|p: PathFact| #[trigger]
                next.outcome.removed.contains(p) implies paths.contains(p) && refusal(
                root,
                p.parts,
                home,
            ) is None by {
                lemma_push_contains(st.outcome.removed, st.todo[0], p);
            }
        }
    }
}

/// No path comes back.
proof fn lemma_after_todo(st: RemovalFact, report: Report)
    requires
        st.is_safe(),
        st.expects(report),
    ensures
        forall|p: PathFact| #[trigger]
            st.after(report).todo.contains(p) ==> st.todo.contains(p),
{
    lemma_after(st, report);
    let base = st.without_first(noted(st, report));
    lemma_settled_keeps(base);
    assert forall|p: PathFact| #[trigger] base.todo.contains(p) implies st.todo.contains(p) by {
        let k = choose|k: int| 0 <= k < base.todo.len() && base.todo[k] == p;
        assert(st.todo[k + 1] == p);
    }
}

/// A path that could not be deleted is told with the reason, and those behind it
/// are dealt with as if it had been deleted.
pub proof fn law_failures_are_told(st: RemovalFact, reason: String)
    requires
        st.is_safe(),
        st.todo.len() > 0,
        st.stage is Doomed,
    ensures
        ({
            let failed = st.after(Report::Failed { reason });
            let message = st.todo[0].shown() + ": "@ + reason@;
            &&& failed.outcome.errors.len() > st.outcome.errors.len()
            &&& failed.outcome.errors[st.outcome.errors.len() as int] == message
            &&& failed.outcome.removed == st.outcome.removed
            &&& failed.outcome.freed == st.outcome.freed
            &&& failed.todo == st.after(Report::Removed).todo
        }),
{
    let message = st.todo[0].shown() + ": "@ + reason@;
    let failed = st.without_first(st.outcome.with_error(message));
    let removed = st.without_first(noted(st, Report::Removed));
    lemma_settled_keeps(failed);
    lemma_settled_todo(failed, removed);
    lemma_settled_says(failed);
    let n = st.outcome.errors.len() as int;
    assert(failed.settled().outcome.errors.take(n + 1)[n] == message);
}

/// Which paths are passed over depends on the paths alone.
proof fn lemma_settled_todo(a: RemovalFact, b: RemovalFact)
    requires
        a.root == b.root,
        a.home == b.home,
        a.todo == b.todo,
    ensures
        a.settled().todo == b.settled().todo,
    decreases a.todo.len(),
{
    if a.todo.len() > 0 {
        if let Some(why) = refusal(a.root, a.todo[0].parts, a.home) {
            lemma_settled_todo(
                RemovalFact {
                    todo: a.todo.skip(1),
                    outcome: a.outcome.with_error(why.wording(a.todo[0].shown())),
                    ..a
                },
                RemovalFact {
                    todo: b.todo.skip(1),
                    outcome: b.outcome.with_error(why.wording(b.todo[0].shown())),
                    ..b
                },
            );
        }
    }
}

/// Messages stay.
proof fn lemma_settled_says(st: RemovalFact)
    ensures
        st.settled().outcome.errors.len() >= st.outcome.errors.len(),
        st.settled().outcome.errors.take(st.outcome.errors.len() as int) == st.outcome.errors,
    decreases st.todo.len(),
{
    let n = st.outcome.errors.len() as int;
    assert(st.outcome.errors.take(n) =~= st.outcome.errors);
    if st.todo.len() > 0 {
        if let Some(why) = refusal(st.root, st.todo[0].parts, st.home) {
            let next = RemovalFact {
                todo: st.todo.skip(1),
                outcome: st.outcome.with_error(why.wording(st.todo[0].shown())),
                ..st
            };
            lemma_settled_says(next);
            assert(st.settled().outcome.errors.take(n) =~= next.settled().outcome.errors.take(n + 1).take(n));
            assert(next.outcome.errors.take(n) =~= st.outcome.errors);
        }
    }
}

/// Bytes of all that was measured.
pub open spec fn bytes_measured(reports: Seq<Report>) -> nat
    decreases reports.len(),
{
    if reports.len() == 0 {
        0
    } else {
        bytes_measured(reports.drop_last()) + match reports.last() {
            Report::Measured { bytes } => bytes as nat,
            _ => 0,
        }
    }
}

/// The deed at hand was reported as done; what was looked at is there, and is a
/// directory that is no link where it is only on the way.
pub open spec fn meets_no_obstacle(st: RemovalFact, report: Report) -> bool {
    match st.deed() {
        None => false,
        Some(DeedFact::Inspect(p)) => report matches Report::Present { is_dir, is_link } && (p.len()
            < st.todo[0].parts.len() ==> is_dir && !is_link),
        Some(DeedFact::Measure(_)) => report is Measured,
        Some(_) => report is Removed,
    }
}

/// A deletion that meets with no obstacle removes every path it was given: where
/// each path lies below a root that is deep enough and not the home directory, is
/// reached without climbing, and is there, what is on the way to it is reported as
/// directories that are no links, and whatever is to go is reported as gone, then
/// all of the paths are removed in order, nothing is refused, and what was measured
/// is what was freed.
pub proof fn law_unhindered_deletion_removes_all(
    root: Seq<Seq<u8>>,
    paths: Seq<PathFact>,
    home: Option<Seq<Seq<u8>>>,
    reports: Seq<Report>,
)
    requires
        name_count(root) >= 2,
        home != Some(root),
        forall|k: int|
            0 <= k < paths.len() ==> (#[trigger] paths[k]).parts.len() > root.len()
                && paths[k].parts.take(root.len() as int) == root && !paths[k].parts.contains(
                seq![46u8, 46u8],
            ),
        forall|i: int|
            0 <= i < reports.len() ==> #[trigger] meets_no_obstacle(
                run(removal_start(root, paths, home), reports.take(i)),
                reports[i],
            ),
        run(removal_start(root, paths, home), reports).deed() is None,
    ensures
        ({
            let outcome = run(removal_start(root, paths, home), reports).outcome;
            &&& outcome.removed == paths
            &&& outcome.errors.len() == 0
            &&& outcome.freed == bytes_measured(reports)
        }),
{
    lemma_unhindered(root, paths, home, reports);
    let st = run(removal_start(root, paths, home), reports);
    assert(st.todo.len() == 0);
    assert(paths.take(paths.len() as int) =~= paths);
}

proof fn lemma_unhindered(
    root: Seq<Seq<u8>>,
    paths: Seq<PathFact>,
    home: Option<Seq<Seq<u8>>>,
    reports: Seq<Report>,
)
    requires
        name_count(root) >= 2,
        home != Some(root),
        forall|k: int|
            0 <= k < paths.len() ==> (#[trigger] paths[k]).parts.len() > root.len()
                && paths[k].parts.take(root.len() as int) == root && !paths[k].parts.contains(
                seq![46u8, 46u8],
            ),
        forall|i: int|
            0 <= i < reports.len() ==> #[trigger] meets_no_obstacle(
                run(removal_start(root, paths, home), reports.take(i)),
                reports[i],
            ),
    ensures
        ({
            let st = run(removal_start(root, paths, home), reports);
            let done = paths.len() - st.todo.len();
            &&& st.root == root && st.home == home
            &&& 0 <= done
            &&& st.todo == paths.skip(done)
            &&& st.outcome.removed == paths.take(done)
            &&& st.outcome.errors.len() == 0
            &&& st.outcome.freed + (if let StageFact::Doomed { freed, .. } = st.stage {
                freed as nat
            } else {
                0
            }) == bytes_measured(reports)
            &&& st.todo.len() == 0 ==> st.stage is Fresh
            &&& st.is_safe()
        }),
    decreases reports.len(),
{
    let start = removal_start(root, paths, home);
    let begun = removal_begun(root, paths, home);
    assert forall|k: int| 0 <= k < paths.len() implies refusal(
        root,
        (#[trigger] paths[k]).parts,
        home,
    ) is None by {
        assert(within(paths[k].parts, root));
    }
    if reports.len() == 0 {
        assert(begun.settled() == begun);
        assert(paths.skip(0) =~= paths);
        assert(paths.take(0) =~= seq![]);
    } else {
        let sofar = reports.drop_last();
        assert forall|i: int| 0 <= i < sofar.len() implies #[trigger] meets_no_obstacle(
            run(start, sofar.take(i)),
            sofar[i],
        ) by {
            assert(sofar[i] == reports[i]);
            assert(sofar.take(i) =~= reports.take(i));
            assert(meets_no_obstacle(run(start, reports.take(i)), reports[i]));
        }
        lemma_unhindered(root, paths, home, sofar);
        let st = run(start, sofar);
        let last = reports.len() - 1;
        assert(reports.take(last) =~= sofar);
        assert(reports[last] == reports.last());
        assert(meets_no_obstacle(run(start, reports.take(last)), reports[last]));
        let report = reports.last();
        let done = paths.len() - st.todo.len();
        assert(st.expects(report));
        law_checked_target_is_inside(root, st.todo[0].parts, home);
        if st.stage is Doomed {
            let base = st.without_first(noted(st, report));
            assert(st.todo[0] == paths[done]);
            assert(base.todo =~= paths.skip(done + 1));
            if base.todo.len() > 0 {
                assert(base.todo[0] == paths[done + 1]);
            }
            assert(base.settled() == base);
            assert(paths.take(done + 1) =~= paths.take(done).push(paths[done]));
        }
    }
}

/// The report `k` of an inspection said that `dir` is a directory and no link.
pub open spec fn found_dir(
    start: RemovalFact,
    reports: Seq<Report>,
    k: int,
    dir: Seq<Seq<u8>>,
) -> bool {
    &&& 0 <= k < reports.len()
    &&& reports[k] == Report::Present { is_dir: true, is_link: false }
    &&& run(start, reports.take(k)).deed() == Some(DeedFact::Inspect(dir))
}

/// An inspection has said that `dir` is a directory and no link.
pub open spec fn seen_as_dir(
    start: RemovalFact,
    reports: Seq<Report>,
    dir: Seq<Seq<u8>>,
) -> bool {
    exists|k: int| #[trigger] found_dir(start, reports, k, dir)
}

impl RemovalFact {
    /// How many components of the next path are known to lead to a directory
    /// that is no link, the path itself not counted.
    pub open spec fn known_dirs(self) -> int {
        match self.stage {
            StageFact::Fresh => self.root.len() as int,
            StageFact::Approach { known, .. } => known as int,
            _ => self.todo[0].parts.len() - 1,
        }
    }

    /// The next path is known to be a directory that is no link.
    pub open spec fn is_known_tree(self) -> bool {
        match self.stage {
            StageFact::Fresh => false,
            StageFact::Approach { tree, .. } => tree,
            StageFact::IsTree => true,
            StageFact::Doomed { tree, .. } => tree,
        }
    }
}

/// Symbolic links are deleted as links and never traversed: whatever is
/// reported in the course of a deletion, a path is measured or deleted only
/// after every directory strictly between the root and the path was reported as
/// a directory that is no link; and it is measured, or deleted as a tree, only
/// after the path itself was.
pub proof fn law_links_are_never_traversed(
    root: Seq<Seq<u8>>,
    paths: Seq<PathFact>,
    home: Option<Seq<Seq<u8>>>,
    reports: Seq<Report>,
)
    ensures
        ({
            let start = removal_start(root, paths, home);
            run(start, reports).deed() matches Some(deed) ==> deed !is Inspect ==> {
                &&& forall|n: int|
                    root.len() < n < deed.path().len() ==> #[trigger] seen_as_dir(
                        start,
                        reports,
                        deed.path().take(n),
                    )
                &&& deed.is_on_tree() ==> seen_as_dir(start, reports, deed.path())
            }
        }),
{
    let start = removal_start(root, paths, home);
    let st = run(start, reports);
    lemma_run_keeps(root, paths, home, reports);
    lemma_known_dirs(root, paths, home, reports);
}

/// What was seen stays seen.
proof fn lemma_seen_stays(start: RemovalFact, reports: Seq<Report>, dir: Seq<Seq<u8>>)
    requires
        reports.len() > 0,
        seen_as_dir(start, reports.drop_last(), dir),
    ensures
        seen_as_dir(start, reports, dir),
{
    let k = choose|k: int| #[trigger] found_dir(start, reports.drop_last(), k, dir);
    assert(reports.take(k) =~= reports.drop_last().take(k));
    assert(found_dir(start, reports, k, dir));
}

proof fn lemma_known_dirs(
    root: Seq<Seq<u8>>,
    paths: Seq<PathFact>,
    home: Option<Seq<Seq<u8>>>,
    reports: Seq<Report>,
)
    ensures
        ({
            let start = removal_start(root, paths, home);
            let st = run(start, reports);
            st.todo.len() > 0 ==> {
                &&& forall|n: int|
                    root.len() < n <= st.known_dirs() ==> #[trigger] seen_as_dir(
                        start,
                        reports,
                        st.todo[0].parts.take(n),
                    )
                &&& st.is_known_tree() ==> seen_as_dir(start, reports, st.todo[0].parts)
            }
        }),
    decreases reports.len(),
{
    let start = removal_start(root, paths, home);
    if reports.len() == 0 {
        lemma_settled_keeps(removal_begun(root, paths, home));
    } else {
        let sofar = reports.drop_last();
        lemma_known_dirs(root, paths, home, sofar);
        lemma_run_keeps(root, paths, home, sofar);
        let st = run(start, sofar);
        let next = run(start, reports);
        let report = reports.last();
        let last = reports.len() - 1;
        assert(reports.take(last) =~= sofar);
        if st.expects(report) {
            lemma_after(st, report);
            lemma_settled_keeps(st.without_first(noted(st, report)));
        }
        if next.todo.len() > 0 {
            assert forall|n: int| root.len() < n <= next.known_dirs() implies #[trigger] seen_as_dir(
                start,
                reports,
                next.todo[0].parts.take(n),
            ) by {
                if next == st.past(noted(st, report)) && st.expects(report) {
                    assert(false);
                }
                if n <= st.known_dirs() {
                    assert(seen_as_dir(start, sofar, st.todo[0].parts.take(n)));
                    lemma_seen_stays(start, reports, st.todo[0].parts.take(n));
                } else {
                    assert(found_dir(start, reports, last, st.todo[0].parts.take(n)));
                }
            }
            if next.is_known_tree() {
                if st.is_known_tree() && next.todo == st.todo {
                    lemma_seen_stays(start, reports, st.todo[0].parts);
                } else {
                    assert(found_dir(start, reports, last, st.todo[0].parts));
                }
            }
        }
    }
}

/// `message` tells why one of the paths was refused.
pub open spec fn is_refusal_message(
    root: Seq<Seq<u8>>,
    paths: Seq<PathFact>,
    home: Option<Seq<Seq<u8>>>,
    message: Seq<char>,
) -> bool {
    exists|k: int| #[trigger]
        refused_with(root, paths, home, k) == Some(message)
}

/// Why the path at `k` is refused, if there is such a path and it is refused.
pub open spec fn refused_with(
    root: Seq<Seq<u8>>,
    paths: Seq<PathFact>,
    home: Option<Seq<Seq<u8>>>,
    k: int,
) -> Option<Seq<char>> {
    if 0 <= k < paths.len() {
        match refusal(root, paths[k].parts, home) {
            Some(why) => Some(why.wording(paths[k].shown())),
            None => None,
        }
    } else {
        None
    }
}

/// Passing over refused paths adds their messages and no others.
proof fn lemma_settled_errors(st: RemovalFact, paths: Seq<PathFact>)
    requires
        forall|p: PathFact| #[trigger] st.todo.contains(p) ==> paths.contains(p),
        forall|e: Seq<char>| #[trigger]
            st.outcome.errors.contains(e) ==> is_refusal_message(st.root, paths, st.home, e),
    ensures
        forall|e: Seq<char>| #[trigger]
            st.settled().outcome.errors.contains(e) ==> is_refusal_message(
                st.root,
                paths,
                st.home,
                e,
            ),
    decreases st.todo.len(),
{
    if st.todo.len() > 0 {
        if let Some(why) = refusal(st.root, st.todo[0].parts, st.home) {
            let message = why.wording(st.todo[0].shown());
            let next = RemovalFact {
                todo: st.todo.skip(1),
                outcome: st.outcome.with_error(message),
                ..st
            };
            assert(st.todo.contains(st.todo[0]));
            let k = choose|k: int| 0 <= k < paths.len() && paths[k] == st.todo[0];
            assert(refused_with(st.root, paths, st.home, k) == Some(message));
            assert forall|p: PathFact| #[trigger] next.todo.contains(p) implies paths.contains(
                p,
            ) by {
                let m = choose|m: int| 0 <= m < next.todo.len() && next.todo[m] == p;
                assert(st.todo[m + 1] == p);
                assert(st.todo.contains(p));
            }
            assert forall|e: Seq<char>| #[trigger]
                next.outcome.errors.contains(e) implies is_refusal_message(
                st.root,
                paths,
                st.home,
                e,
            ) by {
                lemma_push_contains(st.outcome.errors, message, e);
            }
            lemma_settled_errors(next, paths);
        }
    }
}

/// None of the paths is there: every report says so.
pub open spec fn finds_nothing(reports: Seq<Report>) -> bool {
    forall|i: int| 0 <= i < reports.len() ==> (#[trigger] reports[i]) is Missing
}

/// Where none of the paths is there, nothing is removed, nothing is freed, and
/// the only messages are refusals: a missing path is no failure.
pub proof fn law_missing_paths_are_no_failure(
    root: Seq<Seq<u8>>,
    paths: Seq<PathFact>,
    home: Option<Seq<Seq<u8>>>,
    reports: Seq<Report>,
)
    requires
        finds_nothing(reports),
    ensures
        ({
            let outcome = run(removal_start(root, paths, home), reports).outcome;
            &&& outcome.freed == 0
            &&& outcome.removed.len() == 0
            &&& forall|e: Seq<char>| #[trigger]
                outcome.errors.contains(e) ==> is_refusal_message(root, paths, home, e)
        }),
{
    lemma_nothing_found(root, paths, home, reports);
}

proof fn lemma_nothing_found(
    root: Seq<Seq<u8>>,
    paths: Seq<PathFact>,
    home: Option<Seq<Seq<u8>>>,
    reports: Seq<Report>,
)
    requires
        finds_nothing(reports),
    ensures
        ({
            let st = run(removal_start(root, paths, home), reports);
            &&& st.outcome.freed == 0
            &&& st.outcome.removed.len() == 0
            &&& forall|e: Seq<char>| #[trigger]
                st.outcome.errors.contains(e) ==> is_refusal_message(root, paths, home, e)
            &&& st.todo.len() > 0 ==> st.stage is Fresh
        }),
    decreases reports.len(),
{
    let start = removal_start(root, paths, home);
    let begun = removal_begun(root, paths, home);
    lemma_settled_keeps(begun);
    lemma_settled_errors(begun, paths);
    if reports.len() > 0 {
        let sofar = reports.drop_last();
        assert(reports[reports.len() - 1] is Missing);
        assert forall|i: int| 0 <= i < sofar.len() implies (#[trigger] sofar[i]) is Missing by {
            assert(sofar[i] == reports[i]);
        }
        lemma_nothing_found(root, paths, home, sofar);
        lemma_run_keeps(root, paths, home, sofar);
        let st = run(start, sofar);
        if st.expects(reports.last()) {
            let base = st.without_first(st.outcome);
            lemma_settled_keeps(base);
            assert forall|p: PathFact| #[trigger] base.todo.contains(p) implies paths.contains(
                p,
            ) by {
                let k = choose|k: int| 0 <= k < base.todo.len() && base.todo[k] == p;
                assert(st.todo[k + 1] == p);
                assert(st.todo.contains(p));
            }
            lemma_settled_errors(base, paths);
        }
    }
}

/// Deleting again is a no-op rather than a failure: after a deletion that was
/// carried through without errors, one of the same paths that finds none of them
/// any more has no errors either, removes nothing and frees nothing.
pub proof fn law_deleting_again_is_a_no_op(
    root: Seq<Seq<u8>>,
    paths: Seq<PathFact>,
    home: Option<Seq<Seq<u8>>>,
    first: Seq<Report>,
    second: Seq<Report>,
)
    requires
        run(removal_start(root, paths, home), first).deed() is None,
        run(removal_start(root, paths, home), first).outcome.errors.len() == 0,
        finds_nothing(second),
    ensures
        run(removal_start(root, paths, home), second).outcome == OutcomeFact::none(),
{
    let start = removal_start(root, paths, home);
    law_missing_paths_are_no_failure(root, paths, home, second);
    lemma_refusals_are_told(root, paths, home, first);
    let outcome = run(start, second).outcome;
    if outcome.errors.len() > 0 {
        let e = outcome.errors[0];
        assert(outcome.errors.contains(e));
        let k = choose|k: int| #[trigger] refused_with(root, paths, home, k) == Some(e);
        assert(refusal(root, paths[k].parts, home) is Some);
    }
    assert(outcome.errors =~= seq![] && outcome.removed =~= seq![]);
}

/// The paths dealt with stand before those left, and one that is refused among
/// them has left a message.
proof fn lemma_refusals_are_told(
    root: Seq<Seq<u8>>,
    paths: Seq<PathFact>,
    home: Option<Seq<Seq<u8>>>,
    reports: Seq<Report>,
)
    ensures
        ({
            let st = run(removal_start(root, paths, home), reports);
            let done = paths.len() - st.todo.len();
            &&& 0 <= done
            &&& st.todo == paths.skip(done)
            &&& st.outcome.errors.len() == 0 ==> forall|j: int|
                0 <= j < done ==> refusal(root, (#[trigger] paths[j]).parts, home) is None
        }),
    decreases reports.len(),
{
    let start = removal_start(root, paths, home);
    if reports.len() == 0 {
        assert(paths.skip(0) =~= paths);
        lemma_settled_tells(removal_begun(root, paths, home), paths);
    } else {
        let sofar = reports.drop_last();
        lemma_refusals_are_told(root, paths, home, sofar);
        lemma_run_keeps(root, paths, home, sofar);
        let st = run(start, sofar);
        let report = reports.last();
        if st.expects(report) {
            lemma_after(st, report);
            let done = paths.len() - st.todo.len();
            assert(st.todo[0] == paths[done]);
            let base = st.without_first(noted(st, report));
            assert(base.todo =~= paths.skip(done + 1));
            lemma_settled_tells(base, paths);
        }
    }
}

proof fn lemma_settled_tells(st: RemovalFact, paths: Seq<PathFact>)
    requires
        st.todo.len() <= paths.len(),
        st.todo == paths.skip(paths.len() - st.todo.len()),
        st.outcome.errors.len() == 0 ==> forall|j: int|
            0 <= j < paths.len() - st.todo.len() ==> refusal(st.root, (#[trigger] paths[j]).parts, st.home) is None,
    ensures
        ({
            let after = st.settled();
            let done = paths.len() - after.todo.len();
            &&& 0 <= done
            &&& after.todo == paths.skip(done)
            &&& st.outcome.errors.len() <= after.outcome.errors.len()
            &&& after.outcome.errors.len() == 0 ==> forall|j: int|
                0 <= j < done ==> refusal(st.root, (#[trigger] paths[j]).parts, st.home) is None
        }),
    decreases st.todo.len(),
{
    if st.todo.len() > 0 {
        if let Some(why) = refusal(st.root, st.todo[0].parts, st.home) {
            let next = RemovalFact {
                todo: st.todo.skip(1),
                outcome: st.outcome.with_error(why.wording(st.todo[0].shown())),
                ..st
            };
            assert(next.todo =~= paths.skip(paths.len() - next.todo.len()));
            lemma_settled_tells(next, paths);
        }
    }
}

/// How one path is dealt with that is there, however deep it lies, where all that is on
/// the way to it are directories: a directory that is no link is measured, then deleted
/// with everything in it, and what was measured counts as freed; anything else, a link
/// above all, is deleted by itself and frees nothing.
pub proof fn law_path_is_deleted(st: RemovalFact, is_dir: bool, is_link: bool, bytes: u64)
    requires
        st.is_safe(),
        st.todo.len() > 0,
        st.stage is Fresh,
    ensures
        ({
            let p = st.todo[0].parts;
            let way = Seq::new(
                (p.len() - st.root.len() - 1) as nat,
                |i: int| Report::Present { is_dir: true, is_link: false },
            );
            let at = run(st.after(Report::Present { is_dir, is_link }), way);
            &&& st.deed() == Some(DeedFact::Inspect(p))
            &&& at.todo == st.todo && at.outcome == st.outcome
            &&& is_dir && !is_link ==> {
                let doomed = at.after(Report::Measured { bytes });
                let gone = doomed.after(Report::Removed);
                &&& at.deed() == Some(DeedFact::Measure(p))
                &&& doomed.deed() == Some(DeedFact::RemoveTree(p))
                &&& gone.outcome.freed == st.outcome.freed + bytes
                &&& gone.outcome.removed == st.outcome.removed.push(st.todo[0])
            }
            &&& !is_dir || is_link ==> {
                let gone = at.after(Report::Removed);
                &&& at.deed() == Some(DeedFact::RemoveFile(p))
                &&& gone.outcome.freed == st.outcome.freed
                &&& gone.outcome.removed == st.outcome.removed.push(st.todo[0])
            }
        }),
{
    let p = st.todo[0].parts;
    law_checked_target_is_inside(st.root, p, st.home);
    let n = (p.len() - st.root.len() - 1) as nat;
    let first = st.after(Report::Present { is_dir, is_link });
    lemma_way_is_passed(first, st.root.len(), is_dir && !is_link, n, n);
    let way = Seq::new(n, |i: int| Report::Present { is_dir: true, is_link: false });
    let at = run(first, way);
    if is_dir && !is_link {
        let doomed = at.after(Report::Measured { bytes });
        lemma_settled_keeps(doomed.without_first(noted(doomed, Report::Removed)));
    } else {
        lemma_settled_keeps(at.without_first(noted(at, Report::Removed)));
    }
}

proof fn lemma_way_is_passed(st: RemovalFact, from: nat, tree: bool, n: nat, m: nat)
    requires
        st.todo.len() > 0,
        from + n + 1 == st.todo[0].parts.len(),
        st == st.approached(from, tree),
        m <= n,
    ensures
        run(st, Seq::new(m, |i: int| Report::Present { is_dir: true, is_link: false }))
            == st.approached(from + m, tree),
    decreases m,
{
    let way = Seq::new(m, |i: int| Report::Present { is_dir: true, is_link: false });
    if m > 0 {
        let less = Seq::new((m - 1) as nat, |i: int| Report::Present { is_dir: true, is_link: false });
        lemma_way_is_passed(st, from, tree, n, (m - 1) as nat);
        assert(way.drop_last() =~= less);
        assert(way.last() == (Report::Present { is_dir: true, is_link: false }));
    }
}

} // verus!
