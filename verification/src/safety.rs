//! What the parts of the library promise together.

use vstd::prelude::*;

use crate::clean::{
    law_checked_target_is_inside, law_deeds_concern_checked_paths, removal_start, run, Report,
};
use crate::cli::plan_for;
use crate::engine::{law_only_ignored_paths_are_artifacts, resolution, EventFact};
use crate::gitignore::git_name;
use crate::path::{within, PathFact};
use crate::project::{GitStatus, ProjectId};
use crate::store::StoreFact;
use crate::tui::app::orders_for;

verus! {

/// The announcement that a project's candidates were put to git, which reported
/// the names `ignored`.
pub open spec fn git_answered(
    id: ProjectId,
    root: PathFact,
    candidates: Seq<(Seq<char>, PathFact)>,
    ignored: Seq<Seq<char>>,
) -> EventFact {
    let (artifacts, git, skipped) = resolution(
        root,
        candidates,
        true,
        Ok::<Seq<Seq<char>>, GitStatus>(ignored),
    );
    EventFact::Artifacts { id, artifacts, git, skipped }
}

/// Only paths that git itself reported as ignored are ever deleted. Once git has
/// answered for a project, cleaning it, from the command line or from the
/// interface, measures and deletes paths that git reported and no others,
/// whatever is found on disk in the course of it. Whatever is looked at or
/// deleted lies strictly inside the project.
pub proof fn law_only_ignored_paths_are_deleted(
    st: StoreFact,
    id: ProjectId,
    candidates: Seq<(Seq<char>, PathFact)>,
    ignored: Seq<Seq<char>>,
    home: Option<Seq<Seq<u8>>>,
    reports: Seq<Report>,
)
    requires
        st.knows(id),
    ensures
        ({
            let root = st.projects[id as int].root;
            let project = st.applied(git_answered(id, root, candidates, ignored)).projects[id as int];
            let removal = run(removal_start(root.parts, project.artifact_paths(), home), reports);
            removal.deed() matches Some(deed) ==> {
                &&& deed !is Inspect ==> deed.path() == removal.todo[0].parts && ignored.contains(
                    git_name(root, removal.todo[0]),
                )
                &&& within(deed.path(), root.parts)
                &&& deed.path().len() > root.parts.len()
            }
        }),
{
    let root = st.projects[id as int].root;
    let project = st.applied(git_answered(id, root, candidates, ignored)).projects[id as int];
    law_only_ignored_paths_are_artifacts(root, candidates, ignored);
    let paths = project.artifact_paths();
    law_deeds_concern_checked_paths(root.parts, paths, home, reports);
    let removal = run(removal_start(root.parts, paths, home), reports);
    if let Some(deed) = removal.deed() {
        if deed !is Inspect {
            let path = removal.todo[0];
            let k = choose|k: int| 0 <= k < paths.len() && paths[k] == path;
            assert(project.artifacts[k].path == path);
        }
        law_checked_target_is_inside(root.parts, deed.path(), home);
    }
}

/// Cleaning a project, from the command line or from the interface, deletes
/// from its root and nothing but its artifacts.
pub proof fn law_cleaning_concerns_artifacts(st: StoreFact, id: ProjectId)
    requires
        st.knows(id),
    ensures
        plan_for(seq![st.projects[id as int]]) == seq![
            (
                st.projects[id as int].id,
                st.projects[id as int].root,
                st.projects[id as int].artifact_paths(),
            ),
        ],
        orders_for(st, seq![id]) == if st.projects[id as int].artifacts.len() > 0 {
            seq![(id, st.projects[id as int].root, st.projects[id as int].artifact_paths())]
        } else {
            seq![]
        },
{
    let p = st.projects[id as int];
    assert(plan_for(seq![p]) =~= seq![(p.id, p.root, p.artifact_paths())]);
    reveal_with_fuel(orders_for, 2);
    assert(seq![id].drop_last() =~= seq![]);
    assert(orders_for(st, seq![id]) =~= if p.artifacts.len() > 0 {
        seq![(id, p.root, p.artifact_paths())]
    } else {
        seq![]
    });
}

} // verus!
