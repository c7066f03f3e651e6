//! Interactive state: what is shown, what is selected, what the keys do.

use std::collections::HashSet;

use vstd::prelude::*;

use crate::cli::{accepted, accepted_of, lemma_filter_shorter, plan_views, sizes_fit};
use crate::clock::{seconds, Duration, Timestamp, NANOS};
use crate::engine::{Event, EventFact};
use crate::gitignore::lemma_filter_holds;
use crate::glob::lemma_push_contains;
use crate::humantime::{
    duration_of, duration_text, format_duration, law_duration_reads_back, lemma_reads_component,
    lemma_unit_sizes, parse_duration, DurationFault, DAY, MONTH, YEAR,
};
use crate::order::{stably_sorted, Order};
use crate::path::{path_facts, FsPath, PathFact};
use crate::project::{
    fact_ordering, law_sorted_projects, lemma_sorted_views, project_views, sizes_add_up,
    sum_sizes, total_size, CleanState, Filter, FilterFact, Project, ProjectFact, ProjectId, Sort,
    StateFact,
};
use crate::store::{law_all_projects_are_found_ones, lemma_filter_members, Store, StoreFact};
use crate::text::{chars_of, decimal, digits, string_of_range, texts};

verus! {

broadcast use vstd::std_specs::hash::group_hash_axioms;

/// How long a status message stays on screen, in seconds.
pub const STATUS_TTL: u64 = 4;

/// How far a page key moves.
pub const PAGE: usize = 10;

#[derive(Debug, PartialEq, Eq)]
pub enum Mode {
    Normal,
    Search { input: String },
    Confirm { targets: Vec<ProjectId>, bytes: u64 },
    Help,
}

/// What a [`Mode`] says.
pub enum ModeFact {
    Normal,
    Search { input: Seq<char> },
    Confirm { targets: Seq<ProjectId>, bytes: u64 },
    Help,
}

impl View for Mode {
    type V = ModeFact;

    open spec fn view(&self) -> ModeFact {
        match *self {
            Mode::Normal => ModeFact::Normal,
            Mode::Search { input } => ModeFact::Search { input: input@ },
            Mode::Confirm { targets, bytes } => ModeFact::Confirm { targets: targets@, bytes },
            Mode::Help => ModeFact::Help,
        }
    }
}

/// A key of the keyboard.
#[derive(Debug, Clone, Copy, PartialEq, Eq, Structural)]
pub enum KeyCode {
    Char(char),
    Esc,
    Enter,
    Backspace,
    Up,
    Down,
    PageUp,
    PageDown,
    Home,
    End,
    Other,
}

/// Something that happened to a key.
#[derive(Debug, Clone, Copy, PartialEq, Eq, Structural)]
pub struct KeyEvent {
    pub code: KeyCode,
    /// The control key was held.
    pub control: bool,
    /// It was pressed, not released or repeated.
    pub pressed: bool,
}

impl KeyEvent {
    /// The key was pressed by itself.
    pub fn press(code: KeyCode) -> (r: KeyEvent)
        ensures
            r == (KeyEvent { code, control: false, pressed: true }),
    {
        KeyEvent { code, control: false, pressed: true }
    }
}

/// What has to be done outside once a key was handled.
#[derive(Debug, PartialEq, Eq)]
pub enum Effect {
    Nothing,
    /// Stop the pipeline and start it anew.
    Rescan,
    /// Queue these deletions: project, its root, and its artifact paths.
    Clean(Vec<(ProjectId, FsPath, Vec<FsPath>)>),
}

/// What an [`Effect`] is.
pub enum EffectFact {
    Nothing,
    Rescan,
    Clean(Seq<(ProjectId, PathFact, Seq<PathFact>)>),
}

impl View for Effect {
    type V = EffectFact;

    open spec fn view(&self) -> EffectFact {
        match *self {
            Effect::Nothing => EffectFact::Nothing,
            Effect::Rescan => EffectFact::Rescan,
            Effect::Clean(orders) => EffectFact::Clean(plan_views(orders@)),
        }
    }
}

pub struct App {
    pub store: Store,
    pub filter: Filter,
    pub sort: Sort,
    pub mode: Mode,
    /// Position of the selected row.
    pub selected: Option<usize>,
    pub marked: HashSet<ProjectId>,
    /// Ids currently displayed, in display order.
    pub view: Vec<ProjectId>,
    pub roots: Vec<FsPath>,
    /// What is shown in the last line, and since when.
    pub status: Option<(String, Duration)>,
    pub quit: bool,
    /// `(label, threshold)` pairs, ascending.
    pub ages: Vec<(String, Duration)>,
    /// Position of the threshold in use.
    pub age_index: usize,
}

/// What an [`App`] says.
pub struct AppFact {
    pub store: StoreFact,
    pub filter: FilterFact,
    pub sort: Sort,
    pub mode: ModeFact,
    pub selected: Option<usize>,
    pub marked: Set<ProjectId>,
    pub view: Seq<ProjectId>,
    pub roots: Seq<PathFact>,
    pub status: Option<(Seq<char>, nat)>,
    pub quit: bool,
    pub ages: Seq<(Seq<char>, nat)>,
    pub age_index: nat,
}

/// The view of a status message.
pub open spec fn status_view(status: Option<(String, Duration)>) -> Option<(Seq<char>, nat)> {
    match status {
        Some((text, since)) => Some((text@, since@)),
        None => None,
    }
}

/// Views of `(label, threshold)` pairs.
pub open spec fn age_views(ages: Seq<(String, Duration)>) -> Seq<(Seq<char>, nat)> {
    ages.map_values(|a: (String, Duration)| (a.0@, a.1@))
}

impl View for App {
    type V = AppFact;

    open spec fn view(&self) -> AppFact {
        AppFact {
            store: self.store@,
            filter: self.filter@,
            sort: self.sort,
            mode: self.mode@,
            selected: self.selected,
            marked: self.marked@,
            view: self.view@,
            roots: path_facts(self.roots@),
            status: status_view(self.status),
            quit: self.quit,
            ages: age_views(self.ages@),
            age_index: self.age_index as nat,
        }
    }
}

/// The projects with the given ids, as far as they are known.
pub open spec fn known(store: StoreFact, ids: Seq<ProjectId>) -> Seq<ProjectFact>
    decreases ids.len(),
{
    if ids.len() == 0 {
        seq![]
    } else {
        let before = known(store, ids.drop_last());
        if store.knows(ids.last()) {
            before.push(store.projects[ids.last() as int])
        } else {
            before
        }
    }
}

/// Bytes of the artifacts of the first `count` projects as far as `ids` holds
/// them.
pub open spec fn size_among(store: StoreFact, ids: Set<ProjectId>, count: nat) -> nat
    decreases count,
{
    if count == 0 {
        0
    } else {
        size_among(store, ids, (count - 1) as nat) + if ids.contains((count - 1) as usize) {
            store.projects[count - 1].size()
        } else {
            0
        }
    }
}

/// The deletions that cleaning the projects takes; projects without artifacts
/// take none.
pub open spec fn orders_for(store: StoreFact, targets: Seq<ProjectId>) -> Seq<
    (ProjectId, PathFact, Seq<PathFact>),
>
    decreases targets.len(),
{
    if targets.len() == 0 {
        seq![]
    } else {
        let before = orders_for(store, targets.drop_last());
        let id = targets.last();
        if store.knows(id) && store.projects[id as int].artifacts.len() > 0 {
            let p = store.projects[id as int];
            before.push((id, p.root, p.artifact_paths()))
        } else {
            before
        }
    }
}

/// The position of the first occurrence of `id`; the length where there is none.
pub open spec fn id_position(ids: Seq<ProjectId>, id: ProjectId) -> int
    decreases ids.len(),
{
    if ids.len() == 0 {
        0
    } else {
        let before = id_position(ids.drop_last(), id);
        if before < ids.len() - 1 {
            before
        } else if ids.last() == id {
            ids.len() - 1
        } else {
            ids.len() as int
        }
    }
}

/// The ids of the projects.
pub open spec fn ids_of(projects: Seq<ProjectFact>) -> Seq<ProjectId> {
    projects.map_values(|p: ProjectFact| p.id)
}

/// Every event of `events`, one after the other.
pub open spec fn applied_all(store: StoreFact, events: Seq<EventFact>) -> StoreFact
    decreases events.len(),
{
    if events.len() == 0 {
        store
    } else {
        applied_all(store, events.drop_last()).applied(events.last())
    }
}

/// The totals stay within machine integers all along.
pub open spec fn room_for_all(store: StoreFact, events: Seq<EventFact>) -> bool
    decreases events.len(),
{
    events.len() == 0 || (room_for_all(store, events.drop_last()) && applied_all(
        store,
        events.drop_last(),
    ).has_room(events.last()))
}

/// The projects of which `events` say that cleaning is over, in order.
pub open spec fn cleaned_ids(events: Seq<EventFact>) -> Seq<ProjectId>
    decreases events.len(),
{
    if events.len() == 0 {
        seq![]
    } else {
        let before = cleaned_ids(events.drop_last());
        match events.last() {
            EventFact::CleanFinished { id, .. } => before.push(id),
            _ => before,
        }
    }
}

/// Views of a list of events.
pub open spec fn event_views(events: Seq<Event>) -> Seq<EventFact> {
    events.map_values(|e: Event| e@)
}

impl AppFact {
    /// The threshold in use is the one whose label is shown.
    pub open spec fn is_valid(self) -> bool {
        &&& self.age_index < self.ages.len()
        &&& self.ages[self.age_index as int].1 == self.filter.older_than
    }

    pub open spec fn with_status(self, text: Seq<char>, tick: nat) -> AppFact {
        AppFact { status: Some((text, tick)), ..self }
    }

    pub open spec fn selected_id(self) -> Option<ProjectId> {
        match self.selected {
            Some(i) if i < self.view.len() => Some(self.view[i as int]),
            _ => None,
        }
    }

    pub open spec fn selected_project(self) -> Option<ProjectFact> {
        match self.selected_id() {
            Some(id) if self.store.knows(id) => Some(self.store.projects[id as int]),
            _ => None,
        }
    }

    pub open spec fn visible(self) -> Seq<ProjectFact> {
        known(self.store, self.view)
    }

    pub open spec fn marked_bytes(self) -> nat {
        size_among(self.store, self.marked, self.store.projects.len())
    }

    /// What is reclaimable can be told.
    pub open spec fn fits(self) -> bool {
        total_size(self.visible()) <= u64::MAX && self.marked_bytes() <= u64::MAX
    }

    /// Row `index` is selected, or the last one where there are fewer.
    pub open spec fn selecting(self, index: int) -> AppFact {
        AppFact {
            selected: if self.view.len() == 0 {
                None
            } else if index < self.view.len() {
                Some(index as usize)
            } else {
                Some((self.view.len() - 1) as usize)
            },
            ..self
        }
    }

    /// The selection moves by `delta` rows and stops at the ends.
    pub open spec fn moved(self, delta: int) -> AppFact {
        if self.view.len() == 0 {
            self
        } else {
            let current = match self.selected {
                Some(i) => i as int,
                None => 0,
            };
            self.selecting(if current + delta < 0 {
                0
            } else {
                current + delta
            })
        }
    }

    /// The mark of the selected project changes, and the selection moves on.
    pub open spec fn toggled(self) -> AppFact {
        match self.selected_id() {
            None => self,
            Some(id) => AppFact {
                marked: if self.marked.contains(id) {
                    self.marked.remove(id)
                } else {
                    self.marked.insert(id)
                },
                ..self
            }.moved(1),
        }
    }

    /// The visible projects that can be cleaned.
    pub open spec fn markable(self) -> Seq<ProjectId> {
        ids_of(self.visible().filter(|p: ProjectFact| p.is_cleanable()))
    }

    /// All visible projects that can be cleaned are marked.
    pub open spec fn all_marked(self, tick: nat) -> AppFact {
        AppFact { marked: self.marked.union(self.markable().to_set()), ..self }.with_status(
            digits(self.markable().len()) + " projects selected"@,
            tick,
        )
    }

    /// No project is marked.
    pub open spec fn none_marked(self, tick: nat) -> AppFact {
        AppFact { marked: Set::empty(), ..self }.with_status("selection cleared"@, tick)
    }

    /// The threshold at position `index` is used.
    pub open spec fn aged(self, index: int, tick: nat) -> AppFact {
        let (label, span) = self.ages[index];
        AppFact {
            age_index: index as nat,
            filter: FilterFact { older_than: span, ..self.filter },
            ..self
        }.with_status(
            if span == 0 {
                "age filter off"@
            } else {
                "idle for at least "@ + label
            },
            tick,
        )
    }

    /// The next threshold, the first behind the last.
    pub open spec fn raised(self, tick: nat) -> AppFact {
        self.aged(
            if self.age_index + 1 < self.ages.len() {
                self.age_index as int + 1
            } else {
                0
            },
            tick,
        )
    }

    /// The threshold before, the last before the first.
    pub open spec fn lowered(self, tick: nat) -> AppFact {
        self.aged(
            if self.age_index > 0 {
                self.age_index - 1
            } else {
                self.ages.len() - 1
            },
            tick,
        )
    }

    /// Everything found is forgotten.
    pub open spec fn rescanned(self, tick: nat) -> AppFact {
        AppFact {
            store: StoreFact {
                projects: seq![],
                dirs_scanned: 0,
                scanning: true,
                current_dir: None,
                skipped_paths: 0,
                freed: 0,
            },
            marked: Set::empty(),
            view: seq![],
            selected: Some(0),
            ..self
        }.with_status("rescanning"@, tick)
    }

    /// The projects to be cleaned: those marked, in display order, or the
    /// selected one; only those that can be cleaned.
    pub open spec fn targets(self) -> Seq<ProjectId> {
        let wanted = if self.marked.is_empty() {
            match self.selected_id() {
                Some(id) => seq![id],
                None => seq![],
            }
        } else {
            self.view.filter(|id: ProjectId| self.marked.contains(id))
        };
        wanted.filter(
            |id: ProjectId|
                self.store.knows(id) && self.store.projects[id as int].is_cleanable(),
        )
    }

    /// What the targets occupy can be told.
    pub open spec fn targets_fit(self) -> bool {
        total_size(known(self.store, self.targets())) <= u64::MAX
    }

    /// Confirmation is asked for, if there is anything to clean.
    pub open spec fn requested(self, tick: nat) -> AppFact {
        let targets = self.targets();
        if targets.len() == 0 {
            self.with_status("nothing to clean here"@, tick)
        } else {
            AppFact {
                mode: ModeFact::Confirm {
                    targets,
                    bytes: total_size(known(self.store, targets)) as u64,
                },
                ..self
            }
        }
    }

    /// The confirmed deletions are under way.
    pub open spec fn started(self, targets: Seq<ProjectId>, tick: nat) -> AppFact {
        AppFact { mode: ModeFact::Normal, ..self }.with_status(
            "cleaning "@ + digits(orders_for(self.store, targets).len()) + " project(s)"@,
            tick,
        )
    }

    pub open spec fn resorted(self, tick: nat) -> AppFact {
        AppFact { sort: self.sort.following(), ..self }.with_status(
            "sorted by "@ + self.sort.following().label_text(),
            tick,
        )
    }

    pub open spec fn unveiled(self, tick: nat) -> AppFact {
        let only = !self.filter.with_artifacts_only;
        AppFact {
            filter: FilterFact { with_artifacts_only: only, ..self.filter },
            ..self
        }.with_status(
            if only {
                "showing projects with artifacts"@
            } else {
                "showing all projects"@
            },
            tick,
        )
    }

    /// The query is edited.
    pub open spec fn searching(self, input: Seq<char>) -> AppFact {
        AppFact {
            filter: FilterFact { query: input, ..self.filter },
            mode: ModeFact::Search { input },
            ..self
        }
    }

    /// A key was pressed while nothing else was going on.
    pub open spec fn after_normal_key(self, code: KeyCode, tick: nat) -> AppFact {
        match code {
            KeyCode::Char('q') => AppFact { quit: true, ..self },
            KeyCode::Esc => AppFact { quit: true, ..self },
            KeyCode::Char('j') => self.moved(1),
            KeyCode::Down => self.moved(1),
            KeyCode::Char('k') => self.moved(-1),
            KeyCode::Up => self.moved(-1),
            KeyCode::PageDown => self.moved(PAGE as int),
            KeyCode::PageUp => self.moved(-(PAGE as int)),
            KeyCode::Char('g') => self.selecting(0),
            KeyCode::Home => self.selecting(0),
            KeyCode::Char('G') => self.selecting(self.view.len() as int),
            KeyCode::End => self.selecting(self.view.len() as int),
            KeyCode::Char(' ') => self.toggled(),
            KeyCode::Char('a') => self.all_marked(tick),
            KeyCode::Char('A') => self.none_marked(tick),
            KeyCode::Char('s') => self.resorted(tick),
            KeyCode::Char('o') => self.raised(tick),
            KeyCode::Char('O') => self.lowered(tick),
            KeyCode::Char('/') => AppFact {
                mode: ModeFact::Search { input: self.filter.query },
                ..self
            },
            KeyCode::Char('v') => self.unveiled(tick),
            KeyCode::Char('r') => self.rescanned(tick),
            KeyCode::Char('c') => self.requested(tick),
            KeyCode::Enter => self.requested(tick),
            KeyCode::Char('?') => AppFact { mode: ModeFact::Help, ..self },
            KeyCode::Char('h') => AppFact { mode: ModeFact::Help, ..self },
            _ => self,
        }
    }

    /// The key asks to stop, whatever is going on.
    pub open spec fn is_interrupt(key: KeyEvent) -> bool {
        key.pressed && key.control && key.code == KeyCode::Char('c')
    }

    /// The key confirms a deletion.
    pub open spec fn is_yes(code: KeyCode) -> bool {
        code == KeyCode::Char('y')
    }

    /// Something happened to a key.
    pub open spec fn after_key(self, key: KeyEvent, tick: nat) -> AppFact {
        if !key.pressed {
            self
        } else if AppFact::is_interrupt(key) {
            AppFact { quit: true, ..self }
        } else {
            match self.mode {
                ModeFact::Help => AppFact { mode: ModeFact::Normal, ..self },
                ModeFact::Search { input } => match key.code {
                    KeyCode::Esc => AppFact {
                        filter: FilterFact { query: seq![], ..self.filter },
                        mode: ModeFact::Normal,
                        ..self
                    },
                    KeyCode::Enter => AppFact { mode: ModeFact::Normal, ..self },
                    KeyCode::Backspace => self.searching(if input.len() == 0 {
                        input
                    } else {
                        input.drop_last()
                    }),
                    KeyCode::Char(c) => self.searching(input.push(c)),
                    _ => self,
                },
                ModeFact::Confirm { targets, .. } => if AppFact::is_yes(key.code) {
                    self.started(targets, tick)
                } else {
                    AppFact { mode: ModeFact::Normal, ..self }.with_status("cancelled"@, tick)
                },
                ModeFact::Normal => self.after_normal_key(key.code, tick),
            }
        }
    }

    /// What has to be done outside after that.
    pub open spec fn effect(self, key: KeyEvent) -> EffectFact {
        if !key.pressed || AppFact::is_interrupt(key) {
            EffectFact::Nothing
        } else {
            match self.mode {
                ModeFact::Confirm { targets, .. } => if AppFact::is_yes(key.code) {
                    EffectFact::Clean(orders_for(self.store, targets))
                } else {
                    EffectFact::Nothing
                },
                ModeFact::Normal => if key.code == KeyCode::Char('r') {
                    EffectFact::Rescan
                } else {
                    EffectFact::Nothing
                },
                _ => EffectFact::Nothing,
            }
        }
    }

    /// The key asks for a confirmation.
    pub open spec fn asks(self, key: KeyEvent) -> bool {
        key.pressed && !AppFact::is_interrupt(key) && self.mode is Normal && (key.code
            == KeyCode::Char('c') || key.code == KeyCode::Enter)
    }

    /// The cleaning of the projects `ids` is over: they lose their marks, and
    /// the first error of one that failed is shown.
    pub open spec fn noted(self, ids: Seq<ProjectId>, tick: nat) -> AppFact
        decreases ids.len(),
    {
        if ids.len() == 0 {
            self
        } else {
            let before = self.noted(ids.drop_last(), tick);
            let id = ids.last();
            let unmarked = AppFact { marked: before.marked.remove(id), ..before };
            if self.store.knows(id) && self.store.projects[id as int].state is Failed
                && self.store.projects[id as int].state->errors.len() > 0 {
                unmarked.with_status(
                    "clean failed: "@ + self.store.projects[id as int].state->errors[0],
                    tick,
                )
            } else {
                unmarked
            }
        }
    }

    /// The events are folded in.
    pub open spec fn folded(self, events: Seq<EventFact>, tick: nat) -> AppFact {
        AppFact { store: applied_all(self.store, events), ..self }.noted(cleaned_ids(events), tick)
    }

    /// The row to be selected once `view` is shown: that of the project that
    /// was selected, or the row of the same number.
    pub open spec fn reselected(self, view: Seq<ProjectId>) -> Option<usize> {
        let previous = match self.selected {
            Some(i) => i as int,
            None => 0,
        };
        let last = view.len() - 1;
        if view.len() == 0 {
            None
        } else {
            match self.selected_id() {
                Some(id) if id_position(view, id) < view.len() => Some(
                    id_position(view, id) as usize,
                ),
                _ => Some((if previous < last {
                    previous
                } else {
                    last
                }) as usize),
            }
        }
    }

    /// A status message that has been there for too long is gone.
    pub open spec fn expired(self, tick: nat) -> AppFact {
        match self.status {
            Some((_, since)) if tick > since + seconds(STATUS_TTL as nat) => AppFact {
                status: None,
                ..self
            },
            _ => self,
        }
    }

    /// `after` is this state with the list made anew at the time `now`: the
    /// projects that the filter accepts, in order.
    pub open spec fn rebuilds_to(self, now: int, after: AppFact) -> bool {
        exists|sorted: Seq<ProjectFact>| #[trigger]
            stably_sorted(
                accepted_of(self.store, self.filter, now),
                sorted,
                fact_ordering(self.sort),
            ) && after == (AppFact {
                view: ids_of(sorted),
                selected: self.reselected(ids_of(sorted)),
                ..self
            })
    }

    /// `after` is this state with the list made anew, and without a status
    /// message that has been there for too long.
    pub open spec fn refreshes_to(self, now: int, tick: nat, after: AppFact) -> bool {
        exists|made: AppFact| #[trigger] self.rebuilds_to(now, made) && after == made.expired(tick)
    }
}

/// Nothing is ever handed out for deletion but on a confirmation: the question
/// must be on screen, and the key must be `y`. Any other key backs out without
/// touching the disk: nothing is handed out, and what was found and what is
/// marked stay as they are.
pub proof fn law_deletion_needs_confirmation(st: AppFact, key: KeyEvent, tick: nat)
    ensures
        st.effect(key) is Clean ==> st.mode is Confirm && AppFact::is_yes(key.code),
        st.mode is Confirm && key.pressed && !AppFact::is_interrupt(key) && !AppFact::is_yes(
            key.code,
        ) ==> st.effect(key) is Nothing && st.after_key(key, tick).mode is Normal
            && st.after_key(key, tick).store == st.store && st.after_key(key, tick).marked
            == st.marked,
        AppFact::is_yes(key.code) <==> key.code == KeyCode::Char('y'),
        st.after_key(key, tick).mode is Confirm && !(st.mode is Confirm) ==> st.asks(key)
            && st.after_key(key, tick).mode->targets == st.targets(),
{
}

/// Whatever key is pressed, the threshold in use stays the one whose label is
/// shown, and nothing found is lost but by a rescan.
pub proof fn law_keys_keep_state(st: AppFact, key: KeyEvent, tick: nat)
    requires
        st.is_valid(),
    ensures
        st.after_key(key, tick).is_valid(),
        st.after_key(key, tick).ages == st.ages,
        st.after_key(key, tick).roots == st.roots,
        st.after_key(key, tick).store == st.store || st.effect(key) is Rescan,
        st.quit ==> st.after_key(key, tick).quit,
{
}

/// Raising and lowering the threshold undo each other.
pub proof fn law_threshold_keys_undo(st: AppFact, tick: nat, later: nat)
    requires
        st.is_valid(),
    ensures
        st.raised(tick).lowered(later).filter == st.filter,
        st.raised(tick).lowered(later).age_index == st.age_index,
        st.lowered(tick).raised(later).filter == st.filter,
        st.lowered(tick).raised(later).age_index == st.age_index,
{
}

/// Every target of a confirmation can be cleaned.
pub proof fn law_targets_are_cleanable(st: AppFact, id: ProjectId)
    requires
        st.targets().contains(id),
    ensures
        st.store.knows(id),
        st.store.projects[id as int].is_cleanable(),
        !st.marked.is_empty() ==> st.marked.contains(id) && st.view.contains(id),
        st.marked.is_empty() ==> st.selected_id() == Some(id),
{
    let wanted = if st.marked.is_empty() {
        match st.selected_id() {
            Some(id) => seq![id],
            None => seq![],
        }
    } else {
        st.view.filter(|id: ProjectId| st.marked.contains(id))
    };
    lemma_filter_holds(
        wanted,
        |id: ProjectId| st.store.knows(id) && st.store.projects[id as int].is_cleanable(),
        id,
    );
    if !st.marked.is_empty() {
        lemma_filter_holds(
            st.view,
            |id: ProjectId| st.marked.contains(id),
            id,
        );
    }
}

/// Every preset is a threshold: label and length in seconds.
pub open spec fn base_presets() -> Seq<(Seq<char>, nat)> {
    seq![
        ("off"@, 0nat),
        ("7d"@, seconds(7 * DAY as nat)),
        ("14d"@, seconds(14 * DAY as nat)),
        ("30d"@, seconds(30 * DAY as nat)),
        ("90d"@, seconds(90 * DAY as nat)),
        ("6mo"@, seconds(6 * MONTH as nat)),
        ("1y"@, seconds(YEAR as nat)),
        ("2y"@, seconds(2 * YEAR as nat)),
    ]
}

/// How many of the presets are shorter than `span`.
pub open spec fn shorter(presets: Seq<(Seq<char>, nat)>, span: nat) -> int
    decreases presets.len(),
{
    if presets.len() == 0 {
        0
    } else {
        shorter(presets.drop_last(), span) + if presets.last().1 < span {
            1int
        } else {
            0int
        }
    }
}

/// One of the presets is as long as `span`.
pub open spec fn has_span(presets: Seq<(Seq<char>, nat)>, span: nat) -> bool {
    exists|i: int| 0 <= i < presets.len() && (#[trigger] presets[i]).1 == span
}

/// The presets and, if it is not one of them, `initial` in its place.
pub open spec fn presets_with(initial: nat) -> Seq<(Seq<char>, nat)> {
    let base = base_presets();
    if has_span(base, initial) {
        base
    } else {
        base.insert(shorter(base, initial), (duration_text(initial / (NANOS as nat)), initial))
    }
}

proof fn lemma_presets()
    ensures
        duration_of("off"@) == Ok::<nat, DurationFault>(0),
        duration_of("7d"@) == Ok::<nat, DurationFault>(7 * DAY as nat),
        duration_of("14d"@) == Ok::<nat, DurationFault>(14 * DAY as nat),
        duration_of("30d"@) == Ok::<nat, DurationFault>(30 * DAY as nat),
        duration_of("90d"@) == Ok::<nat, DurationFault>(90 * DAY as nat),
        duration_of("6mo"@) == Ok::<nat, DurationFault>(6 * MONTH as nat),
        duration_of("1y"@) == Ok::<nat, DurationFault>(YEAR as nat),
        duration_of("2y"@) == Ok::<nat, DurationFault>(2 * YEAR as nat),
{
    law_duration_reads_back(0);
    lemma_unit_sizes();
    reveal_strlit("d");
    reveal_strlit("mo");
    reveal_strlit("y");
    reveal_strlit("7d");
    reveal_strlit("14d");
    reveal_strlit("30d");
    reveal_strlit("90d");
    reveal_strlit("6mo");
    reveal_strlit("1y");
    reveal_strlit("2y");
    reveal_with_fuel(digits, 3);
    lemma_reads_component(7, "d"@, DAY as nat);
    assert("7d"@ =~= digits(7) + "d"@);
    lemma_reads_component(14, "d"@, DAY as nat);
    assert("14d"@ =~= digits(14) + "d"@);
    lemma_reads_component(30, "d"@, DAY as nat);
    assert("30d"@ =~= digits(30) + "d"@);
    lemma_reads_component(90, "d"@, DAY as nat);
    assert("90d"@ =~= digits(90) + "d"@);
    lemma_reads_component(6, "mo"@, MONTH as nat);
    assert("6mo"@ =~= digits(6) + "mo"@);
    lemma_reads_component(1, "y"@, YEAR as nat);
    assert("1y"@ =~= digits(1) + "y"@);
    lemma_reads_component(2, "y"@, YEAR as nat);
    assert("2y"@ =~= digits(2) + "y"@);
}

fn add_preset(presets: &mut Vec<(String, Duration)>, label: &str)
    ensures
        match duration_of(label@) {
            Ok(secs) => age_views(final(presets)@) == age_views(old(presets)@).push(
                (label@, seconds(secs)),
            ),
            Err(_) => age_views(final(presets)@) == age_views(old(presets)@),
        },
{
    let ghost before = presets@;
    match parse_duration(label) {
        Ok(span) => {
            let pair = (label.to_owned(), span);
            presets.push(pair);
            assert(age_views(presets@) =~= age_views(before).push((label@, span@)));
        },
        Err(_) => {},
    }
}

/// Presets plus, if it is not one of them, the threshold the CLI started with.
pub fn build_age_presets(initial: Duration) -> (r: Vec<(String, Duration)>)
    ensures
        age_views(r@) == presets_with(initial@),
{
    let mut presets: Vec<(String, Duration)> = Vec::new();
    proof {
        lemma_presets();
        assert(age_views(presets@) =~= seq![]);
        assert(seconds(0) == 0);
    }
    add_preset(&mut presets, "off");
    add_preset(&mut presets, "7d");
    add_preset(&mut presets, "14d");
    add_preset(&mut presets, "30d");
    add_preset(&mut presets, "90d");
    add_preset(&mut presets, "6mo");
    add_preset(&mut presets, "1y");
    add_preset(&mut presets, "2y");
    let ghost base = base_presets();
    assert(age_views(presets@) =~= base);
    let mut at: usize = 0;
    let mut i: usize = 0;
    assert(base.take(0) =~= seq![]);
    assert(base.take(base.len() as int) =~= base);
    while i < presets.len()
        invariant
            0 <= i <= presets.len(),
            age_views(presets@) == base,
            base.take(base.len() as int) == base,
            presets@.len() == base.len(),
            at <= i,
            at == shorter(base.take(i as int), initial@),
            forall|k: int| 0 <= k < i ==> (#[trigger] base[k]).1 != initial@,
        ensures
            i <= presets.len(),
            i < presets.len() ==> base[i as int].1 == initial@,
            i == presets.len() ==> at == shorter(base, initial@) && !has_span(base, initial@),
            age_views(presets@) == base,
            at <= i,
        decreases presets.len() - i,
    {
        assert(base.take(i + 1).drop_last() =~= base.take(i as int));
        assert(base.take(i + 1).last() == base[i as int]);
        assert(base[i as int] == (presets@[i as int].0@, presets@[i as int].1@));
        match presets[i].1.order(&initial) {
            Order::Same => {
                assert(base[i as int].1 == initial@);
                break;
            },
            Order::Before => {
                at = at + 1;
            },
            Order::After => {},
        }
        i = i + 1;
    }
    if i == presets.len() {
        let pair = (format_duration(initial), initial);
        let ghost before = presets@;
        presets.insert(at, pair);
        assert(age_views(presets@) =~= base.insert(at as int, (pair.0@, pair.1@)));
    }
    presets
}

/// The thresholds ascend strictly, start with "off", and the initial one is
/// among them, under its own label.
pub proof fn law_presets_ascend(initial: nat)
    ensures
        presets_with(initial)[0] == ("off"@, 0nat),
        has_span(presets_with(initial), initial),
        forall|i: int, j: int|
            #![trigger presets_with(initial)[i], presets_with(initial)[j]]
            0 <= i < j < presets_with(initial).len() ==> presets_with(initial)[i].1
                < presets_with(initial)[j].1,
        presets_with(initial).len() == if has_span(base_presets(), initial) {
            8int
        } else {
            9int
        },
{
    let base = base_presets();
    let all = presets_with(initial);
    assert forall|i: int, j: int|
        #![trigger base[i], base[j]]
        0 <= i < j < base.len() implies base[i].1 < base[j].1 by {
        assert(seconds(7 * DAY as nat) == 604_800_000_000_000);
        assert(seconds(14 * DAY as nat) == 1_209_600_000_000_000);
        assert(seconds(30 * DAY as nat) == 2_592_000_000_000_000);
        assert(seconds(90 * DAY as nat) == 7_776_000_000_000_000);
        assert(seconds(6 * MONTH as nat) == 15_552_000_000_000_000);
        assert(seconds(YEAR as nat) == 31_536_000_000_000_000);
        assert(seconds(2 * YEAR as nat) == 63_072_000_000_000_000);
    }
    if !has_span(base, initial) {
        lemma_shorter(base, initial);
        let at = shorter(base, initial);
        let pair = (duration_text(initial / (NANOS as nat)), initial);
        assert(base[0].1 == 0);
        if initial == 0 {
            assert(has_span(base, 0));
        }
        assert(at > 0) by {
            if at == 0 {
                assert(base[0].1 >= initial);
            }
        }
        assert(all[at] == pair);
        assert(all[at].1 == initial);
        assert forall|i: int, j: int|
            #![trigger all[i], all[j]]
            0 <= i < j < all.len() implies all[i].1 < all[j].1 by {
            let a = if i < at {
                i
            } else {
                i - 1
            };
            let b = if j < at {
                j
            } else {
                j - 1
            };
            if i != at {
                assert(all[i] == base[a]);
                assert(base[a].1 != initial);
            }
            if j != at {
                assert(all[j] == base[b]);
                assert(base[b].1 != initial);
            }
            if i != at && j != at {
                assert(base[a].1 < base[b].1);
            }
        }
        assert(all[0] == base[0]);
    }
}

proof fn lemma_shorter(presets: Seq<(Seq<char>, nat)>, span: nat)
    requires
        forall|i: int, j: int|
            #![trigger presets[i], presets[j]]
            0 <= i < j < presets.len() ==> presets[i].1 < presets[j].1,
    ensures
        0 <= shorter(presets, span) <= presets.len(),
        forall|i: int|
            0 <= i < presets.len() ==> ((#[trigger] presets[i]).1 < span <==> i < shorter(
                presets,
                span,
            )),
    decreases presets.len(),
{
    if presets.len() > 0 {
        let init = presets.drop_last();
        assert forall|i: int, j: int|
            #![trigger init[i], init[j]]
            0 <= i < j < init.len() implies init[i].1 < init[j].1 by {
            assert(init[i] == presets[i] && init[j] == presets[j]);
        }
        lemma_shorter(init, span);
        let last = presets.len() - 1;
        assert(presets.last() == presets[last]);
        if presets.last().1 < span {
            assert forall|i: int| 0 <= i < init.len() implies (#[trigger] init[i]).1 < span by {
                assert(presets[i].1 < presets[last].1);
                assert(init[i] == presets[i]);
            }
            if init.len() > 0 {
                assert(init[init.len() - 1].1 < span);
            }
        }
        assert forall|i: int| 0 <= i < presets.len() implies ((#[trigger] presets[i]).1 < span <==> i
            < shorter(presets, span)) by {
            if i < init.len() {
                assert(init[i] == presets[i]);
            }
        }
    }
}

/// The text without its last character.
fn without_last(text: &str) -> (r: String)
    ensures
        r@ == if text@.len() == 0 {
            text@
        } else {
            text@.drop_last()
        },
{
    let chars = chars_of(text);
    let end = chars.len().saturating_sub(1);
    assert(text@.len() > 0 ==> chars@.subrange(0, end as int) =~= text@.drop_last());
    assert(text@.len() == 0 ==> chars@.subrange(0, end as int) =~= text@);
    string_of_range(&chars, 0, end)
}

proof fn lemma_id_position(ids: Seq<ProjectId>, id: ProjectId, at: int)
    requires
        0 <= at <= ids.len(),
        at < ids.len() ==> ids[at] == id,
        forall|i: int| 0 <= i < at ==> #[trigger] ids[i] != id,
    ensures
        id_position(ids, id) == at,
    decreases ids.len(),
{
    if ids.len() > 0 {
        let init = ids.drop_last();
        if at < init.len() {
            lemma_id_position(init, id, at);
        } else {
            lemma_id_position(init, id, init.len() as int);
        }
    }
}

impl App {
    /// The interface over `roots`, before anything has been found.
    pub fn new(roots: Vec<FsPath>, filter: Filter) -> (r: App)
        ensures
            r@ == (AppFact {
                store: StoreFact {
                    projects: seq![],
                    dirs_scanned: 0,
                    scanning: true,
                    current_dir: None,
                    skipped_paths: 0,
                    freed: 0,
                },
                filter: filter@,
                sort: Sort::Size,
                mode: ModeFact::Normal,
                selected: Some(0),
                marked: Set::empty(),
                view: seq![],
                roots: path_facts(roots@),
                status: None,
                quit: false,
                ages: presets_with(filter@.older_than),
                age_index: r@.age_index,
            }),
            r@.is_valid(),
    {
        let ages = build_age_presets(filter.older_than);
        let ghost all = age_views(ages@);
        let mut age_index: usize = 0;
        proof {
            law_presets_ascend(filter.older_than@);
        }
        while age_index < ages.len() && !ages[age_index].1.same(&filter.older_than)
            invariant
                0 <= age_index <= ages.len(),
                all == age_views(ages@),
                has_span(all, filter.older_than@),
                forall|k: int| 0 <= k < age_index ==> (#[trigger] all[k]).1 != filter.older_than@,
            decreases ages.len() - age_index,
        {
            assert(all[age_index as int] == (
                ages@[age_index as int].0@,
                ages@[age_index as int].1@,
            ));
            age_index = age_index + 1;
        }
        proof {
            let k = choose|k: int| 0 <= k < all.len() && (#[trigger] all[k]).1 == filter.older_than@;
            assert(age_index < ages.len());
            assert(all[age_index as int] == (
                ages@[age_index as int].0@,
                ages@[age_index as int].1@,
            ));
        }
        let r = App {
            store: Store::new(),
            filter,
            sort: Sort::Size,
            mode: Mode::Normal,
            selected: Some(0),
            marked: HashSet::new(),
            view: Vec::new(),
            roots,
            status: None,
            quit: false,
            ages,
            age_index,
        };
        assert(r.view@ =~= seq![]);
        r
    }

    /// Whether the events can be folded in.
    pub fn can_fold(&self, events: &Vec<Event>) -> (r: bool)
        ensures
            r == room_for_all(self@.store, event_views(events@)),
    {
        let ghost all = event_views(events@);
        let ghost start = self.store@;
        let mut skipped: usize = self.store.skipped_paths;
        let mut freed: u64 = self.store.freed;
        let mut i: usize = 0;
        assert(all.take(0) =~= seq![]);
        while i < events.len()
            invariant
                0 <= i <= events.len(),
                all == event_views(events@),
                start == self@.store,
                room_for_all(start, all.take(i as int)),
                skipped == applied_all(start, all.take(i as int)).skipped_paths,
                freed == applied_all(start, all.take(i as int)).freed,
            decreases events.len() - i,
        {
            assert(all.take(i + 1).drop_last() =~= all.take(i as int));
            assert(all.take(i + 1).last() == events@[i as int]@);
            let ghost st = applied_all(start, all.take(i as int));
            let fits = match &events[i] {
                Event::Found(project) => project.id < usize::MAX,
                Event::Artifacts { skipped: more, .. } => {
                    assert(path_facts(more@).len() == more@.len());
                    match skipped.checked_add(more.len()) {
                        Some(n) => {
                            skipped = n;
                            true
                        },
                        None => false,
                    }
                },
                Event::CleanFinished { freed: more, .. } => match freed.checked_add(*more) {
                    Some(n) => {
                        freed = n;
                        true
                    },
                    None => false,
                },
                _ => true,
            };
            if !fits {
                proof {
                    assert(!st.has_room(events@[i as int]@));
                    lemma_no_room(start, all, i + 1);
                }
                return false;
            }
            i = i + 1;
        }
        assert(all.take(all.len() as int) =~= all);
        true
    }

    /// Take everything the pipeline produced.
    pub fn fold(&mut self, events: Vec<Event>, tick: Duration)
        requires
            room_for_all(old(self)@.store, event_views(events@)),
        ensures
            final(self)@ == old(self)@.folded(event_views(events@), tick@),
    {
        let ghost all = event_views(events@);
        let ghost start = self@;
        let mut cleaned: Vec<ProjectId> = Vec::new();
        let mut events = events;
        let count = events.len();
        let mut i: usize = 0;
        let mut rest: Vec<Event> = Vec::new();
        // Take the events from the front by turning the list round once.
        while events.len() > 0
            invariant
                rest@.len() + events@.len() == count,
                all.len() == count,
                forall|k: int| 0 <= k < events@.len() ==> #[trigger] events@[k]@ == all[k],
                forall|k: int|
                    0 <= k < rest@.len() ==> #[trigger] rest@[k]@ == all[count - 1 - k],
            decreases events.len(),
        {
            let last = events.pop();
            rest.push(last.unwrap());
        }
        assert(all.take(0) =~= seq![]);
        assert(cleaned@ =~= cleaned_ids(all.take(0)));
        while rest.len() > 0
            invariant
                0 <= i <= count,
                rest@.len() == count - i,
                all.len() == count,
                forall|k: int|
                    0 <= k < rest@.len() ==> #[trigger] rest@[k]@ == all[count - 1 - k],
                room_for_all(start.store, all),
                self@ == (AppFact { store: applied_all(start.store, all.take(i as int)), ..start }),
                cleaned@ == cleaned_ids(all.take(i as int)),
            decreases rest.len(),
        {
            let last = rest.pop();
            let event = last.unwrap();
            proof {
                assert(event@ == all[i as int]);
                assert(all.take(i + 1).drop_last() =~= all.take(i as int));
                assert(all.take(i + 1).last() == event@);
                lemma_room_prefix(start.store, all, i + 1);
            }
            if let Event::CleanFinished { id, .. } = &event {
                cleaned.push(*id);
            }
            self.store.apply(event);
            i = i + 1;
        }
        assert(all.take(all.len() as int) =~= all);
        let ghost middle = self@;
        let mut k: usize = 0;
        assert(cleaned@.take(0) =~= seq![]);
        while k < cleaned.len()
            invariant
                0 <= k <= cleaned.len(),
                self@ == middle.noted(cleaned@.take(k as int), tick@),
                middle.store == self.store@,
            decreases cleaned.len() - k,
        {
            let id = cleaned[k];
            assert(cleaned@.take(k + 1).drop_last() =~= cleaned@.take(k as int));
            assert(cleaned@.take(k + 1).last() == id);
            let ghost before = self@;
            self.marked.remove(&id);
            assert(self@ == (AppFact { marked: before.marked.remove(id), ..before }));
            let failure = self.first_error(id);
            if let Some(error) = failure {
                let mut message = "clean failed: ".to_owned();
                message.append(error.as_str());
                self.set_status(message, tick);
            }
            k = k + 1;
        }
        assert(cleaned@.take(cleaned@.len() as int) =~= cleaned@);
    }

    fn first_error(&self, id: ProjectId) -> (r: Option<String>)
        ensures
            r is Some <==> self@.store.knows(id) && self@.store.projects[id as int].state is Failed
                && self@.store.projects[id as int].state->errors.len() > 0,
            r matches Some(error) ==> error@ == self@.store.projects[id as int].state->errors[0],
    {
        match self.store.get(id) {
            Some(project) => match &project.state {
                CleanState::Failed { errors } => {
                    assert(texts(errors@).len() == errors@.len());
                    if errors.len() > 0 {
                        Some(errors[0].clone())
                    } else {
                        None
                    }
                },
                _ => None,
            },
            None => None,
        }
    }

    fn rebuild_view(&mut self, now: Timestamp)
        requires
            sizes_fit(old(self)@.store.all()),
        ensures
            old(self)@.rebuilds_to(now@, final(self)@),
    {
        let ghost start = self@;
        let anchor = self.selected_id();
        let previous = match self.selected {
            Some(i) => i,
            None => 0,
        };
        let mut ids: Vec<ProjectId> = Vec::new();
        let ghost mut sorted: Seq<ProjectFact> = seq![];
        {
            let mut visible = accepted(&self.store, &self.filter, now);
            let ghost input = visible@;
            proof {
                assert forall|i: int| 0 <= i < input.len() implies (#[trigger] input[i])@.size()
                    <= u64::MAX by {
                    assert(project_views(input)[i] == input[i]@);
                    assert(project_views(input)[i].fits());
                }
            }
            self.sort.apply(&mut visible);
            proof {
                lemma_sorted_views(self.sort, input, visible@);
                sorted = project_views(visible@);
            }
            let mut i: usize = 0;
            while i < visible.len()
                invariant
                    0 <= i <= visible.len(),
                    sorted == project_views(visible@),
                    ids@ =~= ids_of(sorted).take(i as int),
                decreases visible.len() - i,
            {
                assert(sorted[i as int] == visible@[i as int]@);
                ids.push(visible[i].id);
                i = i + 1;
            }
            assert(ids_of(sorted).take(sorted.len() as int) =~= ids_of(sorted));
        }
        let mut index: usize = if ids.len() == 0 {
            0
        } else if previous < ids.len() - 1 {
            previous
        } else {
            ids.len() - 1
        };
        if let Some(id) = anchor {
            let at = position_of(&ids, id);
            if at < ids.len() {
                index = at;
            }
        }
        self.selected = if ids.len() == 0 {
            None
        } else {
            Some(index)
        };
        self.view = ids;
        assert(self@ == (AppFact {
            view: ids_of(sorted),
            selected: start.reselected(ids_of(sorted)),
            ..start
        }));
    }

    /// Refresh the visible list at the time `now`, and drop a status message
    /// that has been there for too long.
    pub fn refresh(&mut self, now: Timestamp, tick: Duration)
        requires
            sizes_fit(old(self)@.store.all()),
        ensures
            old(self)@.refreshes_to(now@, tick@, final(self)@),
    {
        self.rebuild_view(now);
        let ghost made = self@;
        let stale = match &self.status {
            Some((_, since)) => tick.is_past(since, STATUS_TTL),
            None => false,
        };
        if stale {
            self.status = None;
        }
        assert(self@ == made.expired(tick@));
    }

    /// Take everything the pipeline produced and refresh the visible list.
    pub fn pump(&mut self, events: Vec<Event>, now: Timestamp, tick: Duration)
        requires
            room_for_all(old(self)@.store, event_views(events@)),
            sizes_fit(applied_all(old(self)@.store, event_views(events@)).all()),
        ensures
            old(self)@.folded(event_views(events@), tick@).refreshes_to(now@, tick@, final(self)@),
    {
        let ghost start = self@;
        self.fold(events, tick);
        proof {
            lemma_noted_store(
                AppFact { store: applied_all(start.store, event_views(events@)), ..start },
                cleaned_ids(event_views(events@)),
                tick@,
            );
        }
        self.refresh(now, tick);
    }

    pub fn selected_id(&self) -> (r: Option<ProjectId>)
        ensures
            r == self@.selected_id(),
    {
        match self.selected {
            Some(i) => if i < self.view.len() {
                Some(self.view[i])
            } else {
                None
            },
            None => None,
        }
    }

    pub fn selected(&self) -> (r: Option<&Project>)
        ensures
            r is Some <==> self@.selected_project() is Some,
            r matches Some(project) ==> self@.selected_project() == Some(project@),
    {
        match self.selected_id() {
            Some(id) => self.store.get(id),
            None => None,
        }
    }

    pub fn visible(&self) -> (r: Vec<&Project>)
        ensures
            project_views(r@) == self@.visible(),
    {
        self.known_projects(&self.view)
    }

    fn known_projects(&self, ids: &Vec<ProjectId>) -> (r: Vec<&Project>)
        ensures
            project_views(r@) == known(self@.store, ids@),
    {
        let mut out: Vec<&Project> = Vec::new();
        let mut i: usize = 0;
        assert(ids@.take(0) =~= seq![]);
        assert(project_views(out@) =~= known(self@.store, ids@.take(0)));
        while i < ids.len()
            invariant
                0 <= i <= ids.len(),
                project_views(out@) == known(self@.store, ids@.take(i as int)),
            decreases ids.len() - i,
        {
            assert(ids@.take(i + 1).drop_last() =~= ids@.take(i as int));
            assert(ids@.take(i + 1).last() == ids@[i as int]);
            if let Some(project) = self.store.get(ids[i]) {
                let ghost before = out@;
                out.push(project);
                assert(project_views(out@) =~= project_views(before).push(project@));
            }
            i = i + 1;
        }
        assert(ids@.take(ids@.len() as int) =~= ids@);
        out
    }

    /// Whether what is reclaimable can be told.
    pub fn fits(&self) -> (r: bool)
        ensures
            r == self@.fits(),
    {
        if !sizes_add_up(&self.visible()) {
            return false;
        }
        let ghost st = self@;
        let count = self.store.projects.len();
        let mut sum: u64 = 0;
        let mut i: usize = 0;
        while i < count
            invariant
                0 <= i <= count,
                count == self.store.projects@.len(),
                st == self@,
                sum == size_among(st.store, st.marked, i as nat),
            decreases count - i,
        {
            assert(st.store.projects[i as int] == self.store.projects@[i as int]@);
            if self.marked.contains(&i) {
                proof {
                    lemma_among_grows(st.store, st.marked, (i + 1) as nat, count as nat);
                }
                match self.store.projects[i].checked_size() {
                    Some(size) => match sum.checked_add(size) {
                        Some(total) => {
                            sum = total;
                        },
                        None => {
                            return false;
                        },
                    },
                    None => {
                        return false;
                    },
                }
            }
            i = i + 1;
        }
        true
    }

    /// Total reclaimable across the visible projects.
    pub fn visible_bytes(&self) -> (r: u64)
        requires
            total_size(self@.visible()) <= u64::MAX,
        ensures
            r == total_size(self@.visible()),
    {
        sum_sizes(&self.visible())
    }

    pub fn marked_bytes(&self) -> (r: u64)
        requires
            self@.marked_bytes() <= u64::MAX,
        ensures
            r == self@.marked_bytes(),
    {
        let ghost st = self@;
        let count = self.store.projects.len();
        let mut sum: u64 = 0;
        let mut i: usize = 0;
        while i < count
            invariant
                0 <= i <= count,
                count == self.store.projects@.len(),
                st == self@,
                size_among(st.store, st.marked, count as nat) <= u64::MAX,
                sum == size_among(st.store, st.marked, i as nat),
            decreases count - i,
        {
            assert(st.store.projects[i as int] == self.store.projects@[i as int]@);
            proof {
                lemma_among_grows(st.store, st.marked, (i + 1) as nat, count as nat);
            }
            if self.marked.contains(&i) {
                sum = sum + self.store.projects[i].size();
            }
            i = i + 1;
        }
        sum
    }

    pub fn age_label(&self) -> (r: &str)
        requires
            self@.is_valid(),
        ensures
            r@ == self@.ages[self@.age_index as int].0,
    {
        self.ages[self.age_index].0.as_str()
    }

    pub fn set_status(&mut self, message: String, tick: Duration)
        ensures
            final(self)@ == old(self)@.with_status(message@, tick@),
    {
        self.status = Some((message, tick));
    }

    /// Whether what would be cleaned can be told.
    pub fn can_request(&self) -> (r: bool)
        ensures
            r == self@.targets_fit(),
    {
        let targets = self.targets();
        sizes_add_up(&self.known_projects(&targets))
    }

    /// Something happened to a key. Says what has to be done outside.
    pub fn on_key(&mut self, key: KeyEvent, tick: Duration) -> (r: Effect)
        requires
            old(self)@.is_valid(),
            old(self)@.asks(key) ==> old(self)@.targets_fit(),
        ensures
            final(self)@ == old(self)@.after_key(key, tick@),
            r@ == old(self)@.effect(key),
            final(self)@.is_valid(),
    {
        if !key.pressed {
            return Effect::Nothing;
        }
        if key.control && key.code == KeyCode::Char('c') {
            self.quit = true;
            return Effect::Nothing;
        }
        match &self.mode {
            Mode::Help => {
                self.mode = Mode::Normal;
                Effect::Nothing
            },
            Mode::Search { input } => {
                match key.code {
                    KeyCode::Esc => {
                        self.filter.query = String::new();
                        assert(self.filter.query@ =~= seq![]);
                        self.mode = Mode::Normal;
                    },
                    KeyCode::Enter => {
                        self.mode = Mode::Normal;
                    },
                    KeyCode::Backspace => {
                        let text = without_last(input.as_str());
                        self.search(text);
                    },
                    KeyCode::Char(c) => {
                        let mut text = input.clone();
                        text.push(c);
                        self.search(text);
                    },
                    _ => {},
                }
                Effect::Nothing
            },
            Mode::Confirm { targets, .. } => match key.code {
                KeyCode::Char('y') => {
                    let orders = self.start_clean(targets);
                    let count = orders.len();
                    assert(plan_views(orders@).len() == orders@.len());
                    self.mode = Mode::Normal;
                    let mut message = "cleaning ".to_owned();
                    message.append(decimal(count as u64).as_str());
                    message.append(" project(s)");
                    self.set_status(message, tick);
                    Effect::Clean(orders)
                },
                _ => {
                    self.mode = Mode::Normal;
                    self.set_status("cancelled".to_owned(), tick);
                    Effect::Nothing
                },
            },
            Mode::Normal => self.on_normal_key(key.code, tick),
        }
    }

    fn search(&mut self, text: String)
        ensures
            final(self)@ == old(self)@.searching(text@),
    {
        self.filter.query = text.clone();
        self.mode = Mode::Search { input: text };
    }

    fn on_normal_key(&mut self, code: KeyCode, tick: Duration) -> (r: Effect)
        requires
            old(self)@.is_valid(),
            old(self)@.mode is Normal,
            code == KeyCode::Char('c') || code == KeyCode::Enter ==> old(self)@.targets_fit(),
        ensures
            final(self)@ == old(self)@.after_normal_key(code, tick@),
            r@ == if code == KeyCode::Char('r') {
                EffectFact::Rescan
            } else {
                EffectFact::Nothing
            },
            final(self)@.is_valid(),
    {
        match code {
            KeyCode::Char('q') | KeyCode::Esc => {
                self.quit = true;
            },
            KeyCode::Char('j') | KeyCode::Down => self.move_down(1),
            KeyCode::Char('k') | KeyCode::Up => self.move_up(1),
            KeyCode::PageDown => self.move_down(PAGE),
            KeyCode::PageUp => self.move_up(PAGE),
            KeyCode::Char('g') | KeyCode::Home => self.select_index(0),
            KeyCode::Char('G') | KeyCode::End => {
                let count = self.view.len();
                self.select_index(count);
            },
            KeyCode::Char(' ') => self.toggle_mark(),
            KeyCode::Char('a') => self.mark_all(tick),
            KeyCode::Char('A') => {
                self.marked.clear();
                self.set_status("selection cleared".to_owned(), tick);
            },
            KeyCode::Char('s') => {
                self.sort = self.sort.next();
                let mut message = "sorted by ".to_owned();
                message.append(self.sort.label());
                self.set_status(message, tick);
            },
            KeyCode::Char('o') => {
                assert(self.age_index < self.ages.len());
                let next = if self.age_index < self.ages.len() - 1 {
                    self.age_index + 1
                } else {
                    0
                };
                self.use_age(next, tick);
            },
            KeyCode::Char('O') => {
                let next = if self.age_index > 0 {
                    self.age_index - 1
                } else {
                    self.ages.len() - 1
                };
                self.use_age(next, tick);
            },
            KeyCode::Char('/') => {
                self.mode = Mode::Search { input: self.filter.query.clone() };
            },
            KeyCode::Char('v') => {
                self.filter.with_artifacts_only = !self.filter.with_artifacts_only;
                let message = if self.filter.with_artifacts_only {
                    "showing projects with artifacts"
                } else {
                    "showing all projects"
                };
                self.set_status(message.to_owned(), tick);
            },
            KeyCode::Char('r') => {
                self.rescan(tick);
                return Effect::Rescan;
            },
            KeyCode::Char('c') | KeyCode::Enter => self.request_clean(tick),
            KeyCode::Char('?') | KeyCode::Char('h') => {
                self.mode = Mode::Help;
            },
            _ => {},
        }
        Effect::Nothing
    }

    fn move_down(&mut self, rows: usize)
        ensures
            final(self)@ == old(self)@.moved(rows as int),
    {
        if self.view.len() == 0 {
            return;
        }
        let current = match self.selected {
            Some(i) => i,
            None => 0,
        };
        let ghost start = self@;
        let target = current.saturating_add(rows);
        self.select_index(target);
        proof {
            assert(start.selecting(current + rows) == start.selecting(target as int)) by {
                assert(start.view.len() <= usize::MAX);
            }
        }
    }

    fn move_up(&mut self, rows: usize)
        ensures
            final(self)@ == old(self)@.moved(-(rows as int)),
    {
        if self.view.len() == 0 {
            return;
        }
        let current = match self.selected {
            Some(i) => i,
            None => 0,
        };
        self.select_index(current.saturating_sub(rows));
    }

    fn select_index(&mut self, index: usize)
        ensures
            final(self)@ == old(self)@.selecting(index as int),
    {
        self.selected = if self.view.len() == 0 {
            None
        } else if index < self.view.len() {
            Some(index)
        } else {
            Some(self.view.len() - 1)
        };
    }

    fn toggle_mark(&mut self)
        ensures
            final(self)@ == old(self)@.toggled(),
    {
        let ghost start = self@;
        if let Some(id) = self.selected_id() {
            if !self.marked.remove(&id) {
                self.marked.insert(id);
                assert(start.marked.insert(id) =~= self.marked@);
            } else {
                assert(start.marked.remove(id) =~= self.marked@);
            }
            self.move_down(1);
        }
    }

    fn mark_all(&mut self, tick: Duration)
        ensures
            final(self)@ == old(self)@.all_marked(tick@),
    {
        let ghost start = self@;
        let ids = self.markable();
        let mut i: usize = 0;
        assert(start.marked.union(ids@.take(0).to_set()) =~= start.marked);
        while i < ids.len()
            invariant
                0 <= i <= ids.len(),
                self@ == (AppFact {
                    marked: start.marked.union(ids@.take(i as int).to_set()),
                    ..start
                }),
            decreases ids.len() - i,
        {
            let ghost before = self.marked@;
            self.marked.insert(ids[i]);
            proof {
                let (front, more) = (ids@.take(i as int), ids@.take(i + 1));
                assert(more =~= front.push(ids@[i as int]));
                assert forall|x: ProjectId| #[trigger]
                    start.marked.union(more.to_set()).contains(x) <==> before.insert(
                        ids@[i as int],
                    ).contains(x) by {
                    lemma_push_contains(front, ids@[i as int], x);
                }
                assert(start.marked.union(more.to_set()) =~= before.insert(ids@[i as int]));
            }
            i = i + 1;
        }
        assert(ids@.take(ids@.len() as int) =~= ids@);
        let mut message = decimal(ids.len() as u64);
        message.append(" projects selected");
        self.set_status(message, tick);
    }

    fn markable(&self) -> (r: Vec<ProjectId>)
        ensures
            r@ == self@.markable(),
    {
        let shown = self.visible();
        let ghost facts = project_views(shown@);
        let ghost keeps = |p: ProjectFact| p.is_cleanable();
        let mut out: Vec<ProjectId> = Vec::new();
        let mut i: usize = 0;
        proof {
            reveal(Seq::filter);
            assert(out@ =~= ids_of(facts.take(0).filter(keeps)));
        }
        while i < shown.len()
            invariant
                0 <= i <= shown.len(),
                facts == project_views(shown@),
                keeps == (|p: ProjectFact| p.is_cleanable()),
                out@ == ids_of(facts.take(i as int).filter(keeps)),
            decreases shown.len() - i,
        {
            proof {
                reveal(Seq::filter);
                assert(facts.take(i + 1).drop_last() =~= facts.take(i as int));
                assert(facts.take(i + 1).last() == shown@[i as int]@);
            }
            if shown[i].is_cleanable() {
                let ghost kept = facts.take(i as int).filter(keeps);
                out.push(shown[i].id);
                assert(out@ =~= ids_of(kept.push(shown@[i as int]@)));
            }
            i = i + 1;
        }
        assert(facts.take(facts.len() as int) =~= facts);
        out
    }

    fn use_age(&mut self, index: usize, tick: Duration)
        requires
            index < old(self)@.ages.len(),
        ensures
            final(self)@ == old(self)@.aged(index as int, tick@),
            final(self)@.is_valid(),
    {
        assert(self@.ages[index as int] == (self.ages@[index as int].0@, self.ages@[index as int].1@));
        self.age_index = index;
        self.filter.older_than = self.ages[index].1;
        let message = if self.filter.older_than.is_zero() {
            "age filter off".to_owned()
        } else {
            let mut text = "idle for at least ".to_owned();
            text.append(self.ages[index].0.as_str());
            text
        };
        self.set_status(message, tick);
    }

    fn rescan(&mut self, tick: Duration)
        ensures
            final(self)@ == old(self)@.rescanned(tick@),
    {
        self.store = Store::new();
        self.marked.clear();
        self.view = Vec::new();
        assert(self.view@ =~= seq![]);
        self.selected = Some(0);
        self.set_status("rescanning".to_owned(), tick);
    }

    fn targets(&self) -> (r: Vec<ProjectId>)
        ensures
            r@ == self@.targets(),
    {
        let ghost st = self@;
        let mut wanted: Vec<ProjectId> = Vec::new();
        if self.marked.is_empty() {
            if let Some(id) = self.selected_id() {
                wanted.push(id);
                assert(wanted@ =~= seq![id]);
            } else {
                assert(wanted@ =~= seq![]);
            }
        } else {
            // Keep display order so the confirmation reads like the table.
            let ghost keeps = |id: ProjectId| st.marked.contains(id);
            let mut i: usize = 0;
            proof {
                reveal(Seq::filter);
                assert(wanted@ =~= st.view.take(0).filter(keeps));
            }
            while i < self.view.len()
                invariant
                    0 <= i <= self.view.len(),
                    st == self@,
                    keeps == (|id: ProjectId| st.marked.contains(id)),
                    wanted@ == st.view.take(i as int).filter(keeps),
                decreases self.view.len() - i,
            {
                proof {
                    reveal(Seq::filter);
                    assert(st.view.take(i + 1).drop_last() =~= st.view.take(i as int));
                    assert(st.view.take(i + 1).last() == self.view@[i as int]);
                }
                let id = self.view[i];
                if self.marked.contains(&id) {
                    wanted.push(id);
                }
                i = i + 1;
            }
            assert(st.view.take(st.view.len() as int) =~= st.view);
        }
        let ghost chosen = wanted@;
        let ghost cleans = |id: ProjectId|
            st.store.knows(id) && st.store.projects[id as int].is_cleanable();
        let mut out: Vec<ProjectId> = Vec::new();
        let mut i: usize = 0;
        proof {
            reveal(Seq::filter);
            assert(out@ =~= chosen.take(0).filter(cleans));
        }
        while i < wanted.len()
            invariant
                0 <= i <= wanted.len(),
                st == self@,
                chosen == wanted@,
                cleans == (|id: ProjectId|
                    st.store.knows(id) && st.store.projects[id as int].is_cleanable()),
                out@ == chosen.take(i as int).filter(cleans),
            decreases wanted.len() - i,
        {
            proof {
                reveal(Seq::filter);
                assert(chosen.take(i + 1).drop_last() =~= chosen.take(i as int));
                assert(chosen.take(i + 1).last() == wanted@[i as int]);
            }
            let id = wanted[i];
            let cleanable = match self.store.get(id) {
                Some(project) => project.is_cleanable(),
                None => false,
            };
            if cleanable {
                out.push(id);
            }
            i = i + 1;
        }
        assert(chosen.take(chosen.len() as int) =~= chosen);
        out
    }

    /// Ask for confirmation before deleting the marked (or selected) projects.
    fn request_clean(&mut self, tick: Duration)
        requires
            old(self)@.targets_fit(),
        ensures
            final(self)@ == old(self)@.requested(tick@),
    {
        let targets = self.targets();
        if targets.len() == 0 {
            self.set_status("nothing to clean here".to_owned(), tick);
            return;
        }
        let bytes = sum_sizes(&self.known_projects(&targets));
        self.mode = Mode::Confirm { targets, bytes };
    }

    fn start_clean(&self, targets: &Vec<ProjectId>) -> (r: Vec<(ProjectId, FsPath, Vec<FsPath>)>)
        ensures
            plan_views(r@) == orders_for(self@.store, targets@),
    {
        let mut orders: Vec<(ProjectId, FsPath, Vec<FsPath>)> = Vec::new();
        let mut i: usize = 0;
        assert(targets@.take(0) =~= seq![]);
        assert(plan_views(orders@) =~= orders_for(self@.store, targets@.take(0)));
        while i < targets.len()
            invariant
                0 <= i <= targets.len(),
                plan_views(orders@) == orders_for(self@.store, targets@.take(i as int)),
            decreases targets.len() - i,
        {
            let id = targets[i];
            assert(targets@.take(i + 1).drop_last() =~= targets@.take(i as int));
            assert(targets@.take(i + 1).last() == id);
            if let Some(project) = self.store.get(id) {
                let paths = project.artifact_paths();
                assert(path_facts(paths@).len() == paths@.len());
                if paths.len() > 0 {
                    let order = (id, project.root.clone(), paths);
                    let ghost before = orders@;
                    orders.push(order);
                    assert(plan_views(orders@) =~= plan_views(before).push(
                        (order.0, order.1.fact(), path_facts(order.2@)),
                    ));
                }
            }
            i = i + 1;
        }
        assert(targets@.take(targets@.len() as int) =~= targets@);
        orders
    }

    pub fn freed(&self) -> (r: u64)
        ensures
            r == self@.store.freed,
    {
        self.store.freed
    }
}

fn position_of(ids: &Vec<ProjectId>, id: ProjectId) -> (r: usize)
    ensures
        r == id_position(ids@, id),
{
    let mut i: usize = 0;
    while i < ids.len() && ids[i] != id
        invariant
            0 <= i <= ids.len(),
            forall|k: int| 0 <= k < i ==> #[trigger] ids@[k] != id,
        decreases ids.len() - i,
    {
        i = i + 1;
    }
    proof {
        lemma_id_position(ids@, id, i as int);
    }
    i
}

proof fn lemma_among_grows(store: StoreFact, ids: Set<ProjectId>, few: nat, many: nat)
    requires
        few <= many,
    ensures
        size_among(store, ids, few) <= size_among(store, ids, many),
    decreases many,
{
    if few < many {
        lemma_among_grows(store, ids, few, (many - 1) as nat);
    }
}

proof fn lemma_room_prefix(store: StoreFact, events: Seq<EventFact>, upto: int)
    requires
        0 <= upto <= events.len(),
        room_for_all(store, events),
    ensures
        room_for_all(store, events.take(upto)),
    decreases events.len() - upto,
{
    if upto < events.len() {
        lemma_room_prefix(store, events, upto + 1);
        assert(events.take(upto + 1).drop_last() =~= events.take(upto));
    } else {
        assert(events.take(upto) =~= events);
    }
}

proof fn lemma_no_room(store: StoreFact, events: Seq<EventFact>, upto: int)
    requires
        0 < upto <= events.len(),
        !applied_all(store, events.take(upto - 1)).has_room(events[upto - 1]),
    ensures
        !room_for_all(store, events),
{
    if room_for_all(store, events) {
        lemma_room_prefix(store, events, upto);
        assert(events.take(upto).drop_last() =~= events.take(upto - 1));
        assert(events.take(upto).last() == events[upto - 1]);
    }
}

/// Noting that cleaning is over leaves what was found alone.
proof fn lemma_noted_store(st: AppFact, ids: Seq<ProjectId>, tick: nat)
    ensures
        st.noted(ids, tick).store == st.store,
    decreases ids.len(),
{
    if ids.len() > 0 {
        lemma_noted_store(st, ids.drop_last(), tick);
    }
}

/// What a cleaning is asked for: of the projects that are shown and marked, or, where
/// none is marked, of the selected one, exactly those that have artifacts and that no
/// cleaning has touched.
pub proof fn law_targets_are_what_is_marked(st: AppFact, id: ProjectId)
    ensures
        st.targets().contains(id) <==> id < st.store.projects.len()
            && st.store.projects[id as int].artifacts.len() > 0 && st.store.projects[id as int].state
            == StateFact::Idle && if st.marked.is_empty() {
            st.selected matches Some(i) && i < st.view.len() && st.view[i as int] == id
        } else {
            st.view.contains(id) && st.marked.contains(id)
        },
{
    let marked = |id: ProjectId| st.marked.contains(id);
    let can = |id: ProjectId|
        st.store.knows(id) && st.store.projects[id as int].is_cleanable();
    let wanted = if st.marked.is_empty() {
        match st.selected_id() {
            Some(id) => seq![id],
            None => seq![],
        }
    } else {
        st.view.filter(marked)
    };
    lemma_filter_members(wanted, can, id);
    lemma_filter_members(st.view, marked, id);
    if st.marked.is_empty() {
        if let Some(sel) = st.selected_id() {
            assert(wanted[0] == sel);
            assert(wanted.contains(id) <==> id == sel) by {
                if id == sel {
                    assert(wanted.contains(wanted[0]));
                }
            }
        }
    }
}

/// Asking for a cleaning puts the question on screen, with all the targets and what
/// they occupy together, unless there are none; `y` then hands out every target that
/// still has artifacts, with its root and all its artifact paths, and nothing else.
pub proof fn law_confirmed_targets_are_cleaned(st: AppFact, key: KeyEvent, tick: nat, id: ProjectId)
    requires
        key.pressed,
        !key.control,
    ensures
        st.mode is Normal && (key.code == KeyCode::Char('c') || key.code == KeyCode::Enter)
            && st.targets().len() > 0 ==> st.after_key(key, tick).mode == (ModeFact::Confirm {
            targets: st.targets(),
            bytes: total_size(known(st.store, st.targets())) as u64,
        }),
        st.mode is Normal && (key.code == KeyCode::Char('c') || key.code == KeyCode::Enter)
            && st.targets().len() == 0 ==> st.after_key(key, tick).mode is Normal,
        (st.mode matches ModeFact::Confirm { targets, .. } && key.code == KeyCode::Char('y')) ==> {
            &&& st.after_key(key, tick).mode is Normal
            &&& st.effect(key) is Clean
            &&& (st.mode->targets.contains(id) && id < st.store.projects.len()
                && st.store.projects[id as int].artifacts.len() > 0) ==> st.effect(
                key,
            )->Clean_0.contains(
                (id, st.store.projects[id as int].root, st.store.projects[id as int].artifact_paths()),
            )
            &&& forall|k: int|
                0 <= k < st.effect(key)->Clean_0.len() ==> st.mode->targets.contains(
                    (#[trigger] st.effect(key)->Clean_0[k]).0,
                )
        },
{
    if let ModeFact::Confirm { targets, .. } = st.mode {
        lemma_orders(st.store, targets, id);
    }
}

proof fn lemma_orders(store: StoreFact, targets: Seq<ProjectId>, id: ProjectId)
    ensures
        targets.contains(id) && id < store.projects.len() && store.projects[id as int].artifacts.len()
            > 0 ==> orders_for(store, targets).contains(
            (id, store.projects[id as int].root, store.projects[id as int].artifact_paths()),
        ),
        forall|k: int|
            0 <= k < orders_for(store, targets).len() ==> targets.contains(
                (#[trigger] orders_for(store, targets)[k]).0,
            ),
    decreases targets.len(),
{
    if targets.len() > 0 {
        let (init, last) = (targets.drop_last(), targets.last());
        lemma_orders(store, init, id);
        let (before, all) = (orders_for(store, init), orders_for(store, targets));
        assert(targets =~= init.push(last));
        lemma_push_contains(init, last, id);
        let p = store.projects[last as int];
        let order = (last, p.root, p.artifact_paths());
        if store.knows(last) && p.artifacts.len() > 0 {
            let q = store.projects[id as int];
            lemma_push_contains(before, order, (id, q.root, q.artifact_paths()));
        }
        assert forall|k: int| 0 <= k < all.len() implies targets.contains((#[trigger] all[k]).0) by {
            if k < before.len() {
                assert(all[k] == before[k]);
                lemma_push_contains(init, last, all[k].0);
            } else {
                assert(all[k] == order);
                assert(targets[targets.len() - 1] == last);
            }
        }
    }
}

/// How the keys move the selection: one row or ten, never past the ends, to the first
/// or to the last.
pub proof fn law_keys_move_the_selection(st: AppFact, key: KeyEvent, tick: nat)
    requires
        key.pressed,
        !key.control,
        st.mode is Normal,
        st.view.len() > 0,
        st.view.len() <= usize::MAX,
        st.selected matches Some(i) && i < st.view.len(),
    ensures
        ({
            let at = st.selected->Some_0 as int;
            let last = st.view.len() - 1;
            let next = st.after_key(key, tick);
            &&& key.code == KeyCode::Char('j') || key.code == KeyCode::Down ==> next.selected == Some(
                (if at < last {
                    at + 1
                } else {
                    last
                }) as usize,
            )
            &&& key.code == KeyCode::Char('k') || key.code == KeyCode::Up ==> next.selected == Some(
                (if at > 0 {
                    at - 1
                } else {
                    0
                }) as usize,
            )
            &&& key.code == KeyCode::PageDown ==> next.selected == Some(
                (if at + 10 <= last {
                    at + 10
                } else {
                    last
                }) as usize,
            )
            &&& key.code == KeyCode::PageUp ==> next.selected == Some(
                (if at >= 10 {
                    at - 10
                } else {
                    0
                }) as usize,
            )
            &&& key.code == KeyCode::Char('g') || key.code == KeyCode::Home ==> next.selected
                == Some(0usize)
            &&& key.code == KeyCode::Char('G') || key.code == KeyCode::End ==> next.selected
                == Some(last as usize)
        }),
{
}

/// What the keys do to the marks: blank changes that of the selected project and moves
/// on, `a` adds exactly the projects shown that can be cleaned, `A` takes all away.
pub proof fn law_keys_mark(st: AppFact, key: KeyEvent, tick: nat, id: ProjectId)
    requires
        key.pressed,
        !key.control,
        st.mode is Normal,
    ensures
        key.code == KeyCode::Char(' ') ==> (st.after_key(key, tick).marked.contains(id) <==> if (
        st.selected matches Some(i) && i < st.view.len() && st.view[i as int] == id) {
            !st.marked.contains(id)
        } else {
            st.marked.contains(id)
        }),
        key.code == KeyCode::Char('A') ==> !st.after_key(key, tick).marked.contains(id),
        key.code == KeyCode::Char('a') ==> (st.after_key(key, tick).marked.contains(id)
            <==> st.marked.contains(id) || exists|k: int|
            0 <= k < st.view.len() && st.store.knows(#[trigger] st.view[k])
                && st.store.projects[st.view[k] as int].id == id
                && st.store.projects[st.view[k] as int].artifacts.len() > 0
                && st.store.projects[st.view[k] as int].state == StateFact::Idle),
{
    let can = |p: ProjectFact| p.is_cleanable();
    let shown = st.visible();
    let ids = st.markable();
    let kept = shown.filter(can);
    if ids.contains(id) {
        let k = choose|k: int| 0 <= k < ids.len() && ids[k] == id;
        assert(kept.contains(kept[k]));
        lemma_filter_members(shown, can, kept[k]);
        lemma_known_members(st.store, st.view, kept[k]);
    }
    assert forall|k: int|
        0 <= k < st.view.len() && st.store.knows(#[trigger] st.view[k])
            && st.store.projects[st.view[k] as int].id == id
            && st.store.projects[st.view[k] as int].artifacts.len() > 0
            && st.store.projects[st.view[k] as int].state == StateFact::Idle implies ids.contains(
        id,
    ) by {
        let p = st.store.projects[st.view[k] as int];
        lemma_known_members(st.store, st.view, p);
        assert(shown.contains(p));
        lemma_filter_members(shown, can, p);
        let m = choose|m: int| 0 <= m < kept.len() && kept[m] == p;
        assert(ids[m] == id);
    }
    assert(ids.to_set().contains(id) <==> ids.contains(id));
}

proof fn lemma_known_members(store: StoreFact, ids: Seq<ProjectId>, p: ProjectFact)
    ensures
        known(store, ids).contains(p) <==> exists|k: int|
            0 <= k < ids.len() && store.knows(#[trigger] ids[k]) && store.projects[ids[k] as int] == p,
    decreases ids.len(),
{
    if ids.len() > 0 {
        let (init, last) = (ids.drop_last(), ids.last());
        lemma_known_members(store, init, p);
        let before = known(store, init);
        if store.knows(last) {
            lemma_push_contains(before, store.projects[last as int], p);
        }
        assert(ids[ids.len() - 1] == last);
        assert forall|k: int| 0 <= k < init.len() implies #[trigger] init[k] == ids[k] by {}
        if before.contains(p) {
            let k = choose|k: int|
                0 <= k < init.len() && store.knows(#[trigger] init[k]) && store.projects[init[k] as int]
                    == p;
            assert(store.knows(ids[k]));
        }
        if exists|k: int|
            0 <= k < ids.len() && store.knows(#[trigger] ids[k]) && store.projects[ids[k] as int] == p {
            let k = choose|k: int|
                0 <= k < ids.len() && store.knows(#[trigger] ids[k]) && store.projects[ids[k] as int]
                    == p;
            if k < init.len() {
                assert(store.knows(init[k]));
            }
        }
    }
}

/// What the other keys do: leave, sort by the next order, show projects without
/// artifacts or hide them, look for a text, scan anew, ask for help. While a text is
/// typed, every character joins the query at once, backspace takes the last one away,
/// enter keeps the query and escape drops it.
pub proof fn law_keys_do_what_they_say(st: AppFact, key: KeyEvent, tick: nat)
    requires
        key.pressed,
    ensures
        ({
            let next = st.after_key(key, tick);
            &&& key.control && key.code == KeyCode::Char('c') ==> next.quit
            &&& !key.control && st.mode is Normal ==> {
                &&& key.code == KeyCode::Char('q') || key.code == KeyCode::Esc ==> next.quit
                &&& key.code == KeyCode::Char('s') ==> next.sort == st.sort.following()
                &&& key.code == KeyCode::Char('v') ==> next.filter.with_artifacts_only
                    != st.filter.with_artifacts_only && next.filter.query == st.filter.query
                    && next.filter.older_than == st.filter.older_than && next.filter.min_size
                    == st.filter.min_size
                &&& key.code == KeyCode::Char('/') ==> next.mode == (ModeFact::Search {
                    input: st.filter.query,
                })
                &&& key.code == KeyCode::Char('?') || key.code == KeyCode::Char('h')
                    ==> next.mode == ModeFact::Help
                &&& key.code == KeyCode::Char('r') ==> st.effect(key) is Rescan
                    && next.store.projects.len() == 0 && next.store.scanning && next.view.len() == 0
                    && next.marked.is_empty() && next.filter == st.filter
                &&& key.code == KeyCode::Char('o') || key.code == KeyCode::Char('O')
                    ==> next.filter.query == st.filter.query && next.filter.min_size
                    == st.filter.min_size
            }
            &&& !key.control && (st.mode matches ModeFact::Search { input } && (key.code
                matches KeyCode::Char(c) && true)) ==> next.filter.query == st.mode->input.push(
                key.code->Char_0,
            ) && next.mode == (ModeFact::Search { input: next.filter.query })
            &&& st.mode is Search && key.code == KeyCode::Backspace && st.mode->input.len() > 0
                ==> next.filter.query == st.mode->input.drop_last() && next.mode == (
            ModeFact::Search { input: next.filter.query })
            &&& st.mode is Search && key.code == KeyCode::Esc ==> next.filter.query.len() == 0
                && next.mode is Normal
            &&& st.mode is Search && key.code == KeyCode::Enter ==> next.filter == st.filter
                && next.mode is Normal
            &&& !(key.control && key.code == KeyCode::Char('c')) && st.mode is Help
                ==> next.mode is Normal && next.filter == st.filter && next.store == st.store
            &&& !(key.control && key.code == KeyCode::Char('c')) && !(st.mode is Normal && (key.code
                == KeyCode::Char('q') || key.code == KeyCode::Esc)) ==> next.quit == st.quit
        }),
{
}

/// The list shows exactly the projects found that the filter accepts.
pub proof fn law_list_shows_what_is_accepted(st: AppFact, now: int, after: AppFact, id: ProjectId)
    requires
        st.rebuilds_to(now, after),
        st.store.projects.len() <= usize::MAX,
    ensures
        after.view.contains(id) <==> exists|k: int|
            0 <= k < st.store.projects.len() && (#[trigger] st.store.projects[k]).id == id
                && st.store.projects[k].id != usize::MAX && st.filter.accepts(
                st.store.projects[k],
                now,
            ),
        after.store == st.store,
        after.filter == st.filter,
        after.marked == st.marked,
        after.mode == st.mode,
        after.view.len() == 0 <==> after.selected is None,
        after.selected matches Some(i) ==> i < after.view.len() || after.view.len() > usize::MAX,
{
    let taken = accepted_of(st.store, st.filter, now);
    let sorted = choose|sorted: Seq<ProjectFact>| #[trigger]
        stably_sorted(taken, sorted, fact_ordering(st.sort)) && after == (AppFact {
            view: ids_of(sorted),
            selected: st.reselected(ids_of(sorted)),
            ..st
        });
    let accepts = |p: ProjectFact| st.filter.accepts(p, now);
    lemma_filter_shorter(st.store.projects, |p: ProjectFact| p.id != usize::MAX);
    lemma_filter_shorter(st.store.all(), accepts);
    law_sorted_projects(st.sort, taken, sorted);
    let view = ids_of(sorted);
    if view.contains(id) {
        let k = choose|k: int| 0 <= k < view.len() && view[k] == id;
        let p = sorted[k];
        assert(sorted.contains(p));
        lemma_filter_members(st.store.all(), accepts, p);
        law_all_projects_are_found_ones(st.store, p);
        let m = choose|m: int| 0 <= m < st.store.projects.len() && st.store.projects[m] == p;
        assert(st.store.projects[m].id == id);
    }
    assert forall|k: int|
        0 <= k < st.store.projects.len() && (#[trigger] st.store.projects[k]).id == id
            && st.store.projects[k].id != usize::MAX && st.filter.accepts(
            st.store.projects[k],
            now,
        ) implies view.contains(id) by {
        let p = st.store.projects[k];
        law_all_projects_are_found_ones(st.store, p);
        lemma_filter_members(st.store.all(), accepts, p);
        assert(sorted.contains(p));
        let m = choose|m: int| 0 <= m < sorted.len() && sorted[m] == p;
        assert(view[m] == id);
    }
    if let Some(sel) = st.selected_id() {
        lemma_id_found(view, sel);
    }
}

proof fn lemma_id_found(ids: Seq<ProjectId>, id: ProjectId)
    ensures
        0 <= id_position(ids, id) <= ids.len(),
        id_position(ids, id) < ids.len() ==> ids[id_position(ids, id)] == id,
        ids.contains(id) ==> id_position(ids, id) < ids.len(),
    decreases ids.len(),
{
    if ids.len() > 0 {
        let init = ids.drop_last();
        lemma_id_found(init, id);
        assert(ids =~= init.push(ids.last()));
        lemma_push_contains(init, ids.last(), id);
    }
}

/// The selected project stays selected where it is still shown.
pub proof fn law_selection_follows_the_project(
    st: AppFact,
    now: int,
    after: AppFact,
    id: ProjectId,
)
    requires
        st.rebuilds_to(now, after),
        after.view.len() <= usize::MAX,
        st.selected matches Some(i) && i < st.view.len() && st.view[i as int] == id,
        after.view.contains(id),
    ensures
        after.selected matches Some(i) && i < after.view.len() && after.view[i as int] == id,
{
    lemma_id_found(after.view, id);
}

/// The thresholds that `o` and `O` go through: off, one and two weeks, 30 and 90 days,
/// half a year, one year and two.
pub proof fn law_presets_are_these(initial: nat)
    ensures
        ({
            let all = presets_with(initial);
            &&& all.contains(("off"@, 0nat))
            &&& all.contains(("7d"@, 604_800_000_000_000nat))
            &&& all.contains(("14d"@, 1_209_600_000_000_000nat))
            &&& all.contains(("30d"@, 2_592_000_000_000_000nat))
            &&& all.contains(("90d"@, 7_776_000_000_000_000nat))
            &&& all.contains(("6mo"@, 15_552_000_000_000_000nat))
            &&& all.contains(("1y"@, 31_536_000_000_000_000nat))
            &&& all.contains(("2y"@, 63_072_000_000_000_000nat))
        }),
{
    let (base, all) = (base_presets(), presets_with(initial));
    assert forall|k: int| 0 <= k < base.len() implies all.contains(#[trigger] base[k]) by {
        if has_span(base, initial) {
            assert(all[k] == base[k]);
        } else {
            lemma_shorter(base, initial);
            let at = shorter(base, initial);
            if k < at {
                assert(all[k] == base[k]);
            } else {
                assert(all[k + 1] == base[k]);
            }
        }
    }
    assert(base[0] == ("off"@, 0nat));
    assert(base[1] == ("7d"@, 604_800_000_000_000nat));
    assert(base[2] == ("14d"@, 1_209_600_000_000_000nat));
    assert(base[3] == ("30d"@, 2_592_000_000_000_000nat));
    assert(base[4] == ("90d"@, 7_776_000_000_000_000nat));
    assert(base[5] == ("6mo"@, 15_552_000_000_000_000nat));
    assert(base[6] == ("1y"@, 31_536_000_000_000_000nat));
    assert(base[7] == ("2y"@, 63_072_000_000_000_000nat));
}

/// A status message stays for four seconds.
pub proof fn law_messages_stay_a_while(st: AppFact, tick: nat)
    ensures
        st.status matches Some((text, since)) ==> (st.expired(tick).status == if tick > since
            + 4_000_000_000 {
            None
        } else {
            st.status
        }),
        st.status is None ==> st.expired(tick).status is None,
{
}

} // verus!
