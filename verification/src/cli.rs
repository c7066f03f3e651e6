//! Command-line surface: what the arguments mean, and what the commands decide.

use vstd::prelude::*;

use crate::clock::{seconds, Duration, Timestamp};
use crate::config::{
    config_message, first_unknown, is_active, type_names, Config, ConfigError, ConfigFact,
    ConfigFault, Settings, SettingsFact, TypeFact,
};
use crate::engine::Event;
use crate::fmt::{bytes, parse_bytes, size_message, size_of, size_text, SizeError, SizeFault};
use crate::humantime::{duration_of, fault_message, parse_duration, DurationError, DurationFault};
use crate::order::stably_sorted;
use crate::path::{clone_paths, opt_fact, path_facts, FsPath, PathFact};
use crate::project::{
    fact_ordering, law_sorted_projects, lemma_sorted_views, project_views, Filter, FilterFact,
    Project, ProjectFact, ProjectId, Sort, StateFact,
};
use crate::scan::{OptionsFact, ScanOptions};
use crate::store::{law_all_projects_are_found_ones, lemma_filter_members, Store, StoreFact};
use crate::text::{
    chars_of, clone_texts, content_start, decimal, digits, same_text, string_of, texts, trim,
    trimmed,
};

verus! {

#[derive(Debug, PartialEq, Eq)]
pub struct Cli {
    /// Configuration file to use instead of the discovered one.
    pub config: Option<FsPath>,
    pub command: Option<Command>,
    /// Roots for the interactive UI when no subcommand is given.
    pub roots: Vec<FsPath>,
}

#[derive(Debug, PartialEq, Eq)]
pub enum Command {
    /// List matching projects and what could be reclaimed.
    Scan(ScanArgs),
    /// Delete the artifacts of matching projects.
    Clean(CleanArgs),
    /// Open the interactive interface.
    Tui(TuiArgs),
    /// Show the project types the configuration knows about.
    Types,
    /// Inspect or create the configuration file.
    Config { action: ConfigAction },
}

#[derive(Debug, Clone, Copy, PartialEq, Eq)]
pub enum ConfigAction {
    /// Write the default configuration to the user config path.
    Init {
        /// Overwrite an existing file.
        force: bool,
    },
    /// Print the path of the configuration in use.
    Path,
    /// Print the effective configuration.
    Show,
}

/// Options shared by every command that walks the disk.
#[derive(Debug, PartialEq, Eq)]
pub struct Selection {
    /// Directories to search (default: the current directory).
    pub roots: Vec<FsPath>,
    /// Only projects untouched for at least this long: 30d, 6mo, 1y, 0 for any.
    pub older_than: Option<String>,
    /// Only projects with at least this much to reclaim: 500M, 2G.
    pub min_size: Option<String>,
    /// Restrict detection to these project types (repeatable).
    pub types: Vec<String>,
    /// Only projects whose path contains this text.
    pub query: Option<String>,
    /// How deep to descend from each root.
    pub max_depth: Option<usize>,
    /// Ignore the age threshold entirely.
    pub all: bool,
    /// Also report nested projects, such as workspace members.
    pub nested: bool,
    /// Delete artifacts even when git does not confirm they are ignored.
    pub no_git_check: bool,
}

#[derive(Debug, PartialEq, Eq)]
pub struct ScanArgs {
    pub selection: Selection,
    /// Order of the report.
    pub sort: SortArg,
    /// Show at most this many projects.
    pub limit: Option<usize>,
    /// Print the artifact paths of every project.
    pub long: bool,
    /// Emit JSON instead of a table.
    pub json: bool,
}

#[derive(Debug, PartialEq, Eq)]
pub struct CleanArgs {
    pub selection: Selection,
    /// Delete without asking.
    pub yes: bool,
    /// Only report what would be deleted. Implied unless --yes is given.
    pub dry_run: bool,
}

#[derive(Debug, PartialEq, Eq)]
pub struct TuiArgs {
    pub selection: Selection,
}

#[derive(Debug, Clone, Copy, PartialEq, Eq, Structural)]
pub enum SortArg {
    Size,
    Age,
    Path,
    Type,
}

/// The order that a `--sort` argument stands for.
pub open spec fn sort_of(arg: SortArg) -> Sort {
    match arg {
        SortArg::Size => Sort::Size,
        SortArg::Age => Sort::Age,
        SortArg::Path => Sort::Path,
        SortArg::Type => Sort::Type,
    }
}

impl From<SortArg> for Sort {
    fn from(value: SortArg) -> (r: Sort) {
        match value {
            SortArg::Size => Sort::Size,
            SortArg::Age => Sort::Age,
            SortArg::Path => Sort::Path,
            SortArg::Type => Sort::Type,
        }
    }
}

impl vstd::std_specs::convert::FromSpecImpl<SortArg> for Sort {
    open spec fn obeys_from_spec() -> bool {
        true
    }

    open spec fn from_spec(value: SortArg) -> Sort {
        sort_of(value)
    }
}

/// The view of an optional text.
pub open spec fn opt_text(text: Option<String>) -> Option<Seq<char>> {
    match text {
        Some(t) => Some(t@),
        None => None,
    }
}

/// What a [`Selection`] says.
pub struct SelectionFact {
    pub roots: Seq<PathFact>,
    pub older_than: Option<Seq<char>>,
    pub min_size: Option<Seq<char>>,
    pub types: Seq<Seq<char>>,
    pub query: Option<Seq<char>>,
    pub max_depth: Option<usize>,
    pub all: bool,
    pub nested: bool,
    pub no_git_check: bool,
}

impl View for Selection {
    type V = SelectionFact;

    open spec fn view(&self) -> SelectionFact {
        SelectionFact {
            roots: path_facts(self.roots@),
            older_than: opt_text(self.older_than),
            min_size: opt_text(self.min_size),
            types: texts(self.types@),
            query: opt_text(self.query),
            max_depth: self.max_depth,
            all: self.all,
            nested: self.nested,
            no_git_check: self.no_git_check,
        }
    }
}

/// Why a command cannot be carried out as it was given.
#[derive(Debug, PartialEq, Eq)]
pub enum CliError {
    Duration(DurationError),
    Size(SizeError),
    Config(ConfigError),
    /// No root was given and the current directory cannot be told, for this reason.
    NoCurrentDir { reason: String },
    /// There is no place for the user's configuration.
    NoConfigDir,
    /// There is a configuration already, and it is not to be overwritten.
    ConfigExists { path: FsPath },
}

/// What a [`CliError`] says.
pub enum CliFault {
    Duration(DurationFault),
    Size(SizeFault),
    Config(ConfigFault),
    NoCurrentDir { reason: Seq<char> },
    NoConfigDir,
    ConfigExists { path: PathFact },
}

impl View for CliError {
    type V = CliFault;

    open spec fn view(&self) -> CliFault {
        match *self {
            CliError::Duration(e) => CliFault::Duration(e@),
            CliError::Size(e) => CliFault::Size(e@),
            CliError::Config(e) => CliFault::Config(e@),
            CliError::NoCurrentDir { reason } => CliFault::NoCurrentDir { reason: reason@ },
            CliError::NoConfigDir => CliFault::NoConfigDir,
            CliError::ConfigExists { path } => CliFault::ConfigExists { path: path.fact() },
        }
    }
}

/// The wording of a fault.
pub open spec fn cli_message(fault: CliFault) -> Seq<char> {
    match fault {
        CliFault::Duration(f) => fault_message(f),
        CliFault::Size(f) => size_message(f),
        CliFault::Config(f) => config_message(f),
        CliFault::NoCurrentDir { reason } => reason,
        CliFault::NoConfigDir => "cannot determine the user configuration directory"@,
        CliFault::ConfigExists { path } => path.shown()
            + " already exists; pass --force to overwrite"@,
    }
}

impl CliError {
    pub fn message(&self) -> (r: String)
        ensures
            r@ == cli_message(self@),
    {
        match self {
            CliError::Duration(e) => e.message(),
            CliError::Size(e) => e.message(),
            CliError::Config(e) => e.message(),
            CliError::NoCurrentDir { reason } => reason.clone(),
            CliError::NoConfigDir => {
                "cannot determine the user configuration directory".to_owned()
            },
            CliError::ConfigExists { path } => {
                let mut out = path.to_text();
                out.append(" already exists; pass --force to overwrite");
                out
            },
        }
    }
}

/// The age threshold in nanoseconds: `--all` wins, then `--older-than`, then
/// the config value.
pub open spec fn threshold(selection: SelectionFact, config: ConfigFact) -> Result<nat, CliFault> {
    if selection.all {
        Ok(0)
    } else {
        match selection.older_than {
            Some(text) => match duration_of(text) {
                Ok(s) => Ok(seconds(s)),
                Err(fault) => Err(CliFault::Duration(fault)),
            },
            None => match duration_of(config.settings.older_than) {
                Ok(s) => Ok(seconds(s)),
                Err(cause) => Err(
                    CliFault::Config(
                        ConfigFault::OlderThan { text: config.settings.older_than, cause },
                    ),
                ),
            },
        }
    }
}

/// The filter that a selection asks for.
pub open spec fn filter_of(selection: SelectionFact, config: ConfigFact) -> Result<
    FilterFact,
    CliFault,
> {
    let min_size = match selection.min_size {
        Some(text) => size_of(text),
        None => Ok(0),
    };
    match threshold(selection, config) {
        Err(fault) => Err(fault),
        Ok(older_than) => match min_size {
            Err(fault) => Err(CliFault::Size(fault)),
            Ok(n) => Ok(
                FilterFact {
                    older_than,
                    min_size: n as u64,
                    query: match selection.query {
                        Some(text) => text,
                        None => seq![],
                    },
                    with_artifacts_only: true,
                },
            ),
        },
    }
}

/// The current directory, or why it cannot be told.
pub open spec fn cwd_view(cwd: Result<FsPath, String>) -> Result<PathFact, Seq<char>> {
    match cwd {
        Ok(dir) => Ok(dir.fact()),
        Err(reason) => Err(reason@),
    }
}

/// The roots to search: those given, or the current directory.
pub open spec fn roots_of(
    selection: SelectionFact,
    cwd: Result<PathFact, Seq<char>>,
) -> Result<Seq<PathFact>, CliFault> {
    if selection.roots.len() > 0 {
        Ok(selection.roots)
    } else {
        match cwd {
            Ok(dir) => Ok(seq![dir]),
            Err(reason) => Err(CliFault::NoCurrentDir { reason }),
        }
    }
}

/// The scan that a selection asks for.
pub open spec fn options_of(
    selection: SelectionFact,
    config: ConfigFact,
    cwd: Result<PathFact, Seq<char>>,
) -> Result<OptionsFact, CliFault> {
    match first_unknown(config.project_types, selection.types) {
        Some(name) => Err(
            CliFault::Config(
                ConfigFault::UnknownType { name, known: type_names(config.project_types) },
            ),
        ),
        None => match roots_of(selection, cwd) {
            Err(fault) => Err(fault),
            Ok(roots) => Ok(
                OptionsFact {
                    roots,
                    max_depth: match selection.max_depth {
                        Some(depth) => depth,
                        None => config.settings.max_depth,
                    },
                    skip_hidden: config.settings.skip_hidden,
                    prune_dirs: config.settings.prune_dirs,
                    descend_into_projects: selection.nested
                        || config.settings.descend_into_projects,
                    types: config.project_types.filter(
                        |t: TypeFact| is_active(t, selection.types),
                    ),
                },
            ),
        },
    }
}

impl Clone for Selection {
    fn clone(&self) -> (r: Selection)
        ensures
            r@ == self@,
    {
        Selection {
            roots: clone_paths(&self.roots),
            older_than: clone_opt(&self.older_than),
            min_size: clone_opt(&self.min_size),
            types: clone_texts(&self.types),
            query: clone_opt(&self.query),
            max_depth: self.max_depth,
            all: self.all,
            nested: self.nested,
            no_git_check: self.no_git_check,
        }
    }
}

fn clone_opt(text: &Option<String>) -> (r: Option<String>)
    ensures
        opt_text(r) == opt_text(*text),
{
    match text {
        Some(t) => Some(t.clone()),
        None => None,
    }
}

impl Selection {
    pub fn with_roots(roots: Vec<FsPath>) -> (r: Selection)
        ensures
            r@ == (SelectionFact {
                roots: path_facts(roots@),
                older_than: None,
                min_size: None,
                types: seq![],
                query: None,
                max_depth: None,
                all: false,
                nested: false,
                no_git_check: false,
            }),
    {
        let r = Selection {
            roots,
            older_than: None,
            min_size: None,
            types: Vec::new(),
            query: None,
            max_depth: None,
            all: false,
            nested: false,
            no_git_check: false,
        };
        assert(texts(r.types@) =~= seq![]);
        r
    }

    /// The roots to search: those given, or the current directory `cwd`; where that
    /// cannot be told, the reason is passed on.
    pub fn roots_or_cwd(&self, cwd: Result<FsPath, String>) -> (r: Result<Vec<FsPath>, CliError>)
        ensures
            match r {
                Ok(roots) => roots_of(self@, cwd_view(cwd)) == Ok::<
                    Seq<PathFact>,
                    CliFault,
                >(path_facts(roots@)),
                Err(e) => roots_of(self@, cwd_view(cwd)) == Err::<
                    Seq<PathFact>,
                    CliFault,
                >(e@),
            },
    {
        assert(path_facts(self.roots@).len() == self.roots@.len());
        if self.roots.len() == 0 {
            match cwd {
                Ok(dir) => {
                    let mut roots: Vec<FsPath> = Vec::new();
                    let ghost at = dir.fact();
                    roots.push(dir);
                    assert(path_facts(roots@) =~= seq![at]);
                    Ok(roots)
                },
                Err(reason) => Err(CliError::NoCurrentDir { reason }),
            }
        } else {
            Ok(clone_paths(&self.roots))
        }
    }

    /// Age threshold: `--all` wins, then `--older-than`, then the config value.
    pub fn older_than(&self, config: &Config) -> (r: Result<Duration, CliError>)
        ensures
            match r {
                Ok(d) => threshold(self@, config@) == Ok::<nat, CliFault>(d@),
                Err(e) => threshold(self@, config@) == Err::<nat, CliFault>(e@),
            },
    {
        if self.all {
            return Ok(Duration::zero());
        }
        match &self.older_than {
            Some(text) => match parse_duration(text.as_str()) {
                Ok(d) => Ok(d),
                Err(e) => Err(CliError::Duration(e)),
            },
            None => match config.default_older_than() {
                Ok(d) => Ok(d),
                Err(e) => Err(CliError::Config(e)),
            },
        }
    }

    pub fn filter(&self, config: &Config) -> (r: Result<Filter, CliError>)
        ensures
            match r {
                Ok(filter) => filter_of(self@, config@) == Ok::<FilterFact, CliFault>(filter@),
                Err(e) => filter_of(self@, config@) == Err::<FilterFact, CliFault>(e@),
            },
    {
        let older_than = match self.older_than(config) {
            Ok(d) => d,
            Err(e) => {
                return Err(e);
            },
        };
        let min_size: u64 = match &self.min_size {
            Some(text) => match parse_bytes(text.as_str()) {
                Ok(n) => n,
                Err(e) => {
                    return Err(CliError::Size(e));
                },
            },
            None => 0,
        };
        let query = match &self.query {
            Some(text) => text.clone(),
            None => {
                let none = String::new();
                assert(none@ =~= seq![]);
                none
            },
        };
        Ok(Filter { older_than, min_size, query, with_artifacts_only: true })
    }

    /// The scan to be made, with `cwd` as the current directory.
    pub fn scan_options(&self, config: &Config, cwd: Result<FsPath, String>) -> (r: Result<
        ScanOptions,
        CliError,
    >)
        ensures
            match r {
                Ok(options) => options_of(self@, config@, cwd_view(cwd)) == Ok::<
                    OptionsFact,
                    CliFault,
                >(options@),
                Err(e) => options_of(self@, config@, cwd_view(cwd)) == Err::<
                    OptionsFact,
                    CliFault,
                >(e@),
            },
    {
        match config.validate_type_names(&self.types) {
            Ok(_) => {},
            Err(e) => {
                return Err(CliError::Config(e));
            },
        }
        let roots = match self.roots_or_cwd(cwd) {
            Ok(roots) => roots,
            Err(e) => {
                return Err(e);
            },
        };
        let mut options = ScanOptions::from_config(config, roots, &self.types, self.max_depth);
        if self.nested {
            options.descend_into_projects = true;
        }
        Ok(options)
    }
}

/// Settings with the command-line overrides applied.
pub fn settings_for(config: &Config, selection: &Selection) -> (r: Settings)
    ensures
        r@ == (SettingsFact {
            require_git_ignored: config.settings.require_git_ignored && !selection.no_git_check,
            ..config@.settings
        }),
{
    let mut settings = config.settings.clone();
    if selection.no_git_check {
        settings.require_git_ignored = false;
    }
    settings
}

/// Every project can be measured up.
pub open spec fn sizes_fit(projects: Seq<ProjectFact>) -> bool {
    forall|i: int| 0 <= i < projects.len() ==> (#[trigger] projects[i]).fits()
}

/// Whether every project of the store can be measured up.
pub fn can_measure(store: &Store) -> (r: bool)
    ensures
        r == sizes_fit(store@.all()),
{
    let all = store.all();
    let ghost facts = project_views(all@);
    let mut i: usize = 0;
    while i < all.len()
        invariant
            0 <= i <= all.len(),
            facts == project_views(all@),
            facts == store@.all(),
            forall|k: int| 0 <= k < i ==> (#[trigger] facts[k]).fits(),
        decreases all.len() - i,
    {
        assert(facts[i as int] == all@[i as int]@);
        if !all[i].fits() {
            return false;
        }
        i = i + 1;
    }
    true
}

/// `shown` is what a scan shows: the projects that the filter accepts at the
/// time `now`, in order, and no more than asked for.
pub open spec fn is_shown(
    store: StoreFact,
    filter: FilterFact,
    sort: Sort,
    limit: Option<usize>,
    now: int,
    shown: Seq<ProjectFact>,
) -> bool {
    exists|sorted: Seq<ProjectFact>|
        #[trigger] stably_sorted(
            accepted_of(store, filter, now),
            sorted,
            fact_ordering(sort),
        ) && shown == match limit {
            Some(n) if n < sorted.len() => sorted.take(n as int),
            _ => sorted,
        }
}

/// The projects of the store that the filter accepts at the time `now`.
pub open spec fn accepted_of(store: StoreFact, filter: FilterFact, now: int) -> Seq<ProjectFact> {
    store.all().filter(|p: ProjectFact| filter.accepts(p, now))
}

/// The projects of the store that the filter accepts at the time `now`.
pub fn accepted<'a>(store: &'a Store, filter: &Filter, now: Timestamp) -> (r: Vec<&'a Project>)
    requires
        sizes_fit(store@.all()),
    ensures
        project_views(r@) == accepted_of(store@, filter@, now@),
        sizes_fit(project_views(r@)),
{
    let all = store.all();
    let ghost facts = project_views(all@);
    let ghost keeps = |p: ProjectFact| filter@.accepts(p, now@);
    let mut out: Vec<&'a Project> = Vec::new();
    let mut i: usize = 0;
    proof {
        reveal(Seq::filter);
        assert(project_views(out@) =~= facts.take(0).filter(keeps));
    }
    while i < all.len()
        invariant
            0 <= i <= all.len(),
            facts == project_views(all@),
            keeps == (|p: ProjectFact| filter@.accepts(p, now@)),
            sizes_fit(facts),
            sizes_fit(project_views(out@)),
            project_views(out@) == facts.take(i as int).filter(keeps),
        decreases all.len() - i,
    {
        let project = all[i];
        proof {
            reveal(Seq::filter);
            assert(facts.take(i + 1).drop_last() =~= facts.take(i as int));
            assert(facts.take(i + 1).last() == project@);
            assert(facts[i as int] == project@);
        }
        if filter.accepts_at(project, now) {
            let ghost before = out@;
            out.push(project);
            assert(project_views(out@) =~= project_views(before).push(project@));
        }
        i = i + 1;
    }
    assert(facts.take(facts.len() as int) =~= facts);
    out
}

/// What `scan` shows at the time `now`.
pub fn shown_projects<'a>(
    store: &'a Store,
    filter: &Filter,
    sort: Sort,
    limit: Option<usize>,
    now: Timestamp,
) -> (r: Vec<&'a Project>)
    requires
        sizes_fit(store@.all()),
    ensures
        is_shown(store@, filter@, sort, limit, now@, project_views(r@)),
{
    let mut shown = accepted(store, filter, now);
    let ghost input = shown@;
    proof {
        assert forall|i: int| 0 <= i < input.len() implies (#[trigger] input[i])@.size()
            <= u64::MAX by {
            assert(project_views(input)[i] == input[i]@);
        }
    }
    sort.apply(&mut shown);
    let ghost sorted = shown@;
    proof {
        lemma_sorted_views(sort, input, sorted);
        assert(project_views(sorted).len() == sorted.len());
    }
    if let Some(limit) = limit {
        if limit < shown.len() {
            shown.truncate(limit);
            assert(project_views(shown@) =~= project_views(sorted).take(limit as int));
        }
    }
    shown
}

/// `targets` is what `clean` is about to delete from: the projects that the
/// filter accepts and that can be cleaned, largest first.
pub open spec fn is_targets(
    store: StoreFact,
    filter: FilterFact,
    now: int,
    targets: Seq<ProjectFact>,
) -> bool {
    stably_sorted(
        accepted_of(store, filter, now).filter(|p: ProjectFact| p.is_cleanable()),
        targets,
        fact_ordering(Sort::Size),
    )
}

/// What `clean` is about to delete from at the time `now`.
pub fn clean_targets<'a>(store: &'a Store, filter: &Filter, now: Timestamp) -> (r: Vec<&'a Project>)
    requires
        sizes_fit(store@.all()),
    ensures
        is_targets(store@, filter@, now@, project_views(r@)),
{
    let wanted = accepted(store, filter, now);
    let ghost facts = project_views(wanted@);
    let ghost keeps = |p: ProjectFact| p.is_cleanable();
    let mut out: Vec<&'a Project> = Vec::new();
    let mut i: usize = 0;
    proof {
        reveal(Seq::filter);
        assert(project_views(out@) =~= facts.take(0).filter(keeps));
    }
    while i < wanted.len()
        invariant
            0 <= i <= wanted.len(),
            facts == project_views(wanted@),
            keeps == (|p: ProjectFact| p.is_cleanable()),
            sizes_fit(facts),
            sizes_fit(project_views(out@)),
            project_views(out@) == facts.take(i as int).filter(keeps),
        decreases wanted.len() - i,
    {
        let project = wanted[i];
        proof {
            reveal(Seq::filter);
            assert(facts.take(i + 1).drop_last() =~= facts.take(i as int));
            assert(facts.take(i + 1).last() == project@);
            assert(facts[i as int] == project@);
        }
        if project.is_cleanable() {
            let ghost before = out@;
            out.push(project);
            assert(project_views(out@) =~= project_views(before).push(project@));
        }
        i = i + 1;
    }
    assert(facts.take(facts.len() as int) =~= facts);
    let ghost input = out@;
    proof {
        assert forall|i: int| 0 <= i < input.len() implies (#[trigger] input[i])@.size()
            <= u64::MAX by {
            assert(project_views(input)[i] == input[i]@);
        }
    }
    Sort::Size.apply(&mut out);
    proof {
        lemma_sorted_views(Sort::Size, input, out@);
    }
    out
}

/// What is to be deleted: project, its root, and its artifact paths.
pub open spec fn plan_views(plan: Seq<(ProjectId, FsPath, Vec<FsPath>)>) -> Seq<
    (ProjectId, PathFact, Seq<PathFact>),
> {
    plan.map_values(|step: (ProjectId, FsPath, Vec<FsPath>)| (step.0, step.1.fact(), path_facts(step.2@)))
}

/// The deletions that cleaning the projects takes.
pub open spec fn plan_for(targets: Seq<ProjectFact>) -> Seq<
    (ProjectId, PathFact, Seq<PathFact>),
> {
    targets.map_values(|p: ProjectFact| (p.id, p.root, p.artifact_paths()))
}

/// The deletions that cleaning the projects takes.
pub fn clean_plan(targets: &Vec<&Project>) -> (r: Vec<(ProjectId, FsPath, Vec<FsPath>)>)
    ensures
        plan_views(r@) == plan_for(project_views(targets@)),
{
    let ghost goal = plan_for(project_views(targets@));
    let mut out: Vec<(ProjectId, FsPath, Vec<FsPath>)> = Vec::new();
    let mut i: usize = 0;
    while i < targets.len()
        invariant
            0 <= i <= targets.len(),
            goal == plan_for(project_views(targets@)),
            plan_views(out@) =~= goal.take(i as int),
        decreases targets.len() - i,
    {
        let p = targets[i];
        let step = (p.id, p.root.clone(), p.artifact_paths());
        let ghost before = out@;
        out.push(step);
        proof {
            assert(goal[i as int] == (step.0, step.1.fact(), path_facts(step.2@)));
            assert(plan_views(out@) =~= plan_views(before).push(goal[i as int]));
        }
        i = i + 1;
    }
    assert(goal.take(goal.len() as int) =~= goal);
    out
}

/// Whether a deletion may go ahead.
#[derive(Debug, PartialEq, Eq)]
pub enum Consent {
    /// It may.
    Granted,
    /// It may not: only a preview was asked for.
    Withheld,
    /// There is nobody to ask.
    Unobtainable,
    /// The user has to be asked this.
    Ask { prompt: String },
}

/// The question put to the user.
pub open spec fn prompt_text(projects: nat, total: nat) -> Seq<char> {
    "Delete artifacts of "@ + digits(projects) + " project(s), freeing about "@ + size_text(total)
        + "? [y/N] "@
}

/// What is said when there is nobody to ask.
pub const NO_CONSENT: &'static str =
    "refusing to delete without confirmation; pass --yes or use --dry-run";

/// `--dry-run` and `--yes` short-circuit; otherwise ask, and refuse to guess
/// when there is no terminal to ask on.
pub fn confirm(args: &CleanArgs, projects: usize, total: u64, is_terminal: bool) -> (r: Consent)
    ensures
        match r {
            Consent::Withheld => args.dry_run,
            Consent::Granted => !args.dry_run && args.yes,
            Consent::Unobtainable => !args.dry_run && !args.yes && !is_terminal,
            Consent::Ask { prompt } => !args.dry_run && !args.yes && is_terminal && prompt@
                == prompt_text(projects as nat, total as nat),
        },
{
    if args.dry_run {
        return Consent::Withheld;
    }
    if args.yes {
        return Consent::Granted;
    }
    if !is_terminal {
        return Consent::Unobtainable;
    }
    let mut prompt = "Delete artifacts of ".to_owned();
    prompt.append(decimal(projects as u64).as_str());
    prompt.append(" project(s), freeing about ");
    prompt.append(bytes(total).as_str());
    prompt.append("? [y/N] ");
    Consent::Ask { prompt }
}

/// The answer grants consent.
pub open spec fn grants(answer: Seq<char>) -> bool {
    trimmed(answer) == "y"@ || trimmed(answer) == "Y"@ || trimmed(answer) == "yes"@
}

/// Whether the answer to the prompt grants consent.
pub fn is_consent(answer: &str) -> (r: bool)
    ensures
        r == grants(answer@),
{
    let word = string_of(&trim(&chars_of(answer)));
    same_text(word.as_str(), "y") || same_text(word.as_str(), "Y") || same_text(
        word.as_str(),
        "yes",
    )
}

/// What is said at the end, and the error where some project was not fully
/// cleaned.
pub fn closing(freed: u64, failures: usize) -> (r: (String, Option<String>))
    ensures
        r.0@ == "Freed "@ + size_text(freed as nat) + "."@,
        r.1 is Some <==> failures > 0,
        r.1 matches Some(error) ==> error@ == digits(failures as nat)
            + " project(s) could not be fully cleaned"@,
{
    let mut out = "Freed ".to_owned();
    out.append(bytes(freed).as_str());
    out.append(".");
    if failures > 0 {
        let mut error = decimal(failures as u64);
        error.append(" project(s) could not be fully cleaned");
        (out, Some(error))
    } else {
        (out, None)
    }
}

/// Whether the event says that a project was not fully cleaned.
pub fn is_failure(event: &Event) -> (r: bool)
    ensures
        r == (event matches Event::CleanFinished { errors, .. } && errors@.len() > 0),
{
    match event {
        Event::CleanFinished { errors, .. } => errors.len() > 0,
        _ => false,
    }
}

/// The line that shows how far a scan has come.
pub fn progress_line(store: &Store) -> (r: String)
    ensures
        r@ == "scanning\u{2026} "@ + digits(store.dirs_scanned as nat) + " dirs, "@ + digits(
            store@.all().len(),
        ) + " projects"@,
{
    let all = store.all();
    assert(project_views(all@).len() == all@.len());
    let mut out = "scanning\u{2026} ".to_owned();
    out.append(decimal(store.dirs_scanned).as_str());
    out.append(" dirs, ");
    out.append(decimal(all.len() as u64).as_str());
    out.append(" projects");
    out
}

/// Where `config init` writes, given the user's configuration file and whether
/// it is there already.
pub fn init_target(user: Option<FsPath>, present: bool, force: bool) -> (r: Result<
    FsPath,
    CliError,
>)
    ensures
        match (user, r) {
            (Some(path), Ok(target)) => (!present || force) && target.fact() == path.fact(),
            (Some(path), Err(error)) => present && !force && error@ == (CliFault::ConfigExists {
                path: path.fact(),
            }),
            (None, Ok(_)) => false,
            (None, Err(error)) => error@ == CliFault::NoConfigDir,
        },
{
    match user {
        None => Err(CliError::NoConfigDir),
        Some(path) => if present && !force {
            Err(CliError::ConfigExists { path })
        } else {
            Ok(path)
        },
    }
}

/// What `config path` says of the file in use, or of the one that could be
/// made.
pub open spec fn path_notice_text(
    used: Option<PathFact>,
    user: Option<PathFact>,
) -> Seq<char> {
    match (used, user) {
        (Some(path), _) => path.shown() + "\n"@,
        (None, Some(path)) => "(built-in defaults)\nrun `rusty-broom config init` to create "@
            + path.shown() + "\n"@,
        (None, None) => "(built-in defaults)\n"@,
    }
}

/// What `config path` says.
pub fn path_notice(used: &Option<FsPath>, user: &Option<FsPath>) -> (r: String)
    ensures
        r@ == path_notice_text(opt_fact(*used), opt_fact(*user)),
{
    match (used, user) {
        (Some(path), _) => {
            let mut out = path.to_text();
            out.append("\n");
            out
        },
        (None, Some(path)) => {
            let mut out = "(built-in defaults)\nrun `rusty-broom config init` to create ".to_owned();
            out.append(path.to_text().as_str());
            out.append("\n");
            out
        },
        (None, None) => "(built-in defaults)\n".to_owned(),
    }
}

/// What `clean` deletes from: exactly the projects found that the filter accepts, that
/// have artifacts and that no cleaning has touched, each once, the largest first.
pub proof fn law_targets_are_what_is_asked_for(
    store: StoreFact,
    filter: FilterFact,
    now: int,
    targets: Seq<ProjectFact>,
    p: ProjectFact,
)
    requires
        is_targets(store, filter, now, targets),
        store.projects.len() <= usize::MAX,
    ensures
        targets.contains(p) <==> store.projects.contains(p) && p.id != usize::MAX && filter.accepts(
            p,
            now,
        ) && p.artifacts.len() > 0 && p.state == StateFact::Idle,
        forall|i: int, j: int|
            #![trigger targets[i], targets[j]]
            0 <= i < j < targets.len() ==> targets[i].size() >= targets[j].size(),
{
    let taken = accepted_of(store, filter, now);
    let cleanable = |p: ProjectFact| p.is_cleanable();
    lemma_filter_shorter(store.projects, |p: ProjectFact| p.id != usize::MAX);
    lemma_filter_shorter(store.all(), |p: ProjectFact| filter.accepts(p, now));
    lemma_filter_shorter(taken, cleanable);
    law_sorted_projects(Sort::Size, taken.filter(cleanable), targets);
    law_all_projects_are_found_ones(store, p);
    lemma_filter_members(store.all(), |p: ProjectFact| filter.accepts(p, now), p);
    lemma_filter_members(taken, cleanable, p);
}

pub proof fn lemma_filter_shorter<A>(s: Seq<A>, pred: spec_fn(A) -> bool)
    ensures
        s.filter(pred).len() <= s.len(),
    decreases s.len(),
{
    reveal(Seq::filter);
    if s.len() > 0 {
        lemma_filter_shorter(s.drop_last(), pred);
    }
}

/// What `scan` shows: projects found that the filter accepts and no others; all of them
/// unless fewer are asked for, and then that many.
pub proof fn law_shown_is_what_is_asked_for(
    store: StoreFact,
    filter: FilterFact,
    sort: Sort,
    limit: Option<usize>,
    now: int,
    shown: Seq<ProjectFact>,
    p: ProjectFact,
)
    requires
        is_shown(store, filter, sort, limit, now, shown),
        store.projects.len() <= usize::MAX,
    ensures
        shown.contains(p) ==> store.projects.contains(p) && p.id != usize::MAX && filter.accepts(
            p,
            now,
        ),
        limit is None && store.projects.contains(p) && p.id != usize::MAX && filter.accepts(p, now)
            ==> shown.contains(p),
        limit matches Some(n) ==> shown.len() <= n,
        limit matches Some(n) ==> n >= store.projects.len() ==> is_shown(
            store,
            filter,
            sort,
            None,
            now,
            shown,
        ),
        limit matches Some(n) ==> store.projects.contains(p) && p.id != usize::MAX && filter.accepts(
            p,
            now,
        ) && !shown.contains(p) ==> shown.len() == n,
{
    let taken = accepted_of(store, filter, now);
    let sorted = choose|sorted: Seq<ProjectFact>|
        #[trigger] stably_sorted(taken, sorted, fact_ordering(sort)) && shown == match limit {
            Some(n) if n < sorted.len() => sorted.take(n as int),
            _ => sorted,
        };
    lemma_filter_shorter(store.projects, |p: ProjectFact| p.id != usize::MAX);
    lemma_filter_shorter(store.all(), |p: ProjectFact| filter.accepts(p, now));
    law_sorted_projects(sort, taken, sorted);
    law_all_projects_are_found_ones(store, p);
    lemma_filter_members(store.all(), |p: ProjectFact| filter.accepts(p, now), p);
    if shown.contains(p) {
        let k = choose|k: int| 0 <= k < shown.len() && shown[k] == p;
        assert(sorted[k] == p);
        assert(sorted.contains(p));
    }
}

/// Which threshold holds: `--all` switches it off, else the one given on the command
/// line, else the configured one; a text that is no duration is an error.
pub proof fn law_threshold_is_chosen(selection: SelectionFact, config: ConfigFact, secs: nat)
    ensures
        selection.all ==> threshold(selection, config) == Ok::<nat, CliFault>(0),
        !selection.all && (selection.older_than matches Some(text) && duration_of(text) == Ok::<
            nat,
            DurationFault,
        >(secs)) ==> threshold(selection, config) == Ok::<nat, CliFault>(secs * 1_000_000_000),
        !selection.all && selection.older_than is None && duration_of(config.settings.older_than)
            == Ok::<nat, DurationFault>(secs) ==> threshold(selection, config) == Ok::<
            nat,
            CliFault,
        >(secs * 1_000_000_000),
        !selection.all && (selection.older_than matches Some(text) && duration_of(text) is Err)
            ==> threshold(selection, config) is Err,
        !selection.all && selection.older_than is None && duration_of(
            config.settings.older_than,
        ) is Err ==> threshold(selection, config) is Err,
{
}

/// What a selection makes of the filter and of the scan: the size and the text asked for,
/// only projects with artifacts; the roots given or the current directory, the depth given
/// or configured, nested projects where either asks for them, and the types asked for.
pub proof fn law_selection_is_followed(
    selection: SelectionFact,
    config: ConfigFact,
    cwd: Result<PathFact, Seq<char>>,
)
    ensures
        filter_of(selection, config) matches Ok(f) ==> {
            &&& threshold(selection, config) == Ok::<nat, CliFault>(f.older_than)
            &&& f.with_artifacts_only
            &&& selection.query matches Some(text) ==> f.query == text
            &&& selection.query is None ==> f.query.len() == 0
            &&& selection.min_size is None ==> f.min_size == 0
            &&& selection.min_size matches Some(text) ==> size_of(text) matches Ok(n) && f.min_size
                == n as u64
        },
        options_of(selection, config, cwd) matches Ok(o) ==> {
            &&& selection.roots.len() > 0 ==> o.roots == selection.roots
            &&& selection.roots.len() == 0 ==> (cwd matches Ok(dir) && o.roots == seq![dir])
            &&& selection.max_depth matches Some(n) ==> o.max_depth == n
            &&& selection.max_depth is None ==> o.max_depth == config.settings.max_depth
            &&& o.descend_into_projects == (selection.nested
                || config.settings.descend_into_projects)
            &&& o.skip_hidden == config.settings.skip_hidden
            &&& o.prune_dirs == config.settings.prune_dirs
            &&& forall|t: TypeFact| #[trigger]
                o.types.contains(t) <==> config.project_types.contains(t) && (if (
                selection.types.len() == 0) {
                    t.enabled
                } else {
                    selection.types.contains(t.name)
                })
        },
        options_of(selection, config, cwd) is Ok <==> (selection.roots.len() > 0 || cwd is Ok)
            && first_unknown(config.project_types, selection.types) is None,
{
    if let Ok(o) = options_of(selection, config, cwd) {
        assert forall|t: TypeFact| #[trigger]
            o.types.contains(t) <==> config.project_types.contains(t) && (if (selection.types.len()
            == 0) {
            t.enabled
        } else {
            selection.types.contains(t.name)
        }) by {
            lemma_filter_members(
                config.project_types,
                |t: TypeFact| is_active(t, selection.types),
                t,
            );
        }
    }
}

/// Only `y`, `Y` and `yes` grant consent, with or without white space around them.
pub proof fn law_consent_is_explicit(answer: Seq<char>)
    ensures
        grants(answer) <==> trimmed(answer) == "y"@ || trimmed(answer) == "Y"@ || trimmed(answer)
            == "yes"@,
        answer.len() == 0 ==> !grants(answer),
{
    reveal_strlit("y");
    reveal_strlit("Y");
    reveal_strlit("yes");
    if answer.len() == 0 {
        assert(content_start(answer) == 0);
        assert(trimmed(answer).len() == 0);
    }
}

/// Every target is cleaned from its root, and of all its artifacts.
pub proof fn law_plan_covers_targets(targets: Seq<ProjectFact>, i: int, k: int)
    requires
        0 <= i < targets.len(),
    ensures
        plan_for(targets).len() == targets.len(),
        plan_for(targets)[i].0 == targets[i].id,
        plan_for(targets)[i].1 == targets[i].root,
        plan_for(targets)[i].2.len() == targets[i].artifacts.len(),
        0 <= k < targets[i].artifacts.len() ==> plan_for(targets)[i].2[k]
            == targets[i].artifacts[k].path,
{
}

} // verus!
