//! Configuration: global settings and the project-type catalogue.

use vstd::prelude::*;
use vstd::utf8::*;

use crate::clock::{seconds, Duration};
use crate::humantime::{duration_of, parse_duration, DurationError, DurationFault};
use crate::path::{opt_fact, FsPath, PathFact};
use crate::places::config_dir;
use crate::text::{
    clone_texts, holds_text, join, joined, lemma_texts_push, quote, quoted, same_text, texts,
};

verus! {

/// File name looked up in the current directory before falling back to the
/// user-wide config.
pub const PROJECT_CONFIG_NAME: &'static str = ".rusty-broom.toml";

#[derive(Debug, PartialEq, Eq)]
pub struct Config {
    pub settings: Settings,
    pub project_types: Vec<ProjectType>,
}

#[derive(Debug, PartialEq, Eq)]
pub struct Settings {
    /// Default age threshold, e.g. `"30d"`. `"0"` disables the filter.
    pub older_than: String,
    pub max_depth: usize,
    pub descend_into_projects: bool,
    pub skip_hidden: bool,
    pub prune_dirs: Vec<String>,
    pub require_git_ignored: bool,
    pub follow_links: bool,
    pub workers: usize,
    /// Whether user-defined types are merged with the built-in catalogue.
    pub extend_default_types: bool,
}

#[derive(Debug, PartialEq, Eq)]
pub struct ProjectType {
    pub name: String,
    /// Files or directories that identify the project. Globs and `a/b` paths
    /// are allowed.
    pub markers: Vec<String>,
    /// Deletable paths relative to the project root. Supports `*`, `?`, `**`.
    pub artifacts: Vec<String>,
    /// Require every marker to be present instead of just one.
    pub require_all_markers: bool,
    pub enabled: bool,
}

/// What a [`ProjectType`] says.
pub struct TypeFact {
    pub name: Seq<char>,
    pub markers: Seq<Seq<char>>,
    pub artifacts: Seq<Seq<char>>,
    pub require_all_markers: bool,
    pub enabled: bool,
}

/// What [`Settings`] say.
pub struct SettingsFact {
    pub older_than: Seq<char>,
    pub max_depth: usize,
    pub descend_into_projects: bool,
    pub skip_hidden: bool,
    pub prune_dirs: Seq<Seq<char>>,
    pub require_git_ignored: bool,
    pub follow_links: bool,
    pub workers: usize,
    pub extend_default_types: bool,
}

/// What a [`Config`] says.
pub struct ConfigFact {
    pub settings: SettingsFact,
    pub project_types: Seq<TypeFact>,
}

impl View for ProjectType {
    type V = TypeFact;

    open spec fn view(&self) -> TypeFact {
        TypeFact {
            name: self.name@,
            markers: texts(self.markers@),
            artifacts: texts(self.artifacts@),
            require_all_markers: self.require_all_markers,
            enabled: self.enabled,
        }
    }
}

impl View for Settings {
    type V = SettingsFact;

    open spec fn view(&self) -> SettingsFact {
        SettingsFact {
            older_than: self.older_than@,
            max_depth: self.max_depth,
            descend_into_projects: self.descend_into_projects,
            skip_hidden: self.skip_hidden,
            prune_dirs: texts(self.prune_dirs@),
            require_git_ignored: self.require_git_ignored,
            follow_links: self.follow_links,
            workers: self.workers,
            extend_default_types: self.extend_default_types,
        }
    }
}

impl View for Config {
    type V = ConfigFact;

    open spec fn view(&self) -> ConfigFact {
        ConfigFact { settings: self.settings@, project_types: type_views(self.project_types@) }
    }
}

/// Views of a list of project types.
pub open spec fn type_views(list: Seq<ProjectType>) -> Seq<TypeFact> {
    list.map_values(|t: ProjectType| t@)
}

pub proof fn lemma_type_views_push(list: Seq<ProjectType>, t: ProjectType)
    ensures
        type_views(list.push(t)) == type_views(list).push(t@),
{
    assert(type_views(list.push(t)) =~= type_views(list).push(t@));
}

/// The names of the types.
pub open spec fn type_names(types: Seq<TypeFact>) -> Seq<Seq<char>> {
    types.map_values(|t: TypeFact| t.name)
}

impl Clone for ProjectType {
    fn clone(&self) -> (r: ProjectType)
        ensures
            r@ == self@,
    {
        ProjectType {
            name: self.name.clone(),
            markers: clone_texts(&self.markers),
            artifacts: clone_texts(&self.artifacts),
            require_all_markers: self.require_all_markers,
            enabled: self.enabled,
        }
    }
}

impl Clone for Settings {
    fn clone(&self) -> (r: Settings)
        ensures
            r@ == self@,
    {
        Settings {
            older_than: self.older_than.clone(),
            max_depth: self.max_depth,
            descend_into_projects: self.descend_into_projects,
            skip_hidden: self.skip_hidden,
            prune_dirs: clone_texts(&self.prune_dirs),
            require_git_ignored: self.require_git_ignored,
            follow_links: self.follow_links,
            workers: self.workers,
            extend_default_types: self.extend_default_types,
        }
    }
}

/// A copy of a list of project types.
pub fn clone_types(list: &Vec<ProjectType>) -> (r: Vec<ProjectType>)
    ensures
        type_views(r@) == type_views(list@),
{
    let mut out: Vec<ProjectType> = Vec::new();
    let mut i: usize = 0;
    while i < list.len()
        invariant
            0 <= i <= list.len(),
            type_views(out@) =~= type_views(list@).take(i as int),
        decreases list.len() - i,
    {
        let copy = list[i].clone();
        proof {
            lemma_type_views_push(out@, copy);
        }
        out.push(copy);
        i = i + 1;
    }
    assert(type_views(list@).take(list@.len() as int) =~= type_views(list@));
    out
}

impl Clone for Config {
    fn clone(&self) -> (r: Config)
        ensures
            r@ == self@,
    {
        Config { settings: self.settings.clone(), project_types: clone_types(&self.project_types) }
    }
}

/// The settings of an empty configuration.
pub open spec fn default_settings() -> SettingsFact {
    SettingsFact {
        older_than: "30d"@,
        max_depth: 8,
        descend_into_projects: false,
        skip_hidden: true,
        prune_dirs: seq![],
        require_git_ignored: true,
        follow_links: false,
        workers: 0,
        extend_default_types: true,
    }
}

impl Default for Settings {
    fn default() -> (r: Settings)
        ensures
            r@ == default_settings(),
    {
        let r = Settings {
            older_than: "30d".to_owned(),
            max_depth: 8,
            descend_into_projects: false,
            skip_hidden: true,
            prune_dirs: Vec::new(),
            require_git_ignored: true,
            follow_links: false,
            workers: 0,
            extend_default_types: true,
        };
        assert(texts(r.prune_dirs@) =~= seq![]);
        r
    }
}

/// Why a configuration cannot be used.
#[derive(Debug, PartialEq, Eq)]
pub enum ConfigError {
    OlderThan { text: String, cause: DurationError },
    UnknownType { name: String, known: Vec<String> },
    NotFound { path: FsPath },
}

/// What a [`ConfigError`] says.
pub enum ConfigFault {
    OlderThan { text: Seq<char>, cause: DurationFault },
    UnknownType { name: Seq<char>, known: Seq<Seq<char>> },
    NotFound { path: PathFact },
}

impl View for ConfigError {
    type V = ConfigFault;

    open spec fn view(&self) -> ConfigFault {
        match *self {
            ConfigError::OlderThan { text, cause } => ConfigFault::OlderThan {
                text: text@,
                cause: cause@,
            },
            ConfigError::UnknownType { name, known } => ConfigFault::UnknownType {
                name: name@,
                known: texts(known@),
            },
            ConfigError::NotFound { path } => ConfigFault::NotFound { path: path.fact() },
        }
    }
}

/// The wording of a fault, where `shown` is the quoted threshold, the quoted name
/// or the path that is at fault; the cause of a bad threshold is worded by itself.
pub open spec fn config_wording(fault: ConfigFault, shown: Seq<char>) -> Seq<char> {
    match fault {
        ConfigFault::OlderThan { .. } => "settings.older_than = "@ + shown,
        ConfigFault::UnknownType { known, .. } => "unknown project type "@ + shown
            + "; known types: "@ + joined(known, ", "@),
        ConfigFault::NotFound { .. } => "config file not found: "@ + shown,
    }
}

/// The message of a fault.
pub open spec fn config_message(fault: ConfigFault) -> Seq<char> {
    config_wording(
        fault,
        match fault {
            ConfigFault::OlderThan { text, .. } => quoted(text),
            ConfigFault::UnknownType { name, .. } => quoted(name),
            ConfigFault::NotFound { path } => path.shown(),
        },
    )
}

impl ConfigError {
    /// The message, given the quoted text or the path that is at fault.
    pub fn worded(&self, shown: &str) -> (r: String)
        ensures
            r@ == config_wording(self@, shown@),
    {
        match self {
            ConfigError::OlderThan { .. } => {
                let mut out = "settings.older_than = ".to_owned();
                out.append(shown);
                out
            },
            ConfigError::UnknownType { known, .. } => {
                let mut out = "unknown project type ".to_owned();
                out.append(shown);
                out.append("; known types: ");
                out.append(join(known, ", ").as_str());
                out
            },
            ConfigError::NotFound { .. } => {
                let mut out = "config file not found: ".to_owned();
                out.append(shown);
                out
            },
        }
    }

    pub fn message(&self) -> (r: String)
        ensures
            r@ == config_message(self@),
    {
        let shown = match self {
            ConfigError::OlderThan { text, .. } => quote(text.as_str()),
            ConfigError::UnknownType { name, .. } => quote(name.as_str()),
            ConfigError::NotFound { path } => path.to_text(),
        };
        self.worded(shown.as_str())
    }
}

/// Position of the first type called `name`; the length where there is none.
pub open spec fn type_position(types: Seq<TypeFact>, name: Seq<char>) -> int
    decreases types.len(),
{
    if types.len() == 0 {
        0
    } else {
        let before = type_position(types.drop_last(), name);
        if before < types.len() - 1 {
            before
        } else if types.last().name == name {
            types.len() - 1
        } else {
            types.len() as int
        }
    }
}

/// The first type called `name`.
pub open spec fn named_type(types: Seq<TypeFact>, name: Seq<char>) -> Option<TypeFact> {
    if type_position(types, name) < types.len() {
        Some(types[type_position(types, name)])
    } else {
        None
    }
}

/// `t` in the place of the first type of its name, or behind all others.
pub open spec fn put_type(types: Seq<TypeFact>, t: TypeFact) -> Seq<TypeFact> {
    let at = type_position(types, t.name);
    if at < types.len() {
        types.update(at, t)
    } else {
        types.push(t)
    }
}

/// The types of `user` put into `base`, one after the other.
pub open spec fn extended(base: Seq<TypeFact>, user: Seq<TypeFact>) -> Seq<TypeFact>
    decreases user.len(),
{
    if user.len() == 0 {
        base
    } else {
        put_type(extended(base, user.drop_last()), user.last())
    }
}

/// A user configuration on top of the catalogue `defaults`: types are matched
/// by name, user entries win, unknown names are appended.
pub open spec fn merged_config(user: ConfigFact, defaults: ConfigFact) -> ConfigFact {
    if !user.settings.extend_default_types {
        user
    } else {
        ConfigFact {
            settings: SettingsFact {
                prune_dirs: if user.settings.prune_dirs.len() == 0 {
                    defaults.settings.prune_dirs
                } else {
                    user.settings.prune_dirs
                },
                ..user.settings
            },
            project_types: extended(defaults.project_types, user.project_types),
        }
    }
}

/// The type is to be detected: it is enabled, or asked for by name.
pub open spec fn is_active(t: TypeFact, only: Seq<Seq<char>>) -> bool {
    if only.len() == 0 {
        t.enabled
    } else {
        only.contains(t.name)
    }
}

/// The first of `names` that no type is called, if there is one.
pub open spec fn first_unknown(types: Seq<TypeFact>, names: Seq<Seq<char>>) -> Option<Seq<char>>
    decreases names.len(),
{
    if names.len() == 0 {
        None
    } else {
        match first_unknown(types, names.drop_last()) {
            Some(name) => Some(name),
            None => if type_names(types).contains(names.last()) {
                None
            } else {
                Some(names.last())
            },
        }
    }
}

proof fn lemma_position(types: Seq<TypeFact>, name: Seq<char>)
    ensures
        0 <= type_position(types, name) <= types.len(),
        type_position(types, name) < types.len() ==> types[type_position(types, name)].name == name,
        forall|i: int|
            0 <= i < type_position(types, name) ==> (#[trigger] types[i]).name != name,
    decreases types.len(),
{
    if types.len() > 0 {
        let init = types.drop_last();
        lemma_position(init, name);
        assert forall|i: int| 0 <= i < type_position(types, name) implies (#[trigger] types[i]).name
            != name by {
            if i < init.len() {
                assert(init[i] == types[i]);
            }
        }
    }
}

proof fn lemma_position_unique(types: Seq<TypeFact>, name: Seq<char>, at: int)
    requires
        0 <= at <= types.len(),
        at < types.len() ==> types[at].name == name,
        forall|i: int| 0 <= i < at ==> (#[trigger] types[i]).name != name,
    ensures
        type_position(types, name) == at,
{
    lemma_position(types, name);
    let p = type_position(types, name);
    if p < at {
        assert(types[p].name != name);
    }
    if at < p {
        assert(types[at].name != name);
    }
}

proof fn lemma_put(types: Seq<TypeFact>, t: TypeFact, name: Seq<char>)
    ensures
        named_type(put_type(types, t), name) == if name == t.name {
            Some(t)
        } else {
            named_type(types, name)
        },
{
    let at = type_position(types, t.name);
    let q = type_position(types, name);
    lemma_position(types, t.name);
    lemma_position(types, name);
    let after = put_type(types, t);
    if name == t.name {
        lemma_position_unique(after, name, at);
    } else if at < types.len() {
        lemma_position_unique(after, name, q);
    } else if q < types.len() {
        lemma_position_unique(after, name, q);
    } else {
        lemma_position_unique(after, name, after.len() as int);
    }
}

/// The last type of `user` called `name`.
pub open spec fn last_named(user: Seq<TypeFact>, name: Seq<char>) -> Option<TypeFact>
    decreases user.len(),
{
    if user.len() == 0 {
        None
    } else if user.last().name == name {
        Some(user.last())
    } else {
        last_named(user.drop_last(), name)
    }
}

/// A type of the user's replaces the built-in type of the same name, a new name
/// adds a type, and all other built-in types stay as they are.
pub proof fn law_user_types_win(base: Seq<TypeFact>, user: Seq<TypeFact>, name: Seq<char>)
    ensures
        named_type(extended(base, user), name) == match last_named(user, name) {
            Some(t) => Some(t),
            None => named_type(base, name),
        },
    decreases user.len(),
{
    if user.len() > 0 {
        law_user_types_win(base, user.drop_last(), name);
        lemma_put(extended(base, user.drop_last()), user.last(), name);
    }
}

fn find_type(types: &Vec<ProjectType>, name: &str) -> (r: usize)
    ensures
        r == type_position(type_views(types@), name@),
{
    let ghost all = type_views(types@);
    let mut i: usize = 0;
    while i < types.len()
        invariant
            0 <= i <= types.len(),
            all == type_views(types@),
            forall|k: int| 0 <= k < i ==> (#[trigger] all[k]).name != name@,
        decreases types.len() - i,
    {
        assert(all[i as int] == types@[i as int]@);
        if same_text(types[i].name.as_str(), name) {
            proof {
                lemma_position_unique(all, name@, i as int);
            }
            return i;
        }
        i = i + 1;
    }
    proof {
        lemma_position_unique(all, name@, i as int);
    }
    i
}

/// The names of the types.
pub fn names_of(types: &Vec<ProjectType>) -> (r: Vec<String>)
    ensures
        texts(r@) == type_names(type_views(types@)),
{
    let ghost all = type_names(type_views(types@));
    let mut out: Vec<String> = Vec::new();
    let mut i: usize = 0;
    while i < types.len()
        invariant
            0 <= i <= types.len(),
            all == type_names(type_views(types@)),
            texts(out@) =~= all.take(i as int),
        decreases types.len() - i,
    {
        let name = types[i].name.clone();
        proof {
            lemma_texts_push(out@, name);
        }
        out.push(name);
        i = i + 1;
    }
    assert(all.take(all.len() as int) =~= all);
    out
}

impl Config {
    /// Merge a user configuration on top of the catalogue `defaults`: types are
    /// matched by name, user entries win, unknown names are appended.
    pub fn merged_with_defaults(self, defaults: Config) -> (r: Config)
        ensures
            r@ == merged_config(self@, defaults@),
    {
        if !self.settings.extend_default_types {
            return self;
        }
        let ghost (user, base) = (self@, defaults@);
        let mut settings = self.settings;
        if settings.prune_dirs.len() == 0 {
            settings.prune_dirs = defaults.settings.prune_dirs;
        }
        let mut types = defaults.project_types;
        let added = self.project_types;
        let mut i: usize = 0;
        assert(user.project_types.take(0) =~= seq![]);
        while i < added.len()
            invariant
                0 <= i <= added.len(),
                type_views(added@) == user.project_types,
                type_views(types@) == extended(base.project_types, user.project_types.take(i as int)),
            decreases added.len() - i,
        {
            let entry = added[i].clone();
            let at = find_type(&types, entry.name.as_str());
            proof {
                let front = user.project_types.take(i + 1);
                assert(front.drop_last() =~= user.project_types.take(i as int));
                assert(front.last() == entry@);
                lemma_position(type_views(types@), entry@.name);
            }
            if at < types.len() {
                let ghost before = types@;
                types.set(at, entry);
                assert(type_views(types@) =~= type_views(before).update(at as int, entry@));
            } else {
                proof {
                    lemma_type_views_push(types@, entry);
                }
                types.push(entry);
            }
            i = i + 1;
        }
        assert(user.project_types.take(user.project_types.len() as int) =~= user.project_types);
        Config { settings, project_types: types }
    }

    /// The file to read the configuration from: `explicit` if the user gave
    /// one, else the one that was discovered, else none.
    pub fn source(
        explicit: Option<FsPath>,
        explicit_exists: bool,
        discovered: Option<FsPath>,
    ) -> (r: Result<Option<FsPath>, ConfigError>)
        ensures
            match r {
                Ok(path) => opt_fact(path) == (match explicit {
                    Some(p) => Some(p.fact()),
                    None => opt_fact(discovered),
                }) && (explicit is Some ==> explicit_exists),
                Err(e) => explicit is Some && !explicit_exists && e@ == (ConfigFault::NotFound {
                    path: explicit->Some_0.fact(),
                }),
            },
    {
        match explicit {
            Some(path) => if explicit_exists {
                Ok(Some(path))
            } else {
                Err(ConfigError::NotFound { path })
            },
            None => Ok(discovered),
        }
    }

    /// The configuration in use, and where it came from: the file's, merged
    /// with the built-in one, or the built-in one where there is no file.
    pub fn load(file: Option<(Config, FsPath)>, embedded: Config) -> (r: (Config, Option<FsPath>))
        ensures
            match file {
                Some((user, path)) => r.0@ == merged_config(user@, embedded@) && opt_fact(r.1)
                    == Some(path.fact()),
                None => r.0@ == embedded@ && r.1 is None,
            },
    {
        match file {
            Some((user, path)) => (user.merged_with_defaults(embedded), Some(path)),
            None => (embedded, None),
        }
    }

    /// The types to detect: everything enabled, or exactly `only` when the user
    /// asked for specific types (an explicit request overrides `enabled`).
    pub fn active_types(&self, only: &Vec<String>) -> (r: Vec<ProjectType>)
        ensures
            type_views(r@) == self@.project_types.filter(
                |t: TypeFact| is_active(t, texts(only@)),
            ),
    {
        let ghost all = self@.project_types;
        let ghost active = |t: TypeFact| is_active(t, texts(only@));
        let mut out: Vec<ProjectType> = Vec::new();
        let mut i: usize = 0;
        proof {
            reveal(Seq::filter);
            assert(type_views(out@) =~= all.take(0).filter(active));
        }
        while i < self.project_types.len()
            invariant
                0 <= i <= self.project_types.len(),
                all == self@.project_types,
                active == (|t: TypeFact| is_active(t, texts(only@))),
                type_views(out@) == all.take(i as int).filter(active),
            decreases self.project_types.len() - i,
        {
            let t = &self.project_types[i];
            proof {
                reveal(Seq::filter);
                assert(all.take(i + 1).drop_last() =~= all.take(i as int));
                assert(all.take(i + 1).last() == t@);
                assert(texts(only@).len() == only@.len());
            }
            let chosen = if only.len() == 0 {
                t.enabled
            } else {
                holds_text(only, t.name.as_str())
            };
            if chosen {
                let copy = t.clone();
                proof {
                    lemma_type_views_push(out@, copy);
                }
                out.push(copy);
            }
            i = i + 1;
        }
        assert(all.take(all.len() as int) =~= all);
        out
    }

    /// The configured age threshold.
    pub fn default_older_than(&self) -> (r: Result<Duration, ConfigError>)
        ensures
            match r {
                Ok(d) => exists|s: nat|
                    duration_of(self@.settings.older_than) == Ok::<nat, DurationFault>(s) && d@
                        == #[trigger] seconds(s),
                Err(e) => duration_of(self@.settings.older_than) is Err && e@ == (
                ConfigFault::OlderThan {
                    text: self@.settings.older_than,
                    cause: duration_of(self@.settings.older_than)->Err_0,
                }),
            },
    {
        match parse_duration(self.settings.older_than.as_str()) {
            Ok(d) => Ok(d),
            Err(cause) => Err(
                ConfigError::OlderThan { text: self.settings.older_than.clone(), cause },
            ),
        }
    }

    /// Fail early if the configuration references unknown type names.
    pub fn validate_type_names(&self, names: &Vec<String>) -> (r: Result<(), ConfigError>)
        ensures
            match r {
                Ok(_) => first_unknown(self@.project_types, texts(names@)) is None,
                Err(e) => first_unknown(self@.project_types, texts(names@)) is Some && e@ == (
                ConfigFault::UnknownType {
                    name: first_unknown(self@.project_types, texts(names@))->Some_0,
                    known: type_names(self@.project_types),
                }),
            },
    {
        let known = names_of(&self.project_types);
        let ghost all = texts(names@);
        let mut i: usize = 0;
        assert(all.take(0) =~= seq![]);
        while i < names.len()
            invariant
                0 <= i <= names.len(),
                all == texts(names@),
                texts(known@) == type_names(self@.project_types),
                first_unknown(self@.project_types, all.take(i as int)) is None,
            decreases names.len() - i,
        {
            assert(all.take(i + 1).drop_last() =~= all.take(i as int));
            assert(all.take(i + 1).last() == names@[i as int]@);
            if !holds_text(&known, names[i].as_str()) {
                proof {
                    lemma_first_unknown(self@.project_types, all, i + 1);
                }
                return Err(ConfigError::UnknownType { name: names[i].clone(), known });
            }
            i = i + 1;
        }
        assert(all.take(all.len() as int) =~= all);
        Ok(())
    }
}

proof fn lemma_first_unknown(types: Seq<TypeFact>, names: Seq<Seq<char>>, upto: int)
    requires
        0 <= upto <= names.len(),
        first_unknown(types, names.take(upto)) is Some,
    ensures
        first_unknown(types, names) == first_unknown(types, names.take(upto)),
    decreases names.len() - upto,
{
    if upto < names.len() {
        assert(names.take(upto + 1).drop_last() =~= names.take(upto));
        lemma_first_unknown(types, names, upto + 1);
    } else {
        assert(names.take(upto) =~= names);
    }
}

/// `./.rusty-broom.toml` if it is a file, then the user's file if it is one.
pub fn discover_config_path(local_is_file: bool, user: Option<FsPath>, user_is_file: bool) -> (r: Option<
    FsPath,
>)
    ensures
        opt_fact(r) == if local_is_file {
            Some(PathFact::spelled(encode_utf8(PROJECT_CONFIG_NAME@)))
        } else if user_is_file {
            opt_fact(user)
        } else {
            None
        },
{
    if local_is_file {
        return Some(FsPath::from_text(PROJECT_CONFIG_NAME));
    }
    if user_is_file {
        user
    } else {
        None
    }
}

/// `rusty-broom/config.toml` in the configuration directory `dir`.
pub open spec fn config_file_in(dir: PathFact) -> PathFact {
    dir.child(encode_utf8("rusty-broom"@)).child(encode_utf8("config.toml"@))
}

/// `rusty-broom/config.toml` in the configuration directory `dir`.
pub fn config_path_in(dir: &FsPath) -> (r: FsPath)
    ensures
        r.fact() == config_file_in(dir.fact()),
{
    dir.entry("rusty-broom").entry("config.toml")
}

/// `rusty-broom/config.toml` in the configuration directory, if there is one.
pub fn config_path_at(dir: Option<FsPath>) -> (r: Option<FsPath>)
    ensures
        match (dir, r) {
            (Some(dir), Some(path)) => path.fact() == config_file_in(dir.fact()),
            (None, None) => true,
            _ => false,
        },
{
    match dir {
        Some(dir) => Some(config_path_in(&dir)),
        None => None,
    }
}

/// `<config dir>/rusty-broom/config.toml`, where there is such a directory.
pub fn user_config_path() -> (r: Option<FsPath>)
    ensures
        r matches Some(path) ==> exists|dir: PathFact| path.fact() == #[trigger] config_file_in(dir),
{
    config_path_at(config_dir())
}

/// What merging keeps and changes. A configuration that does not extend the catalogue
/// stands alone. One that does keeps all its settings, but takes the names to be pruned
/// from the catalogue where it has none; the types of the catalogue keep their places,
/// each as it was unless the user has one of its name.
pub proof fn law_merging_keeps_settings(user: ConfigFact, defaults: ConfigFact, i: int)
    ensures
        ({
            let merged = merged_config(user, defaults);
            &&& !user.settings.extend_default_types ==> merged == user
            &&& user.settings.extend_default_types ==> {
                &&& merged.settings.older_than == user.settings.older_than
                &&& merged.settings.max_depth == user.settings.max_depth
                &&& merged.settings.descend_into_projects == user.settings.descend_into_projects
                &&& merged.settings.skip_hidden == user.settings.skip_hidden
                &&& merged.settings.require_git_ignored == user.settings.require_git_ignored
                &&& merged.settings.follow_links == user.settings.follow_links
                &&& merged.settings.workers == user.settings.workers
                &&& user.settings.prune_dirs.len() > 0 ==> merged.settings.prune_dirs
                    == user.settings.prune_dirs
                &&& user.settings.prune_dirs.len() == 0 ==> merged.settings.prune_dirs
                    == defaults.settings.prune_dirs
                &&& merged.project_types.len() >= defaults.project_types.len()
                &&& 0 <= i < defaults.project_types.len() ==> {
                    let t = defaults.project_types[i];
                    &&& merged.project_types[i].name == t.name
                    &&& (forall|k: int|
                        0 <= k < user.project_types.len() ==> (
                        #[trigger] user.project_types[k]).name != t.name)
                        ==> merged.project_types[i] == t
                }
            }
        }),
{
    lemma_extended_keeps(defaults.project_types, user.project_types, i);
}

proof fn lemma_extended_keeps(base: Seq<TypeFact>, user: Seq<TypeFact>, i: int)
    ensures
        extended(base, user).len() >= base.len(),
        0 <= i < base.len() ==> extended(base, user)[i].name == base[i].name && ((forall|k: int|
            0 <= k < user.len() ==> (#[trigger] user[k]).name != base[i].name) ==> extended(
            base,
            user,
        )[i] == base[i]),
    decreases user.len(),
{
    if user.len() > 0 {
        let init = user.drop_last();
        lemma_extended_keeps(base, init, i);
        let before = extended(base, init);
        lemma_position(before, user.last().name);
        if 0 <= i < base.len() {
            if forall|k: int| 0 <= k < user.len() ==> (#[trigger] user[k]).name != base[i].name {
                assert forall|k: int| 0 <= k < init.len() implies (#[trigger] init[k]).name
                    != base[i].name by {
                    assert(init[k] == user[k]);
                }
                assert(user[user.len() - 1].name != base[i].name);
            }
        }
    }
}

/// Every type of the user's is in effect, unless a later one of theirs has its name.
pub proof fn law_user_types_are_in_effect(base: Seq<TypeFact>, user: Seq<TypeFact>, j: int)
    requires
        0 <= j < user.len(),
        forall|k: int| j < k < user.len() ==> (#[trigger] user[k]).name != user[j].name,
    ensures
        extended(base, user).contains(user[j]),
    decreases user.len(),
{
    let init = user.drop_last();
    let before = extended(base, init);
    let last = user.last();
    lemma_position(before, last.name);
    let at = type_position(before, last.name);
    let all = extended(base, user);
    if j == user.len() - 1 {
        if at < before.len() {
            assert(all[at] == last);
        } else {
            assert(all[before.len() as int] == last);
        }
    } else {
        assert forall|k: int| j < k < init.len() implies (#[trigger] init[k]).name != init[j].name by {
            assert(init[k] == user[k]);
        }
        law_user_types_are_in_effect(base, init, j);
        let k = choose|k: int| 0 <= k < before.len() && before[k] == user[j];
        assert(user[user.len() - 1].name != user[j].name);
        assert(all[k] == user[j]);
    }
}

/// Types are detected that are enabled, or, where some are asked for by name, exactly
/// those, enabled or not. A name is unknown where no type is called so.
pub proof fn law_types_are_active(
    types: Seq<TypeFact>,
    t: TypeFact,
    only: Seq<Seq<char>>,
)
    ensures
        only.len() == 0 ==> is_active(t, only) == t.enabled,
        only.len() > 0 ==> (is_active(t, only) <==> exists|i: int|
            0 <= i < only.len() && #[trigger] only[i] == t.name),
        first_unknown(types, only) is None <==> forall|i: int|
            0 <= i < only.len() ==> exists|k: int|
                0 <= k < types.len() && (#[trigger] types[k]).name == #[trigger] only[i],
    decreases only.len(),
{
    if only.len() > 0 {
        let init = only.drop_last();
        law_types_are_active(types, t, init);
        assert(only[only.len() - 1] == only.last());
        let names = type_names(types);
        assert(names.contains(only.last()) <==> exists|k: int|
            0 <= k < types.len() && (#[trigger] types[k]).name == only.last()) by {
            if names.contains(only.last()) {
                let k = choose|k: int| 0 <= k < names.len() && names[k] == only.last();
                assert(types[k].name == only.last());
            }
            if exists|k: int| 0 <= k < types.len() && (#[trigger] types[k]).name == only.last() {
                let k = choose|k: int|
                    0 <= k < types.len() && (#[trigger] types[k]).name == only.last();
                assert(names[k] == only.last());
            }
        }
        assert forall|i: int| 0 <= i < init.len() implies #[trigger] init[i] == only[i] by {}
        if first_unknown(types, only) is None {
            assert forall|i: int| 0 <= i < only.len() implies exists|k: int|
                0 <= k < types.len() && (#[trigger] types[k]).name == #[trigger] only[i] by {
                if i < init.len() {
                    assert(init[i] == only[i]);
                }
            }
        }
    }
}

/// What a configuration that says nothing means.
pub proof fn law_settings_default()
    ensures
        default_settings().older_than == "30d"@,
        default_settings().max_depth == 8,
        !default_settings().descend_into_projects,
        default_settings().skip_hidden,
        default_settings().prune_dirs.len() == 0,
        default_settings().require_git_ignored,
        !default_settings().follow_links,
        default_settings().workers == 0,
        default_settings().extend_default_types,
{
}

/// The user's configuration is the file `config.toml` in the directory `rusty-broom` of
/// the configuration directory.
pub proof fn law_config_file_is_named(dir: PathFact)
    ensures
        config_file_in(dir).parts == dir.parts + seq![
            encode_utf8("rusty-broom"@),
            encode_utf8("config.toml"@),
        ],
{
    assert(config_file_in(dir).parts =~= dir.parts + seq![
        encode_utf8("rusty-broom"@),
        encode_utf8("config.toml"@),
    ]);
}

} // verus!
