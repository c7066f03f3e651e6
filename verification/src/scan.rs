//! Discovering projects under a set of roots.

use vstd::prelude::*;
use vstd::utf8::*;

use crate::clock::{later, later_of, time_view, Timestamp};
use crate::config::{clone_types, is_active, type_names, type_views, Config, ProjectType, TypeFact};
use crate::glob::{
    drop_nested, has_wildcard, is_outermost, is_wildcard, law_outermost_covers_all,
    lemma_push_contains, Entry, EntryFact,
};
use crate::order::{lexed, Order};
use crate::path::{
    ascending, clone_paths, holds_path, is_ancestor, is_written_below, lemma_path_order_total,
    lemma_path_views_push, part_order, path_order, lemma_written_child, lemma_written_self, opt_fact, path_facts, path_views, within, FsPath,
    PathFact,
};
use crate::size::{
    absorbed, all_shallow, is_shallow, item_dirs, item_views, items_stat, law_finished_measurement,
    law_listing_keeps_outlook, listed, measure_start, outlook, weight, Found, Item, ItemFact,
    ItemKind, KindFact, LeafFact, MeasureFact, StatFact,
};
use crate::text::{
    char_order, chars_of, clone_texts, contains_char, from_utf8_lossy, holds_text,
    lemma_text_order_total, lemma_texts_push, order_texts, same_text, text_order, texts, utf8_lossy,
};

verus! {

/// Upper bound on the files inspected while dating a single project. Source
/// trees are far smaller than this; the cap only protects against pathological
/// directories that are not really projects.
pub const MAX_DATED_ENTRIES: u64 = 50_000;

#[derive(Debug, PartialEq, Eq)]
pub struct ScanOptions {
    pub roots: Vec<FsPath>,
    pub max_depth: usize,
    pub skip_hidden: bool,
    /// Names of directories that are not entered. Only membership counts.
    pub prune_dirs: Vec<String>,
    pub descend_into_projects: bool,
    pub types: Vec<ProjectType>,
}

/// What [`ScanOptions`] say.
pub struct OptionsFact {
    pub roots: Seq<PathFact>,
    pub max_depth: usize,
    pub skip_hidden: bool,
    pub prune_dirs: Seq<Seq<char>>,
    pub descend_into_projects: bool,
    pub types: Seq<TypeFact>,
}

impl View for ScanOptions {
    type V = OptionsFact;

    open spec fn view(&self) -> OptionsFact {
        OptionsFact {
            roots: path_facts(self.roots@),
            max_depth: self.max_depth,
            skip_hidden: self.skip_hidden,
            prune_dirs: texts(self.prune_dirs@),
            descend_into_projects: self.descend_into_projects,
            types: type_views(self.types@),
        }
    }
}

impl Clone for ScanOptions {
    fn clone(&self) -> (r: ScanOptions)
        ensures
            r@ == self@,
    {
        ScanOptions {
            roots: clone_paths(&self.roots),
            max_depth: self.max_depth,
            skip_hidden: self.skip_hidden,
            prune_dirs: clone_texts(&self.prune_dirs),
            descend_into_projects: self.descend_into_projects,
            types: clone_types(&self.types),
        }
    }
}

impl ScanOptions {
    /// Build options from the configuration, overriding what the CLI supplied.
    pub fn from_config(
        config: &Config,
        roots: Vec<FsPath>,
        only_types: &Vec<String>,
        max_depth: Option<usize>,
    ) -> (r: ScanOptions)
        ensures
            r@ == (OptionsFact {
                roots: path_facts(roots@),
                max_depth: match max_depth {
                    Some(depth) => depth,
                    None => config.settings.max_depth,
                },
                skip_hidden: config.settings.skip_hidden,
                prune_dirs: config@.settings.prune_dirs,
                descend_into_projects: config.settings.descend_into_projects,
                types: config@.project_types.filter(
                    |t: TypeFact| is_active(t, texts(only_types@)),
                ),
            }),
    {
        ScanOptions {
            roots,
            max_depth: match max_depth {
                Some(depth) => depth,
                None => config.settings.max_depth,
            },
            skip_hidden: config.settings.skip_hidden,
            prune_dirs: clone_texts(&config.settings.prune_dirs),
            descend_into_projects: config.settings.descend_into_projects,
            types: config.active_types(only_types),
        }
    }
}

/// A project as the walker found it, before git filtering and sizing.
#[derive(Debug, PartialEq, Eq)]
pub struct Candidate {
    pub root: FsPath,
    pub scan_root: FsPath,
    pub types: Vec<String>,
    /// `(pattern, path)` pairs for every artifact that exists on disk.
    pub artifacts: Vec<(String, FsPath)>,
    pub last_activity: Option<Timestamp>,
    pub source_files: u64,
}

/// Views of `(pattern, path)` pairs.
pub open spec fn pair_views(pairs: Seq<(String, FsPath)>) -> Seq<(Seq<char>, PathFact)> {
    pairs.map_values(|p: (String, FsPath)| (p.0@, p.1.fact()))
}

pub proof fn lemma_pair_views_push(pairs: Seq<(String, FsPath)>, p: (String, FsPath))
    ensures
        pair_views(pairs.push(p)) == pair_views(pairs).push((p.0@, p.1.fact())),
{
    assert(pair_views(pairs.push(p)) =~= pair_views(pairs).push((p.0@, p.1.fact())));
}

/// The paths of `(pattern, path)` pairs.
pub open spec fn pair_paths(pairs: Seq<(Seq<char>, PathFact)>) -> Seq<PathFact> {
    pairs.map_values(|p: (Seq<char>, PathFact)| p.1)
}

/// The paths of `(pattern, path)` pairs, without their texts.
pub open spec fn pair_parts(pairs: Seq<(Seq<char>, PathFact)>) -> Seq<Seq<Seq<u8>>> {
    pairs.map_values(|p: (Seq<char>, PathFact)| p.1.parts)
}

/// What a [`Candidate`] says.
pub struct CandidateFact {
    pub root: PathFact,
    pub scan_root: PathFact,
    pub types: Seq<Seq<char>>,
    pub artifacts: Seq<(Seq<char>, PathFact)>,
    pub last_activity: Option<int>,
    pub source_files: u64,
}

impl View for Candidate {
    type V = CandidateFact;

    open spec fn view(&self) -> CandidateFact {
        CandidateFact {
            root: self.root.fact(),
            scan_root: self.scan_root.fact(),
            types: texts(self.types@),
            artifacts: pair_views(self.artifacts@),
            last_activity: time_view(self.last_activity),
            source_files: self.source_files,
        }
    }
}

/// The names in a directory listing.
pub open spec fn entry_names(entries: Seq<EntryFact>) -> Seq<Seq<char>> {
    entries.map_values(|e: EntryFact| utf8_lossy(e.name))
}

/// Views of a directory listing.
pub open spec fn entry_views(entries: Seq<Entry>) -> Seq<EntryFact> {
    entries.map_values(|e: Entry| e@)
}

/// The names in a directory listing.
pub fn names_in(entries: &Vec<Entry>) -> (r: Vec<String>)
    ensures
        texts(r@) == entry_names(entry_views(entries@)),
{
    let ghost all = entry_names(entry_views(entries@));
    let mut out: Vec<String> = Vec::new();
    let mut i: usize = 0;
    while i < entries.len()
        invariant
            0 <= i <= entries.len(),
            all == entry_names(entry_views(entries@)),
            texts(out@) =~= all.take(i as int),
        decreases entries.len() - i,
    {
        let name = from_utf8_lossy(entries[i].name.as_slice());
        proof {
            lemma_texts_push(out@, name);
        }
        out.push(name);
        i = i + 1;
    }
    assert(all.take(all.len() as int) =~= all);
    out
}

/// The marker is a pattern or a path, to be looked up on disk.
pub open spec fn is_looked_up(marker: Seq<char>) -> bool {
    marker.contains('/') || is_wildcard(marker)
}

fn looked_up(marker: &str) -> (r: bool)
    ensures
        r == is_looked_up(marker@),
{
    contains_char(marker, '/') || has_wildcard(marker)
}

/// The marker is there: a plain name among the entries of the directory, any
/// other among those found on disk.
pub open spec fn is_present(marker: Seq<char>, names: Seq<Seq<char>>, on_disk: Seq<Seq<char>>) -> bool {
    if is_looked_up(marker) {
        on_disk.contains(marker)
    } else {
        names.contains(marker)
    }
}

/// The type's markers are satisfied: all of them, or one of them.
pub open spec fn is_matched(t: TypeFact, names: Seq<Seq<char>>, on_disk: Seq<Seq<char>>) -> bool {
    t.markers.len() > 0 && if t.require_all_markers {
        forall|i: int|
            0 <= i < t.markers.len() ==> is_present(#[trigger] t.markers[i], names, on_disk)
    } else {
        exists|i: int|
            0 <= i < t.markers.len() && is_present(#[trigger] t.markers[i], names, on_disk)
    }
}

/// `marker` is a marker of one of the types, and is looked up on disk.
pub open spec fn is_disk_marker(types: Seq<TypeFact>, marker: Seq<char>) -> bool {
    is_looked_up(marker) && exists|i: int|
        0 <= i < types.len() && (#[trigger] types[i]).markers.contains(marker)
}

/// The markers that have to be looked up on disk.
pub fn disk_markers(types: &Vec<ProjectType>) -> (r: Vec<String>)
    ensures
        forall|m: Seq<char>| #[trigger]
            texts(r@).contains(m) <==> is_disk_marker(type_views(types@), m),
{
    let ghost all = type_views(types@);
    let mut out: Vec<String> = Vec::new();
    let mut i: usize = 0;
    assert(texts(out@) =~= seq![]);
    while i < types.len()
        invariant
            0 <= i <= types.len(),
            all == type_views(types@),
            forall|m: Seq<char>| #[trigger]
                texts(out@).contains(m) <==> is_disk_marker(all.take(i as int), m),
        decreases types.len() - i,
    {
        let markers = &types[i].markers;
        let ghost names = texts(markers@);
        let ghost earlier = texts(out@);
        let mut k: usize = 0;
        assert(forall|m: Seq<char>| !names.take(0).contains(m));
        while k < markers.len()
            invariant
                0 <= k <= markers.len(),
                names == texts(markers@),
                forall|m: Seq<char>| #[trigger]
                    texts(out@).contains(m) <==> earlier.contains(m) || (is_looked_up(m)
                        && names.take(k as int).contains(m)),
            decreases markers.len() - k,
        {
            let ghost before = texts(out@);
            let marker = &markers[k];
            if looked_up(marker.as_str()) {
                let copy = marker.clone();
                proof {
                    lemma_texts_push(out@, copy);
                }
                out.push(copy);
            }
            proof {
                assert(names.take(k + 1) =~= names.take(k as int).push(marker@));
                assert forall|m: Seq<char>| #[trigger] texts(out@).contains(m) <==> earlier.contains(
                    m,
                ) || (is_looked_up(m) && names.take(k + 1).contains(m)) by {
                    lemma_push_contains(names.take(k as int), marker@, m);
                    lemma_push_contains(before, marker@, m);
                    assert(before.contains(m) <==> earlier.contains(m) || (is_looked_up(m)
                        && names.take(k as int).contains(m)));
                }
            }
            k = k + 1;
        }
        proof {
            assert(names.take(names.len() as int) =~= names);
            assert(all[i as int].markers == names);
            let (old_types, new_types) = (all.take(i as int), all.take(i + 1));
            assert forall|m: Seq<char>| #[trigger] texts(out@).contains(m) <==> is_disk_marker(
                new_types,
                m,
            ) by {
                assert(earlier.contains(m) <==> is_disk_marker(old_types, m));
                if is_disk_marker(old_types, m) {
                    let j = choose|j: int|
                        0 <= j < old_types.len() && (#[trigger] old_types[j]).markers.contains(m);
                    assert(new_types[j].markers.contains(m));
                }
                if is_looked_up(m) && names.contains(m) {
                    assert(new_types[i as int].markers.contains(m));
                }
                if is_disk_marker(new_types, m) {
                    let j = choose|j: int|
                        0 <= j < new_types.len() && (#[trigger] new_types[j]).markers.contains(m);
                    if j < i {
                        assert(old_types[j].markers.contains(m));
                    }
                }
            }
        }
        i = i + 1;
    }
    assert(all.take(all.len() as int) =~= all);
    out
}

/// Whether the marker is there, given the names in the directory and the
/// markers that were found on disk.
pub fn marker_present(names: &Vec<String>, on_disk: &Vec<String>, marker: &str) -> (r: bool)
    ensures
        r == is_present(marker@, texts(names@), texts(on_disk@)),
{
    if looked_up(marker) {
        holds_text(on_disk, marker)
    } else {
        holds_text(names, marker)
    }
}

fn type_matched(t: &ProjectType, names: &Vec<String>, on_disk: &Vec<String>) -> (r: bool)
    ensures
        r == is_matched(t@, texts(names@), texts(on_disk@)),
{
    if t.markers.len() == 0 {
        return false;
    }
    let mut i: usize = 0;
    while i < t.markers.len()
        invariant
            0 <= i <= t.markers.len(),
            forall|k: int|
                0 <= k < i ==> is_present(#[trigger] t@.markers[k], texts(names@), texts(on_disk@))
                    == t.require_all_markers,
        decreases t.markers.len() - i,
    {
        let found = marker_present(names, on_disk, t.markers[i].as_str());
        assert(t@.markers[i as int] == t.markers@[i as int]@);
        if found != t.require_all_markers {
            return found;
        }
        i = i + 1;
    }
    t.require_all_markers
}

/// Type names whose markers are satisfied, given the names in the directory and
/// the [`disk_markers`] that were found.
pub fn match_types(names: &Vec<String>, types: &Vec<ProjectType>, on_disk: &Vec<String>) -> (r: Vec<
    String,
>)
    ensures
        texts(r@) == type_names(
            type_views(types@).filter(|t: TypeFact| is_matched(t, texts(names@), texts(on_disk@))),
        ),
{
    let ghost all = type_views(types@);
    let ghost hit = |t: TypeFact| is_matched(t, texts(names@), texts(on_disk@));
    let mut out: Vec<String> = Vec::new();
    let mut i: usize = 0;
    proof {
        reveal(Seq::filter);
        assert(texts(out@) =~= type_names(all.take(0).filter(hit)));
    }
    while i < types.len()
        invariant
            0 <= i <= types.len(),
            all == type_views(types@),
            hit == (|t: TypeFact| is_matched(t, texts(names@), texts(on_disk@))),
            texts(out@) == type_names(all.take(i as int).filter(hit)),
        decreases types.len() - i,
    {
        let t = &types[i];
        proof {
            reveal(Seq::filter);
            assert(all.take(i + 1).drop_last() =~= all.take(i as int));
            assert(all.take(i + 1).last() == t@);
        }
        if type_matched(t, names, on_disk) {
            let name = t.name.clone();
            proof {
                lemma_texts_push(out@, name);
                let kept = all.take(i as int).filter(hit);
                assert(type_names(kept.push(t@)) =~= type_names(kept).push(name@));
            }
            out.push(name);
        }
        i = i + 1;
    }
    assert(all.take(all.len() as int) =~= all);
    out
}

/// The artifact patterns of the types called by one of the names, in order.
pub open spec fn patterns_of(types: Seq<TypeFact>, matched: Seq<Seq<char>>) -> Seq<Seq<char>>
    decreases types.len(),
{
    if types.len() == 0 {
        seq![]
    } else {
        let before = patterns_of(types.drop_last(), matched);
        if matched.contains(types.last().name) {
            before + types.last().artifacts
        } else {
            before
        }
    }
}

/// The artifact patterns to be resolved for a project of the types `matched`.
pub fn artifact_patterns(types: &Vec<ProjectType>, matched: &Vec<String>) -> (r: Vec<String>)
    ensures
        texts(r@) == patterns_of(type_views(types@), texts(matched@)),
{
    let ghost all = type_views(types@);
    let mut out: Vec<String> = Vec::new();
    let mut i: usize = 0;
    assert(all.take(0) =~= seq![]);
    assert(texts(out@) =~= patterns_of(all.take(0), texts(matched@)));
    while i < types.len()
        invariant
            0 <= i <= types.len(),
            all == type_views(types@),
            texts(out@) == patterns_of(all.take(i as int), texts(matched@)),
        decreases types.len() - i,
    {
        let t = &types[i];
        assert(all.take(i + 1).drop_last() =~= all.take(i as int));
        assert(all.take(i + 1).last() == t@);
        if holds_text(matched, t.name.as_str()) {
            let ghost before = texts(out@);
            let ghost added = texts(t.artifacts@);
            let mut k: usize = 0;
            assert(before + added.take(0) =~= before);
            while k < t.artifacts.len()
                invariant
                    0 <= k <= t.artifacts.len(),
                    added == texts(t.artifacts@),
                    texts(out@) =~= before + added.take(k as int),
                decreases t.artifacts.len() - k,
            {
                let pattern = t.artifacts[k].clone();
                proof {
                    lemma_texts_push(out@, pattern);
                }
                out.push(pattern);
                k = k + 1;
            }
            assert(added.take(added.len() as int) =~= added);
        }
        i = i + 1;
    }
    assert(all.take(all.len() as int) =~= all);
    out
}

/// The pair at `k` is the first in dictionary order of those with this path, and
/// of those with this pattern too the first in the list.
pub open spec fn is_first_pair(found: Seq<(Seq<char>, PathFact)>, k: int) -> bool {
    &&& 0 <= k < found.len()
    &&& forall|j: int|
        0 <= j < found.len() && (#[trigger] found[j]).1.parts == found[k].1.parts ==> text_order(
            found[k].0,
            found[j].0,
        ) != Order::After && (j < k ==> found[j].0 != found[k].0)
}

/// The pair is one of those found, the first of those with this path.
pub open spec fn is_first_pattern(
    found: Seq<(Seq<char>, PathFact)>,
    pair: (Seq<char>, PathFact),
) -> bool {
    exists|k: int| #[trigger] is_first_pair(found, k) && found[k] == pair
}

/// `kept` holds the outermost of the paths found, each once, in ascending
/// order, and with each the first of the patterns that found it.
pub open spec fn is_outermost_set(
    found: Seq<(Seq<char>, PathFact)>,
    kept: Seq<(Seq<char>, PathFact)>,
) -> bool {
    &&& ascending(pair_parts(kept))
    &&& forall|p: Seq<Seq<u8>>| #[trigger]
        pair_parts(kept).contains(p) <==> is_outermost(pair_parts(found), p)
    &&& forall|i: int| 0 <= i < kept.len() ==> is_first_pattern(found, #[trigger] kept[i])
}

/// Two patterns (or two types) can name the same tree; keep the outermost.
pub fn keep_outermost(found: &Vec<(String, FsPath)>) -> (r: Vec<(String, FsPath)>)
    ensures
        is_outermost_set(pair_views(found@), pair_views(r@)),
{
    let ghost all = pair_views(found@);
    let mut paths: Vec<FsPath> = Vec::new();
    let mut i: usize = 0;
    while i < found.len()
        invariant
            0 <= i <= found.len(),
            all == pair_views(found@),
            path_views(paths@) =~= pair_parts(all).take(i as int),
        decreases found.len() - i,
    {
        let path = found[i].1.clone();
        proof {
            lemma_path_views_push(paths@, path);
        }
        paths.push(path);
        i = i + 1;
    }
    assert(pair_parts(all).take(all.len() as int) =~= pair_parts(all));
    let kept = drop_nested(paths);
    let ghost outer = path_views(kept@);
    let mut out: Vec<(String, FsPath)> = Vec::new();
    let mut k: usize = 0;
    while k < kept.len()
        invariant
            0 <= k <= kept.len(),
            all == pair_views(found@),
            outer == path_views(kept@),
            forall|p: Seq<Seq<u8>>| #[trigger]
                outer.contains(p) <==> is_outermost(pair_parts(all), p),
            out@.len() == k,
            pair_parts(pair_views(out@)) =~= outer.take(k as int),
            forall|i: int|
                0 <= i < k ==> is_first_pattern(all, #[trigger] pair_views(out@)[i]),
        decreases kept.len() - k,
    {
        let path = &kept[k];
        proof {
            assert(outer[k as int] == path@);
            assert(outer.contains(path@));
            assert(pair_parts(all).contains(path@));
        }
        let at = first_pair(found, path);
        let pair = (found[at].0.clone(), found[at].1.clone());
        proof {
            assert(all[at as int] == (pair.0@, pair.1.fact()));
            lemma_pair_views_push(out@, pair);
            let before = pair_views(out@);
            assert(pair_parts(before.push((pair.0@, pair.1.fact()))) =~= pair_parts(before).push(
                path@,
            ));
        }
        out.push(pair);
        k = k + 1;
    }
    assert(outer.take(outer.len() as int) =~= outer);
    out
}

/// Where the first pair with the path stands.
fn first_pair(found: &Vec<(String, FsPath)>, path: &FsPath) -> (r: usize)
    requires
        pair_parts(pair_views(found@)).contains(path@),
    ensures
        is_first_pair(pair_views(found@), r as int),
        pair_views(found@)[r as int].1.parts == path@,
{
    let ghost all = pair_views(found@);
    let mut best: Option<usize> = None;
    let mut i: usize = 0;
    while i < found.len()
        invariant
            0 <= i <= found.len(),
            all == pair_views(found@),
            best is None ==> forall|k: int| 0 <= k < i ==> (#[trigger] all[k]).1.parts != path@,
            best matches Some(b) ==> b < i && all[b as int].1.parts == path@ && forall|k: int|
                0 <= k < i && (#[trigger] all[k]).1.parts == path@ ==> text_order(
                    all[b as int].0,
                    all[k].0,
                ) != Order::After && (k < b ==> all[k].0 != all[b as int].0),
        decreases found.len() - i,
    {
        assert(all[i as int] == (found@[i as int].0@, found@[i as int].1.fact()));
        if found[i].1.same(path) {
            match best {
                None => {
                    proof {
                        lemma_pattern_order(all[i as int].0, all[i as int].0, all[i as int].0);
                    }
                    best = Some(i);
                },
                Some(b) => {
                    assert(all[b as int] == (found@[b as int].0@, found@[b as int].1.fact()));
                    match order_texts(found[i].0.as_str(), found[b].0.as_str()) {
                        Order::Before => {
                            proof {
                                assert forall|k: int|
                                    0 <= k < i + 1 && (#[trigger] all[k]).1.parts == path@ implies text_order(
                                    all[i as int].0,
                                    all[k].0,
                                ) != Order::After && (k < i ==> all[k].0 != all[i as int].0) by {
                                    lemma_pattern_order(
                                        all[i as int].0,
                                        all[b as int].0,
                                        all[k].0,
                                    );
                                    lemma_pattern_order(
                                        all[b as int].0,
                                        all[i as int].0,
                                        all[i as int].0,
                                    );
                                }
                            }
                            best = Some(i);
                        },
                        _ => {
                            proof {
                                lemma_pattern_order(
                                    all[i as int].0,
                                    all[b as int].0,
                                    all[i as int].0,
                                );
                            }
                        },
                    }
                },
            }
        }
        i = i + 1;
    }
    match best {
        Some(b) => b,
        None => {
            proof {
                let k = choose|k: int|
                    0 <= k < pair_parts(all).len() && pair_parts(all)[k] == path@;
                assert(all[k].1.parts == path@);
            }
            0
        },
    }
}

proof fn lemma_pattern_order(a: Seq<char>, b: Seq<char>, c: Seq<char>)
    ensures
        text_order(a, b) == text_order(b, a).flipped(),
        text_order(a, b) != Order::After && text_order(b, c) != Order::After ==> text_order(a, c)
            != Order::After,
        text_order(a, a) == Order::Same,
{
    lemma_text_order_total();
    let f = lexed(char_order());
    assert(f(a, b) == f(b, a).flipped());
    assert(f(a, a) == f(a, a).flipped());
    assert(f(a, b) != Order::After && f(b, c) != Order::After ==> f(a, c) != Order::After);
}

/// Put together what has been found out about a project, `found` being what the
/// artifact patterns led to. Of what they led to, the outermost is kept.
pub fn build_candidate(
    dir: FsPath,
    scan_root: FsPath,
    matched: Vec<String>,
    found: &Vec<(String, FsPath)>,
    last_activity: Option<Timestamp>,
    source_files: u64,
) -> (r: Candidate)
    ensures
        is_outermost_set(pair_views(found@), r@.artifacts),
        r@ == (CandidateFact {
            root: dir.fact(),
            scan_root: scan_root.fact(),
            types: texts(matched@),
            artifacts: r@.artifacts,
            last_activity: time_view(last_activity),
            source_files,
        }),
{
    let artifacts = keep_outermost(found);
    Candidate { root: dir, scan_root, types: matched, artifacts, last_activity, source_files }
}

/// How far the dating of a project has come.
pub struct DatingFact {
    pub artifacts: Seq<Seq<Seq<u8>>>,
    pub prune_dirs: Seq<Seq<char>>,
    /// Directories still to be listed, the next one last.
    pub stack: Seq<Seq<Seq<u8>>>,
    pub files: nat,
    pub newest: Option<int>,
}

impl DatingFact {
    /// The entry belongs to the project itself: it is no artifact, and it is a
    /// file or a directory other than `.git` and those to be pruned.
    pub open spec fn is_own(self, dir: Seq<Seq<u8>>, item: ItemFact) -> bool {
        !self.artifacts.contains(dir.push(item.name)) && match item.kind {
            KindFact::Dir => utf8_lossy(item.name) != ".git"@ && !self.prune_dirs.contains(
                utf8_lossy(item.name),
            ),
            KindFact::File(_) => true,
            _ => false,
        }
    }

    /// One entry of the project's own is taken into account.
    pub open spec fn counting(self, dir: Seq<Seq<u8>>, item: ItemFact) -> DatingFact {
        match item.kind {
            KindFact::Dir => DatingFact { stack: self.stack.push(dir.push(item.name)), ..self },
            KindFact::File(leaf) => DatingFact {
                files: self.files + 1,
                newest: later_of(self.newest, leaf.modified),
                ..self
            },
            _ => self,
        }
    }

    /// The entries of `dir` are taken into account, one after the other.
    pub open spec fn counting_all(self, dir: Seq<Seq<u8>>, items: Seq<ItemFact>) -> DatingFact
        decreases items.len(),
    {
        if items.len() == 0 {
            self
        } else {
            let before = self.counting_all(dir, items.drop_last());
            if self.is_own(dir, items.last()) {
                before.counting(dir, items.last())
            } else {
                before
            }
        }
    }

    /// The next directory has been listed.
    pub open spec fn absorbed(self, items: Seq<ItemFact>) -> DatingFact {
        DatingFact { stack: self.stack.drop_last(), ..self }.counting_all(self.stack.last(), items)
    }

    /// There is a directory left to list, and few enough files have been seen.
    pub open spec fn goes_on(self) -> bool {
        self.stack.len() > 0 && self.files < MAX_DATED_ENTRIES
    }
}

/// The state in which the dating of the project at `dir` starts.
pub open spec fn dating_start(
    dir: Seq<Seq<u8>>,
    artifacts: Seq<Seq<Seq<u8>>>,
    prune_dirs: Seq<Seq<char>>,
) -> DatingFact {
    DatingFact { artifacts, prune_dirs, stack: seq![dir], files: 0, newest: None }
}

/// The date of a project, given the newest time among its own files and that of its
/// directory.
pub open spec fn dating_result(newest: Option<int>, root_modified: Option<int>) -> Option<int> {
    match newest {
        Some(t) => Some(t),
        None => root_modified,
    }
}

/// What is not the project's own leaves no trace in its date: neither artifacts
/// nor `.git` nor pruned directories nor links count, so that a rebuild or a
/// `git gc` does not make an abandoned project look fresh.
pub proof fn law_only_own_files_date(st: DatingFact, items: Seq<ItemFact>)
    ensures
        st.absorbed(items) == st.absorbed(
            items.filter(|i: ItemFact| st.is_own(st.stack.last(), i)),
        ),
{
    let dir = st.stack.last();
    let own = |i: ItemFact| st.is_own(dir, i);
    let base = DatingFact { stack: st.stack.drop_last(), ..st };
    assert forall|i: ItemFact| own(i) == base.is_own(dir, i) by {}
    lemma_own_only(base, dir, items, own);
}

proof fn lemma_own_only(
    st: DatingFact,
    dir: Seq<Seq<u8>>,
    items: Seq<ItemFact>,
    own: spec_fn(ItemFact) -> bool,
)
    requires
        forall|i: ItemFact| #[trigger] own(i) == st.is_own(dir, i),
    ensures
        st.counting_all(dir, items) == st.counting_all(dir, items.filter(own)),
    decreases items.len(),
{
    reveal(Seq::filter);
    if items.len() > 0 {
        let init = items.drop_last();
        lemma_own_only(st, dir, init, own);
        assert(own(items.last()) == st.is_own(dir, items.last()));
        if own(items.last()) {
            let kept = init.filter(own).push(items.last());
            assert(kept.drop_last() =~= init.filter(own));
            assert(kept.last() == items.last());
        }
    } else {
        assert(items.filter(own) =~= items);
    }
}

/// An entry of the project's own, as it counts for the date: each file once,
/// whatever it occupies.
pub open spec fn as_dated(item: ItemFact) -> ItemFact {
    ItemFact {
        kind: match item.kind {
            KindFact::File(leaf) => KindFact::File(
                LeafFact { bytes: Some(0u64), modified: leaf.modified },
            ),
            other => other,
        },
        ..item
    }
}

impl DatingFact {
    /// The project's own entries of `dir`, as they count for the date.
    pub open spec fn own_items(self, dir: Seq<Seq<u8>>, items: Seq<ItemFact>) -> Seq<ItemFact> {
        items.filter(|i: ItemFact| self.is_own(dir, i)).map_values(|i: ItemFact| as_dated(i))
    }

    /// The project's own part of a file system.
    pub open spec fn own_part(
        self,
        disk: spec_fn(Seq<Seq<u8>>) -> Seq<ItemFact>,
    ) -> spec_fn(Seq<Seq<u8>>) -> Seq<ItemFact> {
        |dir: Seq<Seq<u8>>| self.own_items(dir, disk(dir))
    }

    /// The files seen and the newest time among them, as a measurement.
    pub open spec fn as_measure(self) -> MeasureFact {
        MeasureFact {
            total: StatFact { bytes: 0, files: self.files, newest: self.newest },
            stack: self.stack,
        }
    }
}

/// Dating a project is measuring its own part: listing a directory truthfully
/// does not change how many files will have been seen and which is the newest.
/// Each of the project's own files counts once, and nothing else does.
pub proof fn law_dating_keeps_outlook(
    disk: spec_fn(Seq<Seq<u8>>) -> Seq<ItemFact>,
    st: DatingFact,
    depth: nat,
)
    requires
        st.stack.len() > 0,
        all_shallow(st.own_part(disk), st.stack, depth),
    ensures
        ({
            let next = st.absorbed(disk(st.stack.last()));
            &&& next.own_part(disk) == st.own_part(disk)
            &&& outlook(st.own_part(disk), next.as_measure(), depth) == outlook(
                st.own_part(disk),
                st.as_measure(),
                depth,
            )
            &&& all_shallow(st.own_part(disk), next.stack, depth)
        }),
{
    let dir = st.stack.last();
    let items = disk(dir);
    let base = DatingFact { stack: st.stack.drop_last(), ..st };
    let next = st.absorbed(items);
    lemma_counting(base, dir, items);
    let own = st.own_items(dir, items);
    assert(base.own_items(dir, items) == own) by {
        let (f, g) = (|i: ItemFact| base.is_own(dir, i), |i: ItemFact| st.is_own(dir, i));
        assert(f =~= g);
    }
    assert(next.as_measure() == absorbed(st.as_measure(), own));
    assert(st.own_part(disk)(dir) == own);
    law_listing_keeps_outlook(st.own_part(disk), st.as_measure(), depth);
    assert forall|d: Seq<Seq<u8>>| #[trigger] next.own_part(disk)(d) == st.own_part(disk)(d) by {
        let (f, g) = (|i: ItemFact| next.is_own(d, i), |i: ItemFact| st.is_own(d, i));
        assert(f =~= g);
    }
    assert(next.own_part(disk) =~= st.own_part(disk));
}

/// The dating after `steps` truthful listings; it stops where it does not go on.
pub open spec fn dated(
    disk: spec_fn(Seq<Seq<u8>>) -> Seq<ItemFact>,
    st: DatingFact,
    steps: nat,
) -> DatingFact
    decreases steps,
{
    if steps == 0 {
        st
    } else {
        let before = dated(disk, st, (steps - 1) as nat);
        if before.goes_on() {
            before.absorbed(disk(before.stack.last()))
        } else {
            before
        }
    }
}

/// A dating that has listed all there is holds the number of the project's own
/// files and the newest time among them, whatever order it listed them in.
pub proof fn law_finished_dating(
    disk: spec_fn(Seq<Seq<u8>>) -> Seq<ItemFact>,
    dir: Seq<Seq<u8>>,
    artifacts: Seq<Seq<Seq<u8>>>,
    prune_dirs: Seq<Seq<char>>,
    steps: nat,
    depth: nat,
)
    requires
        is_shallow(dating_start(dir, artifacts, prune_dirs).own_part(disk), dir, depth),
    ensures
        ({
            let start = dating_start(dir, artifacts, prune_dirs);
            let last = dated(disk, start, steps);
            let own = weight(start.own_part(disk), dir, depth);
            last.stack.len() == 0 ==> last.files == own.files && last.newest == own.newest
        }),
{
    let start = dating_start(dir, artifacts, prune_dirs);
    let last = dated(disk, start, steps);
    let own = start.own_part(disk);
    assert(all_shallow(own, start.stack, depth)) by {
        assert(start.stack[0] == dir);
    }
    lemma_dated(disk, start, steps, depth);
    if last.stack.len() == 0 {
        assert(start.stack =~= seq![dir]);
        let st = measure_start(dir, Found::Dir);
        assert(start.as_measure().stack =~= st.stack);
        assert(start.as_measure() == st);
        law_finished_measurement(own, dir, last.as_measure(), depth);
    }
}

proof fn lemma_dated(
    disk: spec_fn(Seq<Seq<u8>>) -> Seq<ItemFact>,
    st: DatingFact,
    steps: nat,
    depth: nat,
)
    requires
        all_shallow(st.own_part(disk), st.stack, depth),
    ensures
        ({
            let last = dated(disk, st, steps);
            &&& last.own_part(disk) == st.own_part(disk)
            &&& outlook(st.own_part(disk), last.as_measure(), depth) == outlook(
                st.own_part(disk),
                st.as_measure(),
                depth,
            )
            &&& all_shallow(st.own_part(disk), last.stack, depth)
        }),
    decreases steps,
{
    if steps > 0 {
        lemma_dated(disk, st, (steps - 1) as nat, depth);
        let before = dated(disk, st, (steps - 1) as nat);
        if before.goes_on() {
            law_dating_keeps_outlook(disk, before, depth);
        }
    }
}

proof fn lemma_counting(base: DatingFact, dir: Seq<Seq<u8>>, items: Seq<ItemFact>)
    ensures
        base.counting_all(dir, items).as_measure() == (MeasureFact {
            total: base.as_measure().total.merged(items_stat(base.own_items(dir, items))),
            stack: base.stack + item_dirs(dir, base.own_items(dir, items)),
        }),
        base.counting_all(dir, items).artifacts == base.artifacts,
        base.counting_all(dir, items).prune_dirs == base.prune_dirs,
    decreases items.len(),
{
    reveal(Seq::filter);
    let own = |i: ItemFact| base.is_own(dir, i);
    let dated = |i: ItemFact| as_dated(i);
    let all = base.own_items(dir, items);
    if items.len() == 0 {
        assert(all =~= seq![]);
        assert(base.stack + item_dirs(dir, all) =~= base.stack);
    } else {
        let init = items.drop_last();
        let last = items.last();
        lemma_counting(base, dir, init);
        let before = base.own_items(dir, init);
        if base.is_own(dir, last) {
            assert(all =~= before.push(as_dated(last)));
            assert(all.drop_last() =~= before);
            assert(all.last() == as_dated(last));
            if last.kind is Dir {
                assert(base.stack + item_dirs(dir, all) =~= (base.stack + item_dirs(dir, before)).push(
                    dir.push(last.name),
                ));
            }
        } else {
            assert(all =~= before);
        }
    }
}

/// The dating of a project on its way: it asks for one listing at a time.
pub struct Dating {
    artifacts: Vec<FsPath>,
    prune_dirs: Vec<String>,
    stack: Vec<FsPath>,
    files: u64,
    newest: Option<Timestamp>,
}

impl View for Dating {
    type V = DatingFact;

    closed spec fn view(&self) -> DatingFact {
        DatingFact {
            artifacts: path_views(self.artifacts@),
            prune_dirs: texts(self.prune_dirs@),
            stack: path_views(self.stack@),
            files: self.files as nat,
            newest: time_view(self.newest),
        }
    }
}

/// Newest modification time among the project's own files.
///
/// Artifacts, `.git` and pruned directories are excluded on purpose: a rebuild
/// or a `git gc` must not make an abandoned project look fresh, whereas editing
/// or pulling source does.
pub fn date_project(dir: &FsPath, artifacts: Vec<FsPath>, options: &ScanOptions) -> (r: Dating)
    ensures
        r@ == dating_start(dir@, path_views(artifacts@), options@.prune_dirs),
{
    let first = dir.clone();
    let mut stack: Vec<FsPath> = Vec::new();
    stack.push(first);
    assert(path_views(stack@) =~= seq![dir@]);
    Dating {
        artifacts,
        prune_dirs: clone_texts(&options.prune_dirs),
        stack,
        files: 0,
        newest: None,
    }
}

impl Dating {
    /// The directory to be listed next, in plain form; none when enough has been
    /// seen.
    pub fn pending(&self) -> (r: Option<FsPath>)
        ensures
            r is Some <==> self@.goes_on(),
            r matches Some(p) ==> p.fact() == PathFact::plain(self@.stack.last()),
    {
        if self.stack.len() == 0 || self.files >= MAX_DATED_ENTRIES {
            None
        } else {
            let last: usize = self.stack.len() - 1;
            assert(path_views(self.stack@).last() == self.stack@[last as int]@);
            Some(self.stack[last].plain())
        }
    }

    /// Whether the entries can still be counted.
    pub fn can_absorb(&self, listing: &Option<Vec<Item>>) -> (r: bool)
        ensures
            r == (self@.files + listed(*listing).len() <= u64::MAX),
    {
        match listing {
            None => true,
            Some(items) => {
                assert(item_views(items@).len() == items@.len());
                self.files <= u64::MAX - items.len() as u64
            },
        }
    }

    /// Take the listing of the pending directory, `None` where it could not be
    /// read.
    pub fn absorb(&mut self, listing: Option<Vec<Item>>)
        requires
            old(self)@.goes_on(),
            old(self)@.files + listed(listing).len() <= u64::MAX,
        ensures
            final(self)@ == old(self)@.absorbed(listed(listing)),
    {
        let ghost before = self@;
        let popped = self.stack.pop();
        let dir = popped.unwrap();
        let ghost base = DatingFact { stack: before.stack.drop_last(), ..before };
        assert(self@.stack =~= base.stack);
        assert(dir@ == before.stack.last());
        match listing {
            None => {},
            Some(items) => {
                let ghost facts = item_views(items@);
                let mut i: usize = 0;
                assert(facts.take(0) =~= seq![]);
                while i < items.len()
                    invariant
                        0 <= i <= items.len(),
                        facts == item_views(items@),
                        base.artifacts == path_views(self.artifacts@),
                        base.prune_dirs == texts(self.prune_dirs@),
                        self.files <= base.files + i,
                        base.files + items.len() <= u64::MAX,
                        self@ == base.counting_all(dir@, facts.take(i as int)),
                    decreases items.len() - i,
                {
                    let item = &items[i];
                    let ghost sofar = self@;
                    proof {
                        assert(facts.take(i + 1).drop_last() =~= facts.take(i as int));
                        assert(facts.take(i + 1).last() == item@);
                    }
                    let path = dir.child(&item.name);
                    if !holds_path(&self.artifacts, &path) {
                        match item.kind {
                            ItemKind::Dir => {
                                let name = from_utf8_lossy(item.name.as_slice());
                                if !same_text(name.as_str(), ".git") && !holds_text(
                                    &self.prune_dirs,
                                    name.as_str(),
                                ) {
                                    proof {
                                        lemma_path_views_push(self.stack@, path);
                                    }
                                    self.stack.push(path);
                                }
                            },
                            ItemKind::File(leaf) => {
                                self.files = self.files + 1;
                                self.newest = later(self.newest, leaf.modified);
                            },
                            _ => {},
                        }
                    }
                    i = i + 1;
                }
                assert(facts.take(facts.len() as int) =~= facts);
            },
        }
    }

    /// The newest modification time and the number of files seen. A project
    /// whose files are all inside artifacts still has a time on the root
    /// directory itself; better than reporting "unknown".
    pub fn finish(self, root_modified: Option<Timestamp>) -> (r: (Option<Timestamp>, u64))
        ensures
            time_view(r.0) == dating_result(self@.newest, time_view(root_modified)),
            r.1 == self@.files,
    {
        let newest = match self.newest {
            Some(t) => Some(t),
            None => root_modified,
        };
        (newest, self.files)
    }
}

impl OptionsFact {
    /// Directories of this name are walked into.
    pub open spec fn enters(self, name: Seq<char>) -> bool {
        !(self.skip_hidden && name.len() > 0 && name[0] == '.') && !self.prune_dirs.contains(name)
    }

    /// The subdirectories of `dir`, itself `depth` levels down, that are walked
    /// into.
    pub open spec fn children(
        self,
        dir: Seq<Seq<u8>>,
        depth: nat,
        entries: Seq<EntryFact>,
    ) -> Seq<(Seq<Seq<u8>>, nat)>
        decreases entries.len(),
    {
        if entries.len() == 0 {
            seq![]
        } else {
            let before = self.children(dir, depth, entries.drop_last());
            let name = utf8_lossy(entries.last().name);
            if entries.last().is_dir && self.enters(name) {
                before.push((dir.push(encode_utf8(name)), depth + 1))
            } else {
                before
            }
        }
    }

    /// `dir` may be visited from `root`: it is `depth` levels below it, not too
    /// deep, and no directory on the way is hidden or pruned.
    pub open spec fn may_visit(self, root: Seq<Seq<u8>>, dir: Seq<Seq<u8>>, depth: nat) -> bool {
        &&& within(dir, root)
        &&& dir.len() == root.len() + depth
        &&& depth <= self.max_depth
        &&& forall|i: int| root.len() <= i < dir.len() ==> self.enters_part(#[trigger] dir[i])
    }

    /// The component is the name of a directory that is walked into.
    pub open spec fn enters_part(self, part: Seq<u8>) -> bool {
        exists|name: Seq<char>| #[trigger] self.enters(name) && part == encode_utf8(name)
    }
}

/// How far a walk has come.
pub struct WalkFact {
    pub options: OptionsFact,
    /// Roots still to be walked.
    pub roots: Seq<PathFact>,
    /// The root being walked.
    pub scan_root: PathFact,
    /// Directories still to be visited with their depth, the next one last.
    pub stack: Seq<(Seq<Seq<u8>>, nat)>,
    pub visited: nat,
}

impl WalkFact {
    /// The next root is walked, in the place of which `canonical` may stand.
    pub open spec fn entering(self, canonical: Option<PathFact>) -> WalkFact {
        let root = match canonical {
            Some(path) => path,
            None => self.roots[0],
        };
        WalkFact {
            roots: self.roots.skip(1),
            scan_root: root,
            stack: seq![(root.parts, 0nat)],
            ..self
        }
    }

    /// The next directory has been taken up.
    pub open spec fn visiting(self) -> WalkFact {
        WalkFact { stack: self.stack.drop_last(), visited: self.visited + 1, ..self }
    }

    /// The subdirectories of `dir` are walked into, unless it is a project that
    /// is not to be descended into, or too deep.
    pub open spec fn descending(
        self,
        dir: Seq<Seq<u8>>,
        depth: nat,
        entries: Seq<EntryFact>,
        is_project: bool,
    ) -> WalkFact {
        if (is_project && !self.options.descend_into_projects) || depth >= self.options.max_depth {
            self
        } else {
            WalkFact { stack: self.stack + self.options.children(dir, depth, entries), ..self }
        }
    }

    /// Every directory to be visited may be visited.
    pub open spec fn is_confined(self) -> bool {
        forall|i: int|
            0 <= i < self.stack.len() ==> self.options.may_visit(
                self.scan_root.parts,
                (#[trigger] self.stack[i]).0,
                self.stack[i].1,
            )
    }
}

/// A state of the file system, as far as a walk asks for it.
pub struct Tree {
    /// The entries of a directory, or `None` where it cannot be read.
    pub listing: spec_fn(Seq<Seq<u8>>) -> Option<Seq<EntryFact>>,
    /// The directory is a project.
    pub is_project: spec_fn(Seq<Seq<u8>>) -> bool,
}

/// The subdirectories that a walk goes into from `dir`, `depth` levels down.
pub open spec fn steps(
    tree: Tree,
    o: OptionsFact,
    dir: Seq<Seq<u8>>,
    depth: nat,
) -> Seq<(Seq<Seq<u8>>, nat)> {
    match (tree.listing)(dir) {
        Some(entries) => if ((tree.is_project)(dir) && !o.descend_into_projects) || depth
            >= o.max_depth {
            seq![]
        } else {
            o.children(dir, depth, entries)
        },
        None => seq![],
    }
}

/// A walk that visits `from` comes to `to`.
pub open spec fn leads_to(
    tree: Tree,
    o: OptionsFact,
    from: Seq<Seq<u8>>,
    depth: nat,
    to: Seq<Seq<u8>>,
) -> bool
    decreases o.max_depth - depth,
{
    from == to || (depth < o.max_depth && exists|i: int|
        0 <= i < steps(tree, o, from, depth).len() && leads_to(
            tree,
            o,
            (#[trigger] steps(tree, o, from, depth)[i]).0,
            depth + 1,
            to,
        ))
}

/// The walk of the present root will come to `to`.
pub open spec fn will_visit(tree: Tree, st: WalkFact, to: Seq<Seq<u8>>) -> bool {
    exists|i: int|
        0 <= i < st.stack.len() && leads_to(
            tree,
            st.options,
            (#[trigger] st.stack[i]).0,
            st.stack[i].1,
            to,
        )
}

/// The next directory is visited, and what lies in it is as `tree` says.
pub open spec fn stepped(tree: Tree, st: WalkFact) -> WalkFact {
    let (dir, depth) = st.stack.last();
    match (tree.listing)(dir) {
        Some(entries) => st.visiting().descending(dir, depth, entries, (tree.is_project)(dir)),
        None => st.visiting(),
    }
}

/// A walk comes to exactly the directories that its rules lead to: visiting one
/// changes nothing but that this one is no longer to come, unless it can be
/// reached in another way.
pub proof fn law_walk_visits_what_is_reachable(tree: Tree, st: WalkFact, to: Seq<Seq<u8>>)
    requires
        st.stack.len() > 0,
    ensures
        will_visit(tree, st, to) <==> to == st.stack.last().0 || will_visit(
            tree,
            stepped(tree, st),
            to,
        ),
{
    let (dir, depth) = st.stack.last();
    let next = stepped(tree, st);
    let rest = st.stack.drop_last();
    let o = st.options;
    let kids = steps(tree, o, dir, depth);
    assert(next.stack =~= rest + kids);
    assert(next.options == o);
    lemma_child_depth(tree, o, dir, depth);
    let last = st.stack.len() - 1;
    assert(st.stack[last] == (dir, depth));
    if will_visit(tree, st, to) {
        let i = choose|i: int|
            0 <= i < st.stack.len() && leads_to(
                tree,
                o,
                (#[trigger] st.stack[i]).0,
                st.stack[i].1,
                to,
            );
        if i < last {
            assert(next.stack[i] == st.stack[i]);
        } else if to != dir {
            let k = choose|k: int|
                0 <= k < kids.len() && leads_to(tree, o, (#[trigger] kids[k]).0, depth + 1, to);
            assert(next.stack[rest.len() + k] == kids[k]);
        }
    }
    if to == dir {
        assert(leads_to(tree, o, st.stack[last].0, st.stack[last].1, to));
    }
    if will_visit(tree, next, to) {
        let i = choose|i: int|
            0 <= i < next.stack.len() && leads_to(
                tree,
                o,
                (#[trigger] next.stack[i]).0,
                next.stack[i].1,
                to,
            );
        if i < rest.len() {
            assert(next.stack[i] == st.stack[i]);
        } else {
            let k = i - rest.len();
            assert(next.stack[i] == kids[k]);
            assert(leads_to(tree, o, kids[k].0, depth + 1, to));
            assert(leads_to(tree, o, st.stack[last].0, st.stack[last].1, to));
        }
    }
}

/// Unless projects are descended into, no project that the walk of a root comes
/// to lies inside another one that it comes to.
pub proof fn law_projects_found_are_not_nested(
    tree: Tree,
    o: OptionsFact,
    root: Seq<Seq<u8>>,
    outer: Seq<Seq<u8>>,
    inner: Seq<Seq<u8>>,
)
    requires
        !o.descend_into_projects,
        leads_to(tree, o, root, 0, outer),
        leads_to(tree, o, root, 0, inner),
        (tree.is_project)(outer),
        (tree.is_project)(inner),
    ensures
        within(inner, outer) ==> inner == outer,
{
    lemma_way_has_steps(tree, o, root, 0, outer, outer);
    if within(inner, outer) && inner != outer {
        lemma_way_has_steps(tree, o, root, 0, inner, outer);
    }
}

/// A walk to `to` goes through every directory above it, and goes on from there.
proof fn lemma_way_has_steps(
    tree: Tree,
    o: OptionsFact,
    from: Seq<Seq<u8>>,
    depth: nat,
    to: Seq<Seq<u8>>,
    mid: Seq<Seq<u8>>,
)
    requires
        leads_to(tree, o, from, depth, to),
    ensures
        within(to, from),
        within(mid, from) && within(to, mid) && mid != to ==> steps(
            tree,
            o,
            mid,
            (depth + mid.len() - from.len()) as nat,
        ).len() > 0,
    decreases o.max_depth - depth,
{
    if from == to {
        assert(to.take(from.len() as int) =~= from);
        if within(mid, from) && within(to, mid) {
            assert(mid.take(from.len() as int) =~= mid);
        }
    } else {
        let kids = steps(tree, o, from, depth);
        let i = choose|i: int|
            0 <= i < kids.len() && leads_to(tree, o, (#[trigger] kids[i]).0, depth + 1, to);
        let child = kids[i].0;
        lemma_step_is_child(tree, o, from, depth, i);
        lemma_way_has_steps(tree, o, child, depth + 1, to, mid);
        assert(child.take(from.len() as int) =~= from);
        assert(to.take(from.len() as int) =~= to.take(child.len() as int).take(from.len() as int));
        if within(mid, from) && within(to, mid) && mid != to {
            if mid.len() == from.len() {
                assert(mid.take(from.len() as int) =~= mid);
            } else {
                assert(mid.take(child.len() as int) =~= to.take(mid.len() as int).take(
                    child.len() as int,
                ));
                assert(to.take(mid.len() as int).take(child.len() as int) =~= to.take(
                    child.len() as int,
                ));
            }
        }
    }
}

/// Every step of a walk goes one level down.
proof fn lemma_step_is_child(tree: Tree, o: OptionsFact, dir: Seq<Seq<u8>>, depth: nat, i: int)
    requires
        0 <= i < steps(tree, o, dir, depth).len(),
    ensures
        ({
            let child = steps(tree, o, dir, depth)[i].0;
            child.len() == dir.len() + 1 && child.drop_last() == dir
        }),
{
    if let Some(entries) = (tree.listing)(dir) {
        lemma_children_are_below(o, dir, depth, entries);
    }
}

proof fn lemma_children_are_below(
    o: OptionsFact,
    dir: Seq<Seq<u8>>,
    depth: nat,
    entries: Seq<EntryFact>,
)
    ensures
        forall|i: int|
            0 <= i < o.children(dir, depth, entries).len() ==> (#[trigger] o.children(
                dir,
                depth,
                entries,
            )[i]).0.len() == dir.len() + 1 && o.children(dir, depth, entries)[i].0.drop_last() == dir,
    decreases entries.len(),
{
    if entries.len() > 0 {
        lemma_children_are_below(o, dir, depth, entries.drop_last());
        let before = o.children(dir, depth, entries.drop_last());
        let all = o.children(dir, depth, entries);
        let child = dir.push(encode_utf8(utf8_lossy(entries.last().name)));
        assert(child.drop_last() =~= dir);
        assert forall|i: int| 0 <= i < all.len() implies (#[trigger] all[i]).0.len() == dir.len() + 1
            && all[i].0.drop_last() == dir by {
            if i < before.len() {
                assert(all[i] == before[i]);
            }
        }
    }
}

proof fn lemma_child_depth(tree: Tree, o: OptionsFact, dir: Seq<Seq<u8>>, depth: nat)
    ensures
        forall|i: int|
            0 <= i < steps(tree, o, dir, depth).len() ==> (#[trigger] steps(tree, o, dir, depth)[i]).1
                == depth + 1,
        steps(tree, o, dir, depth).len() > 0 ==> depth < o.max_depth,
{
    if let Some(entries) = (tree.listing)(dir) {
        lemma_children_depth(o, dir, depth, entries);
    }
}

proof fn lemma_children_depth(
    o: OptionsFact,
    dir: Seq<Seq<u8>>,
    depth: nat,
    entries: Seq<EntryFact>,
)
    ensures
        forall|i: int|
            0 <= i < o.children(dir, depth, entries).len() ==> (#[trigger] o.children(
                dir,
                depth,
                entries,
            )[i]).1 == depth + 1,
    decreases entries.len(),
{
    if entries.len() > 0 {
        lemma_children_depth(o, dir, depth, entries.drop_last());
        let before = o.children(dir, depth, entries.drop_last());
        let all = o.children(dir, depth, entries);
        assert forall|i: int| 0 <= i < all.len() implies (#[trigger] all[i]).1 == depth + 1 by {
            if i < before.len() {
                assert(all[i] == before[i]);
            }
        }
    }
}

/// What a walk does next.
#[derive(Debug, PartialEq, Eq)]
pub enum WalkStep {
    /// The next root is to be resolved to its canonical path.
    Canonicalise(FsPath),
    /// The next directory is to be visited.
    Visit,
    Done,
}

/// What a [`WalkStep`] is, in a given state.
pub open spec fn is_next_step(st: WalkFact, step: WalkStep) -> bool {
    match step {
        WalkStep::Canonicalise(root) => st.stack.len() == 0 && st.roots.len() > 0 && root.fact()
            == st.roots[0],
        WalkStep::Visit => st.stack.len() > 0,
        WalkStep::Done => st.stack.len() == 0 && st.roots.len() == 0,
    }
}

/// A directory that has been taken up.
#[derive(Debug, PartialEq, Eq)]
pub struct Visit {
    pub dir: FsPath,
    pub depth: usize,
    pub scan_root: FsPath,
    /// How many directories have been taken up, this one included.
    pub count: u64,
}

/// A walk through the directories below the roots.
pub struct Walker {
    options: ScanOptions,
    next_root: usize,
    scan_root: FsPath,
    stack: Vec<(FsPath, usize)>,
    visited: u64,
}

/// Views of directories with their depth.
pub open spec fn level_views(stack: Seq<(FsPath, usize)>) -> Seq<(Seq<Seq<u8>>, nat)> {
    stack.map_values(|p: (FsPath, usize)| (p.0@, p.1 as nat))
}

proof fn lemma_level_views_push(stack: Seq<(FsPath, usize)>, p: (FsPath, usize))
    ensures
        level_views(stack.push(p)) == level_views(stack).push((p.0@, p.1 as nat)),
{
    assert(level_views(stack.push(p)) =~= level_views(stack).push((p.0@, p.1 as nat)));
}

impl View for Walker {
    type V = WalkFact;

    closed spec fn view(&self) -> WalkFact {
        WalkFact {
            options: self.options@,
            roots: self.options@.roots.skip(self.next_root as int),
            scan_root: self.scan_root.fact(),
            stack: level_views(self.stack@),
            visited: self.visited as nat,
        }
    }
}

/// Walk `options.roots`, one directory at a time.
pub fn walk(options: &ScanOptions) -> (r: Walker)
    ensures
        r.is_valid(),
        r@.options == options@,
        r@.roots == options@.roots,
        r@.stack.len() == 0,
        r@.visited == 0,
{
    let r = Walker {
        options: options.clone(),
        next_root: 0,
        scan_root: FsPath::empty(),
        stack: Vec::new(),
        visited: 0,
    };
    assert(r@.roots =~= options@.roots);
    r
}

impl Walker {
    pub closed spec fn is_valid(self) -> bool {
        self.next_root <= self.options@.roots.len() && self@.is_confined()
            && self.is_written_below_root()
    }

    /// The directories to be visited are written as the root is.
    spec fn is_written_below_root(self) -> bool {
        forall|i: int|
            0 <= i < self.stack@.len() ==> is_written_below(
                self.scan_root.fact(),
                (#[trigger] self.stack@[i]).0.fact(),
            )
    }

    /// What is to be done next.
    pub fn pending(&self) -> (r: WalkStep)
        requires
            self.is_valid(),
        ensures
            is_next_step(self@, r),
    {
        if self.stack.len() > 0 {
            WalkStep::Visit
        } else if self.next_root < self.options.roots.len() {
            assert(self@.roots[0] == self.options.roots@[self.next_root as int].fact());
            WalkStep::Canonicalise(self.options.roots[self.next_root].clone())
        } else {
            WalkStep::Done
        }
    }

    /// Start on the next root. Canonicalising once keeps `..` out of every path
    /// that is later displayed or handed to `git -C`; `None` where that failed.
    pub fn enter_root(&mut self, canonical: Option<FsPath>)
        requires
            old(self).is_valid(),
            old(self)@.stack.len() == 0,
            old(self)@.roots.len() > 0,
        ensures
            final(self).is_valid(),
            final(self)@ == old(self)@.entering(opt_fact(canonical)),
    {
        let ghost before = self@;
        assert(self.next_root < self.options.roots.len());
        assert(before.roots[0] == self.options.roots@[self.next_root as int].fact());
        assert(self.stack@.len() == before.stack.len());
        let root = match canonical {
            Some(path) => path,
            None => self.options.roots[self.next_root].clone(),
        };
        self.scan_root = root.clone();
        proof {
            lemma_level_views_push(self.stack@, (root, 0usize));
        }
        self.stack.push((root, 0));
        self.next_root = self.next_root + 1;
        proof {
            assert(self@.roots =~= before.roots.skip(1));
            assert(self@.stack =~= seq![(self.scan_root@, 0nat)]);
            assert(self.scan_root@.take(self.scan_root@.len() as int) =~= self.scan_root@);
            assert(self@.options.may_visit(self.scan_root@, self.scan_root@, 0));
            lemma_written_self(root.fact());
        }
    }

    /// Whether another directory can be counted.
    pub fn can_visit(&self) -> (r: bool)
        ensures
            r == (self@.visited < u64::MAX),
    {
        self.visited < u64::MAX
    }

    /// Take up the next directory.
    pub fn visit(&mut self) -> (r: Visit)
        requires
            old(self).is_valid(),
            old(self)@.stack.len() > 0,
            old(self)@.visited < u64::MAX,
        ensures
            final(self).is_valid(),
            final(self)@ == old(self)@.visiting(),
            r.dir@ == old(self)@.stack.last().0,
            r.depth == old(self)@.stack.last().1,
            r.scan_root.fact() == old(self)@.scan_root,
            is_written_below(old(self)@.scan_root, r.dir.fact()),
            r.count == old(self)@.visited + 1,
            old(self)@.options.may_visit(r.scan_root@, r.dir@, r.depth as nat),
    {
        let ghost before = self@;
        assert(is_written_below(self.scan_root.fact(), self.stack@[self.stack@.len() - 1].0.fact()));
        let popped = self.stack.pop();
        let (dir, depth) = popped.unwrap();
        self.visited = self.visited + 1;
        proof {
            assert(before.stack[before.stack.len() - 1] == before.stack.last());
            assert(self@.stack =~= before.stack.drop_last());
            assert forall|i: int| 0 <= i < self@.stack.len() implies self@.options.may_visit(
                self@.scan_root.parts,
                (#[trigger] self@.stack[i]).0,
                self@.stack[i].1,
            ) by {
                assert(self@.stack[i] == before.stack[i]);
            }
        }
        Visit { dir, depth, scan_root: self.scan_root.clone(), count: self.visited }
    }

    /// Go on into the subdirectories of a directory that was visited, given its
    /// entries and whether it is a project.
    pub fn descend(&mut self, visit: &Visit, entries: &Vec<Entry>, is_project: bool)
        requires
            old(self).is_valid(),
            old(self)@.options.may_visit(
                old(self)@.scan_root.parts,
                visit.dir@,
                visit.depth as nat,
            ),
            is_written_below(old(self)@.scan_root, visit.dir.fact()),
        ensures
            final(self).is_valid(),
            final(self)@ == old(self)@.descending(
                visit.dir@,
                visit.depth as nat,
                entry_views(entries@),
                is_project,
            ),
    {
        if is_project && !self.options.descend_into_projects {
            return;
        }
        if visit.depth >= self.options.max_depth {
            return;
        }
        let ghost before = self@;
        let ghost options = self.options@;
        let ghost facts = entry_views(entries@);
        let ghost (dir, depth) = (visit.dir@, visit.depth as nat);
        let mut i: usize = 0;
        assert(facts.take(0) =~= seq![]);
        assert(before.stack + options.children(dir, depth, facts.take(0)) =~= before.stack);
        while i < entries.len()
            invariant
                0 <= i <= entries.len(),
                facts == entry_views(entries@),
                dir == visit.dir@,
                depth == visit.depth,
                visit.depth < options.max_depth,
                options == self.options@,
                self@.options == before.options,
                self@.roots == before.roots,
                self@.scan_root == before.scan_root,
                self@.visited == before.visited,
                self.next_root <= self.options@.roots.len(),
                self@.is_confined(),
                self.is_written_below_root(),
                is_written_below(before.scan_root, visit.dir.fact()),
                options.may_visit(before.scan_root.parts, dir, depth),
                self@.stack == before.stack + options.children(dir, depth, facts.take(i as int)),
            decreases entries.len() - i,
        {
            let entry = &entries[i];
            proof {
                assert(facts.take(i + 1).drop_last() =~= facts.take(i as int));
                assert(facts.take(i + 1).last() == entry@);
            }
            if entry.is_dir {
                let name = from_utf8_lossy(entry.name.as_slice());
                if self.enters(name.as_str()) {
                    let child = visit.dir.entry(name.as_str());
                    let level: usize = visit.depth + 1;
                    let ghost sofar = self@;
                    proof {
                        lemma_level_views_push(self.stack@, (child, level));
                        let kids = options.children(dir, depth, facts.take(i as int));
                        assert((before.stack + kids).push((child@, level as nat)) =~= before.stack
                            + kids.push((child@, level as nat)));
                        let root = before.scan_root.parts;
                        assert(child@.take(root.len() as int) =~= dir.take(root.len() as int));
                        assert forall|k: int| root.len() <= k < child@.len() implies options.enters_part(
                            #[trigger] child@[k],
                        ) by {
                            if k < dir.len() {
                                assert(child@[k] == dir[k]);
                            } else {
                                assert(options.enters(name@));
                            }
                        }
                        assert(options.may_visit(root, child@, level as nat));
                    }
                    proof {
                        lemma_written_child(before.scan_root, visit.dir.fact(), encode_utf8(name@));
                    }
                    self.stack.push((child, level));
                    proof {
                        assert forall|k: int| 0 <= k < self@.stack.len() implies options.may_visit(
                            before.scan_root.parts,
                            (#[trigger] self@.stack[k]).0,
                            self@.stack[k].1,
                        ) by {
                            if k < sofar.stack.len() {
                                assert(self@.stack[k] == sofar.stack[k]);
                            }
                        }
                    }
                }
            }
            i = i + 1;
        }
        assert(facts.take(facts.len() as int) =~= facts);
    }

    fn enters(&self, name: &str) -> (r: bool)
        ensures
            r == self@.options.enters(name@),
    {
        let chars = chars_of(name);
        if self.options.skip_hidden && chars.len() > 0 && chars[0] == '.' {
            return false;
        }
        !holds_text(&self.options.prune_dirs, name)
    }
}

/// Where the entries lead from `dir`, one below the other.
pub open spec fn along(dir: Seq<Seq<u8>>, way: Seq<ItemFact>) -> Seq<Seq<u8>>
    decreases way.len(),
{
    if way.len() == 0 {
        dir
    } else {
        along(dir, way.drop_last()).push(way.last().name)
    }
}

/// What one listing adds to a dating: each file that is no artifact counts, and each
/// subdirectory that is no artifact, and is called neither `.git` nor by a name to be
/// pruned, is listed in its turn. Nothing else leaves a trace.
pub proof fn law_listing_counts_own_entries(st: DatingFact, items: Seq<ItemFact>)
    requires
        st.stack.len() > 0,
    ensures
        ({
            let dir = st.stack.last();
            let next = st.absorbed(items);
            &&& next.files == st.files + items.filter(
                |i: ItemFact| i.kind is File && !st.artifacts.contains(dir.push(i.name)),
            ).len()
            &&& next.stack == st.stack.drop_last() + items.filter(
                |i: ItemFact|
                    i.kind is Dir && !st.artifacts.contains(dir.push(i.name)) && utf8_lossy(i.name)
                        != ".git"@ && !st.prune_dirs.contains(utf8_lossy(i.name)),
            ).map_values(|i: ItemFact| dir.push(i.name))
            &&& next.artifacts == st.artifacts
            &&& next.prune_dirs == st.prune_dirs
        }),
{
    lemma_counting_parts(
        DatingFact { stack: st.stack.drop_last(), ..st },
        st.stack.last(),
        items,
    );
}

proof fn lemma_counting_parts(base: DatingFact, dir: Seq<Seq<u8>>, items: Seq<ItemFact>)
    ensures
        ({
            let next = base.counting_all(dir, items);
            &&& next.files == base.files + items.filter(
                |i: ItemFact| i.kind is File && !base.artifacts.contains(dir.push(i.name)),
            ).len()
            &&& next.stack == base.stack + items.filter(
                |i: ItemFact|
                    i.kind is Dir && !base.artifacts.contains(dir.push(i.name)) && utf8_lossy(i.name)
                        != ".git"@ && !base.prune_dirs.contains(utf8_lossy(i.name)),
            ).map_values(|i: ItemFact| dir.push(i.name))
            &&& next.artifacts == base.artifacts
            &&& next.prune_dirs == base.prune_dirs
        }),
    decreases items.len(),
{
    reveal(Seq::filter);
    let counts = |i: ItemFact| i.kind is File && !base.artifacts.contains(dir.push(i.name));
    let enters = |i: ItemFact|
        i.kind is Dir && !base.artifacts.contains(dir.push(i.name)) && utf8_lossy(i.name) != ".git"@
            && !base.prune_dirs.contains(utf8_lossy(i.name));
    let below = |i: ItemFact| dir.push(i.name);
    let next = base.counting_all(dir, items);
    if items.len() == 0 {
        assert(items.filter(enters).map_values(below) =~= seq![]);
        assert(base.stack + items.filter(enters).map_values(below) =~= base.stack);
    } else {
        let init = items.drop_last();
        lemma_counting_parts(base, dir, init);
        if enters(items.last()) {
            assert(items.filter(enters) =~= init.filter(enters).push(items.last()));
            assert(items.filter(enters).map_values(below) =~= init.filter(enters).map_values(
                below,
            ).push(dir.push(items.last().name)));
            assert(next.stack =~= base.stack + items.filter(enters).map_values(below));
        }
    }
}

/// Every file counts that lies in a listed directory and is no artifact: what was
/// seen only grows, and the newest time seen is no older than the file's.
proof fn lemma_counting_newest(base: DatingFact, dir: Seq<Seq<u8>>, items: Seq<ItemFact>)
    ensures
        ({
            let next = base.counting_all(dir, items);
            &&& base.files <= next.files
            &&& base.newest matches Some(t) ==> next.newest matches Some(n) && n >= t
            &&& forall|k: int|
                0 <= k < base.stack.len() ==> next.stack.contains(#[trigger] base.stack[k])
            &&& forall|i: ItemFact| #[trigger]
                items.contains(i) && i.kind is File && !base.artifacts.contains(dir.push(i.name))
                    ==> next.files > 0 && (i.kind->File_0.modified matches Some(t)
                    ==> next.newest matches Some(n) && n >= t)
            &&& forall|i: ItemFact| #[trigger]
                items.contains(i) && i.kind is Dir && !base.artifacts.contains(dir.push(i.name))
                    && utf8_lossy(i.name) != ".git"@ && !base.prune_dirs.contains(
                    utf8_lossy(i.name),
                ) ==> next.stack.contains(dir.push(i.name))
        }),
    decreases items.len(),
{
    let next = base.counting_all(dir, items);
    if items.len() == 0 {
        assert forall|k: int| 0 <= k < base.stack.len() implies next.stack.contains(
            #[trigger] base.stack[k],
        ) by {
            assert(next.stack[k] == base.stack[k]);
        }
    } else {
        let (init, last) = (items.drop_last(), items.last());
        let before = base.counting_all(dir, init);
        lemma_counting_newest(base, dir, init);
        lemma_counting(base, dir, init);
        assert(items =~= init.push(last));
        assert forall|p: Seq<Seq<u8>>| #[trigger] before.stack.contains(p) implies next.stack.contains(
            p,
        ) by {
            lemma_push_contains(before.stack, dir.push(last.name), p);
        }
        lemma_push_contains(before.stack, dir.push(last.name), dir.push(last.name));
        assert forall|i: ItemFact| #[trigger]
            items.contains(i) && i.kind is File && !base.artifacts.contains(
                dir.push(i.name),
            ) implies next.files > 0 && (i.kind->File_0.modified matches Some(t)
            ==> next.newest matches Some(n) && n >= t) by {
            lemma_push_contains(init, last, i);
        }
        assert forall|i: ItemFact| #[trigger]
            items.contains(i) && i.kind is Dir && !base.artifacts.contains(dir.push(i.name))
                && utf8_lossy(i.name) != ".git"@ && !base.prune_dirs.contains(
                utf8_lossy(i.name),
            ) implies next.stack.contains(dir.push(i.name)) by {
            lemma_push_contains(init, last, i);
        }
    }
}

/// Every file of the project's own dates it: where neither an artifact, nor `.git`,
/// nor a name to be pruned, nor a link stands on the way from the project to a file,
/// and the file is no artifact, then a finished dating has counted it and is no older
/// than it.
pub proof fn law_every_own_file_dates(
    disk: spec_fn(Seq<Seq<u8>>) -> Seq<ItemFact>,
    dir: Seq<Seq<u8>>,
    artifacts: Seq<Seq<Seq<u8>>>,
    prune_dirs: Seq<Seq<char>>,
    steps: nat,
    way: Seq<ItemFact>,
    file: ItemFact,
)
    requires
        forall|i: int|
            #![trigger way[i]]
            0 <= i < way.len() ==> disk(along(dir, way.take(i))).contains(way[i]) && way[i].kind is Dir
                && utf8_lossy(way[i].name) != ".git"@ && !prune_dirs.contains(
                utf8_lossy(way[i].name),
            ) && !artifacts.contains(along(dir, way.take(i + 1))),
        disk(along(dir, way)).contains(file),
        file.kind is File,
        !artifacts.contains(along(dir, way).push(file.name)),
        dated(disk, dating_start(dir, artifacts, prune_dirs), steps).stack.len() == 0,
    ensures
        ({
            let last = dated(disk, dating_start(dir, artifacts, prune_dirs), steps);
            &&& last.files > 0
            &&& file.kind->File_0.modified matches Some(t) ==> last.newest matches Some(n) && n >= t
        }),
{
    lemma_own_file_dates(disk, dir, artifacts, prune_dirs, steps, way, file);
}

#[verifier::spinoff_prover]
#[verifier::rlimit(60)]
proof fn lemma_own_file_dates(
    disk: spec_fn(Seq<Seq<u8>>) -> Seq<ItemFact>,
    dir: Seq<Seq<u8>>,
    artifacts: Seq<Seq<Seq<u8>>>,
    prune_dirs: Seq<Seq<char>>,
    steps: nat,
    way: Seq<ItemFact>,
    file: ItemFact,
)
    requires
        forall|i: int|
            #![trigger way[i]]
            0 <= i < way.len() ==> disk(along(dir, way.take(i))).contains(way[i]) && way[i].kind is Dir
                && utf8_lossy(way[i].name) != ".git"@ && !prune_dirs.contains(
                utf8_lossy(way[i].name),
            ) && !artifacts.contains(along(dir, way.take(i + 1))),
        disk(along(dir, way)).contains(file),
        file.kind is File,
        !artifacts.contains(along(dir, way).push(file.name)),
    ensures
        ({
            let last = dated(disk, dating_start(dir, artifacts, prune_dirs), steps);
            &&& last.artifacts == artifacts
            &&& last.prune_dirs == prune_dirs
            &&& ({
                ||| last.files > 0 && (file.kind->File_0.modified matches Some(t)
                    ==> last.newest matches Some(n) && n >= t)
                ||| exists|i: int|
                    0 <= i <= way.len() && last.stack.contains(#[trigger] along(dir, way.take(i)))
            })
        }),
    decreases steps,
{
    let start = dating_start(dir, artifacts, prune_dirs);
    if steps == 0 {
        assert(way.take(0) =~= seq![]);
        assert(start.stack[0] == along(dir, way.take(0)));
        assert(start.stack.contains(along(dir, way.take(0))));
    } else {
        lemma_own_file_dates(disk, dir, artifacts, prune_dirs, (steps - 1) as nat, way, file);
        let st = dated(disk, start, (steps - 1) as nat);
        if st.goes_on() {
            let at = st.stack.last();
            let items = disk(at);
            let base = DatingFact { stack: st.stack.drop_last(), ..st };
            let next = st.absorbed(items);
            lemma_counting_newest(base, at, items);
            lemma_counting(base, at, items);
            if exists|i: int|
                0 <= i <= way.len() && st.stack.contains(#[trigger] along(dir, way.take(i))) {
                let i = choose|i: int|
                    0 <= i <= way.len() && st.stack.contains(#[trigger] along(dir, way.take(i)));
                let here = along(dir, way.take(i));
                let k = choose|k: int| 0 <= k < st.stack.len() && st.stack[k] == here;
                if k < st.stack.len() - 1 {
                    assert(base.stack[k] == here);
                    assert(next.stack.contains(here));
                } else if i < way.len() {
                    let item = way[i];
                    assert(way.take(i + 1).drop_last() =~= way.take(i));
                    assert(along(dir, way.take(i + 1)) == here.push(item.name));
                    assert(items.contains(item));
                    assert(next.stack.contains(at.push(item.name)));
                    assert(next.stack.contains(along(dir, way.take(i + 1))));
                } else {
                    assert(way.take(i) =~= way);
                    assert(items.contains(file));
                }
            }
        }
    }
}

/// The way leads through the project's own directories.
spec fn is_own_way(
    disk: spec_fn(Seq<Seq<u8>>) -> Seq<ItemFact>,
    start: DatingFact,
    dir: Seq<Seq<u8>>,
    way: Seq<ItemFact>,
) -> bool {
    forall|i: int|
        #![trigger way[i]]
        0 <= i < way.len() ==> disk(along(dir, way.take(i))).contains(way[i]) && way[i].kind is Dir
            && start.is_own(along(dir, way.take(i)), way[i])
}

/// One of the project's own directories.
spec fn is_own_dir(
    disk: spec_fn(Seq<Seq<u8>>) -> Seq<ItemFact>,
    start: DatingFact,
    dir: Seq<Seq<u8>>,
    path: Seq<Seq<u8>>,
) -> bool {
    exists|way: Seq<ItemFact>| path == #[trigger] along(dir, way) && is_own_way(disk, start, dir, way)
}

/// A date has a file behind it: the newest time of a dating is that of a file that
/// is no artifact, and neither an artifact, nor `.git`, nor a name to be pruned, nor a
/// link stands on the way to it.
pub proof fn law_dates_have_files_behind_them(
    disk: spec_fn(Seq<Seq<u8>>) -> Seq<ItemFact>,
    dir: Seq<Seq<u8>>,
    artifacts: Seq<Seq<Seq<u8>>>,
    prune_dirs: Seq<Seq<char>>,
    steps: nat,
)
    ensures
        dated(disk, dating_start(dir, artifacts, prune_dirs), steps).newest matches Some(t)
            ==> exists|way: Seq<ItemFact>, file: ItemFact| #[trigger]
            disk(along(dir, way)).contains(file) && !artifacts.contains(
                along(dir, way).push(file.name),
            ) && (file.kind matches KindFact::File(leaf) && leaf.modified == Some(t)) && forall|i: int|
                #![trigger way[i]]
                0 <= i < way.len() ==> disk(along(dir, way.take(i))).contains(way[i])
                    && way[i].kind is Dir && utf8_lossy(way[i].name) != ".git"@
                    && !prune_dirs.contains(utf8_lossy(way[i].name)) && !artifacts.contains(
                    along(dir, way.take(i + 1)),
                ),
{
    let start = dating_start(dir, artifacts, prune_dirs);
    lemma_dates_have_files(disk, dir, start, steps);
    if let Some(t) = dated(disk, start, steps).newest {
        let (way, file) = choose|way: Seq<ItemFact>, file: ItemFact| #[trigger]
            disk(along(dir, way)).contains(file) && start.is_own(along(dir, way), file) && (
            file.kind matches KindFact::File(leaf) && leaf.modified == Some(t)) && is_own_way(
                disk,
                start,
                dir,
                way,
            );
        assert forall|i: int|
            #![trigger way[i]]
            0 <= i < way.len() implies disk(along(dir, way.take(i))).contains(way[i])
            && way[i].kind is Dir && utf8_lossy(way[i].name) != ".git"@ && !prune_dirs.contains(
            utf8_lossy(way[i].name),
        ) && !artifacts.contains(along(dir, way.take(i + 1))) by {
            assert(way.take(i + 1).drop_last() =~= way.take(i));
            assert(start.is_own(along(dir, way.take(i)), way[i]));
        }
        assert(disk(along(dir, way)).contains(file));
    }
}

proof fn lemma_dates_have_files(
    disk: spec_fn(Seq<Seq<u8>>) -> Seq<ItemFact>,
    dir: Seq<Seq<u8>>,
    start: DatingFact,
    steps: nat,
)
    requires
        start.stack == seq![dir],
        start.newest is None,
    ensures
        ({
            let last = dated(disk, start, steps);
            &&& last.artifacts == start.artifacts
            &&& last.prune_dirs == start.prune_dirs
            &&& forall|k: int|
                0 <= k < last.stack.len() ==> is_own_dir(disk, start, dir, #[trigger] last.stack[k])
            &&& last.newest matches Some(t) ==> exists|way: Seq<ItemFact>, file: ItemFact| #[trigger]
                disk(along(dir, way)).contains(file) && start.is_own(along(dir, way), file) && (
                file.kind matches KindFact::File(leaf) && leaf.modified == Some(t)) && is_own_way(
                    disk,
                    start,
                    dir,
                    way,
                )
        }),
    decreases steps,
{
    let last = dated(disk, start, steps);
    if steps == 0 {
        let none = Seq::<ItemFact>::empty();
        assert(is_own_way(disk, start, dir, none));
        assert(along(dir, none) == dir);
    } else {
        lemma_dates_have_files(disk, dir, start, (steps - 1) as nat);
        let st = dated(disk, start, (steps - 1) as nat);
        if st.goes_on() {
            let at = st.stack.last();
            let base = DatingFact { stack: st.stack.drop_last(), ..st };
            let top = st.stack.len() - 1;
            assert(st.stack[top] == at);
            assert(is_own_dir(disk, start, dir, st.stack[top]));
            let way = choose|way: Seq<ItemFact>|
                st.stack[top] == #[trigger] along(dir, way) && is_own_way(disk, start, dir, way);
            assert forall|k: int| 0 <= k < base.stack.len() implies is_own_dir(disk, start, dir, #[trigger] base.stack[k]) by {
                assert(base.stack[k] == st.stack[k]);
            }
            lemma_counted_files(disk, dir, start, base, way, disk(at), disk(at).len() as int);
            assert(disk(at).take(disk(at).len() as int) =~= disk(at));
        }
    }
}

proof fn lemma_counted_files(
    disk: spec_fn(Seq<Seq<u8>>) -> Seq<ItemFact>,
    dir: Seq<Seq<u8>>,
    start: DatingFact,
    base: DatingFact,
    way: Seq<ItemFact>,
    items: Seq<ItemFact>,
    n: int,
)
    requires
        0 <= n <= items.len(),
        items == disk(along(dir, way)),
        is_own_way(disk, start, dir, way),
        base.artifacts == start.artifacts,
        base.prune_dirs == start.prune_dirs,
        forall|k: int|
            0 <= k < base.stack.len() ==> is_own_dir(disk, start, dir, #[trigger] base.stack[k]),
        base.newest matches Some(t) ==> exists|way: Seq<ItemFact>, file: ItemFact| #[trigger]
            disk(along(dir, way)).contains(file) && start.is_own(along(dir, way), file) && (
            file.kind matches KindFact::File(leaf) && leaf.modified == Some(t)) && is_own_way(
                disk,
                start,
                dir,
                way,
            ),
    ensures
        ({
            let next = base.counting_all(along(dir, way), items.take(n));
            &&& next.artifacts == start.artifacts
            &&& next.prune_dirs == start.prune_dirs
            &&& forall|k: int|
                0 <= k < next.stack.len() ==> is_own_dir(disk, start, dir, #[trigger] next.stack[k])
            &&& next.newest matches Some(t) ==> exists|way: Seq<ItemFact>, file: ItemFact| #[trigger]
                disk(along(dir, way)).contains(file) && start.is_own(along(dir, way), file) && (
                file.kind matches KindFact::File(leaf) && leaf.modified == Some(t)) && is_own_way(
                    disk,
                    start,
                    dir,
                    way,
                )
        }),
    decreases n,
{
    let at = along(dir, way);
    let next = base.counting_all(at, items.take(n));
    if n == 0 {
        assert(items.take(0) =~= seq![]);
    } else {
        lemma_counted_files(disk, dir, start, base, way, items, n - 1);
        assert(items.take(n).drop_last() =~= items.take(n - 1));
        let item = items[n - 1];
        let before = base.counting_all(at, items.take(n - 1));
        assert(items.contains(item));
        assert(base.is_own(at, item) == start.is_own(at, item));
        if base.is_own(at, item) {
            if item.kind is Dir {
                let on = way.push(item);
                assert(on.drop_last() =~= way);
                assert(along(dir, on) == at.push(item.name));
                assert forall|i: int|
                    #![trigger on[i]]
                    0 <= i < on.len() implies disk(along(dir, on.take(i))).contains(on[i])
                    && on[i].kind is Dir && start.is_own(along(dir, on.take(i)), on[i]) by {
                    if i < way.len() {
                        assert(on.take(i) =~= way.take(i));
                        assert(on[i] == way[i]);
                    } else {
                        assert(on.take(i) =~= way);
                    }
                }
                assert(is_own_way(disk, start, dir, on));
                assert forall|k: int| 0 <= k < next.stack.len() implies is_own_dir(disk, start, dir, #[trigger] next.stack[k]) by {
                    if k < before.stack.len() {
                        assert(next.stack[k] == before.stack[k]);
                    } else {
                        assert(next.stack[k] == along(dir, on));
                    }
                }
            } else if let KindFact::File(leaf) = item.kind {
                assert(disk(along(dir, way)).contains(item));
                if next.newest != before.newest {
                    assert(next.newest == leaf.modified);
                }
            }
        }
    }
}

/// A dating goes on until there is nothing left to list or fifty thousand files have
/// been seen.
pub proof fn law_dating_goes_on(st: DatingFact)
    ensures
        st.goes_on() <==> st.stack.len() > 0 && st.files < 50_000,
{
}

/// Which subdirectories of a visited directory are walked into: those whose names do
/// not start with a dot where hidden ones are skipped, and are not to be pruned.
pub proof fn law_subdirectories_are_walked_into(
    o: OptionsFact,
    dir: Seq<Seq<u8>>,
    depth: nat,
    entries: Seq<EntryFact>,
    child: Seq<Seq<u8>>,
    level: nat,
)
    ensures
        o.children(dir, depth, entries).contains((child, level)) <==> level == depth + 1 && exists|
            e: EntryFact,
        |
            entries.contains(e) && e.is_dir && child == dir.push(
                encode_utf8(#[trigger] utf8_lossy(e.name)),
            ) && !(o.skip_hidden && utf8_lossy(e.name).len() > 0 && utf8_lossy(e.name)[0] == '.')
                && !o.prune_dirs.contains(utf8_lossy(e.name)),
    decreases entries.len(),
{
    let all = o.children(dir, depth, entries);
    if entries.len() > 0 {
        let (init, last) = (entries.drop_last(), entries.last());
        law_subdirectories_are_walked_into(o, dir, depth, init, child, level);
        let before = o.children(dir, depth, init);
        let name = utf8_lossy(last.name);
        assert(entries =~= init.push(last));
        lemma_push_contains(before, (dir.push(encode_utf8(name)), depth + 1), (child, level));
        assert(entries[entries.len() - 1] == last);
        assert forall|e: EntryFact| entries.contains(e) <==> init.contains(e) || e == last by {
            lemma_push_contains(init, last, e);
        }
        if before.contains((child, level)) {
            let e = choose|e: EntryFact|
                init.contains(e) && e.is_dir && child == dir.push(
                    encode_utf8(#[trigger] utf8_lossy(e.name)),
                ) && !(o.skip_hidden && utf8_lossy(e.name).len() > 0 && utf8_lossy(e.name)[0] == '.')
                    && !o.prune_dirs.contains(utf8_lossy(e.name));
            assert(entries.contains(e));
        }
    }
}

/// Where a walk gets from `from` through the entries, one below the other.
pub open spec fn walked(from: Seq<Seq<u8>>, way: Seq<EntryFact>) -> Seq<Seq<u8>>
    decreases way.len(),
{
    if way.len() == 0 {
        from
    } else {
        walked(from.push(encode_utf8(utf8_lossy(way[0].name))), way.skip(1))
    }
}

/// A walk of a root comes to every directory that lies no deeper than the settings
/// say, where each directory on the way is listed in the one above, does not start
/// with a dot while hidden ones are skipped, is not to be pruned, and lies in no
/// project unless projects are descended into; and it comes to nothing else.
pub proof fn law_walk_comes_to_all(
    tree: Tree,
    st: WalkFact,
    root: PathFact,
    to: Seq<Seq<u8>>,
)
    ensures
        will_visit(tree, st.entering(Some(root)), to) <==> exists|way: Seq<EntryFact>|
            to == #[trigger] walked(root.parts, way) && way.len() <= st.options.max_depth
                && forall|i: int|
                #![trigger way[i]]
                0 <= i < way.len() ==> way[i].is_dir && (tree.listing)(
                    walked(root.parts, way.take(i)),
                ) is Some && (tree.listing)(walked(root.parts, way.take(i)))->Some_0.contains(way[i])
                    && ((tree.is_project)(walked(root.parts, way.take(i)))
                    ==> st.options.descend_into_projects) && !(st.options.skip_hidden && utf8_lossy(
                    way[i].name,
                ).len() > 0 && utf8_lossy(way[i].name)[0] == '.')
                    && !st.options.prune_dirs.contains(utf8_lossy(way[i].name)),
{
    let next = st.entering(Some(root));
    assert(next.stack[0] == (root.parts, 0nat));
    lemma_leads_along(tree, st.options, root.parts, 0, to);
    if will_visit(tree, next, to) {
        let i = choose|i: int|
            0 <= i < next.stack.len() && leads_to(
                tree,
                next.options,
                (#[trigger] next.stack[i]).0,
                next.stack[i].1,
                to,
            );
        assert(i == 0);
    }
}

proof fn lemma_leads_along(
    tree: Tree,
    o: OptionsFact,
    from: Seq<Seq<u8>>,
    depth: nat,
    to: Seq<Seq<u8>>,
)
    requires
        depth <= o.max_depth,
    ensures
        leads_to(tree, o, from, depth, to) <==> exists|way: Seq<EntryFact>|
            to == #[trigger] walked(from, way) && way.len() + depth <= o.max_depth && forall|i: int|
                #![trigger way[i]]
                0 <= i < way.len() ==> way[i].is_dir && (tree.listing)(walked(from, way.take(i))) is Some
                    && (tree.listing)(walked(from, way.take(i)))->Some_0.contains(way[i]) && ((
                tree.is_project)(walked(from, way.take(i))) ==> o.descend_into_projects) && !(
                o.skip_hidden && utf8_lossy(way[i].name).len() > 0 && utf8_lossy(way[i].name)[0]
                    == '.') && !o.prune_dirs.contains(utf8_lossy(way[i].name)),
    decreases o.max_depth - depth,
{
    let kids = steps(tree, o, from, depth);
    if leads_to(tree, o, from, depth, to) {
        if from == to {
            let way = Seq::<EntryFact>::empty();
            assert(to == walked(from, way));
        } else {
            let k = choose|k: int|
                0 <= k < kids.len() && leads_to(tree, o, (#[trigger] kids[k]).0, depth + 1, to);
            let child = kids[k].0;
            lemma_child_depth(tree, o, from, depth);
            let entries = (tree.listing)(from)->Some_0;
            assert(kids == o.children(from, depth, entries));
            assert(kids.contains((child, kids[k].1))) by {
                assert(kids[k] == (child, kids[k].1));
            }
            law_subdirectories_are_walked_into(o, from, depth, entries, child, kids[k].1);
            let e = choose|e: EntryFact|
                entries.contains(e) && e.is_dir && child == from.push(
                    encode_utf8(#[trigger] utf8_lossy(e.name)),
                ) && !(o.skip_hidden && utf8_lossy(e.name).len() > 0 && utf8_lossy(e.name)[0] == '.')
                    && !o.prune_dirs.contains(utf8_lossy(e.name));
            lemma_leads_along(tree, o, child, depth + 1, to);
            let rest = choose|way: Seq<EntryFact>|
                to == #[trigger] walked(child, way) && way.len() + depth + 1 <= o.max_depth && forall|
                    i: int,
                |
                    #![trigger way[i]]
                    0 <= i < way.len() ==> way[i].is_dir && (tree.listing)(
                        walked(child, way.take(i)),
                    ) is Some && (tree.listing)(walked(child, way.take(i)))->Some_0.contains(way[i])
                        && ((tree.is_project)(walked(child, way.take(i)))
                        ==> o.descend_into_projects) && !(o.skip_hidden && utf8_lossy(
                        way[i].name,
                    ).len() > 0 && utf8_lossy(way[i].name)[0] == '.') && !o.prune_dirs.contains(
                        utf8_lossy(way[i].name),
                    );
            let way = seq![e] + rest;
            assert(way.skip(1) =~= rest);
            assert(to == walked(from, way));
            assert forall|i: int|
                #![trigger way[i]]
                0 <= i < way.len() implies way[i].is_dir && (tree.listing)(
                walked(from, way.take(i)),
            ) is Some && (tree.listing)(walked(from, way.take(i)))->Some_0.contains(way[i]) && ((
            tree.is_project)(walked(from, way.take(i))) ==> o.descend_into_projects) && !(
            o.skip_hidden && utf8_lossy(way[i].name).len() > 0 && utf8_lossy(way[i].name)[0] == '.')
                && !o.prune_dirs.contains(utf8_lossy(way[i].name)) by {
                if i == 0 {
                    assert(way.take(0) =~= Seq::<EntryFact>::empty());
                } else {
                    assert(way[i] == rest[i - 1]);
                    assert(way.take(i).skip(1) =~= rest.take(i - 1));
                    assert(way.take(i)[0] == e);
                }
            }
        }
    }
    assert forall|way: Seq<EntryFact>|
        to == #[trigger] walked(from, way) && way.len() + depth <= o.max_depth && (forall|i: int|
            #![trigger way[i]]
            0 <= i < way.len() ==> way[i].is_dir && (tree.listing)(walked(from, way.take(i))) is Some
                && (tree.listing)(walked(from, way.take(i)))->Some_0.contains(way[i]) && ((
            tree.is_project)(walked(from, way.take(i))) ==> o.descend_into_projects) && !(
            o.skip_hidden && utf8_lossy(way[i].name).len() > 0 && utf8_lossy(way[i].name)[0] == '.')
                && !o.prune_dirs.contains(utf8_lossy(way[i].name))) implies leads_to(
        tree,
        o,
        from,
        depth,
        to,
    ) by {
        if way.len() > 0 {
            let (e, rest) = (way[0], way.skip(1));
            assert(way.take(0) =~= Seq::<EntryFact>::empty());
            assert(walked(from, way.take(0)) == from);
            let child = from.push(encode_utf8(utf8_lossy(e.name)));
            let entries = (tree.listing)(from)->Some_0;
            assert(entries.contains(e));
            law_subdirectories_are_walked_into(o, from, depth, entries, child, depth + 1);
            assert(kids == o.children(from, depth, entries));
            assert(kids.contains((child, depth + 1)));
            let k = choose|k: int| 0 <= k < kids.len() && kids[k] == (child, depth + 1);
            lemma_leads_along(tree, o, child, depth + 1, to);
            assert forall|i: int|
                #![trigger rest[i]]
                0 <= i < rest.len() implies rest[i].is_dir && (tree.listing)(
                walked(child, rest.take(i)),
            ) is Some && (tree.listing)(walked(child, rest.take(i)))->Some_0.contains(rest[i]) && ((
            tree.is_project)(walked(child, rest.take(i))) ==> o.descend_into_projects) && !(
            o.skip_hidden && utf8_lossy(rest[i].name).len() > 0 && utf8_lossy(rest[i].name)[0]
                == '.') && !o.prune_dirs.contains(utf8_lossy(rest[i].name)) by {
                assert(rest[i] == way[i + 1]);
                assert(way.take(i + 1).skip(1) =~= rest.take(i));
                assert(way.take(i + 1)[0] == e);
                assert(walked(from, way.take(i + 1)) == walked(child, rest.take(i)));
            }
            assert(to == walked(child, rest));
            assert(leads_to(tree, o, kids[k].0, depth + 1, to));
        }
    }
}

/// A type is recognised by its markers: by all of them, or by one of them, as it asks
/// for. A marker with a slash or a wildcard in it is there where it was found on disk,
/// any other where an entry of the directory is called so. A type without markers is
/// never recognised.
pub proof fn law_markers_make_types(
    t: TypeFact,
    names: Seq<Seq<char>>,
    on_disk: Seq<Seq<char>>,
)
    ensures
        t.markers.len() == 0 ==> !is_matched(t, names, on_disk),
        t.markers.len() > 0 && t.require_all_markers ==> (is_matched(t, names, on_disk) <==> forall|
            i: int,
        |
            0 <= i < t.markers.len() ==> if (#[trigger] t.markers[i]).contains('/')
                || t.markers[i].contains('*') || t.markers[i].contains('?') {
                on_disk.contains(t.markers[i])
            } else {
                names.contains(t.markers[i])
            }),
        t.markers.len() > 0 && !t.require_all_markers ==> (is_matched(t, names, on_disk) <==> exists|
            i: int,
        |
            0 <= i < t.markers.len() && if (#[trigger] t.markers[i]).contains('/')
                || t.markers[i].contains('*') || t.markers[i].contains('?') {
                on_disk.contains(t.markers[i])
            } else {
                names.contains(t.markers[i])
            }),
{
    assert forall|i: int| 0 <= i < t.markers.len() implies is_present(
        #[trigger] t.markers[i],
        names,
        on_disk,
    ) == if t.markers[i].contains('/') || t.markers[i].contains('*') || t.markers[i].contains('?') {
        on_disk.contains(t.markers[i])
    } else {
        names.contains(t.markers[i])
    } by {}
}

/// A project's artifacts are looked for by every pattern of every type that it was
/// recognised as, and by no other.
pub proof fn law_all_patterns_are_tried(
    types: Seq<TypeFact>,
    matched: Seq<Seq<char>>,
    pattern: Seq<char>,
)
    ensures
        patterns_of(types, matched).contains(pattern) <==> exists|i: int|
            0 <= i < types.len() && matched.contains((#[trigger] types[i]).name)
                && types[i].artifacts.contains(pattern),
    decreases types.len(),
{
    if types.len() > 0 {
        let (init, last) = (types.drop_last(), types.last());
        law_all_patterns_are_tried(init, matched, pattern);
        let before = patterns_of(init, matched);
        let both = before + last.artifacts;
        if before.contains(pattern) {
            let k = choose|k: int| 0 <= k < before.len() && before[k] == pattern;
            assert(both[k] == pattern);
            let i = choose|i: int|
                0 <= i < init.len() && matched.contains((#[trigger] init[i]).name)
                    && init[i].artifacts.contains(pattern);
            assert(types[i] == init[i]);
        }
        if last.artifacts.contains(pattern) {
            let k = choose|k: int| 0 <= k < last.artifacts.len() && last.artifacts[k] == pattern;
            assert(both[before.len() + k] == pattern);
            assert(types[types.len() - 1] == last);
        }
        if both.contains(pattern) && !before.contains(pattern) {
            let k = choose|k: int| 0 <= k < both.len() && both[k] == pattern;
            if k < before.len() {
                assert(before[k] == pattern);
            }
            assert(last.artifacts[k - before.len()] == pattern);
        }
        if exists|i: int|
            0 <= i < types.len() && matched.contains((#[trigger] types[i]).name)
                && types[i].artifacts.contains(pattern) {
            let i = choose|i: int|
                0 <= i < types.len() && matched.contains((#[trigger] types[i]).name)
                    && types[i].artifacts.contains(pattern);
            if i < init.len() {
                assert(init[i] == types[i]);
            }
        }
    } else {
        assert(!patterns_of(types, matched).contains(pattern));
    }
}

/// The artifacts kept cover all that was found, none of them lies in another, and
/// each was found by the pattern it is kept with. (The path without components is
/// left out: nothing is found there.)
pub proof fn law_kept_artifacts_cover_all(
    found: Seq<(Seq<char>, PathFact)>,
    kept: Seq<(Seq<char>, PathFact)>,
    i: int,
    j: int,
)
    requires
        is_outermost_set(found, kept),
        forall|k: int| 0 <= k < found.len() ==> (#[trigger] found[k]).1.parts.len() > 0,
    ensures
        0 <= i < found.len() ==> exists|k: int|
            0 <= k < kept.len() && (#[trigger] kept[k]).1.parts.len() <= found[i].1.parts.len()
                && found[i].1.parts.take(kept[k].1.parts.len() as int) == kept[k].1.parts,
        0 <= i < kept.len() ==> found.contains(kept[i]),
        0 <= i < kept.len() && 0 <= j < found.len() && found[j].1.parts == kept[i].1.parts
            ==> text_order(kept[i].0, found[j].0) != Order::After,
        0 <= i < kept.len() && 0 <= j < kept.len() && i != j && kept[i].1.parts.len()
            <= kept[j].1.parts.len() ==> kept[j].1.parts.take(kept[i].1.parts.len() as int)
            != kept[i].1.parts,
{
    let (all, outer) = (pair_parts(found), pair_parts(kept));
    if 0 <= i < found.len() {
        assert(all[i] == found[i].1.parts);
        assert(all.contains(all[i]));
        assert forall|k: int| 0 <= k < all.len() implies (#[trigger] all[k]).len() > 0 by {
            assert(all[k] == found[k].1.parts);
        }
        law_outermost_covers_all(all, all[i]);
        let q = choose|q: Seq<Seq<u8>>| #[trigger]
            is_outermost(all, q) && q.len() <= all[i].len() && all[i].take(q.len() as int) == q;
        assert(outer.contains(q));
        let k = choose|k: int| 0 <= k < outer.len() && outer[k] == q;
        assert(kept[k].1.parts == q);
    }
    if 0 <= i < kept.len() {
        assert(is_first_pattern(found, kept[i]));
        let k = choose|k: int| #[trigger] is_first_pair(found, k) && found[k] == kept[i];
        assert(found[k] == kept[i]);
        if 0 <= j < found.len() && found[j].1.parts == kept[i].1.parts {
            assert(text_order(found[k].0, found[j].0) != Order::After);
        }
        if 0 <= j < kept.len() && i != j {
            let (a, b) = (kept[i].1.parts, kept[j].1.parts);
            assert(outer[i] == a && outer[j] == b);
            assert(outer.contains(a) && outer.contains(b));
            assert(is_outermost(all, a) && is_outermost(all, b));
            let m = choose|m: int| 0 <= m < all.len() && all[m] == a;
            assert(found[m].1.parts.len() > 0);
            if a.len() <= b.len() && b.take(a.len() as int) == a {
                if a.len() == b.len() {
                    assert(b.take(a.len() as int) =~= b);
                    lemma_path_order_total();
                    let g = lexed(part_order());
                    assert(g(a, a) == g(a, a).flipped());
                    if i < j {
                        assert(path_order(outer[i], outer[j]) == Order::Before);
                    } else {
                        assert(path_order(outer[j], outer[i]) == Order::Before);
                    }
                } else {
                    assert(is_ancestor(a, b));
                }
            }
        }
    }
}

/// A walk starts on each root in turn, in the order given: at its canonical path, or at
/// the path as given where that cannot be told.
pub proof fn law_roots_are_walked_in_turn(st: WalkFact, canonical: Option<PathFact>)
    requires
        st.roots.len() > 0,
    ensures
        ({
            let next = st.entering(canonical);
            let root = match canonical {
                Some(path) => path,
                None => st.roots[0],
            };
            &&& next.scan_root == root
            &&& next.stack == seq![(root.parts, 0nat)]
            &&& next.roots == st.roots.skip(1)
            &&& next.visited == st.visited
            &&& next.options == st.options
        }),
        st.visiting().visited == st.visited + 1,
        st.visiting().stack == st.stack.drop_last(),
{
}

/// The names in a listing are those of all its entries, as far as they are Unicode.
pub proof fn law_all_names_are_listed(entries: Seq<EntryFact>, i: int)
    ensures
        entry_names(entries).len() == entries.len(),
        0 <= i < entries.len() ==> entry_names(entries)[i] == utf8_lossy(entries[i].name),
{
}

/// A dating counts by the newest of the project's own files; only where it has seen none
/// with a time does the directory's own time stand in.
pub proof fn law_own_files_come_first(newest: Option<int>, root_modified: Option<int>)
    ensures
        newest is Some ==> dating_result(newest, root_modified) == newest,
        newest is None ==> dating_result(newest, root_modified) == root_modified,
{
}

} // verus!
