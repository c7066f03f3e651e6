//! Minimal glob support for marker and artifact patterns.
//!
//! A pattern is a `/`-separated path relative to the project root. Each segment
//! may use `*` and `?`; a segment that is exactly `**` matches any number of
//! intermediate directories.

use vstd::prelude::*;
use vstd::utf8::*;

use crate::order::Order;
use crate::path::{
    ascending, dot_dot_part, is_ancestor, is_first_at, is_first_spelling, is_written_below,
    lemma_path_views_push, lemma_written_child, lemma_written_self, path_facts, path_order,
    path_views, sorted_unique, within, FsPath, PathFact,
};
use crate::text::{
    chars_of, contains_char, from_utf8_lossy, holds_text, lemma_split_concat, lemma_split_single,
    lemma_texts_push, same_text, split, split_chars, texts, utf8_lossy,
};

verus! {

/// `pattern` matches all of `name`: `?` stands for one character, `*` for any
/// number of them, every other character for itself.
pub open spec fn wild(pattern: Seq<char>, name: Seq<char>) -> bool
    decreases pattern.len(), name.len(),
{
    if pattern.len() == 0 {
        name.len() == 0
    } else if pattern[0] == '*' {
        wild(pattern.skip(1), name) || (name.len() > 0 && wild(pattern, name.skip(1)))
    } else {
        name.len() > 0 && (pattern[0] == '?' || pattern[0] == name[0]) && wild(
            pattern.skip(1),
            name.skip(1),
        )
    }
}

/// A leading `*` takes some part of the name and leaves the rest.
proof fn lemma_star(pattern: Seq<char>, name: Seq<char>)
    requires
        pattern.len() > 0,
        pattern[0] == '*',
    ensures
        wild(pattern, name) <==> exists|k: int|
            0 <= k <= name.len() && #[trigger] wild(pattern.skip(1), name.skip(k)),
    decreases name.len(),
{
    assert(name.skip(0) =~= name);
    assert(wild(pattern.skip(1), name) == wild(pattern.skip(1), name.skip(0)));
    if name.len() > 0 {
        lemma_star(pattern, name.skip(1));
        if wild(pattern, name.skip(1)) {
            let k = choose|k: int|
                0 <= k <= name.skip(1).len() && #[trigger] wild(
                    pattern.skip(1),
                    name.skip(1).skip(k),
                );
            assert(name.skip(1).skip(k) =~= name.skip(k + 1));
            assert(wild(pattern.skip(1), name.skip(k + 1)));
        }
        if exists|k: int| 0 <= k <= name.len() && #[trigger] wild(pattern.skip(1), name.skip(k)) {
            let k = choose|k: int|
                0 <= k <= name.len() && #[trigger] wild(pattern.skip(1), name.skip(k));
            if k > 0 {
                assert(name.skip(1).skip(k - 1) =~= name.skip(k));
                assert(wild(pattern.skip(1), name.skip(1).skip(k - 1)));
            }
        }
    } else {
        if exists|k: int| 0 <= k <= name.len() && #[trigger] wild(pattern.skip(1), name.skip(k)) {
            let k = choose|k: int|
                0 <= k <= name.len() && #[trigger] wild(pattern.skip(1), name.skip(k));
            assert(k == 0);
        }
    }
}

/// Characters before the next `*` take one character each.
proof fn lemma_literals(pattern: Seq<char>, name: Seq<char>, m: int)
    requires
        0 <= m <= pattern.len(),
        forall|i: int| 0 <= i < m ==> #[trigger] pattern[i] != '*',
        wild(pattern, name),
    ensures
        m <= name.len(),
        wild(pattern.skip(m), name.skip(m)),
    decreases m,
{
    if m == 0 {
        assert(pattern.skip(0) =~= pattern && name.skip(0) =~= name);
    } else {
        assert(pattern[0] != '*');
        let (p, n) = (pattern.skip(1), name.skip(1));
        assert forall|i: int| 0 <= i < m - 1 implies #[trigger] p[i] != '*' by {
            assert(p[i] == pattern[i + 1]);
        }
        lemma_literals(p, n, m - 1);
        assert(p.skip(m - 1) =~= pattern.skip(m));
        assert(n.skip(m - 1) =~= name.skip(m));
    }
}

/// Only `*` matches the empty name.
proof fn lemma_empty_name(pattern: Seq<char>)
    ensures
        wild(pattern, Seq::empty()) <==> forall|i: int|
            0 <= i < pattern.len() ==> #[trigger] pattern[i] == '*',
    decreases pattern.len(),
{
    if pattern.len() > 0 {
        let rest = pattern.skip(1);
        lemma_empty_name(rest);
        if pattern[0] == '*' {
            assert forall|i: int| 0 <= i < pattern.len() && wild(rest, Seq::empty()) implies #[trigger] pattern[i]
                == '*' by {
                if i > 0 {
                    assert(rest[i - 1] == '*');
                }
            }
            assert forall|i: int|
                0 <= i < rest.len() && (forall|j: int|
                    0 <= j < pattern.len() ==> #[trigger] pattern[j] == '*') implies #[trigger] rest[i]
                == '*' by {
                assert(pattern[i + 1] == '*');
            }
        }
    }
}

/// Some later resumption of the last `*` still matches.
spec fn resumes(p: Seq<char>, t: Seq<char>, star: int, resume: int) -> bool {
    exists|k: int| resume < k <= t.len() && #[trigger] wild(p.skip(star + 1), t.skip(k))
}

/// Wildcard match of a single path component against `pattern`.
pub fn matches(pattern: &str, name: &str) -> (r: bool)
    ensures
        r == wild(pattern@, name@),
{
    let pat = chars_of(pattern);
    let text = chars_of(name);
    let ghost p = pat@;
    let ghost t = text@;
    let mut pi: usize = 0;
    let mut ti: usize = 0;
    // Position of the last `*` in the pattern and where it resumed in the text,
    // so that a failed match can backtrack instead of recursing.
    let mut star: Option<usize> = None;
    let mut resume: usize = 0;
    assert(p.skip(0) =~= p && t.skip(0) =~= t);
    while ti < text.len()
        invariant
            p == pat@,
            t == text@,
            p == pattern@,
            t == name@,
            0 <= pi <= p.len(),
            0 <= ti <= t.len(),
            match star {
                Some(s) => {
                    &&& s < pi
                    &&& p[s as int] == '*'
                    &&& resume <= ti
                    &&& ti == resume + (pi - s - 1)
                    &&& forall|i: int| s < i < pi ==> #[trigger] p[i] != '*'
                    &&& wild(p, t) <==> wild(p.skip(pi as int), t.skip(ti as int)) || resumes(
                        p,
                        t,
                        s as int,
                        resume as int,
                    )
                },
                None => {
                    &&& wild(p, t) <==> wild(p.skip(pi as int), t.skip(ti as int))
                },
            },
        decreases
                t.len() - (if star is Some {
                    resume as int
                } else {
                    0
                }),
                p.len() - (match star {
                    Some(s) => s as int + 1,
                    None => 0,
                }),
                p.len() - pi,
                t.len() - ti,
    {
        let ghost tail_p = p.skip(pi as int);
        let ghost tail_t = t.skip(ti as int);
        if pi < pat.len() && pat[pi] != '*' && (pat[pi] == '?' || pat[pi] == text[ti]) {
            assert(tail_p.skip(1) =~= p.skip(pi + 1));
            assert(tail_t.skip(1) =~= t.skip(ti + 1));
            pi = pi + 1;
            ti = ti + 1;
        } else if pi < pat.len() && pat[pi] == '*' {
            proof {
                lemma_star(tail_p, tail_t);
                assert(tail_p.skip(1) =~= p.skip(pi + 1));
                assert(wild(tail_p, tail_t) <==> wild(p.skip(pi + 1), t.skip(ti as int)) || resumes(
                    p,
                    t,
                    pi as int,
                    ti as int,
                )) by {
                    if exists|k: int|
                        0 <= k <= tail_t.len() && #[trigger] wild(tail_p.skip(1), tail_t.skip(k)) {
                        let k = choose|k: int|
                            0 <= k <= tail_t.len() && #[trigger] wild(
                                tail_p.skip(1),
                                tail_t.skip(k),
                            );
                        assert(tail_t.skip(k) =~= t.skip(ti + k));
                        assert(wild(p.skip(pi + 1), t.skip(ti + k)));
                    }
                    if wild(p.skip(pi + 1), t.skip(ti as int)) {
                        assert(tail_t.skip(0) =~= tail_t);
                        assert(wild(tail_p.skip(1), tail_t.skip(0)));
                    }
                    if resumes(p, t, pi as int, ti as int) {
                        let k = choose|k: int|
                            ti < k <= t.len() && #[trigger] wild(p.skip(pi + 1), t.skip(k));
                        assert(tail_t.skip(k - ti) =~= t.skip(k));
                        assert(wild(tail_p.skip(1), tail_t.skip(k - ti)));
                    }
                }
                if let Some(s) = star {
                    // What the earlier `*` could still reach, this one reaches too.
                    if resumes(p, t, s as int, resume as int) {
                        let k = choose|k: int|
                            resume < k <= t.len() && #[trigger] wild(p.skip(s + 1), t.skip(k));
                        let m = pi - s - 1;
                        let q = p.skip(s + 1);
                        assert forall|i: int| 0 <= i < m implies #[trigger] q[i] != '*' by {
                            assert(q[i] == p[i + s + 1]);
                        }
                        lemma_literals(q, t.skip(k), m);
                        assert(q.skip(m) =~= tail_p);
                        assert(t.skip(k).skip(m) =~= t.skip(k + m));
                        lemma_star(tail_p, t.skip(k + m));
                        let l = choose|l: int|
                            0 <= l <= t.skip(k + m).len() && #[trigger] wild(
                                tail_p.skip(1),
                                t.skip(k + m).skip(l),
                            );
                        assert(t.skip(k + m).skip(l) =~= t.skip(k + m + l));
                        assert(wild(p.skip(pi + 1), t.skip(k + m + l)));
                        assert(resumes(p, t, pi as int, ti as int));
                    }
                }
            }
            star = Some(pi);
            pi = pi + 1;
            resume = ti;
        } else if let Some(s) = star {
            proof {
                assert(!wild(tail_p, tail_t));
                if resumes(p, t, s as int, resume as int) {
                    let k = choose|k: int|
                        resume < k <= t.len() && #[trigger] wild(p.skip(s + 1), t.skip(k));
                    if k > resume + 1 {
                        assert(resumes(p, t, s as int, resume + 1));
                    }
                }
                if resumes(p, t, s as int, resume + 1) {
                    let k = choose|k: int|
                        resume + 1 < k <= t.len() && #[trigger] wild(p.skip(s + 1), t.skip(k));
                    assert(resumes(p, t, s as int, resume as int));
                }
            }
            pi = s + 1;
            resume = resume + 1;
            ti = resume;
        } else {
            return false;
        }
    }
    let ghost rest = p.skip(pi as int);
    proof {
        assert(t.skip(ti as int) =~= Seq::empty());
        lemma_empty_name(rest);
        if let Some(s) = star {
            if resumes(p, t, s as int, resume as int) {
                let k = choose|k: int|
                    resume < k <= t.len() && #[trigger] wild(p.skip(s + 1), t.skip(k));
                let m = pi - s - 1;
                let q = p.skip(s + 1);
                assert forall|i: int| 0 <= i < m implies #[trigger] q[i] != '*' by {
                    assert(q[i] == p[i + s + 1]);
                }
                lemma_literals(q, t.skip(k), m);
                assert(false);
            }
        }
        assert(wild(p, t) <==> wild(rest, Seq::empty()));
    }
    let ghost from = pi as int;
    while pi < pat.len()
        invariant
            p == pat@,
            0 <= from <= pi <= p.len(),
            rest == p.skip(from),
            wild(p, t) <==> forall|i: int| 0 <= i < rest.len() ==> #[trigger] rest[i] == '*',
            forall|i: int| from <= i < pi ==> #[trigger] p[i] == '*',
            t == text@,
            p == pattern@,
            t == name@,
        decreases p.len() - pi,
    {
        if pat[pi] != '*' {
            assert(rest[pi - from] != '*');
            return false;
        }
        pi = pi + 1;
    }
    assert forall|i: int| 0 <= i < rest.len() implies #[trigger] rest[i] == '*' by {
        assert(rest[i] == p[i + from]);
    }
    true
}

/// The segment uses `*` or `?`.
pub open spec fn is_wildcard(segment: Seq<char>) -> bool {
    segment.contains('*') || segment.contains('?')
}

pub fn has_wildcard(segment: &str) -> (r: bool)
    ensures
        r == is_wildcard(segment@),
{
    contains_char(segment, '*') || contains_char(segment, '?')
}

/// How many directory levels a `**` segment is allowed to cross.
pub const RECURSIVE_DEPTH_LIMIT: usize = 12;

/// Directories never entered while expanding `**`.
pub open spec fn is_pruned(name: Seq<char>) -> bool {
    name == ".git"@ || name == ".hg"@ || name == ".svn"@ || name == "node_modules"@ || name
        == ".venv"@
}

fn pruned(name: &str) -> (r: bool)
    ensures
        r == is_pruned(name@),
{
    same_text(name, ".git") || same_text(name, ".hg") || same_text(name, ".svn") || same_text(
        name,
        "node_modules",
    ) || same_text(name, ".venv")
}

/// One entry of a directory. A link to a directory is not a directory here.
#[derive(Debug, PartialEq, Eq)]
pub struct Entry {
    pub name: Vec<u8>,
    pub is_dir: bool,
}

/// What an [`Entry`] says.
pub struct EntryFact {
    pub name: Seq<u8>,
    pub is_dir: bool,
}

impl View for Entry {
    type V = EntryFact;

    open spec fn view(&self) -> EntryFact {
        EntryFact { name: self.name@, is_dir: self.is_dir }
    }
}

/// The view of a directory listing; `None` where it could not be read.
pub open spec fn listing_view(listing: Option<Vec<Entry>>) -> Option<Seq<EntryFact>> {
    match listing {
        Some(entries) => Some(entries@.map_values(|e: Entry| e@)),
        None => None,
    }
}

/// A state of the file system, as far as patterns ask for it.
pub struct Disk {
    /// The entries of a directory, or `None` where it cannot be read.
    pub listing: spec_fn(Seq<Seq<u8>>) -> Option<Seq<EntryFact>>,
    /// Something is there, be it a dangling link.
    pub present: spec_fn(Seq<Seq<u8>>) -> bool,
    /// A directory is there, possibly behind a link.
    pub directory: spec_fn(Seq<Seq<u8>>) -> bool,
}

impl Disk {
    /// `entry` stands in the directory `dir`.
    pub open spec fn has_entry(self, dir: Seq<Seq<u8>>, entry: EntryFact) -> bool {
        (self.listing)(dir) is Some && (self.listing)(dir)->Some_0.contains(entry)
    }
}

/// The segments of a pattern: empty ones and `.` do not count.
pub open spec fn segments(pattern: Seq<char>) -> Seq<Seq<char>> {
    split(pattern, '/').filter(|s: Seq<char>| s.len() > 0 && s != "."@)
}

/// The pattern stays below the root: it names something, does not climb, and is
/// neither absolute nor relative to a home directory.
pub open spec fn is_confined(pattern: Seq<char>) -> bool {
    &&& segments(pattern).len() > 0
    &&& !segments(pattern).contains(".."@)
    &&& pattern.len() > 0 && pattern[0] != '/' && pattern[0] != '~'
}

/// `to` is `from` or a directory at most `depth` levels below it, none of the
/// directories on the way being pruned.
pub open spec fn descends(disk: Disk, from: Seq<Seq<u8>>, to: Seq<Seq<u8>>, depth: nat) -> bool
    decreases depth,
{
    from == to || (depth > 0 && exists|e: EntryFact| #[trigger]
        enters(disk, from, e) && descends(disk, from.push(e.name), to, (depth - 1) as nat))
}

/// `e` is a subdirectory of `dir` that `**` goes into.
pub open spec fn enters(disk: Disk, dir: Seq<Seq<u8>>, e: EntryFact) -> bool {
    disk.has_entry(dir, e) && e.is_dir && !is_pruned(utf8_lossy(e.name))
}

/// The single segment `segment` leads from `from` to `to`.
pub open spec fn leads(disk: Disk, segment: Seq<char>, from: Seq<Seq<u8>>, to: Seq<Seq<u8>>) -> bool {
    if segment == "**"@ {
        descends(disk, from, to, RECURSIVE_DEPTH_LIMIT as nat)
    } else if is_wildcard(segment) {
        exists|e: EntryFact| #[trigger]
            disk.has_entry(from, e) && wild(segment, utf8_lossy(e.name)) && to == from.push(e.name)
    } else {
        to == from.push(encode_utf8(segment)) && (disk.present)(to)
    }
}

/// The segments from the `i`th on lead from `from` to `to`. What a segment
/// leads to must be a directory unless the segment is the last.
pub open spec fn reaches(
    disk: Disk,
    segs: Seq<Seq<char>>,
    i: nat,
    from: Seq<Seq<u8>>,
    to: Seq<Seq<u8>>,
) -> bool
    decreases segs.len() - i,
{
    if i >= segs.len() {
        from == to
    } else {
        exists|mid: Seq<Seq<u8>>| #[trigger]
            leads(disk, segs[i as int], from, mid) && (i + 1 < segs.len() ==> (disk.directory)(mid))
                && reaches(disk, segs, i + 1, mid, to)
    }
}

/// `path` is what `pattern` stands for below `root`.
pub open spec fn is_match(disk: Disk, root: Seq<Seq<u8>>, pattern: Seq<char>, path: Seq<Seq<u8>>) -> bool {
    is_confined(pattern) && reaches(disk, segments(pattern), 0, root, path)
}

/// A question about the file system.
#[derive(Debug, PartialEq, Eq)]
pub enum Query {
    /// What are the entries of this directory?
    List(FsPath),
    /// Is anything there? Links are not followed.
    Exists(FsPath),
    /// Is a directory there? Links are followed.
    IsDir(FsPath),
}

/// What a [`Query`] asks.
pub enum Question {
    List(Seq<Seq<u8>>),
    Exists(Seq<Seq<u8>>),
    IsDir(Seq<Seq<u8>>),
}

impl Query {
    /// The path that the question is about.
    pub open spec fn path(self) -> PathFact {
        match self {
            Query::List(p) => p.fact(),
            Query::Exists(p) => p.fact(),
            Query::IsDir(p) => p.fact(),
        }
    }
}

impl View for Query {
    type V = Question;

    open spec fn view(&self) -> Question {
        match *self {
            Query::List(p) => Question::List(p@),
            Query::Exists(p) => Question::Exists(p@),
            Query::IsDir(p) => Question::IsDir(p@),
        }
    }
}

/// The answer to a [`Query`].
#[derive(Debug, PartialEq, Eq)]
pub enum Reply {
    /// The entries of the directory, or `None` where it could not be read.
    Entries(Option<Vec<Entry>>),
    Flag(bool),
}

/// `reply` answers the kind of question that `question` is.
pub open spec fn answers(question: Question, reply: Reply) -> bool {
    match question {
        Question::List(_) => reply is Entries,
        _ => reply is Flag,
    }
}

/// `reply` is what `disk` says to `question`.
pub open spec fn is_truthful(disk: Disk, question: Question, reply: Reply) -> bool {
    match (question, reply) {
        (Question::List(p), Reply::Entries(listing)) => listing_view(listing) == (disk.listing)(p),
        (Question::Exists(p), Reply::Flag(b)) => b == (disk.present)(p),
        (Question::IsDir(p), Reply::Flag(b)) => b == (disk.directory)(p),
        _ => false,
    }
}

/// The entries of a listing; none where it could not be read.
pub open spec fn listed_entries(listing: Option<Vec<Entry>>) -> Seq<EntryFact> {
    match listing {
        Some(entries) => entries@.map_values(|e: Entry| e@),
        None => seq![],
    }
}

/// What is left to find out at one path.
pub enum TaskFact {
    /// Where does the segment `index`, which is not `**`, lead from here?
    Follow { path: Seq<Seq<u8>>, index: nat },
    /// If this is a directory, where does the segment `index` lead from here?
    Check { path: Seq<Seq<u8>>, index: nat },
    /// Which subdirectories, and `depth` levels of them further, does the `**`
    /// segment `index` go into?
    Descend { path: Seq<Seq<u8>>, index: nat, depth: nat },
}

impl TaskFact {
    /// The question that has to be answered for this.
    pub open spec fn question(self, segs: Seq<Seq<char>>) -> Question {
        match self {
            TaskFact::Follow { path, index } => if is_wildcard(segs[index as int]) {
                Question::List(path)
            } else {
                Question::Exists(path.push(encode_utf8(segs[index as int])))
            },
            TaskFact::Check { path, .. } => Question::IsDir(path),
            TaskFact::Descend { path, .. } => Question::List(path),
        }
    }

    /// How far from the end the task is, in a pattern of `count` segments.
    pub open spec fn distance(self, count: nat) -> int {
        let stride = RECURSIVE_DEPTH_LIMIT + 2;
        match self {
            TaskFact::Follow { index, .. } => (count - index) * stride,
            TaskFact::Descend { index, depth, .. } => (count - index) * stride + depth + 1,
            TaskFact::Check { index, .. } => (count - index) * stride + stride - 1,
        }
    }

    /// The task concerns a segment of the pattern.
    pub open spec fn is_placed(self, count: nat) -> bool {
        match self {
            TaskFact::Follow { index, .. } => index < count,
            TaskFact::Check { index, .. } => index < count,
            TaskFact::Descend { index, depth, .. } => index < count && depth
                < RECURSIVE_DEPTH_LIMIT,
        }
    }
}

/// How far the resolution of a pattern has come.
pub struct ResolverFact {
    pub segs: Seq<Seq<char>>,
    /// What is left to find out, the next at the end.
    pub todo: Seq<TaskFact>,
    /// The paths found, in the order in which they were found.
    pub found: Seq<Seq<Seq<u8>>>,
}

impl ResolverFact {
    /// The question to be answered next.
    pub open spec fn question(self) -> Option<Question> {
        if self.todo.len() == 0 {
            None
        } else {
            Some(self.todo.last().question(self.segs))
        }
    }

    pub open spec fn with_task(self, task: TaskFact) -> ResolverFact {
        ResolverFact { todo: self.todo.push(task), ..self }
    }

    /// The segment before `next` led to `path`: behind the last segment it is
    /// found, else it has to be a directory for the next one.
    pub open spec fn emitting(self, path: Seq<Seq<u8>>, next: nat) -> ResolverFact {
        if next < self.segs.len() {
            self.with_task(TaskFact::Check { path, index: next })
        } else {
            ResolverFact { found: self.found.push(path), ..self }
        }
    }

    /// The segment `index` is to be taken from `path`. The segment `**` leads to
    /// `path` itself and to what lies below it.
    pub open spec fn entering(self, path: Seq<Seq<u8>>, index: nat) -> ResolverFact {
        if self.segs[index as int] == "**"@ {
            self.emitting(path, index + 1).with_task(
                TaskFact::Descend { path, index, depth: (RECURSIVE_DEPTH_LIMIT - 1) as nat },
            )
        } else {
            self.with_task(TaskFact::Follow { path, index })
        }
    }

    /// The segment `index` leads to those `entries` of `path` that it matches.
    pub open spec fn following(
        self,
        path: Seq<Seq<u8>>,
        index: nat,
        entries: Seq<EntryFact>,
    ) -> ResolverFact
        decreases entries.len(),
    {
        if entries.len() == 0 {
            self
        } else {
            let before = self.following(path, index, entries.drop_last());
            let name = entries.last().name;
            if wild(self.segs[index as int], utf8_lossy(name)) {
                before.emitting(path.push(name), index + 1)
            } else {
                before
            }
        }
    }

    /// The `**` segment `index` leads to those `entries` of `path` that are
    /// directories and not pruned, and `depth` levels further down.
    pub open spec fn descending(
        self,
        path: Seq<Seq<u8>>,
        index: nat,
        depth: nat,
        entries: Seq<EntryFact>,
    ) -> ResolverFact
        decreases entries.len(),
    {
        if entries.len() == 0 {
            self
        } else {
            let before = self.descending(path, index, depth, entries.drop_last());
            let e = entries.last();
            if !e.is_dir || is_pruned(utf8_lossy(e.name)) {
                before
            } else {
                let led = before.emitting(path.push(e.name), index + 1);
                if depth > 0 {
                    led.with_task(
                        TaskFact::Descend {
                            path: path.push(e.name),
                            index,
                            depth: (depth - 1) as nat,
                        },
                    )
                } else {
                    led
                }
            }
        }
    }

    /// The pending question is answered by `reply`.
    pub open spec fn answered(self, reply: Reply) -> ResolverFact {
        let rest = ResolverFact { todo: self.todo.drop_last(), ..self };
        match (self.todo.last(), reply) {
            (TaskFact::Follow { path, index }, Reply::Entries(listing)) => rest.following(
                path,
                index,
                listed_entries(listing),
            ),
            (TaskFact::Follow { path, index }, Reply::Flag(there)) => if there {
                rest.emitting(path.push(encode_utf8(self.segs[index as int])), index + 1)
            } else {
                rest
            },
            (TaskFact::Check { path, index }, Reply::Flag(is_dir)) => if is_dir {
                rest.entering(path, index)
            } else {
                rest
            },
            (TaskFact::Descend { path, index, depth }, Reply::Entries(listing)) => rest.descending(
                path,
                index,
                depth,
                listed_entries(listing),
            ),
            _ => rest,
        }
    }

    /// This is `before` with the task `task` replaced by tasks that are each
    /// nearer to the end; so the questions run out.
    pub open spec fn is_nearer(self, before: Seq<TaskFact>, task: TaskFact) -> bool {
        &&& before.len() <= self.todo.len()
        &&& self.todo.take(before.len() as int) =~= before
        &&& forall|k: int|
            before.len() <= k < self.todo.len() ==> (#[trigger] self.todo[k]).is_placed(
                self.segs.len(),
            ) && self.todo[k].distance(self.segs.len()) < task.distance(self.segs.len())
    }
}

/// One more task that is nearer to the end.
proof fn lemma_nearer_push(
    st: ResolverFact,
    next: TaskFact,
    before: Seq<TaskFact>,
    task: TaskFact,
)
    requires
        st.is_nearer(before, task),
        next.is_placed(st.segs.len()),
        next.distance(st.segs.len()) < task.distance(st.segs.len()),
    ensures
        st.with_task(next).is_nearer(before, task),
{
    let after = st.with_task(next);
    assert(after.todo.take(before.len() as int) =~= before);
    assert forall|k: int| before.len() <= k < after.todo.len() implies (
    #[trigger] after.todo[k]).is_placed(st.segs.len()) && after.todo[k].distance(st.segs.len())
        < task.distance(st.segs.len()) by {
        if k < st.todo.len() {
            assert(after.todo[k] == st.todo[k]);
        }
    }
}

/// What a segment leads to is nearer to the end than the segment.
proof fn lemma_nearer_emitting(
    st: ResolverFact,
    path: Seq<Seq<u8>>,
    index: nat,
    before: Seq<TaskFact>,
    task: TaskFact,
)
    requires
        st.is_nearer(before, task),
        task.distance(st.segs.len()) >= (st.segs.len() - index) * (RECURSIVE_DEPTH_LIMIT + 2),
    ensures
        st.emitting(path, index + 1).is_nearer(before, task),
        st.emitting(path, index + 1).segs == st.segs,
{
    if index + 1 < st.segs.len() {
        let (left, stride) = (st.segs.len() - index, RECURSIVE_DEPTH_LIMIT + 2);
        assert((left - 1) * stride == left * stride - stride) by (nonlinear_arith);
        lemma_nearer_push(st, TaskFact::Check { path, index: index + 1 }, before, task);
    }
}

proof fn lemma_nearer_following(
    st: ResolverFact,
    path: Seq<Seq<u8>>,
    index: nat,
    entries: Seq<EntryFact>,
    before: Seq<TaskFact>,
    task: TaskFact,
)
    requires
        st.is_nearer(before, task),
        task.distance(st.segs.len()) >= (st.segs.len() - index) * (RECURSIVE_DEPTH_LIMIT + 2),
    ensures
        st.following(path, index, entries).is_nearer(before, task),
        st.following(path, index, entries).segs == st.segs,
    decreases entries.len(),
{
    if entries.len() > 0 {
        lemma_nearer_following(st, path, index, entries.drop_last(), before, task);
        lemma_nearer_emitting(
            st.following(path, index, entries.drop_last()),
            path.push(entries.last().name),
            index,
            before,
            task,
        );
    }
}

proof fn lemma_nearer_descending(
    st: ResolverFact,
    path: Seq<Seq<u8>>,
    index: nat,
    depth: nat,
    entries: Seq<EntryFact>,
    before: Seq<TaskFact>,
    task: TaskFact,
)
    requires
        st.is_nearer(before, task),
        index < st.segs.len(),
        depth < RECURSIVE_DEPTH_LIMIT,
        task.distance(st.segs.len()) == (st.segs.len() - index) * (RECURSIVE_DEPTH_LIMIT + 2)
            + depth + 1,
    ensures
        st.descending(path, index, depth, entries).is_nearer(before, task),
        st.descending(path, index, depth, entries).segs == st.segs,
    decreases entries.len(),
{
    if entries.len() > 0 {
        let init = entries.drop_last();
        lemma_nearer_descending(st, path, index, depth, init, before, task);
        let made = st.descending(path, index, depth, init);
        let child = path.push(entries.last().name);
        lemma_nearer_emitting(made, child, index, before, task);
        if depth > 0 {
            lemma_nearer_push(
                made.emitting(child, index + 1),
                TaskFact::Descend { path: child, index, depth: (depth - 1) as nat },
                before,
                task,
            );
        }
    }
}

/// Whatever is answered, the task that asked gives way to tasks nearer to the end.
proof fn lemma_answer_is_nearer(st: ResolverFact, reply: Reply)
    requires
        st.todo.len() > 0,
        st.todo.last().is_placed(st.segs.len()),
    ensures
        st.answered(reply).segs == st.segs,
        st.answered(reply).is_nearer(st.todo.drop_last(), st.todo.last()),
{
    let rest = ResolverFact { todo: st.todo.drop_last(), ..st };
    let (before, task) = (rest.todo, st.todo.last());
    assert(rest.is_nearer(before, task));
    match (task, reply) {
        (TaskFact::Follow { path, index }, Reply::Entries(listing)) => {
            lemma_nearer_following(rest, path, index, listed_entries(listing), before, task);
        },
        (TaskFact::Follow { path, index }, Reply::Flag(_)) => {
            lemma_nearer_emitting(
                rest,
                path.push(encode_utf8(st.segs[index as int])),
                index,
                before,
                task,
            );
        },
        (TaskFact::Check { path, index }, Reply::Flag(_)) => {
            lemma_nearer_emitting(rest, path, index, before, task);
            lemma_nearer_push(
                rest.emitting(path, index + 1),
                TaskFact::Descend { path, index, depth: (RECURSIVE_DEPTH_LIMIT - 1) as nat },
                before,
                task,
            );
            lemma_nearer_push(rest, TaskFact::Follow { path, index }, before, task);
        },
        (TaskFact::Descend { path, index, depth }, Reply::Entries(listing)) => {
            lemma_nearer_descending(
                rest,
                path,
                index,
                depth,
                listed_entries(listing),
                before,
                task,
            );
        },
        _ => {},
    }
}

/// What is left to do at one path.
enum Task {
    /// Follow the segment `index`, which is not `**`, from here.
    Follow { path: FsPath, index: usize },
    /// Go on with the segment `index` from here if this is a directory.
    Check { path: FsPath, index: usize },
    /// Go into the subdirectories, and `depth` levels further, for the `**`
    /// segment `index`.
    Descend { path: FsPath, index: usize, depth: usize },
}

/// What segment `i - 1` led to goes on from `mid` to `to`.
spec fn passes(disk: Disk, segs: Seq<Seq<char>>, i: nat, mid: Seq<Seq<u8>>, to: Seq<Seq<u8>>) -> bool {
    (i < segs.len() ==> (disk.directory)(mid)) && reaches(disk, segs, i, mid, to)
}

/// The `**` segment `i` goes on from `from`, with `depth` levels to go, to `to`.
spec fn below(
    disk: Disk,
    segs: Seq<Seq<char>>,
    i: nat,
    from: Seq<Seq<u8>>,
    depth: nat,
    to: Seq<Seq<u8>>,
) -> bool {
    exists|mid: Seq<Seq<u8>>| #[trigger]
        descends(disk, from, mid, depth) && passes(disk, segs, i + 1, mid, to)
}

/// Some subdirectory of `dir` goes on to `to`.
spec fn below_children(
    disk: Disk,
    segs: Seq<Seq<char>>,
    i: nat,
    dir: Seq<Seq<u8>>,
    depth: nat,
    to: Seq<Seq<u8>>,
) -> bool {
    exists|e: EntryFact| #[trigger]
        enters(disk, dir, e) && below(disk, segs, i, dir.push(e.name), depth, to)
}

impl Task {
    spec fn is_valid(self, segs: Seq<Seq<char>>) -> bool {
        match self {
            Task::Follow { index, .. } => index < segs.len() && segs[index as int] != "**"@,
            Task::Check { index, .. } => index < segs.len(),
            Task::Descend { index, depth, .. } => index < segs.len() && segs[index as int] == "**"@
                && depth < RECURSIVE_DEPTH_LIMIT,
        }
    }

    /// Where the task stands.
    spec fn place(self) -> PathFact {
        match self {
            Task::Follow { path, .. } => path.fact(),
            Task::Check { path, .. } => path.fact(),
            Task::Descend { path, .. } => path.fact(),
        }
    }

    spec fn fact(self) -> TaskFact {
        match self {
            Task::Follow { path, index } => TaskFact::Follow { path: path@, index: index as nat },
            Task::Check { path, index } => TaskFact::Check { path: path@, index: index as nat },
            Task::Descend { path, index, depth } => TaskFact::Descend {
                path: path@,
                index: index as nat,
                depth: depth as nat,
            },
        }
    }

    /// The task leads to `to`.
    spec fn yields(self, disk: Disk, segs: Seq<Seq<char>>, to: Seq<Seq<u8>>) -> bool {
        match self {
            Task::Follow { path, index } => reaches(disk, segs, index as nat, path@, to),
            Task::Check { path, index } => passes(disk, segs, index as nat, path@, to),
            Task::Descend { path, index, depth } => below_children(
                disk,
                segs,
                index as nat,
                path@,
                depth as nat,
                to,
            ),
        }
    }
}

/// A pattern on its way to being resolved: it asks about the file system one
/// question at a time.
pub struct Resolver {
    segs: Vec<String>,
    todo: Vec<Task>,
    found: Vec<FsPath>,
    base: Ghost<PathFact>,
}

impl View for Resolver {
    type V = ResolverFact;

    closed spec fn view(&self) -> ResolverFact {
        ResolverFact {
            segs: texts(self.segs@),
            todo: self.todo@.map_values(|t: Task| t.fact()),
            found: path_views(self.found@),
        }
    }
}

impl Resolver {
    pub closed spec fn is_valid(self) -> bool {
        &&& forall|k: int|
            0 <= k < self.todo@.len() ==> (#[trigger] self.todo@[k]).is_valid(texts(self.segs@))
                && is_written_below(self.base@, self.todo@[k].place())
        &&& forall|k: int|
            0 <= k < self.found@.len() ==> is_written_below(
                self.base@,
                (#[trigger] self.found@[k]).fact(),
            )
    }

    /// The directory that the pattern is expanded against, as it is written.
    pub closed spec fn base(self) -> PathFact {
        self.base@
    }

    /// `to` will be among the paths found, should the file system be `disk`.
    pub closed spec fn yields(self, disk: Disk, to: Seq<Seq<u8>>) -> bool {
        ||| path_views(self.found@).contains(to)
        ||| exists|k: int|
            0 <= k < self.todo@.len() && (#[trigger] self.todo@[k]).yields(
                disk,
                texts(self.segs@),
                to,
            )
    }

    /// Some path will be found, should the file system be `disk`.
    pub open spec fn yields_any(self, disk: Disk) -> bool {
        exists|to: Seq<Seq<u8>>| #[trigger] self.yields(disk, to)
    }

    /// The question to be answered next.
    pub open spec fn question(self) -> Option<Question> {
        self@.question()
    }

    fn add_task(&mut self, task: Task)
        requires
            old(self).is_valid(),
            task.is_valid(texts(old(self).segs@)),
            is_written_below(old(self).base@, task.place()),
        ensures
            final(self).is_valid(),
            final(self).segs == old(self).segs,
            final(self).base == old(self).base,
            final(self)@ == old(self)@.with_task(task.fact()),
            forall|disk: Disk, to: Seq<Seq<u8>>| #[trigger]
                final(self).yields(disk, to) <==> old(self).yields(disk, to) || task.yields(
                    disk,
                    texts(old(self).segs@),
                    to,
                ),
    {
        let ghost before = *self;
        self.todo.push(task);
        assert(self@.todo =~= before@.todo.push(task.fact()));
        proof {
            let segs = texts(before.segs@);
            assert forall|disk: Disk, to: Seq<Seq<u8>>| #[trigger]
                self.yields(disk, to) <==> before.yields(disk, to) || task.yields(
                    disk,
                    segs,
                    to,
                ) by {
                let n = before.todo@.len() as int;
                assert(self.todo@[n] == task);
                assert(forall|k: int| 0 <= k < n ==> #[trigger] self.todo@[k] == before.todo@[k]);
                if before.yields(disk, to) && !path_views(before.found@).contains(to) {
                    let k = choose|k: int|
                        0 <= k < n && (#[trigger] before.todo@[k]).yields(disk, segs, to);
                    assert(self.todo@[k].yields(disk, segs, to));
                }
                if self.yields(disk, to) && !path_views(self.found@).contains(to) {
                    let k = choose|k: int|
                        0 <= k < n + 1 && (#[trigger] self.todo@[k]).yields(disk, segs, to);
                    if k < n {
                        assert(before.todo@[k].yields(disk, segs, to));
                    }
                }
            }
        }
    }

    /// The segment before `next` led to `path`.
    fn emit(&mut self, path: FsPath, next: usize)
        requires
            old(self).is_valid(),
            next <= old(self).segs@.len(),
            is_written_below(old(self).base@, path.fact()),
        ensures
            final(self).is_valid(),
            final(self).segs == old(self).segs,
            final(self).base == old(self).base,
            final(self)@ == old(self)@.emitting(path@, next as nat),
            forall|disk: Disk, to: Seq<Seq<u8>>| #[trigger]
                final(self).yields(disk, to) <==> old(self).yields(disk, to) || passes(
                    disk,
                    texts(old(self).segs@),
                    next as nat,
                    path@,
                    to,
                ),
    {
        assert(texts(self.segs@).len() == self.segs@.len());
        if next < self.segs.len() {
            self.add_task(Task::Check { path, index: next });
        } else {
            let ghost before = *self;
            proof {
                lemma_path_views_push(self.found@, path);
            }
            self.found.push(path);
            proof {
                let had = path_views(before.found@);
                let got = path_views(self.found@);
                assert(got[had.len() as int] == path@);
                assert forall|to: Seq<Seq<u8>>| #[trigger] got.contains(to) <==> had.contains(to)
                    || to == path@ by {
                    if had.contains(to) {
                        let k = choose|k: int| 0 <= k < had.len() && had[k] == to;
                        assert(got[k] == to);
                    }
                    if got.contains(to) && to != path@ {
                        let k = choose|k: int| 0 <= k < got.len() && got[k] == to;
                        assert(had[k] == to);
                    }
                }
                let segs = texts(before.segs@);
                assert forall|disk: Disk, to: Seq<Seq<u8>>| #[trigger]
                    self.yields(disk, to) <==> before.yields(disk, to) || passes(
                        disk,
                        segs,
                        next as nat,
                        path@,
                        to,
                    ) by {
                    assert(got.contains(to) <==> had.contains(to) || to == path@);
                    assert(passes(disk, segs, next as nat, path@, to) <==> to == path@);
                    if before.yields(disk, to) && !had.contains(to) {
                        let k = choose|k: int|
                            0 <= k < before.todo@.len() && (#[trigger] before.todo@[k]).yields(
                                disk,
                                segs,
                                to,
                            );
                        assert(self.todo@[k].yields(disk, segs, to));
                    }
                    if self.yields(disk, to) && !got.contains(to) {
                        let k = choose|k: int|
                            0 <= k < self.todo@.len() && (#[trigger] self.todo@[k]).yields(
                                disk,
                                segs,
                                to,
                            );
                        assert(before.todo@[k].yields(disk, segs, to));
                    }
                }
            }
        }
    }

    /// Start on the segment `index` from `path`.
    fn enter(&mut self, path: FsPath, index: usize)
        requires
            old(self).is_valid(),
            index < old(self).segs@.len(),
            is_written_below(old(self).base@, path.fact()),
        ensures
            final(self).is_valid(),
            final(self).segs == old(self).segs,
            final(self).base == old(self).base,
            final(self)@ == old(self)@.entering(path@, index as nat),
            forall|disk: Disk, to: Seq<Seq<u8>>| #[trigger]
                final(self).yields(disk, to) <==> old(self).yields(disk, to) || reaches(
                    disk,
                    texts(old(self).segs@),
                    index as nat,
                    path@,
                    to,
                ),
    {
        let ghost start = *self;
        let ghost segs = texts(self.segs@);
        let count = self.segs.len();
        assert(segs[index as int] == self.segs@[index as int]@);
        if same_text(self.segs[index].as_str(), "**") {
            let ghost at = path@;
            let depth: usize = RECURSIVE_DEPTH_LIMIT - 1;
            self.emit(path.clone(), index + 1);
            let ghost middle = *self;
            let task = Task::Descend { path, index, depth };
            let ghost kept = task;
            self.add_task(task);
            proof {
                assert forall|disk: Disk, to: Seq<Seq<u8>>| reaches(
                    disk,
                    segs,
                    index as nat,
                    at,
                    to,
                ) <==> passes(disk, segs, (index + 1) as nat, at, to) || #[trigger] below_children(
                    disk,
                    segs,
                    index as nat,
                    at,
                    depth as nat,
                    to,
                ) by {
                    lemma_below(disk, segs, index as nat, at, (depth + 1) as nat, to);
                    if reaches(disk, segs, index as nat, at, to) {
                        let mid = choose|mid: Seq<Seq<u8>>| #[trigger]
                            leads(disk, segs[index as int], at, mid) && (index + 1 < segs.len()
                                ==> (disk.directory)(mid)) && reaches(
                                disk,
                                segs,
                                (index + 1) as nat,
                                mid,
                                to,
                            );
                        assert(descends(disk, at, mid, (depth + 1) as nat));
                        assert(below(disk, segs, index as nat, at, (depth + 1) as nat, to));
                    }
                    if below(disk, segs, index as nat, at, (depth + 1) as nat, to) {
                        let mid = choose|mid: Seq<Seq<u8>>| #[trigger]
                            descends(disk, at, mid, (depth + 1) as nat) && passes(
                                disk,
                                segs,
                                (index + 1) as nat,
                                mid,
                                to,
                            );
                        assert(leads(disk, segs[index as int], at, mid));
                    }
                }
                assert forall|disk: Disk, to: Seq<Seq<u8>>| #[trigger]
                    self.yields(disk, to) <==> start.yields(disk, to) || reaches(
                        disk,
                        segs,
                        index as nat,
                        at,
                        to,
                    ) by {
                    assert(middle.yields(disk, to) <==> start.yields(disk, to) || passes(
                        disk,
                        segs,
                        (index + 1) as nat,
                        at,
                        to,
                    ));
                    assert(kept.yields(disk, segs, to) == below_children(
                        disk,
                        segs,
                        index as nat,
                        at,
                        depth as nat,
                        to,
                    ));
                    assert(self.yields(disk, to) <==> middle.yields(disk, to) || kept.yields(
                        disk,
                        segs,
                        to,
                    ));
                }
            }
        } else {
            self.add_task(Task::Follow { path, index });
        }
    }

    /// The question to be answered next; none when all is known.
    pub fn pending(&self) -> (r: Option<Query>)
        requires
            self.is_valid(),
        ensures
            r is Some <==> self.question() is Some,
            r matches Some(q) ==> self.question() == Some(q@) && is_written_below(
                self.base(),
                q.path(),
            ),
    {
        if self.todo.len() == 0 {
            return None;
        }
        let last: usize = self.todo.len() - 1;
        let ghost segs = texts(self.segs@);
        assert(self.todo@[last as int].is_valid(segs));
        match &self.todo[last] {
            Task::Follow { path, index } => {
                let seg = self.segs[*index].as_str();
                assert(segs[*index as int] == seg@);
                if has_wildcard(seg) {
                    Some(Query::List(path.clone()))
                } else {
                    proof {
                        lemma_written_child(self.base@, path.fact(), encode_utf8(seg@));
                    }
                    Some(Query::Exists(path.entry(seg)))
                }
            },
            Task::Check { path, .. } => Some(Query::IsDir(path.clone())),
            Task::Descend { path, .. } => Some(Query::List(path.clone())),
        }
    }

    /// Take the answer to the pending question: what is asked next and what is
    /// found follow from it, and every question that comes in its place is nearer
    /// to the end. Whatever the file system is, as long as the answer is true of
    /// it, the outcome stays what it is.
    pub fn answer(&mut self, reply: Reply)
        requires
            old(self).is_valid(),
            old(self).question() is Some,
            answers(old(self).question()->Some_0, reply),
        ensures
            final(self).is_valid(),
            final(self).base() == old(self).base(),
            final(self)@ == old(self)@.answered(reply),
            final(self)@.is_nearer(old(self)@.todo.drop_last(), old(self)@.todo.last()),
            forall|disk: Disk, to: Seq<Seq<u8>>|
                is_truthful(disk, old(self).question()->Some_0, reply) ==> (#[trigger] final(self).yields(disk, to) <==> old(self).yields(disk, to)),
    {
        let ghost start = *self;
        let ghost segs = texts(self.segs@);
        proof {
            assert(self@.todo.last() == self.todo@.last().fact());
            assert(self.todo@[self.todo@.len() - 1].is_valid(segs));
            lemma_answer_is_nearer(self@, reply);
        }
        let ghost question = self.question()->Some_0;
        assert(self.todo@.last() == self.todo@[self.todo@.len() - 1]);
        assert(self.todo@.last().is_valid(segs));
        let popped = self.todo.pop();
        let task = popped.unwrap();
        let count = self.segs.len();
        let ghost rest = *self;
        assert(rest@.todo =~= start@.todo.drop_last());
        proof {
            assert forall|k: int| 0 <= k < rest.todo@.len() implies (#[trigger] rest.todo@[k]).is_valid(
                segs,
            ) && is_written_below(self.base@, rest.todo@[k].place()) by {
                assert(rest.todo@[k] == start.todo@[k]);
            }
            assert forall|disk: Disk, to: Seq<Seq<u8>>| #[trigger]
                start.yields(disk, to) <==> rest.yields(disk, to) || task.yields(
                    disk,
                    segs,
                    to,
                ) by {
                let n = rest.todo@.len() as int;
                assert(start.todo@[n] == task);
                assert(forall|k: int| 0 <= k < n ==> #[trigger] rest.todo@[k] == start.todo@[k]);
                if start.yields(disk, to) && !path_views(start.found@).contains(to) {
                    let k = choose|k: int|
                        0 <= k < n + 1 && (#[trigger] start.todo@[k]).yields(disk, segs, to);
                    if k < n {
                        assert(rest.todo@[k].yields(disk, segs, to));
                    }
                }
                if rest.yields(disk, to) && !path_views(rest.found@).contains(to) {
                    let k = choose|k: int|
                        0 <= k < n && (#[trigger] rest.todo@[k]).yields(disk, segs, to);
                    assert(start.todo@[k].yields(disk, segs, to));
                }
            }
        }
        match (task, reply) {
            (Task::Follow { path, index }, Reply::Entries(listing)) => {
                self.follow_entries(path, index, listing);
            },
            (Task::Follow { path, index }, Reply::Flag(there)) => {
                let child = path.entry(self.segs[index].as_str());
                assert(segs[index as int] == self.segs@[index as int]@);
                proof {
                    assert forall|disk: Disk, to: Seq<Seq<u8>>|
                        is_truthful(disk, question, reply) implies (#[trigger] reaches(
                        disk,
                        segs,
                        index as nat,
                        path@,
                        to,
                    ) <==> there && passes(disk, segs, (index + 1) as nat, child@, to)) by {
                        assert(child@ == path@.push(encode_utf8(segs[index as int])));
                        if there && passes(disk, segs, (index + 1) as nat, child@, to) {
                            assert(leads(disk, segs[index as int], path@, child@));
                        }
                        if reaches(disk, segs, index as nat, path@, to) {
                            let mid = choose|mid: Seq<Seq<u8>>| #[trigger]
                                leads(disk, segs[index as int], path@, mid) && (index + 1
                                    < segs.len() ==> (disk.directory)(mid)) && reaches(
                                    disk,
                                    segs,
                                    (index + 1) as nat,
                                    mid,
                                    to,
                                );
                            assert(mid == child@);
                        }
                    }
                }
                if there {
                    proof {
                        lemma_written_child(self.base@, path.fact(), encode_utf8(segs[index as int]));
                    }
                    self.emit(child, index + 1);
                }
            },
            (Task::Check { path, index }, Reply::Flag(is_dir)) => {
                if is_dir {
                    self.enter(path, index);
                }
            },
            (Task::Descend { path, index, depth }, Reply::Entries(listing)) => {
                self.descend_entries(path, index, depth, listing);
            },
            (Task::Check { .. }, Reply::Entries(_)) => {},
            (Task::Descend { .. }, Reply::Flag(_)) => {},
        }
    }

    /// The entries of `path`, which the wildcard segment `index` is matched with.
    fn follow_entries(&mut self, path: FsPath, index: usize, listing: Option<Vec<Entry>>)
        requires
            old(self).is_valid(),
            index < old(self).segs@.len(),
            texts(old(self).segs@)[index as int] != "**"@,
            is_wildcard(texts(old(self).segs@)[index as int]),
            is_written_below(old(self).base@, path.fact()),
        ensures
            final(self).is_valid(),
            final(self).segs == old(self).segs,
            final(self).base == old(self).base,
            final(self)@ == old(self)@.following(path@, index as nat, listed_entries(listing)),
            forall|disk: Disk, to: Seq<Seq<u8>>|
                listing_view(listing) == (disk.listing)(path@) ==> (#[trigger] final(self).yields(
                    disk,
                    to,
                ) <==> old(self).yields(disk, to) || reaches(
                    disk,
                    texts(old(self).segs@),
                    index as nat,
                    path@,
                    to,
                )),
    {
        let ghost start = *self;
        let ghost segs = texts(self.segs@);
        let count = self.segs.len();
        let ghost seg = segs[index as int];
        assert(seg == self.segs@[index as int]@);
        match listing {
            None => {
                assert forall|disk: Disk, to: Seq<Seq<u8>>|
                    listing_view(listing) == (disk.listing)(path@) implies !#[trigger] reaches(
                    disk,
                    segs,
                    index as nat,
                    path@,
                    to,
                ) by {}
            },
            Some(entries) => {
                let ghost facts = entries@.map_values(|e: Entry| e@);
                let mut i: usize = 0;
                assert(facts.take(0) =~= seq![]);
                while i < entries.len()
                    invariant
                        0 <= i <= entries.len(),
                        self.is_valid(),
                        self.segs == start.segs,
                        self.base == start.base,
                        is_written_below(start.base@, path.fact()),
                        segs == texts(start.segs@),
                        index < count,
                        count == segs.len(),
                        seg == segs[index as int],
                        facts == entries@.map_values(|e: Entry| e@),
                        self@ == start@.following(path@, index as nat, facts.take(i as int)),
                        forall|disk: Disk, to: Seq<Seq<u8>>| #[trigger]
                            self.yields(disk, to) <==> start.yields(disk, to) || exists|k: int|
                                0 <= k < i && wild(seg, utf8_lossy((#[trigger] facts[k]).name))
                                    && passes(
                                    disk,
                                    segs,
                                    (index + 1) as nat,
                                    path@.push(facts[k].name),
                                    to,
                                ),
                    decreases entries.len() - i,
                {
                    let entry = &entries[i];
                    assert(facts[i as int] == entry@);
                    assert(facts.take(i + 1).drop_last() =~= facts.take(i as int));
                    assert(facts.take(i + 1).last() == entry@);
                    let name = from_utf8_lossy(entry.name.as_slice());
                    assert(seg == self.segs@[index as int]@);
                    let ghost before = *self;
                    let hit = matches(self.segs[index].as_str(), name.as_str());
                    if hit {
                        proof {
                            lemma_written_child(self.base@, path.fact(), entry.name@);
                        }
                        self.emit(path.child(&entry.name), index + 1);
                    }
                    proof {
                        assert forall|disk: Disk, to: Seq<Seq<u8>>| #[trigger]
                            self.yields(disk, to) <==> start.yields(disk, to) || exists|k: int|
                                0 <= k < i + 1 && wild(seg, utf8_lossy((#[trigger] facts[k]).name))
                                    && passes(
                                    disk,
                                    segs,
                                    (index + 1) as nat,
                                    path@.push(facts[k].name),
                                    to,
                                ) by {
                            assert(before.yields(disk, to) == before.yields(disk, to));
                            assert(facts[i as int].name == entry.name@);
                        }
                    }
                    i = i + 1;
                }
                assert(facts.take(facts.len() as int) =~= facts);
                proof {
                    assert forall|disk: Disk, to: Seq<Seq<u8>>|
                        listing_view(listing) == (disk.listing)(path@) implies (#[trigger] reaches(
                        disk,
                        segs,
                        index as nat,
                        path@,
                        to,
                    ) <==> exists|k: int|
                        0 <= k < facts.len() && wild(seg, utf8_lossy((#[trigger] facts[k]).name))
                            && passes(
                            disk,
                            segs,
                            (index + 1) as nat,
                            path@.push(facts[k].name),
                            to,
                        )) by {
                        if reaches(disk, segs, index as nat, path@, to) {
                            let mid = choose|mid: Seq<Seq<u8>>| #[trigger]
                                leads(disk, segs[index as int], path@, mid) && (index + 1
                                    < segs.len() ==> (disk.directory)(mid)) && reaches(
                                    disk,
                                    segs,
                                    (index + 1) as nat,
                                    mid,
                                    to,
                                );
                            let e = choose|e: EntryFact| #[trigger]
                                disk.has_entry(path@, e) && wild(seg, utf8_lossy(e.name)) && mid
                                    == path@.push(e.name);
                            let k = choose|k: int| 0 <= k < facts.len() && facts[k] == e;
                            assert(wild(seg, utf8_lossy(facts[k].name)));
                        }
                        if exists|k: int|
                            0 <= k < facts.len() && wild(seg, utf8_lossy((#[trigger] facts[k]).name))
                                && passes(
                                disk,
                                segs,
                                (index + 1) as nat,
                                path@.push(facts[k].name),
                                to,
                            ) {
                            let k = choose|k: int|
                                0 <= k < facts.len() && wild(
                                    seg,
                                    utf8_lossy((#[trigger] facts[k]).name),
                                ) && passes(
                                    disk,
                                    segs,
                                    (index + 1) as nat,
                                    path@.push(facts[k].name),
                                    to,
                                );
                            assert(disk.has_entry(path@, facts[k]));
                            assert(leads(disk, seg, path@, path@.push(facts[k].name)));
                        }
                    }
                }
            },
        }
    }

    /// The entries of `path`, whose directories the `**` segment `index` enters.
    fn descend_entries(
        &mut self,
        path: FsPath,
        index: usize,
        depth: usize,
        listing: Option<Vec<Entry>>,
    )
        requires
            old(self).is_valid(),
            index < old(self).segs@.len(),
            texts(old(self).segs@)[index as int] == "**"@,
            depth < RECURSIVE_DEPTH_LIMIT,
            is_written_below(old(self).base@, path.fact()),
        ensures
            final(self).is_valid(),
            final(self).segs == old(self).segs,
            final(self).base == old(self).base,
            final(self)@ == old(self)@.descending(
                path@,
                index as nat,
                depth as nat,
                listed_entries(listing),
            ),
            forall|disk: Disk, to: Seq<Seq<u8>>|
                listing_view(listing) == (disk.listing)(path@) ==> (#[trigger] final(self).yields(
                    disk,
                    to,
                ) <==> old(self).yields(disk, to) || below_children(
                    disk,
                    texts(old(self).segs@),
                    index as nat,
                    path@,
                    depth as nat,
                    to,
                )),
    {
        let ghost start = *self;
        let ghost segs = texts(self.segs@);
        let count = self.segs.len();
        match listing {
            None => {},
            Some(entries) => {
                let ghost facts = entries@.map_values(|e: Entry| e@);
                let mut i: usize = 0;
                assert(facts.take(0) =~= seq![]);
                while i < entries.len()
                    invariant
                        0 <= i <= entries.len(),
                        self.is_valid(),
                        self.segs == start.segs,
                        self.base == start.base,
                        is_written_below(start.base@, path.fact()),
                        segs == texts(start.segs@),
                        index < count,
                        count == segs.len(),
                        segs[index as int] == "**"@,
                        depth < RECURSIVE_DEPTH_LIMIT,
                        facts == entries@.map_values(|e: Entry| e@),
                        self@ == start@.descending(
                            path@,
                            index as nat,
                            depth as nat,
                            facts.take(i as int),
                        ),
                        forall|disk: Disk, to: Seq<Seq<u8>>| #[trigger]
                            self.yields(disk, to) <==> start.yields(disk, to) || exists|k: int|
                                0 <= k < i && (#[trigger] facts[k]).is_dir && !is_pruned(
                                    utf8_lossy(facts[k].name),
                                ) && below(
                                    disk,
                                    segs,
                                    index as nat,
                                    path@.push(facts[k].name),
                                    depth as nat,
                                    to,
                                ),
                    decreases entries.len() - i,
                {
                    let entry = &entries[i];
                    assert(facts[i as int] == entry@);
                    assert(facts.take(i + 1).drop_last() =~= facts.take(i as int));
                    assert(facts.take(i + 1).last() == entry@);
                    let name = from_utf8_lossy(entry.name.as_slice());
                    let ghost before = *self;
                    if entry.is_dir && !pruned(name.as_str()) {
                        let child = path.child(&entry.name);
                        let ghost at = child@;
                        proof {
                            lemma_written_child(self.base@, path.fact(), entry.name@);
                        }
                        self.emit(child.clone(), index + 1);
                        if depth > 0 {
                            self.add_task(Task::Descend { path: child, index, depth: depth - 1 });
                        }
                        proof {
                            assert forall|disk: Disk, to: Seq<Seq<u8>>| #[trigger]
                                self.yields(disk, to) <==> before.yields(disk, to) || below(
                                    disk,
                                    segs,
                                    index as nat,
                                    at,
                                    depth as nat,
                                    to,
                                ) by {
                                lemma_below(disk, segs, index as nat, at, depth as nat, to);
                            }
                        }
                    }
                    proof {
                        assert forall|disk: Disk, to: Seq<Seq<u8>>| #[trigger]
                            self.yields(disk, to) <==> start.yields(disk, to) || exists|k: int|
                                0 <= k < i + 1 && (#[trigger] facts[k]).is_dir && !is_pruned(
                                    utf8_lossy(facts[k].name),
                                ) && below(
                                    disk,
                                    segs,
                                    index as nat,
                                    path@.push(facts[k].name),
                                    depth as nat,
                                    to,
                                ) by {
                            assert(before.yields(disk, to) == before.yields(disk, to));
                            assert(facts[i as int].name == entry.name@);
                        }
                    }
                    i = i + 1;
                }
                assert(facts.take(facts.len() as int) =~= facts);
                proof {
                    assert forall|disk: Disk, to: Seq<Seq<u8>>|
                        listing_view(listing) == (disk.listing)(path@) implies (
                    #[trigger] below_children(disk, segs, index as nat, path@, depth as nat, to)
                        <==> exists|k: int|
                        0 <= k < facts.len() && (#[trigger] facts[k]).is_dir && !is_pruned(
                            utf8_lossy(facts[k].name),
                        ) && below(
                            disk,
                            segs,
                            index as nat,
                            path@.push(facts[k].name),
                            depth as nat,
                            to,
                        )) by {
                        if below_children(disk, segs, index as nat, path@, depth as nat, to) {
                            let e = choose|e: EntryFact| #[trigger]
                                enters(disk, path@, e) && below(
                                    disk,
                                    segs,
                                    index as nat,
                                    path@.push(e.name),
                                    depth as nat,
                                    to,
                                );
                            let k = choose|k: int| 0 <= k < facts.len() && facts[k] == e;
                            assert(facts[k].is_dir);
                        }
                        if exists|k: int|
                            0 <= k < facts.len() && (#[trigger] facts[k]).is_dir && !is_pruned(
                                utf8_lossy(facts[k].name),
                            ) && below(
                                disk,
                                segs,
                                index as nat,
                                path@.push(facts[k].name),
                                depth as nat,
                                to,
                            ) {
                            let k = choose|k: int|
                                0 <= k < facts.len() && (#[trigger] facts[k]).is_dir && !is_pruned(
                                    utf8_lossy(facts[k].name),
                                ) && below(
                                    disk,
                                    segs,
                                    index as nat,
                                    path@.push(facts[k].name),
                                    depth as nat,
                                    to,
                                );
                            assert(enters(disk, path@, facts[k]));
                        }
                    }
                }
            },
        }
    }

    /// The paths found, in ascending order, each once, and written as the directory
    /// that the pattern was expanded against.
    pub fn finish(self) -> (r: Vec<FsPath>)
        requires
            self.is_valid(),
            self.question() is None,
        ensures
            ascending(path_views(r@)),
            forall|disk: Disk, to: Seq<Seq<u8>>| #[trigger]
                self.yields(disk, to) <==> path_views(r@).contains(to),
            forall|i: int|
                0 <= i < r@.len() ==> is_written_below(self.base(), (#[trigger] r@[i]).fact()),
    {
        let r = sorted_unique(&self.found);
        proof {
            let facts = path_facts(self.found@);
            assert forall|i: int| 0 <= i < r@.len() implies is_written_below(
                self.base(),
                (#[trigger] r@[i]).fact(),
            ) by {
                let k = choose|k: int| #[trigger] is_first_at(facts, r@[i].fact(), k);
                assert(self.found@[k].fact() == r@[i].fact());
            }
        }
        r
    }
}

/// Descending takes no step, or one step and then the rest.
proof fn lemma_below(
    disk: Disk,
    segs: Seq<Seq<char>>,
    i: nat,
    from: Seq<Seq<u8>>,
    depth: nat,
    to: Seq<Seq<u8>>,
)
    ensures
        below(disk, segs, i, from, depth, to) <==> passes(disk, segs, i + 1, from, to) || (depth > 0
            && below_children(disk, segs, i, from, (depth - 1) as nat, to)),
{
    if passes(disk, segs, i + 1, from, to) {
        assert(descends(disk, from, from, depth));
    }
    if depth > 0 && below_children(disk, segs, i, from, (depth - 1) as nat, to) {
        let e = choose|e: EntryFact| #[trigger]
            enters(disk, from, e) && below(
                disk,
                segs,
                i,
                from.push(e.name),
                (depth - 1) as nat,
                to,
            );
        let mid = choose|mid: Seq<Seq<u8>>| #[trigger]
            descends(disk, from.push(e.name), mid, (depth - 1) as nat) && passes(
                disk,
                segs,
                i + 1,
                mid,
                to,
            );
        assert(descends(disk, from, mid, depth));
    }
    if below(disk, segs, i, from, depth, to) {
        let mid = choose|mid: Seq<Seq<u8>>| #[trigger]
            descends(disk, from, mid, depth) && passes(disk, segs, i + 1, mid, to);
        if mid != from {
            let e = choose|e: EntryFact| #[trigger]
                enters(disk, from, e) && descends(disk, from.push(e.name), mid, (depth - 1) as nat);
            assert(below(disk, segs, i, from.push(e.name), (depth - 1) as nat, to));
        }
    }
}

/// The segments of `pattern`.
fn segments_of(pattern: &str) -> (r: Vec<String>)
    ensures
        texts(r@) == segments(pattern@),
{
    let pieces = split_chars(&chars_of(pattern), '/');
    let ghost all = split(pattern@, '/');
    let ghost counts = |s: Seq<char>| s.len() > 0 && s != "."@;
    let mut out: Vec<String> = Vec::new();
    let mut i: usize = 0;
    proof {
        reveal(Seq::filter);
        assert(texts(out@) =~= all.take(0).filter(counts));
    }
    while i < pieces.len()
        invariant
            0 <= i <= pieces.len(),
            all == texts(pieces@),
            counts == (|s: Seq<char>| s.len() > 0 && s != "."@),
            texts(out@) == all.take(i as int).filter(counts),
        decreases pieces.len() - i,
    {
        let piece = &pieces[i];
        proof {
            reveal(Seq::filter);
            assert(all.take(i + 1).drop_last() =~= all.take(i as int));
            assert(all.take(i + 1).last() == piece@);
        }
        if !piece.as_str().is_empty() && !same_text(piece.as_str(), ".") {
            let segment = piece.clone();
            proof {
                lemma_texts_push(out@, segment);
            }
            out.push(segment);
        }
        i = i + 1;
    }
    assert(all.take(all.len() as int) =~= all);
    out
}

/// Expand `pattern` against `root`: the paths that exist.
///
/// Patterns escaping the root (absolute or containing `..`) are rejected and
/// yield nothing.
pub fn resolve(root: &FsPath, pattern: &str) -> (r: Resolver)
    ensures
        r.is_valid(),
        r.base() == root.fact(),
        forall|disk: Disk, to: Seq<Seq<u8>>| #[trigger]
            r.yields(disk, to) <==> is_match(disk, root@, pattern@, to),
        !is_confined(pattern@) ==> r.question() is None,
{
    let segs = segments_of(pattern);
    let chars = chars_of(pattern);
    let confined = segs.len() > 0 && !holds_text(&segs, "..") && chars.len() > 0 && chars[0] != '/'
        && chars[0] != '~';
    let mut resolver = Resolver {
        segs,
        todo: Vec::new(),
        found: Vec::new(),
        base: Ghost(root.fact()),
    };
    assert(path_views(resolver.found@) =~= Seq::<Seq<Seq<u8>>>::empty());
    assert forall|disk: Disk, to: Seq<Seq<u8>>| !#[trigger] resolver.yields(disk, to) by {}
    if confined {
        proof {
            lemma_written_self(root.fact());
        }
        resolver.enter(root.clone(), 0);
    }
    resolver
}

/// True when at least one path matches the pattern that was resolved.
pub fn exists_match(resolver: Resolver) -> (r: bool)
    requires
        resolver.is_valid(),
        resolver.question() is None,
    ensures
        forall|disk: Disk| #[trigger] resolver.yields_any(disk) == r,
{
    let found = resolver.finish();
    let r = found.len() > 0;
    proof {
        assert forall|disk: Disk| #[trigger] resolver.yields_any(disk) == r by {
            if r {
                let first = path_views(found@)[0];
                assert(path_views(found@).contains(first));
                assert(resolver.yields(disk, first));
            }
        }
    }
    r
}

/// No directory lists an entry called `..`.
pub open spec fn lists_no_parent(disk: Disk) -> bool {
    forall|dir: Seq<Seq<u8>>, e: EntryFact| #[trigger]
        disk.has_entry(dir, e) ==> e.name != dot_dot_part()
}

/// `to` lies at or below `from` and is reached from there without climbing.
pub open spec fn stays_inside(from: Seq<Seq<u8>>, to: Seq<Seq<u8>>) -> bool {
    within(to, from) && !to.skip(from.len() as int).contains(dot_dot_part())
}

/// Whatever a pattern matches lies below the root it was resolved against.
pub proof fn law_matches_stay_inside(
    disk: Disk,
    root: Seq<Seq<u8>>,
    pattern: Seq<char>,
    path: Seq<Seq<u8>>,
)
    requires
        lists_no_parent(disk),
        is_match(disk, root, pattern, path),
    ensures
        stays_inside(root, path),
{
    lemma_reach_inside(disk, segments(pattern), 0, root, path);
}

proof fn lemma_inside_step(from: Seq<Seq<u8>>, name: Seq<u8>)
    requires
        name != dot_dot_part(),
    ensures
        stays_inside(from, from.push(name)),
{
    assert(from.push(name).take(from.len() as int) =~= from);
    assert(from.push(name).skip(from.len() as int) =~= seq![name]);
}

proof fn lemma_inside_trans(a: Seq<Seq<u8>>, b: Seq<Seq<u8>>, c: Seq<Seq<u8>>)
    requires
        stays_inside(a, b),
        stays_inside(b, c),
    ensures
        stays_inside(a, c),
{
    assert(c.take(a.len() as int) =~= b.take(a.len() as int));
    if c.skip(a.len() as int).contains(dot_dot_part()) {
        let k = choose|k: int|
            0 <= k < c.skip(a.len() as int).len() && c.skip(a.len() as int)[k] == dot_dot_part();
        let at = k + a.len();
        assert(c[at] == dot_dot_part());
        if at < b.len() {
            assert(c.take(b.len() as int)[at] == b[at]);
            assert(b.skip(a.len() as int)[k] == dot_dot_part());
        } else {
            assert(c.skip(b.len() as int)[at - b.len()] == dot_dot_part());
        }
    }
}

proof fn lemma_inside_self(a: Seq<Seq<u8>>)
    ensures
        stays_inside(a, a),
{
    assert(a.take(a.len() as int) =~= a);
}

proof fn lemma_descent_inside(disk: Disk, from: Seq<Seq<u8>>, to: Seq<Seq<u8>>, depth: nat)
    requires
        lists_no_parent(disk),
        descends(disk, from, to, depth),
    ensures
        stays_inside(from, to),
    decreases depth,
{
    if from == to {
        lemma_inside_self(from);
    } else {
        let e = choose|e: EntryFact| #[trigger]
            enters(disk, from, e) && descends(disk, from.push(e.name), to, (depth - 1) as nat);
        assert(disk.has_entry(from, e));
        lemma_descent_inside(disk, from.push(e.name), to, (depth - 1) as nat);
        lemma_inside_step(from, e.name);
        lemma_inside_trans(from, from.push(e.name), to);
    }
}

proof fn lemma_reach_inside(
    disk: Disk,
    segs: Seq<Seq<char>>,
    i: nat,
    from: Seq<Seq<u8>>,
    to: Seq<Seq<u8>>,
)
    requires
        lists_no_parent(disk),
        !segs.contains(".."@),
        reaches(disk, segs, i, from, to),
    ensures
        stays_inside(from, to),
    decreases segs.len() - i,
{
    if i >= segs.len() {
        lemma_inside_self(from);
    } else {
        let seg = segs[i as int];
        let mid = choose|mid: Seq<Seq<u8>>| #[trigger]
            leads(disk, seg, from, mid) && (i + 1 < segs.len() ==> (disk.directory)(mid))
                && reaches(disk, segs, i + 1, mid, to);
        if seg == "**"@ {
            lemma_descent_inside(disk, from, mid, RECURSIVE_DEPTH_LIMIT as nat);
        } else if is_wildcard(seg) {
            let e = choose|e: EntryFact| #[trigger]
                disk.has_entry(from, e) && wild(seg, utf8_lossy(e.name)) && mid == from.push(
                    e.name,
                );
            lemma_inside_step(from, e.name);
        } else {
            if encode_utf8(seg) == dot_dot_part() {
                encode_utf8_decode_utf8(seg);
                encode_utf8_decode_utf8(".."@);
                reveal_strlit("..");
                assert(".."@ =~= seq!['.', '.']);
                lemma_dots_encoded();
            }
            lemma_inside_step(from, encode_utf8(seg));
        }
        lemma_reach_inside(disk, segs, i + 1, mid, to);
        lemma_inside_trans(from, mid, to);
    }
}

proof fn lemma_dots_encoded()
    ensures
        encode_utf8(seq!['.', '.']) == dot_dot_part(),
{
    is_ascii_chars_encode_utf8(seq!['.', '.']);
    let bytes = encode_utf8(seq!['.', '.']);
    assert(bytes =~= dot_dot_part());
}

/// Drop paths that live inside another path of the same set, so that overlapping
/// patterns (`dist` and `*/dist`, `**/__pycache__`) are not counted twice.
pub fn drop_nested(paths: Vec<FsPath>) -> (r: Vec<FsPath>)
    ensures
        ascending(path_views(r@)),
        forall|p: Seq<Seq<u8>>| #[trigger]
            path_views(r@).contains(p) <==> is_outermost(path_views(paths@), p),
        forall|i: int|
            0 <= i < r@.len() ==> is_first_spelling(path_facts(paths@), (#[trigger] r@[i]).fact()),
{
    let sorted = sorted_unique(&paths);
    let ghost all = path_views(sorted@);
    let mut out: Vec<FsPath> = Vec::new();
    let ghost mut picked: Seq<int> = seq![];
    let mut i: usize = 0;
    while i < sorted.len()
        invariant
            0 <= i <= sorted.len(),
            all == path_views(sorted@),
            ascending(all),
            picked.len() == out@.len(),
            forall|k: int|
                0 <= k < picked.len() ==> 0 <= #[trigger] picked[k] < i && out@[k]@ == all[picked[k]],
            forall|k: int|
                0 <= k < sorted@.len() ==> is_first_spelling(
                    path_facts(paths@),
                    (#[trigger] sorted@[k]).fact(),
                ),
            forall|k: int|
                0 <= k < out@.len() ==> is_first_spelling(
                    path_facts(paths@),
                    (#[trigger] out@[k]).fact(),
                ),
            forall|j: int, k: int|
                #![trigger picked[j], picked[k]]
                0 <= j < k < picked.len() ==> picked[j] < picked[k],
            forall|p: Seq<Seq<u8>>| #[trigger]
                path_views(out@).contains(p) <==> all.take(i as int).contains(p) && is_outermost(
                    all,
                    p,
                ),
        decreases sorted.len() - i,
    {
        let path = &sorted[i];
        let mut nested = false;
        let mut j: usize = 0;
        while j < sorted.len()
            invariant
                0 <= j <= sorted.len(),
                all == path_views(sorted@),
                path@ == all[i as int],
                nested == exists|k: int| 0 <= k < j && is_ancestor(#[trigger] all[k], path@),
            decreases sorted.len() - j,
        {
            if sorted[j].is_above(path) {
                assert(is_ancestor(all[j as int], path@));
                nested = true;
            }
            j = j + 1;
        }
        let ghost before = path_views(out@);
        if !nested {
            let copy = path.clone();
            proof {
                lemma_path_views_push(out@, copy);
                picked = picked.push(i as int);
            }
            out.push(copy);
        }
        proof {
            let after = path_views(out@);
            let (earlier, now) = (all.take(i as int), all.take(i + 1));
            assert(now =~= earlier.push(path@));
            assert(all.contains(path@)) by {
                assert(all[i as int] == path@);
            }
            assert(nested <==> !is_outermost(all, path@)) by {
                if nested {
                    let k = choose|k: int| 0 <= k < sorted.len() && is_ancestor(#[trigger] all[k], path@);
                    assert(all.contains(all[k]));
                }
                if !is_outermost(all, path@) {
                    let above = choose|above: Seq<Seq<u8>>| #[trigger]
                        all.contains(above) && is_ancestor(above, path@);
                    let k = choose|k: int| 0 <= k < all.len() && all[k] == above;
                    assert(is_ancestor(all[k], path@));
                }
            }
            assert forall|p: Seq<Seq<u8>>| #[trigger] after.contains(p) <==> now.contains(p)
                && is_outermost(all, p) by {
                lemma_push_contains(earlier, path@, p);
                if !nested {
                    lemma_push_contains(before, path@, p);
                }
                assert(before.contains(p) <==> earlier.contains(p) && is_outermost(all, p));
            }
        }
        i = i + 1;
    }
    proof {
        let got = path_views(out@);
        assert(all.take(all.len() as int) =~= all);
        let input = path_views(paths@);
        assert forall|p: Seq<Seq<u8>>| #[trigger] got.contains(p) <==> is_outermost(input, p) by {
            assert(got.contains(p) <==> all.contains(p) && is_outermost(all, p));
            if is_outermost(all, p) {
                assert(input.contains(p));
                assert forall|above: Seq<Seq<u8>>| #[trigger] input.contains(above) implies !is_ancestor(
                    above,
                    p,
                ) by {
                    assert(all.contains(above));
                }
            }
            if is_outermost(input, p) {
                assert(all.contains(p));
            }
        }
        assert forall|j: int, k: int|
            #![trigger got[j], got[k]]
            0 <= j < k < got.len() implies path_order(got[j], got[k]) == Order::Before by {
            assert(picked[j] < picked[k]);
            assert(got[j] == all[picked[j]] && got[k] == all[picked[k]]);
        }
    }
    out
}

/// Pushing adds the pushed element and nothing else.
pub proof fn lemma_push_contains<A>(s: Seq<A>, x: A, p: A)
    ensures
        s.push(x).contains(p) <==> s.contains(p) || p == x,
{
    let t = s.push(x);
    assert(t[s.len() as int] == x);
    if s.contains(p) {
        let k = choose|k: int| 0 <= k < s.len() && s[k] == p;
        assert(t[k] == p);
    }
    if t.contains(p) && p != x {
        let k = choose|k: int| 0 <= k < t.len() && t[k] == p;
        assert(s[k] == p);
    }
}

/// `p` is one of `paths` and lies inside none of them.
pub open spec fn is_outermost(paths: Seq<Seq<Seq<u8>>>, p: Seq<Seq<u8>>) -> bool {
    &&& paths.contains(p)
    &&& forall|above: Seq<Seq<u8>>| #[trigger] paths.contains(above) ==> !is_ancestor(above, p)
}

/// Taking one segment more leads on from where the others lead.
proof fn lemma_reaches_push(
    disk: Disk,
    segs: Seq<Seq<char>>,
    i: nat,
    segment: Seq<char>,
    from: Seq<Seq<u8>>,
    to: Seq<Seq<u8>>,
)
    requires
        i <= segs.len(),
    ensures
        reaches(disk, segs.push(segment), i, from, to) <==> exists|mid: Seq<Seq<u8>>| #[trigger]
            reaches(disk, segs, i, from, mid) && (i < segs.len() ==> (disk.directory)(mid)) && leads(
                disk,
                segment,
                mid,
                to,
            ),
    decreases segs.len() - i,
{
    let more = segs.push(segment);
    if i == segs.len() {
        assert(more[i as int] == segment);
        if reaches(disk, more, i, from, to) {
            let mid = choose|mid: Seq<Seq<u8>>| #[trigger]
                leads(disk, more[i as int], from, mid) && (i + 1 < more.len() ==> (disk.directory)(
                    mid,
                )) && reaches(disk, more, i + 1, mid, to);
            assert(mid == to);
            assert(reaches(disk, segs, i, from, from));
        }
        if exists|mid: Seq<Seq<u8>>| #[trigger]
            reaches(disk, segs, i, from, mid) && (i < segs.len() ==> (disk.directory)(mid)) && leads(
                disk,
                segment,
                mid,
                to,
            ) {
            assert(leads(disk, more[i as int], from, to));
            assert(reaches(disk, more, i + 1, to, to));
        }
    } else {
        assert(more[i as int] == segs[i as int]);
        if reaches(disk, more, i, from, to) {
            let m = choose|m: Seq<Seq<u8>>| #[trigger]
                leads(disk, more[i as int], from, m) && (i + 1 < more.len() ==> (disk.directory)(m))
                    && reaches(disk, more, i + 1, m, to);
            lemma_reaches_push(disk, segs, i + 1, segment, m, to);
            let mid = choose|mid: Seq<Seq<u8>>| #[trigger]
                reaches(disk, segs, i + 1, m, mid) && (i + 1 < segs.len() ==> (disk.directory)(mid))
                    && leads(disk, segment, mid, to);
            assert(leads(disk, segs[i as int], from, m));
            assert(reaches(disk, segs, i, from, mid));
        }
        if exists|mid: Seq<Seq<u8>>| #[trigger]
            reaches(disk, segs, i, from, mid) && (i < segs.len() ==> (disk.directory)(mid)) && leads(
                disk,
                segment,
                mid,
                to,
            ) {
            let mid = choose|mid: Seq<Seq<u8>>| #[trigger]
                reaches(disk, segs, i, from, mid) && (i < segs.len() ==> (disk.directory)(mid))
                    && leads(disk, segment, mid, to);
            let m = choose|m: Seq<Seq<u8>>| #[trigger]
                leads(disk, segs[i as int], from, m) && (i + 1 < segs.len() ==> (disk.directory)(m))
                    && reaches(disk, segs, i + 1, m, mid);
            lemma_reaches_push(disk, segs, i + 1, segment, m, to);
            assert(reaches(disk, segs, i + 1, m, mid));
            assert(leads(disk, more[i as int], from, m));
            assert(reaches(disk, more, i + 1, m, to));
        }
    }
}

proof fn lemma_segments_push(pattern: Seq<char>, segment: Seq<char>)
    requires
        segment.len() > 0,
        segment != "."@,
        !segment.contains('/'),
    ensures
        segments(pattern + "/"@ + segment) == segments(pattern).push(segment),
        segments(segment) == seq![segment],
{
    reveal_strlit("/");
    let counts = |s: Seq<char>| s.len() > 0 && s != "."@;
    assert(pattern + "/"@ + segment =~= pattern.push('/') + segment);
    lemma_split_concat(pattern, segment, '/');
    lemma_split_single(segment, '/');
    let front = split(pattern, '/');
    reveal(Seq::filter);
    assert(front + seq![segment] =~= front.push(segment));
    assert(front.push(segment).drop_last() =~= front);
    assert(front.push(segment).filter(counts) =~= front.filter(counts).push(segment));
    let one = seq![segment];
    assert(one.drop_last() =~= Seq::<Seq<char>>::empty());
    assert(one.drop_last().filter(counts) =~= Seq::<Seq<char>>::empty());
    assert(one.filter(counts) =~= one);
}

/// A pattern that names something, does not climb, and starts neither with a slash
/// nor with a tilde stays below the root.
proof fn lemma_confined(pattern: Seq<char>)
    ensures
        is_confined(pattern) <==> {
            &&& pattern.len() > 0 && pattern[0] != '/' && pattern[0] != '~'
            &&& !split(pattern, '/').contains(".."@)
            &&& exists|k: int|
                0 <= k < split(pattern, '/').len() && (#[trigger] split(pattern, '/')[k]).len() > 0
                    && split(pattern, '/')[k] != "."@
        },
{
    reveal_strlit("..");
    reveal_strlit(".");
    let pieces = split(pattern, '/');
    let counts = |s: Seq<char>| s.len() > 0 && s != "."@;
    lemma_filter_contains(pieces, counts);
    let segs = pieces.filter(counts);
    assert(counts(".."@)) by {
        assert(".."@.len() == 2 && "."@.len() == 1);
    }
    assert(segs.contains(".."@) <==> pieces.contains(".."@));
    if segs.len() > 0 {
        assert(segs.contains(segs[0]));
        assert(pieces.contains(segs[0]) && counts(segs[0]));
        let k = choose|k: int| 0 <= k < pieces.len() && pieces[k] == segs[0];
        assert(pieces[k].len() > 0 && pieces[k] != "."@);
    }
    if exists|k: int|
        0 <= k < pieces.len() && (#[trigger] pieces[k]).len() > 0 && pieces[k] != "."@ {
        let k = choose|k: int|
            0 <= k < pieces.len() && (#[trigger] pieces[k]).len() > 0 && pieces[k] != "."@;
        assert(pieces.contains(pieces[k]) && counts(pieces[k]));
        assert(segs.contains(pieces[k]));
    }
}

proof fn lemma_filter_contains<A>(s: Seq<A>, pred: spec_fn(A) -> bool)
    ensures
        forall|x: A| #[trigger] s.filter(pred).contains(x) <==> s.contains(x) && pred(x),
    decreases s.len(),
{
    reveal(Seq::filter);
    if s.len() > 0 {
        let init = s.drop_last();
        lemma_filter_contains(init, pred);
        assert(s =~= init.push(s.last()));
        assert forall|x: A| #[trigger] s.filter(pred).contains(x) <==> s.contains(x) && pred(x) by {
            lemma_push_contains(init, s.last(), x);
            lemma_push_contains(init.filter(pred), s.last(), x);
            assert(init.filter(pred).contains(x) <==> init.contains(x) && pred(x));
        }
    }
}

proof fn lemma_match_push(
    disk: Disk,
    root: Seq<Seq<u8>>,
    pattern: Seq<char>,
    segment: Seq<char>,
    path: Seq<Seq<u8>>,
)
    requires
        segment.len() > 0,
        segment != "."@,
        segment != ".."@,
        !segment.contains('/'),
    ensures
        is_confined(pattern) ==> (is_match(disk, root, pattern + "/"@ + segment, path)
            <==> exists|mid: Seq<Seq<u8>>| #[trigger]
            is_match(disk, root, pattern, mid) && (disk.directory)(mid) && leads(
                disk,
                segment,
                mid,
                path,
            )),
        segment[0] != '~' ==> (is_match(disk, root, segment, path) <==> leads(
            disk,
            segment,
            root,
            path,
        )),
{
    reveal_strlit("/");
    lemma_segments_push(pattern, segment);
    let segs = segments(pattern);
    let whole = pattern + "/"@ + segment;
    if is_confined(pattern) {
        assert(whole[0] == pattern[0]);
        lemma_push_contains(segs, segment, ".."@);
        assert(is_confined(whole));
        lemma_reaches_push(disk, segs, 0, segment, root, path);
        if is_match(disk, root, whole, path) {
            let mid = choose|mid: Seq<Seq<u8>>| #[trigger]
                reaches(disk, segs, 0, root, mid) && (0 < segs.len() ==> (disk.directory)(mid))
                    && leads(disk, segment, mid, path);
            assert(is_match(disk, root, pattern, mid));
        }
        if exists|mid: Seq<Seq<u8>>| #[trigger]
            is_match(disk, root, pattern, mid) && (disk.directory)(mid) && leads(
                disk,
                segment,
                mid,
                path,
            ) {
            let mid = choose|mid: Seq<Seq<u8>>| #[trigger]
                is_match(disk, root, pattern, mid) && (disk.directory)(mid) && leads(
                    disk,
                    segment,
                    mid,
                    path,
                );
            assert(reaches(disk, segs, 0, root, mid));
        }
    }
    if segment[0] != '~' {
        assert(segment[0] != '/') by {
            assert(!segment.contains('/'));
        }
        let none = Seq::<Seq<char>>::empty();
        assert(none.push(segment) =~= seq![segment]);
        lemma_push_contains(none, segment, ".."@);
        assert(is_confined(segment));
        lemma_reaches_push(disk, none, 0, segment, root, path);
        if leads(disk, segment, root, path) {
            assert(reaches(disk, none, 0, root, root));
        }
    }
}

/// A pattern that is empty, that names nothing but `.`, that climbs, or that starts
/// with a slash or a tilde, matches nothing.
pub proof fn law_escaping_patterns_match_nothing(
    disk: Disk,
    root: Seq<Seq<u8>>,
    pattern: Seq<char>,
    path: Seq<Seq<u8>>,
)
    requires
        pattern.len() == 0 || pattern[0] == '/' || pattern[0] == '~' || split(
            pattern,
            '/',
        ).contains(".."@) || forall|k: int|
            0 <= k < split(pattern, '/').len() ==> (#[trigger] split(pattern, '/')[k]).len() == 0
                || split(pattern, '/')[k] == "."@,
    ensures
        !is_match(disk, root, pattern, path),
{
    lemma_confined(pattern);
}

/// Segments that are empty or `.` change nothing.
pub proof fn law_empty_segments_do_not_count(
    disk: Disk,
    root: Seq<Seq<u8>>,
    front: Seq<char>,
    back: Seq<char>,
    path: Seq<Seq<u8>>,
)
    requires
        front.len() > 0,
    ensures
        is_match(disk, root, front + "//"@ + back, path) == is_match(
            disk,
            root,
            front + "/"@ + back,
            path,
        ),
        is_match(disk, root, front + "/./"@ + back, path) == is_match(
            disk,
            root,
            front + "/"@ + back,
            path,
        ),
        is_match(disk, root, front + "/"@, path) == is_match(disk, root, front, path),
        back.len() > 0 && back[0] != '/' && back[0] != '~' ==> is_match(
            disk,
            root,
            "./"@ + back,
            path,
        ) == is_match(disk, root, back, path),
{
    reveal_strlit("/");
    reveal_strlit("//");
    reveal_strlit("/./");
    reveal_strlit("./");
    reveal_strlit(".");
    let counts = |s: Seq<char>| s.len() > 0 && s != "."@;
    let (none, dot) = (Seq::<char>::empty(), seq!['.']);
    let (a, b) = (split(front, '/'), split(back, '/'));
    assert(dot =~= "."@);
    assert(split(none, '/') =~= seq![none]);
    lemma_split_single(dot, '/');
    assert(front + "//"@ + back =~= front.push('/') + (none.push('/') + back));
    assert(front + "/./"@ + back =~= front.push('/') + (dot.push('/') + back));
    assert(front + "/"@ + back =~= front.push('/') + back);
    assert(front + "/"@ =~= front.push('/') + none);
    assert("./"@ + back =~= dot.push('/') + back);
    lemma_split_concat(front, none.push('/') + back, '/');
    lemma_split_concat(none, back, '/');
    lemma_split_concat(front, dot.push('/') + back, '/');
    lemma_split_concat(dot, back, '/');
    lemma_split_concat(front, back, '/');
    lemma_split_concat(front, none, '/');
    lemma_filter_blank(seq![none], counts);
    lemma_filter_blank(seq![dot], counts);
    lemma_filter_concat(a, seq![none] + b, counts);
    lemma_filter_concat(a, seq![dot] + b, counts);
    lemma_filter_concat(seq![none], b, counts);
    lemma_filter_concat(seq![dot], b, counts);
    lemma_filter_concat(a, b, counts);
    lemma_filter_concat(a, seq![none], counts);
    let e = Seq::<Seq<char>>::empty();
    assert(e + b.filter(counts) =~= b.filter(counts));
    assert(a.filter(counts) + e =~= a.filter(counts));
    assert((front + "//"@ + back)[0] == front[0]);
    assert((front + "/./"@ + back)[0] == front[0]);
    assert((front + "/"@ + back)[0] == front[0]);
    assert((front + "/"@)[0] == front[0]);
    assert(("./"@ + back)[0] == '.');
    assert(segments("./"@ + back) == segments(back));
    assert(segments(front + "//"@ + back) == segments(front + "/"@ + back));
    assert(segments(front + "/./"@ + back) == segments(front + "/"@ + back));
    assert(segments(front + "/"@) == segments(front));
}

proof fn lemma_filter_blank<A>(s: Seq<A>, pred: spec_fn(A) -> bool)
    requires
        forall|i: int| 0 <= i < s.len() ==> !pred(#[trigger] s[i]),
    ensures
        s.filter(pred) == Seq::<A>::empty(),
    decreases s.len(),
{
    reveal(Seq::filter);
    if s.len() > 0 {
        assert(!pred(s[s.len() - 1]));
        assert forall|i: int| 0 <= i < s.drop_last().len() implies !pred(#[trigger] s.drop_last()[i]) by {
            assert(s.drop_last()[i] == s[i]);
        }
        lemma_filter_blank(s.drop_last(), pred);
    }
}

proof fn lemma_filter_concat<A>(a: Seq<A>, b: Seq<A>, pred: spec_fn(A) -> bool)
    ensures
        (a + b).filter(pred) == a.filter(pred) + b.filter(pred),
    decreases b.len(),
{
    reveal(Seq::filter);
    if b.len() == 0 {
        assert(a + b =~= a);
        assert(a.filter(pred) + b.filter(pred) =~= a.filter(pred));
    } else {
        lemma_filter_concat(a, b.drop_last(), pred);
        assert((a + b).drop_last() =~= a + b.drop_last());
        assert((a + b).filter(pred) =~= a.filter(pred) + b.filter(pred));
    }
}

/// A segment that is a plain name leads to the entry of that name, if anything is
/// there: behind a pattern, in each directory that the pattern matches; alone, in
/// the root.
pub proof fn law_names_lead_to_entries(
    disk: Disk,
    root: Seq<Seq<u8>>,
    pattern: Seq<char>,
    name: Seq<char>,
    path: Seq<Seq<u8>>,
)
    requires
        pattern.len() > 0 && pattern[0] != '/' && pattern[0] != '~',
        !split(pattern, '/').contains(".."@),
        exists|k: int|
            0 <= k < split(pattern, '/').len() && (#[trigger] split(pattern, '/')[k]).len() > 0
                && split(pattern, '/')[k] != "."@,
        name.len() > 0,
        name != "."@,
        name != ".."@,
        !name.contains('/') && !name.contains('*') && !name.contains('?'),
    ensures
        is_match(disk, root, pattern + "/"@ + name, path) <==> path.len() > 0 && path.last()
            == encode_utf8(name) && (disk.present)(path) && is_match(
            disk,
            root,
            pattern,
            path.drop_last(),
        ) && (disk.directory)(path.drop_last()),
        name[0] != '~' ==> (is_match(disk, root, name, path) <==> path == root.push(
            encode_utf8(name),
        ) && (disk.present)(path)),
{
    reveal_strlit("**");
    lemma_confined(pattern);
    lemma_match_push(disk, root, pattern, name, path);
    assert(name != "**"@) by {
        assert("**"@[0] == '*');
        if name == "**"@ {
            assert(name.contains(name[0]));
        }
    }
    if is_match(disk, root, pattern + "/"@ + name, path) {
        let mid = choose|mid: Seq<Seq<u8>>| #[trigger]
            is_match(disk, root, pattern, mid) && (disk.directory)(mid) && leads(
                disk,
                name,
                mid,
                path,
            );
        assert(path.drop_last() =~= mid);
    }
    if path.len() > 0 && path.last() == encode_utf8(name) {
        assert(path =~= path.drop_last().push(encode_utf8(name)));
    }
}

/// A segment with `*` or `?` in it leads to every entry whose name it matches, and
/// to no other.
pub proof fn law_wildcards_lead_to_entries(
    disk: Disk,
    root: Seq<Seq<u8>>,
    pattern: Seq<char>,
    segment: Seq<char>,
    path: Seq<Seq<u8>>,
)
    requires
        pattern.len() > 0 && pattern[0] != '/' && pattern[0] != '~',
        !split(pattern, '/').contains(".."@),
        exists|k: int|
            0 <= k < split(pattern, '/').len() && (#[trigger] split(pattern, '/')[k]).len() > 0
                && split(pattern, '/')[k] != "."@,
        segment.contains('*') || segment.contains('?'),
        !segment.contains('/'),
        segment != "**"@,
    ensures
        is_match(disk, root, pattern + "/"@ + segment, path) <==> path.len() > 0 && is_match(
            disk,
            root,
            pattern,
            path.drop_last(),
        ) && (disk.directory)(path.drop_last()) && wild(segment, utf8_lossy(path.last())) && (disk.listing)(
            path.drop_last(),
        ) is Some && ((disk.listing)(path.drop_last())->Some_0.contains(
            EntryFact { name: path.last(), is_dir: true },
        ) || (disk.listing)(path.drop_last())->Some_0.contains(
            EntryFact { name: path.last(), is_dir: false },
        )),
        segment[0] != '~' ==> (is_match(disk, root, segment, path) <==> path.len() > 0
            && path.drop_last() == root && wild(segment, utf8_lossy(path.last())) && (disk.listing)(root) is Some && ((
        disk.listing)(root)->Some_0.contains(EntryFact { name: path.last(), is_dir: true }) || (
        disk.listing)(root)->Some_0.contains(EntryFact { name: path.last(), is_dir: false }))),
{
    reveal_strlit(".");
    reveal_strlit("..");
    lemma_confined(pattern);
    let k = if segment.contains('*') {
        choose|k: int| 0 <= k < segment.len() && segment[k] == '*'
    } else {
        choose|k: int| 0 <= k < segment.len() && segment[k] == '?'
    };
    assert(segment != "."@ && segment != ".."@) by {
        assert(forall|i: int| 0 <= i < "."@.len() ==> "."@[i] == '.');
        assert(forall|i: int| 0 <= i < ".."@.len() ==> ".."@[i] == '.');
    }
    lemma_match_push(disk, root, pattern, segment, path);
    if is_match(disk, root, pattern + "/"@ + segment, path) {
        let mid = choose|mid: Seq<Seq<u8>>| #[trigger]
            is_match(disk, root, pattern, mid) && (disk.directory)(mid) && leads(
                disk,
                segment,
                mid,
                path,
            );
        let e = choose|e: EntryFact| #[trigger]
            disk.has_entry(mid, e) && wild(segment, utf8_lossy(e.name)) && path == mid.push(e.name);
        assert(path.drop_last() =~= mid);
        if e.is_dir {
            assert(e == EntryFact { name: path.last(), is_dir: true });
        } else {
            assert(e == EntryFact { name: path.last(), is_dir: false });
        }
    }
    if segment[0] != '~' && is_match(disk, root, segment, path) {
        let e = choose|e: EntryFact| #[trigger]
            disk.has_entry(root, e) && wild(segment, utf8_lossy(e.name)) && path == root.push(e.name);
        assert(path.drop_last() =~= root);
        if e.is_dir {
            assert(e == EntryFact { name: path.last(), is_dir: true });
        } else {
            assert(e == EntryFact { name: path.last(), is_dir: false });
        }
    }
    if path.len() > 0 {
        let dir = path.drop_last();
        assert(path =~= dir.push(path.last()));
        let (a, b) = (
            EntryFact { name: path.last(), is_dir: true },
            EntryFact { name: path.last(), is_dir: false },
        );
        if (disk.listing)(dir) is Some && wild(segment, utf8_lossy(path.last())) {
            let listed = (disk.listing)(dir)->Some_0;
            if listed.contains(a) {
                assert(disk.has_entry(dir, a));
                assert(leads(disk, segment, dir, path));
            }
            if listed.contains(b) {
                assert(disk.has_entry(dir, b));
                assert(leads(disk, segment, dir, path));
            }
        }
    }
}

/// Descending goes level by level through listed directories.
proof fn lemma_descends(disk: Disk, from: Seq<Seq<u8>>, to: Seq<Seq<u8>>, depth: nat)
    ensures
        descends(disk, from, to, depth) <==> {
            &&& from.len() <= to.len() <= from.len() + depth
            &&& to.take(from.len() as int) == from
            &&& forall|j: int|
                from.len() <= j < to.len() ==> (disk.listing)(#[trigger] to.take(j)) is Some && (
                disk.listing)(to.take(j))->Some_0.contains(EntryFact { name: to[j], is_dir: true })
                    && utf8_lossy(to[j]) != ".git"@ && utf8_lossy(to[j]) != ".hg"@ && utf8_lossy(
                    to[j],
                ) != ".svn"@ && utf8_lossy(to[j]) != "node_modules"@ && utf8_lossy(to[j])
                    != ".venv"@
        },
    decreases depth,
{
    let n = from.len() as int;
    let goes = descends(disk, from, to, depth);
    let way = {
        &&& from.len() <= to.len() <= from.len() + depth
        &&& to.take(n) == from
        &&& forall|j: int|
            n <= j < to.len() ==> (disk.listing)(#[trigger] to.take(j)) is Some && (disk.listing)(
                to.take(j),
            )->Some_0.contains(EntryFact { name: to[j], is_dir: true }) && utf8_lossy(to[j])
                != ".git"@ && utf8_lossy(to[j]) != ".hg"@ && utf8_lossy(to[j]) != ".svn"@
                && utf8_lossy(to[j]) != "node_modules"@ && utf8_lossy(to[j]) != ".venv"@
    };
    assert(from.take(n) =~= from);
    if goes {
        if from != to {
            let e = choose|e: EntryFact| #[trigger]
                enters(disk, from, e) && descends(disk, from.push(e.name), to, (depth - 1) as nat);
            lemma_descends(disk, from.push(e.name), to, (depth - 1) as nat);
            assert(to.take(n + 1) == from.push(e.name));
            assert(to.take(n) =~= to.take(n + 1).take(n));
            assert(from.push(e.name).take(n) =~= from);
            assert(to[n] == to.take(n + 1)[n]);
            assert(e == EntryFact { name: to[n], is_dir: true });
        }
        assert(way);
    }
    if way {
        if to.len() == from.len() {
            assert(to.take(n) =~= to);
        } else {
            let e = EntryFact { name: to[n], is_dir: true };
            assert(to.take(n) == from);
            assert(enters(disk, from, e));
            assert(to.take(n + 1) =~= from.push(e.name));
            lemma_descends(disk, from.push(e.name), to, (depth - 1) as nat);
        }
    }
}

/// A segment `**` leads to every directory at most twelve levels down, itself
/// included, unless a directory called `.git`, `.hg`, `.svn`, `node_modules` or
/// `.venv` stands on the way; and to nothing else.
pub proof fn law_deep_segments_go_everywhere(
    disk: Disk,
    root: Seq<Seq<u8>>,
    pattern: Seq<char>,
    path: Seq<Seq<u8>>,
)
    requires
        pattern.len() > 0 && pattern[0] != '/' && pattern[0] != '~',
        !split(pattern, '/').contains(".."@),
        exists|k: int|
            0 <= k < split(pattern, '/').len() && (#[trigger] split(pattern, '/')[k]).len() > 0
                && split(pattern, '/')[k] != "."@,
    ensures
        is_match(disk, root, pattern + "/"@ + "**"@, path) <==> exists|n: int|
            0 <= n <= path.len() <= n + 12 && #[trigger] is_match(disk, root, pattern, path.take(n))
                && (disk.directory)(path.take(n)) && forall|j: int|
                n <= j < path.len() ==> (disk.listing)(#[trigger] path.take(j)) is Some && (
                disk.listing)(path.take(j))->Some_0.contains(
                    EntryFact { name: path[j], is_dir: true },
                ) && utf8_lossy(path[j]) != ".git"@ && utf8_lossy(path[j]) != ".hg"@ && utf8_lossy(
                    path[j],
                ) != ".svn"@ && utf8_lossy(path[j]) != "node_modules"@ && utf8_lossy(path[j])
                    != ".venv"@,
        is_match(disk, root, "**"@, path) <==> root.len() <= path.len() <= root.len() + 12
            && path.take(root.len() as int) == root && forall|j: int|
            root.len() <= j < path.len() ==> (disk.listing)(#[trigger] path.take(j)) is Some && (
            disk.listing)(path.take(j))->Some_0.contains(EntryFact { name: path[j], is_dir: true })
                && utf8_lossy(path[j]) != ".git"@ && utf8_lossy(path[j]) != ".hg"@ && utf8_lossy(
                path[j],
            ) != ".svn"@ && utf8_lossy(path[j]) != "node_modules"@ && utf8_lossy(path[j])
                != ".venv"@,
{
    reveal_strlit(".");
    reveal_strlit("..");
    reveal_strlit("**");
    lemma_confined(pattern);
    assert("**"@[0] == '*' && "."@.len() == 1 && ".."@[0] == '.');
    assert(!"**"@.contains('/')) by {
        assert(forall|i: int| 0 <= i < "**"@.len() ==> "**"@[i] == '*');
    }
    lemma_match_push(disk, root, pattern, "**"@, path);
    lemma_descends(disk, root, path, 12);
    if is_match(disk, root, pattern + "/"@ + "**"@, path) {
        let mid = choose|mid: Seq<Seq<u8>>| #[trigger]
            is_match(disk, root, pattern, mid) && (disk.directory)(mid) && leads(
                disk,
                "**"@,
                mid,
                path,
            );
        lemma_descends(disk, mid, path, 12);
        assert(is_match(disk, root, pattern, path.take(mid.len() as int)));
    }
    assert forall|n: int|
        0 <= n <= path.len() <= n + 12 && #[trigger] is_match(disk, root, pattern, path.take(n)) && (
        disk.directory)(path.take(n)) && (forall|j: int|
            n <= j < path.len() ==> (disk.listing)(#[trigger] path.take(j)) is Some && (
            disk.listing)(path.take(j))->Some_0.contains(EntryFact { name: path[j], is_dir: true })
                && utf8_lossy(path[j]) != ".git"@ && utf8_lossy(path[j]) != ".hg"@ && utf8_lossy(
                path[j],
            ) != ".svn"@ && utf8_lossy(path[j]) != "node_modules"@ && utf8_lossy(path[j])
                != ".venv"@) implies is_match(disk, root, pattern + "/"@ + "**"@, path) by {
        lemma_descends(disk, path.take(n), path, 12);
        assert(leads(disk, "**"@, path.take(n), path));
    }
}

/// The pattern `**/name` matches an entry of that name in every directory that is at
/// most twelve levels below the root, unless `.git`, `.hg`, `.svn`, `node_modules` or
/// `.venv` stands on the way to it; and it matches nothing else.
pub proof fn law_deep_names_are_found(
    disk: Disk,
    root: Seq<Seq<u8>>,
    name: Seq<char>,
    path: Seq<Seq<u8>>,
)
    requires
        name.len() > 0,
        name != "."@,
        name != ".."@,
        !name.contains('/') && !name.contains('*') && !name.contains('?'),
    ensures
        is_match(disk, root, "**"@ + "/"@ + name, path) <==> {
            let dir = path.drop_last();
            &&& path.len() > 0 && path.last() == encode_utf8(name) && (disk.present)(path)
            &&& (disk.directory)(dir)
            &&& root.len() <= dir.len() <= root.len() + 12 && dir.take(root.len() as int) == root
            &&& forall|j: int|
                root.len() <= j < dir.len() ==> (disk.listing)(#[trigger] dir.take(j)) is Some && (
                disk.listing)(dir.take(j))->Some_0.contains(
                    EntryFact { name: dir[j], is_dir: true },
                ) && utf8_lossy(dir[j]) != ".git"@ && utf8_lossy(dir[j]) != ".hg"@ && utf8_lossy(
                    dir[j],
                ) != ".svn"@ && utf8_lossy(dir[j]) != "node_modules"@ && utf8_lossy(dir[j])
                    != ".venv"@
        },
{
    reveal_strlit(".");
    reveal_strlit("..");
    reveal_strlit("**");
    let deep = "**"@;
    assert(deep[0] == '*' && "."@.len() == 1 && ".."@[0] == '.');
    assert(!deep.contains('/')) by {
        assert(forall|i: int| 0 <= i < deep.len() ==> deep[i] == '*');
    }
    lemma_split_single(deep, '/');
    let pieces = split(deep, '/');
    assert(pieces[0] == deep);
    assert(!pieces.contains(".."@));
    law_names_lead_to_entries(disk, root, deep, name, path);
    if path.len() > 0 {
        law_deep_segments_go_everywhere(disk, root, deep, path.drop_last());
    }
}

/// A pattern matches a name exactly where the name falls into one piece for each
/// character of the pattern: any piece for `*`, one character for `?`, and the
/// character itself for every other.
pub proof fn law_wildcards_stand_for_pieces(pattern: Seq<char>, name: Seq<char>)
    ensures
        wild(pattern, name) <==> exists|pieces: Seq<Seq<char>>|
            pieces.len() == pattern.len() && name == #[trigger] pieces.flatten() && forall|i: int|
                0 <= i < pattern.len() ==> pattern[i] == '*' || ((#[trigger] pieces[i]).len() == 1
                    && (pattern[i] == '?' || pieces[i][0] == pattern[i])),
    decreases pattern.len(),
{
    let rest = pattern.skip(1);
    if pattern.len() == 0 {
        let none = Seq::<Seq<char>>::empty();
        assert(none.flatten() =~= Seq::<char>::empty());
        if name.len() == 0 {
            assert(name =~= none.flatten());
        }
        assert forall|pieces: Seq<Seq<char>>| pieces.len() == 0 implies #[trigger] pieces.flatten().len()
            == 0 by {}
    } else {
        if wild(pattern, name) {
            let k: int = if pattern[0] == '*' {
                lemma_star(pattern, name);
                choose|k: int| 0 <= k <= name.len() && #[trigger] wild(rest, name.skip(k))
            } else {
                1
            };
            let after = name.skip(k);
            law_wildcards_stand_for_pieces(rest, after);
            let tail = choose|pieces: Seq<Seq<char>>|
                pieces.len() == rest.len() && after == #[trigger] pieces.flatten() && forall|i: int|
                    0 <= i < rest.len() ==> rest[i] == '*' || ((#[trigger] pieces[i]).len() == 1 && (
                    rest[i] == '?' || pieces[i][0] == rest[i]));
            let pieces = seq![name.take(k)] + tail;
            assert(pieces.drop_first() =~= tail);
            assert(pieces.flatten() =~= name);
            assert forall|i: int| 0 <= i < pattern.len() implies pattern[i] == '*' || ((
            #[trigger] pieces[i]).len() == 1 && (pattern[i] == '?' || pieces[i][0] == pattern[i])) by {
                if i > 0 {
                    assert(pieces[i] == tail[i - 1]);
                    assert(pattern[i] == rest[i - 1]);
                }
            }
        }
        if exists|pieces: Seq<Seq<char>>|
            pieces.len() == pattern.len() && name == #[trigger] pieces.flatten() && forall|i: int|
                0 <= i < pattern.len() ==> pattern[i] == '*' || ((#[trigger] pieces[i]).len() == 1
                    && (pattern[i] == '?' || pieces[i][0] == pattern[i])) {
            let pieces = choose|pieces: Seq<Seq<char>>|
                pieces.len() == pattern.len() && name == #[trigger] pieces.flatten() && forall|i: int|
                    0 <= i < pattern.len() ==> pattern[i] == '*' || ((#[trigger] pieces[i]).len()
                        == 1 && (pattern[i] == '?' || pieces[i][0] == pattern[i]));
            let tail = pieces.drop_first();
            let k = pieces[0].len() as int;
            assert(name == pieces[0] + tail.flatten());
            assert(name.skip(k) =~= tail.flatten());
            assert forall|i: int| 0 <= i < rest.len() implies rest[i] == '*' || ((
            #[trigger] tail[i]).len() == 1 && (rest[i] == '?' || tail[i][0] == rest[i])) by {
                assert(tail[i] == pieces[i + 1]);
                assert(rest[i] == pattern[i + 1]);
            }
            law_wildcards_stand_for_pieces(rest, name.skip(k));
            assert(wild(rest, name.skip(k)));
            if pattern[0] == '*' {
                lemma_star(pattern, name);
            } else {
                assert(name[0] == pieces[0][0]);
            }
        }
    }
}

/// Of paths that all have components, the outermost are those that no other of them
/// leads to, and each of the paths lies at or below one of these.
pub proof fn law_outermost_covers_all(paths: Seq<Seq<Seq<u8>>>, p: Seq<Seq<u8>>)
    requires
        forall|k: int| 0 <= k < paths.len() ==> (#[trigger] paths[k]).len() > 0,
        paths.contains(p),
    ensures
        is_outermost(paths, p) <==> forall|k: int|
            0 <= k < paths.len() && (#[trigger] paths[k]).len() < p.len() ==> p.take(
                paths[k].len() as int,
            ) != paths[k],
        exists|q: Seq<Seq<u8>>| #[trigger]
            is_outermost(paths, q) && q.len() <= p.len() && p.take(q.len() as int) == q,
    decreases p.len(),
{
    if is_outermost(paths, p) {
        assert forall|k: int| 0 <= k < paths.len() && (#[trigger] paths[k]).len() < p.len() implies p.take(
            paths[k].len() as int,
        ) != paths[k] by {
            assert(paths.contains(paths[k]));
            assert(!is_ancestor(paths[k], p));
        }
        assert(p.take(p.len() as int) =~= p);
    } else {
        let above = choose|above: Seq<Seq<u8>>| #[trigger]
            paths.contains(above) && is_ancestor(above, p);
        let k = choose|k: int| 0 <= k < paths.len() && paths[k] == above;
        assert(paths[k].len() < p.len());
        assert(p.take(above.len() as int) == above);
        law_outermost_covers_all(paths, above);
        let q = choose|q: Seq<Seq<u8>>| #[trigger]
            is_outermost(paths, q) && q.len() <= above.len() && above.take(q.len() as int) == q;
        assert(p.take(q.len() as int) =~= above.take(q.len() as int));
    }
}

} // verus!
