//! Measuring how much a directory actually occupies.

use vstd::prelude::*;

use crate::clock::{later, later_of, time_view, Timestamp};
use crate::path::{lemma_path_views_push, path_views, FsPath, PathFact};

verus! {

/// Bytes in the block by which disk usage is counted.
pub const BLOCK: u64 = 512;

#[derive(Debug, Clone, Copy, PartialEq, Eq)]
pub struct DirStat {
    /// Bytes that would be freed by deleting the path.
    pub bytes: u64,
    pub files: u64,
    /// Newest modification time inside the path.
    pub newest: Option<Timestamp>,
}

/// What a [`DirStat`] says.
pub struct StatFact {
    pub bytes: nat,
    pub files: nat,
    pub newest: Option<int>,
}

impl View for DirStat {
    type V = StatFact;

    open spec fn view(&self) -> StatFact {
        StatFact {
            bytes: self.bytes as nat,
            files: self.files as nat,
            newest: time_view(self.newest),
        }
    }
}

/// The view of an optional measurement.
pub open spec fn stat_view(stat: Option<DirStat>) -> Option<StatFact> {
    match stat {
        Some(s) => Some(s@),
        None => None,
    }
}

impl StatFact {
    /// Nothing at all.
    pub open spec fn none() -> StatFact {
        StatFact { bytes: 0, files: 0, newest: None }
    }

    /// Both together.
    pub open spec fn merged(self, other: StatFact) -> StatFact {
        StatFact {
            bytes: self.bytes + other.bytes,
            files: self.files + other.files,
            newest: later_of(self.newest, other.newest),
        }
    }

    /// The numbers can be held by a [`DirStat`].
    pub open spec fn fits(self) -> bool {
        self.bytes <= u64::MAX && self.files <= u64::MAX
    }
}

impl Default for DirStat {
    fn default() -> (r: DirStat)
        ensures
            r@ == StatFact::none(),
    {
        DirStat { bytes: 0, files: 0, newest: None }
    }
}

impl DirStat {
    /// Count `other` in as well.
    pub fn merge(&mut self, other: DirStat)
        requires
            old(self)@.merged(other@).fits(),
        ensures
            final(self)@ == old(self)@.merged(other@),
    {
        self.bytes = self.bytes + other.bytes;
        self.files = self.files + other.files;
        self.newest = later(self.newest, other.newest);
    }
}

/// Disk usage of a single file that occupies `blocks` blocks, so that sparse
/// files and small-file overhead are reported the way `du` reports them.
pub fn file_size(blocks: u64) -> (r: u64)
    requires
        blocks * BLOCK <= u64::MAX,
    ensures
        r == blocks * BLOCK,
        r == blocks * 512,
{
    blocks * BLOCK
}

/// What is known of something that is not a directory.
#[derive(Debug, Clone, Copy, PartialEq, Eq)]
pub struct Leaf {
    /// Its disk usage, or `None` where that could not be told.
    pub bytes: Option<u64>,
    pub modified: Option<Timestamp>,
}

/// What kind of thing a directory entry is. Links are not followed.
#[derive(Debug, Clone, Copy, PartialEq, Eq)]
pub enum ItemKind {
    Dir,
    Link(Leaf),
    File(Leaf),
    /// The kind could not be told.
    Unknown,
}

/// One entry of a directory.
#[derive(Debug, PartialEq, Eq)]
pub struct Item {
    pub name: Vec<u8>,
    pub kind: ItemKind,
}

/// What a [`Leaf`] says.
pub struct LeafFact {
    pub bytes: Option<u64>,
    pub modified: Option<int>,
}

/// What an [`ItemKind`] says.
pub enum KindFact {
    Dir,
    Link(LeafFact),
    File(LeafFact),
    Unknown,
}

/// What an [`Item`] says.
pub struct ItemFact {
    pub name: Seq<u8>,
    pub kind: KindFact,
}

impl View for Leaf {
    type V = LeafFact;

    open spec fn view(&self) -> LeafFact {
        LeafFact { bytes: self.bytes, modified: time_view(self.modified) }
    }
}

impl View for Item {
    type V = ItemFact;

    open spec fn view(&self) -> ItemFact {
        ItemFact {
            name: self.name@,
            kind: match self.kind {
                ItemKind::Dir => KindFact::Dir,
                ItemKind::Link(leaf) => KindFact::Link(leaf@),
                ItemKind::File(leaf) => KindFact::File(leaf@),
                ItemKind::Unknown => KindFact::Unknown,
            },
        }
    }
}

/// Views of a directory listing.
pub open spec fn item_views(items: Seq<Item>) -> Seq<ItemFact> {
    items.map_values(|i: Item| i@)
}

/// The view of a directory listing; one that could not be read is empty.
pub open spec fn listed(listing: Option<Vec<Item>>) -> Seq<ItemFact> {
    match listing {
        Some(items) => item_views(items@),
        None => seq![],
    }
}

/// What something that is not a directory adds to a measurement.
pub open spec fn leaf_stat(leaf: LeafFact) -> StatFact {
    match leaf.bytes {
        Some(bytes) => StatFact { bytes: bytes as nat, files: 1, newest: leaf.modified },
        None => StatFact::none(),
    }
}

/// What an entry by itself adds to a measurement; a directory adds nothing.
pub open spec fn item_stat(item: ItemFact) -> StatFact {
    match item.kind {
        KindFact::Link(leaf) => leaf_stat(leaf),
        KindFact::File(leaf) => leaf_stat(leaf),
        _ => StatFact::none(),
    }
}

/// What the entries by themselves add to a measurement.
pub open spec fn items_stat(items: Seq<ItemFact>) -> StatFact
    decreases items.len(),
{
    if items.len() == 0 {
        StatFact::none()
    } else {
        items_stat(items.drop_last()).merged(item_stat(items.last()))
    }
}

/// The subdirectories of `dir` among its entries.
pub open spec fn item_dirs(dir: Seq<Seq<u8>>, items: Seq<ItemFact>) -> Seq<Seq<Seq<u8>>>
    decreases items.len(),
{
    if items.len() == 0 {
        seq![]
    } else {
        let before = item_dirs(dir, items.drop_last());
        if items.last().kind is Dir {
            before.push(dir.push(items.last().name))
        } else {
            before
        }
    }
}

/// How far a measurement has come.
pub struct MeasureFact {
    pub total: StatFact,
    /// Directories still to be listed, the next one last.
    pub stack: Seq<Seq<Seq<u8>>>,
}

/// The next directory has been listed.
pub open spec fn absorbed(st: MeasureFact, items: Seq<ItemFact>) -> MeasureFact {
    MeasureFact {
        total: st.total.merged(items_stat(items)),
        stack: st.stack.drop_last() + item_dirs(st.stack.last(), items),
    }
}

/// What is at the path to be measured.
#[derive(Debug, Clone, Copy, PartialEq, Eq)]
pub enum Found {
    Missing,
    Dir,
    /// Anything else, links among it.
    Other(Leaf),
}

/// The state in which a measurement starts.
pub open spec fn measure_start(path: Seq<Seq<u8>>, found: Found) -> MeasureFact {
    match found {
        Found::Missing => MeasureFact { total: StatFact::none(), stack: seq![] },
        Found::Dir => MeasureFact { total: StatFact::none(), stack: seq![path] },
        Found::Other(leaf) => MeasureFact {
            total: StatFact {
                bytes: match leaf.bytes {
                    Some(b) => b as nat,
                    None => 0,
                },
                files: 1,
                newest: time_view(leaf.modified),
            },
            stack: seq![],
        },
    }
}

/// A measurement on its way: it asks for one directory listing at a time.
pub struct Measurement {
    total: DirStat,
    stack: Vec<FsPath>,
}

impl View for Measurement {
    type V = MeasureFact;

    closed spec fn view(&self) -> MeasureFact {
        MeasureFact { total: self.total@, stack: path_views(self.stack@) }
    }
}

/// Recursively measure `path`.
///
/// Symlinks are never followed: a link is counted as its own small entry so
/// that linked trees (`bazel-out`, `DerivedData` aliases) are not double
/// counted and never traversed outside the project.
pub fn measure(path: &FsPath, found: Found) -> (r: Measurement)
    ensures
        r@ == measure_start(path@, found),
{
    let mut stack: Vec<FsPath> = Vec::new();
    let mut total = DirStat::default();
    assert(path_views(stack@) =~= seq![]);
    match found {
        Found::Missing => {},
        Found::Dir => {
            let first = path.clone();
            proof {
                lemma_path_views_push(stack@, first);
            }
            stack.push(first);
            assert(path_views(stack@) =~= seq![path@]);
        },
        Found::Other(leaf) => {
            total =
            DirStat {
                bytes: match leaf.bytes {
                    Some(b) => b,
                    None => 0,
                },
                files: 1,
                newest: leaf.modified,
            };
        },
    }
    Measurement { total, stack }
}

impl Measurement {
    /// The directory to be listed next, in plain form; none when all has been
    /// counted.
    pub fn pending(&self) -> (r: Option<FsPath>)
        ensures
            r is Some <==> self@.stack.len() > 0,
            r matches Some(p) ==> p.fact() == PathFact::plain(self@.stack.last()),
    {
        if self.stack.len() == 0 {
            None
        } else {
            let last: usize = self.stack.len() - 1;
            assert(path_views(self.stack@).last() == self.stack@[last as int]@);
            Some(self.stack[last].plain())
        }
    }

    /// Whether the entries can still be counted in.
    pub fn can_absorb(&self, listing: &Option<Vec<Item>>) -> (r: bool)
        ensures
            r == self@.total.merged(items_stat(listed(*listing))).fits(),
    {
        match listing {
            None => true,
            Some(items) => {
                let ghost facts = item_views(items@);
                let mut bytes: u64 = self.total.bytes;
                let mut files: u64 = self.total.files;
                let mut i: usize = 0;
                assert(facts.take(0) =~= seq![]);
                while i < items.len()
                    invariant
                        0 <= i <= items.len(),
                        facts == item_views(items@),
                        facts == listed(*listing),
                        bytes == self@.total.bytes + items_stat(facts.take(i as int)).bytes,
                        files == self@.total.files + items_stat(facts.take(i as int)).files,
                    decreases items.len() - i,
                {
                    assert(facts.take(i + 1).drop_last() =~= facts.take(i as int));
                    assert(facts.take(i + 1).last() == items@[i as int]@);
                    match items[i].kind {
                        ItemKind::Link(leaf) | ItemKind::File(leaf) => {
                            if let Some(b) = leaf.bytes {
                                match (bytes.checked_add(b), files.checked_add(1)) {
                                    (Some(sum), Some(count)) => {
                                        bytes = sum;
                                        files = count;
                                    },
                                    _ => {
                                        proof {
                                            lemma_stat_grows(facts, i + 1);
                                        }
                                        return false;
                                    },
                                }
                            }
                        },
                        _ => {},
                    }
                    i = i + 1;
                }
                assert(facts.take(facts.len() as int) =~= facts);
                true
            },
        }
    }

    /// Take the listing of the pending directory, `None` where it could not be
    /// read.
    pub fn absorb(&mut self, listing: Option<Vec<Item>>)
        requires
            old(self)@.stack.len() > 0,
            old(self)@.total.merged(items_stat(listed(listing))).fits(),
        ensures
            final(self)@ == absorbed(old(self)@, listed(listing)),
    {
        let ghost before = self@;
        let popped = self.stack.pop();
        let dir = popped.unwrap();
        let ghost base = path_views(self.stack@);
        assert(base =~= before.stack.drop_last());
        assert(dir@ == before.stack.last());
        match listing {
            None => {
                assert(base + item_dirs(dir@, seq![]) =~= base);
            },
            Some(items) => {
                let ghost facts = item_views(items@);
                let mut i: usize = 0;
                assert(facts.take(0) =~= seq![]);
                assert(base + item_dirs(dir@, facts.take(0)) =~= base);
                while i < items.len()
                    invariant
                        0 <= i <= items.len(),
                        facts == item_views(items@),
                        before.total.merged(items_stat(facts)).fits(),
                        self.total@ == before.total.merged(items_stat(facts.take(i as int))),
                        path_views(self.stack@) == base + item_dirs(dir@, facts.take(i as int)),
                    decreases items.len() - i,
                {
                    let item = &items[i];
                    proof {
                        assert(facts.take(i + 1).drop_last() =~= facts.take(i as int));
                        assert(facts.take(i + 1).last() == item@);
                        lemma_stat_grows(facts, i + 1);
                    }
                    match item.kind {
                        ItemKind::Dir => {
                            let child = dir.child(&item.name);
                            proof {
                                lemma_path_views_push(self.stack@, child);
                                let sofar = item_dirs(dir@, facts.take(i as int));
                                assert((base + sofar).push(child@) =~= base + sofar.push(child@));
                            }
                            self.stack.push(child);
                        },
                        ItemKind::Link(leaf) | ItemKind::File(leaf) => {
                            if let Some(bytes) = leaf.bytes {
                                let one = DirStat { bytes, files: 1, newest: leaf.modified };
                                self.total.merge(one);
                            }
                        },
                        ItemKind::Unknown => {},
                    }
                    i = i + 1;
                }
                assert(facts.take(facts.len() as int) =~= facts);
            },
        }
    }

    /// What has been counted.
    pub fn finish(self) -> (r: DirStat)
        ensures
            r@ == self@.total,
    {
        self.total
    }
}

/// A longer listing adds no less.
proof fn lemma_stat_grows(items: Seq<ItemFact>, upto: int)
    requires
        0 <= upto <= items.len(),
    ensures
        items_stat(items.take(upto)).bytes <= items_stat(items).bytes,
        items_stat(items.take(upto)).files <= items_stat(items).files,
    decreases items.len() - upto,
{
    if upto < items.len() {
        lemma_stat_grows(items, upto + 1);
        assert(items.take(upto + 1).drop_last() =~= items.take(upto));
    } else {
        assert(items.take(upto) =~= items);
    }
}

/// What lies at and below the directory `dir`, down to `depth` levels.
pub open spec fn weight(
    disk: spec_fn(Seq<Seq<u8>>) -> Seq<ItemFact>,
    dir: Seq<Seq<u8>>,
    depth: nat,
) -> StatFact
    decreases depth, 0nat,
{
    if depth == 0 {
        StatFact::none()
    } else {
        weights(disk, item_dirs(dir, disk(dir)), (depth - 1) as nat).merged(items_stat(disk(dir)))
    }
}

/// What lies at and below each of the directories, down to `depth` levels.
pub open spec fn weights(
    disk: spec_fn(Seq<Seq<u8>>) -> Seq<ItemFact>,
    dirs: Seq<Seq<Seq<u8>>>,
    depth: nat,
) -> StatFact
    decreases depth, dirs.len() + 1,
{
    if dirs.len() == 0 {
        StatFact::none()
    } else {
        weights(disk, dirs.drop_last(), depth).merged(weight(disk, dirs.last(), depth))
    }
}

/// No directory below `dir` is `depth` levels or more down.
pub open spec fn is_shallow(
    disk: spec_fn(Seq<Seq<u8>>) -> Seq<ItemFact>,
    dir: Seq<Seq<u8>>,
    depth: nat,
) -> bool
    decreases depth,
{
    depth > 0 && forall|i: int|
        0 <= i < item_dirs(dir, disk(dir)).len() ==> is_shallow(
            disk,
            #[trigger] item_dirs(dir, disk(dir))[i],
            (depth - 1) as nat,
        )
}

/// What a measurement will come to: what it has counted, and what lies below
/// the directories still to be listed.
pub open spec fn outlook(
    disk: spec_fn(Seq<Seq<u8>>) -> Seq<ItemFact>,
    st: MeasureFact,
    depth: nat,
) -> StatFact {
    weights(disk, st.stack, depth).merged(st.total)
}

/// Everything still to be listed is less than `depth` levels deep.
pub open spec fn all_shallow(
    disk: spec_fn(Seq<Seq<u8>>) -> Seq<ItemFact>,
    dirs: Seq<Seq<Seq<u8>>>,
    depth: nat,
) -> bool {
    forall|i: int| 0 <= i < dirs.len() ==> is_shallow(disk, #[trigger] dirs[i], depth)
}

/// Listing a directory truthfully does not change what the measurement of a
/// tree will come to: each file counts once, wherever it stands.
pub proof fn law_listing_keeps_outlook(
    disk: spec_fn(Seq<Seq<u8>>) -> Seq<ItemFact>,
    st: MeasureFact,
    depth: nat,
)
    requires
        st.stack.len() > 0,
        all_shallow(disk, st.stack, depth),
    ensures
        outlook(disk, absorbed(st, disk(st.stack.last())), depth) == outlook(disk, st, depth),
        all_shallow(disk, absorbed(st, disk(st.stack.last())).stack, depth),
{
    let dir = st.stack.last();
    let items = disk(dir);
    let rest = st.stack.drop_last();
    let subs = item_dirs(dir, items);
    let next = absorbed(st, items);
    assert(st.stack[st.stack.len() - 1] == dir);
    assert(is_shallow(disk, dir, depth));
    assert forall|i: int| 0 <= i < next.stack.len() implies is_shallow(
        disk,
        #[trigger] next.stack[i],
        depth,
    ) by {
        if i < rest.len() {
            assert(next.stack[i] == st.stack[i]);
        } else {
            assert(next.stack[i] == subs[i - rest.len()]);
            lemma_shallow_deeper(disk, next.stack[i], (depth - 1) as nat);
        }
    }
    lemma_weights_concat(disk, rest, subs, depth);
    lemma_weights_deeper(disk, subs, (depth - 1) as nat);
    let (a, b, c, t) = (
        weights(disk, rest, depth),
        weights(disk, subs, depth),
        items_stat(items),
        st.total,
    );
    assert(weight(disk, dir, depth) == b.merged(c));
    assert(outlook(disk, st, depth) == a.merged(b.merged(c)).merged(t));
    assert(outlook(disk, next, depth) == a.merged(b).merged(t.merged(c)));
    lemma_merge_assoc(a, b, c);
    lemma_merge_assoc(a.merged(b), c, t);
    lemma_merge_comm(c, t);
}

/// A finished measurement of a directory tree holds what lies in the tree.
pub proof fn law_finished_measurement(
    disk: spec_fn(Seq<Seq<u8>>) -> Seq<ItemFact>,
    path: Seq<Seq<u8>>,
    last: MeasureFact,
    depth: nat,
)
    requires
        last.stack.len() == 0,
        outlook(disk, last, depth) == outlook(disk, measure_start(path, Found::Dir), depth),
    ensures
        last.total == weight(disk, path, depth),
{
    let st = measure_start(path, Found::Dir);
    assert(st.stack.drop_last() =~= seq![]);
    assert(st.stack.last() == path);
    assert(weights(disk, seq![], depth) == StatFact::none());
    assert(weights(disk, last.stack, depth) == StatFact::none());
    let w = weight(disk, path, depth);
    assert(weights(disk, st.stack, depth) == StatFact::none().merged(w));
    assert(StatFact::none().merged(w).merged(StatFact::none()) == w);
    assert(StatFact::none().merged(last.total) == last.total);
}

proof fn lemma_merge_assoc(a: StatFact, b: StatFact, c: StatFact)
    ensures
        a.merged(b).merged(c) == a.merged(b.merged(c)),
{
}

proof fn lemma_merge_comm(a: StatFact, b: StatFact)
    ensures
        a.merged(b) == b.merged(a),
{
}

proof fn lemma_shallow_deeper(
    disk: spec_fn(Seq<Seq<u8>>) -> Seq<ItemFact>,
    dir: Seq<Seq<u8>>,
    depth: nat,
)
    requires
        is_shallow(disk, dir, depth),
    ensures
        is_shallow(disk, dir, depth + 1),
        weight(disk, dir, depth + 1) == weight(disk, dir, depth),
    decreases depth,
{
    let subs = item_dirs(dir, disk(dir));
    assert forall|i: int| 0 <= i < subs.len() implies is_shallow(
        disk,
        #[trigger] subs[i],
        depth,
    ) by {
        lemma_shallow_deeper(disk, subs[i], (depth - 1) as nat);
    }
    lemma_weights_deeper(disk, subs, (depth - 1) as nat);
}

proof fn lemma_weights_deeper(
    disk: spec_fn(Seq<Seq<u8>>) -> Seq<ItemFact>,
    dirs: Seq<Seq<Seq<u8>>>,
    depth: nat,
)
    requires
        all_shallow(disk, dirs, depth),
    ensures
        weights(disk, dirs, depth + 1) == weights(disk, dirs, depth),
    decreases depth, dirs.len(),
{
    if dirs.len() > 0 {
        assert(dirs.last() == dirs[dirs.len() - 1]);
        assert forall|i: int| 0 <= i < dirs.drop_last().len() implies is_shallow(
            disk,
            #[trigger] dirs.drop_last()[i],
            depth,
        ) by {
            assert(dirs.drop_last()[i] == dirs[i]);
        }
        lemma_weights_deeper(disk, dirs.drop_last(), depth);
        let dir = dirs.last();
        let subs = item_dirs(dir, disk(dir));
        assert forall|i: int| 0 <= i < subs.len() implies is_shallow(
            disk,
            #[trigger] subs[i],
            (depth - 1) as nat,
        ) by {}
        lemma_weights_deeper(disk, subs, (depth - 1) as nat);
        assert(weight(disk, dir, depth + 1) == weight(disk, dir, depth));
    }
}

proof fn lemma_weights_concat(
    disk: spec_fn(Seq<Seq<u8>>) -> Seq<ItemFact>,
    a: Seq<Seq<Seq<u8>>>,
    b: Seq<Seq<Seq<u8>>>,
    depth: nat,
)
    ensures
        weights(disk, a + b, depth) == weights(disk, a, depth).merged(weights(disk, b, depth)),
    decreases b.len(),
{
    if b.len() == 0 {
        assert(a + b =~= a);
    } else {
        lemma_weights_concat(disk, a, b.drop_last(), depth);
        assert((a + b).drop_last() =~= a + b.drop_last());
        assert((a + b).last() == b.last());
        lemma_merge_assoc(
            weights(disk, a, depth),
            weights(disk, b.drop_last(), depth),
            weight(disk, b.last(), depth),
        );
    }
}

/// What one more entry adds to the measurement of a directory: a file or a link, whose
/// size could be told, counts as one file with all its bytes, and the newest time is
/// no older than its own; a directory is measured in its turn; anything else counts
/// nothing.
pub proof fn law_each_entry_counts_once(st: MeasureFact, items: Seq<ItemFact>, item: ItemFact)
    requires
        st.stack.len() > 0,
    ensures
        ({
            let before = absorbed(st, items);
            let after = absorbed(st, items.push(item));
            match item.kind {
                KindFact::Dir => after.total == before.total && after.stack == before.stack.push(
                    st.stack.last().push(item.name),
                ),
                KindFact::File(leaf) | KindFact::Link(leaf) => after.stack == before.stack && match (
                    leaf.bytes
                ) {
                    Some(bytes) => {
                        &&& after.total.bytes == before.total.bytes + bytes
                        &&& after.total.files == before.total.files + 1
                        &&& after.total.newest == before.total.newest || after.total.newest
                            == leaf.modified
                        &&& leaf.modified matches Some(t) ==> after.total.newest matches Some(n)
                            && n >= t
                        &&& before.total.newest matches Some(t) ==> after.total.newest matches Some(
                            n,
                        ) && n >= t
                    },
                    None => after.total == before.total,
                },
                KindFact::Unknown => after == before,
            }
        }),
        absorbed(st, seq![]) == (MeasureFact { total: st.total, stack: st.stack.drop_last() }),
{
    assert(items.push(item).drop_last() =~= items);
    let none = Seq::<ItemFact>::empty();
    assert(item_dirs(st.stack.last(), none) =~= seq![]);
    assert(st.stack.drop_last() + item_dirs(st.stack.last(), none) =~= st.stack.drop_last());
    let subs = item_dirs(st.stack.last(), items);
    assert(st.stack.drop_last() + subs.push(st.stack.last().push(item.name)) =~= (
    st.stack.drop_last() + subs).push(st.stack.last().push(item.name)));
}

/// Where a measurement starts: with nothing where nothing is there; with the path to be
/// listed where it is a directory; and with one file, done, where it is anything else.
pub proof fn law_measurements_start(path: Seq<Seq<u8>>, found: Found)
    ensures
        ({
            let st = measure_start(path, found);
            match found {
                Found::Missing => st.total.bytes == 0 && st.total.files == 0 && st.total.newest is None
                    && st.stack.len() == 0,
                Found::Dir => st.total.bytes == 0 && st.total.files == 0 && st.total.newest is None
                    && st.stack.len() == 1 && st.stack[0] == path,
                Found::Other(leaf) => st.stack.len() == 0 && st.total.files == 1 && (leaf.bytes
                    matches Some(b) ==> st.total.bytes == b) && st.total.newest == match (
                    leaf.modified
                ) {
                    Some(t) => Some(t@),
                    None => None,
                },
            }
        }),
{
}

} // verus!
