//! File system paths as sequences of components.
//!
//! A path is held the way equality sees it: as its components, each a byte
//! string. The root is the component `/`; repeated separators, trailing
//! separators and inner `.` components leave no trace there. Beside them stands
//! the text of the path as it was given, and that is what is shown: a root given
//! as `/data//dev/` is the same as `/data/dev` and shown as `/data//dev/`.
//! Paths are those of Unix, where `/` and nothing else separates components.

use vstd::prelude::*;
use vstd::utf8::*;

use crate::order::{
    is_preorder, is_total_order, lemma_lex_prefix, lemma_lex_step, lemma_lex_total, lex, lexed, order_int, precedes,
    sort_positions, sorts_range, Order,
};
use crate::text::{
    byte_strings, from_utf8_lossy, lemma_byte_strings_push, lemma_split_concat,
    lemma_split_nonempty, lemma_split_pieces, lemma_split_single, same_bytes, split, split_bytes,
    utf8_lossy,
};

verus! {

/// The component that stands for the root.
pub open spec fn root_part() -> Seq<u8> {
    seq![47u8]
}

/// The component `.`.
pub open spec fn dot_part() -> Seq<u8> {
    seq![46u8]
}

/// The component `..`.
pub open spec fn dot_dot_part() -> Seq<u8> {
    seq![46u8, 46u8]
}

/// A component that names a directory entry.
pub open spec fn is_name(part: Seq<u8>) -> bool {
    part != root_part() && part != dot_part() && part != dot_dot_part()
}

/// The components among the first pieces of a path text: empty pieces are
/// dropped, and so is every `.` but one that starts a relative path.
pub open spec fn kept_parts(pieces: Seq<Seq<u8>>, rooted: bool) -> Seq<Seq<u8>>
    decreases pieces.len(),
{
    if pieces.len() == 0 {
        seq![]
    } else {
        let before = kept_parts(pieces.drop_last(), rooted);
        let piece = pieces.last();
        if piece.len() == 0 || (piece == dot_part() && (rooted || pieces.len() > 1)) {
            before
        } else {
            before.push(piece)
        }
    }
}

/// A path text starts at the root.
pub open spec fn is_rooted_text(bytes: Seq<u8>) -> bool {
    bytes.len() > 0 && bytes[0] == 47u8
}

/// The components of a path text.
pub open spec fn components(bytes: Seq<u8>) -> Seq<Seq<u8>> {
    let rooted = is_rooted_text(bytes);
    let rest = kept_parts(split(bytes, 47u8), rooted);
    if rooted {
        seq![root_part()] + rest
    } else {
        rest
    }
}

/// `parts` with a `/` between each two.
pub open spec fn slash_joined(parts: Seq<Seq<u8>>) -> Seq<u8>
    decreases parts.len(),
{
    if parts.len() == 0 {
        seq![]
    } else if parts.len() == 1 {
        parts[0]
    } else {
        slash_joined(parts.drop_last()).push(47u8) + parts.last()
    }
}

/// The path starts at the root.
pub open spec fn is_rooted(path: Seq<Seq<u8>>) -> bool {
    path.len() > 0 && path[0] == root_part()
}

/// The text of a path in plain form.
pub open spec fn rendered(path: Seq<Seq<u8>>) -> Seq<u8> {
    if is_rooted(path) {
        root_part() + slash_joined(path.skip(1))
    } else {
        slash_joined(path)
    }
}

/// A path as equality sees it, and as it is written.
pub struct PathFact {
    pub parts: Seq<Seq<u8>>,
    pub text: Seq<u8>,
}

impl PathFact {
    /// The path that a text spells.
    pub open spec fn spelled(text: Seq<u8>) -> PathFact {
        PathFact { parts: components(text), text }
    }

    /// The path in plain form.
    pub open spec fn plain(parts: Seq<Seq<u8>>) -> PathFact {
        PathFact { parts, text: rendered(parts) }
    }

    /// The entry `name` of the directory.
    pub open spec fn child(self, name: Seq<u8>) -> PathFact {
        PathFact { parts: self.parts.push(name), text: joined(self.text, name) }
    }

    /// What the names lead to, one below the other.
    pub open spec fn below(self, names: Seq<Seq<u8>>) -> PathFact
        decreases names.len(),
    {
        if names.len() == 0 {
            self
        } else {
            self.below(names.drop_last()).child(names.last())
        }
    }

    /// The path as it is written from `base`, or as it is where it lies elsewhere.
    pub open spec fn relative_to(self, base: PathFact) -> PathFact {
        if within(self.parts, base.parts) {
            self.skip(base.parts.len())
        } else {
            self
        }
    }

    /// What stands behind the first `count` components.
    pub open spec fn skip(self, count: nat) -> PathFact {
        PathFact { parts: self.parts.skip(count as int), text: rest_text(self.text, count) }
    }

    /// The text, as far as it is Unicode.
    pub open spec fn shown(self) -> Seq<char> {
        utf8_lossy(self.text)
    }
}

/// `path` lies below `base` and is written as `base` is, with the names below it
/// joined to it.
pub open spec fn is_written_below(base: PathFact, path: PathFact) -> bool {
    &&& within(path.parts, base.parts)
    &&& path == base.below(path.parts.skip(base.parts.len() as int))
}

pub proof fn lemma_written_self(base: PathFact)
    ensures
        is_written_below(base, base),
{
    assert(base.parts.take(base.parts.len() as int) =~= base.parts);
    assert(base.parts.skip(base.parts.len() as int) =~= seq![]);
}

pub proof fn lemma_written_child(base: PathFact, path: PathFact, name: Seq<u8>)
    requires
        is_written_below(base, path),
    ensures
        is_written_below(base, path.child(name)),
{
    let n = base.parts.len() as int;
    assert(path.parts.push(name).take(n) =~= path.parts.take(n));
    assert(path.parts.push(name).skip(n) =~= path.parts.skip(n).push(name));
    assert(path.parts.skip(n).push(name).drop_last() =~= path.parts.skip(n));
}

/// The text of the entry `name` of the directory that `text` spells.
pub open spec fn joined(text: Seq<u8>, name: Seq<u8>) -> Seq<u8> {
    if text.len() > 0 && text.last() != 47u8 {
        text.push(47u8) + name
    } else {
        text + name
    }
}

/// The position among `pieces` of the one that gives the component `m`.
pub open spec fn place(pieces: Seq<Seq<u8>>, rooted: bool, m: nat) -> int
    decreases pieces.len(),
{
    if pieces.len() == 0 {
        0
    } else if kept_parts(pieces.drop_last(), rooted).len() > m {
        place(pieces.drop_last(), rooted, m)
    } else {
        pieces.len() - 1
    }
}

/// The text from the piece at `from` to the last that gives a component.
pub open spec fn text_from(pieces: Seq<Seq<u8>>, rooted: bool, from: int) -> Seq<u8> {
    let count = kept_parts(pieces, rooted).len();
    slash_joined(pieces.subrange(from, place(pieces, rooted, (count - 1) as nat) + 1))
}

/// What stands in a path text from the component `count` to the last, separators
/// within it as they are and none around it.
pub open spec fn rest_text(text: Seq<u8>, count: nat) -> Seq<u8> {
    let rooted = is_rooted_text(text);
    let pieces = split(text, 47u8);
    let kept = kept_parts(pieces, rooted).len();
    if rooted && count == 0 {
        if kept == 0 {
            root_part()
        } else {
            root_part() + text_from(pieces, true, 1)
        }
    } else {
        let m = if rooted {
            (count - 1) as nat
        } else {
            count
        };
        if m >= kept {
            seq![]
        } else {
            text_from(pieces, rooted, place(pieces, rooted, m))
        }
    }
}

/// `base` is `path` or one of the directories above it.
pub open spec fn within(path: Seq<Seq<u8>>, base: Seq<Seq<u8>>) -> bool {
    base.len() <= path.len() && path.take(base.len() as int) =~= base
}

/// `above` is one of the directories above `path`, the path itself excluded.
/// Nothing is above the root.
pub open spec fn is_ancestor(above: Seq<Seq<u8>>, path: Seq<Seq<u8>>) -> bool {
    above.len() < path.len() && within(path, above) && (above.len() > 0 || !is_rooted(path))
}

/// The number of components that name a directory entry.
pub open spec fn name_count(path: Seq<Seq<u8>>) -> nat
    decreases path.len(),
{
    if path.len() == 0 {
        0
    } else {
        name_count(path.drop_last()) + if is_name(path.last()) {
            1nat
        } else {
            0nat
        }
    }
}

/// Root before `.` before `..` before names.
pub open spec fn part_rank(part: Seq<u8>) -> int {
    if part == root_part() {
        0
    } else if part == dot_part() {
        1
    } else if part == dot_dot_part() {
        2
    } else {
        3
    }
}

pub open spec fn byte_order() -> spec_fn(u8, u8) -> Order {
    |a: u8, b: u8| order_int(a as int, b as int)
}

/// Components compare by rank, then byte by byte.
pub open spec fn part_order() -> spec_fn(Seq<u8>, Seq<u8>) -> Order {
    |a: Seq<u8>, b: Seq<u8>|
        order_int(part_rank(a), part_rank(b)).or_else(lex(byte_order(), a, b))
}

/// Paths compare component by component.
pub open spec fn path_order(a: Seq<Seq<u8>>, b: Seq<Seq<u8>>) -> Order {
    lex(part_order(), a, b)
}

/// [`path_order`] is a total order.
pub proof fn lemma_path_order_total()
    ensures
        is_total_order(part_order()),
        is_total_order(lexed(part_order())),
        forall|a: Seq<Seq<u8>>, b: Seq<Seq<u8>>| #[trigger]
            lexed(part_order())(a, b) == path_order(a, b),
{
    let g = byte_order();
    let lg = lexed(g);
    assert(is_total_order(g));
    lemma_lex_total(g);
    let f = part_order();
    assert forall|a: Seq<u8>, b: Seq<u8>| #[trigger] f(a, b) == f(b, a).flipped() by {
        assert(lg(a, b) == lg(b, a).flipped());
    }
    assert forall|a: Seq<u8>, b: Seq<u8>, c: Seq<u8>|
        #![trigger f(a, b), f(b, c)]
        f(a, b) != Order::After && f(b, c) != Order::After implies f(a, c) != Order::After by {
        if part_rank(a) == part_rank(b) && part_rank(b) == part_rank(c) {
            assert(lg(a, b) != Order::After && lg(b, c) != Order::After);
            assert(lg(a, c) != Order::After);
        }
    }
    assert forall|a: Seq<u8>, b: Seq<u8>| #[trigger] f(a, b) == Order::Same implies a == b by {
        assert(lg(a, b) == Order::Same);
    }
    lemma_lex_total(f);
}

/// The path is in the form that reading a text gives: only the first component
/// is the root or `.`, and no name is empty or holds a separator.
pub open spec fn is_normal(path: Seq<Seq<u8>>) -> bool {
    forall|i: int| 0 <= i < path.len() ==> is_normal_part(#[trigger] path[i], i)
}

/// `part` may stand at position `at` of a path.
pub open spec fn is_normal_part(part: Seq<u8>, at: int) -> bool {
    ||| at == 0 && part == root_part()
    ||| part.len() > 0 && !part.contains(47u8) && (part == dot_part() ==> at == 0)
}

/// A path in normal form is read back from its own text.
pub proof fn law_text_reads_back(path: Seq<Seq<u8>>)
    requires
        is_normal(path),
    ensures
        components(rendered(path)) == path,
{
    reveal_with_fuel(kept_parts, 3);
    reveal_with_fuel(split, 2);
    if is_rooted(path) {
        let rest = path.skip(1);
        assert forall|i: int| 0 <= i < rest.len() implies (#[trigger] rest[i]).len() > 0
            && !rest[i].contains(47u8) && rest[i] != dot_part() by {
            assert(rest[i] == path[i + 1]);
            assert(is_normal_part(path[i + 1], i + 1));
        }
        let text = rendered(path);
        let tail = slash_joined(rest);
        assert(text =~= Seq::<u8>::empty().push(47u8) + tail);
        lemma_split_concat(Seq::<u8>::empty(), tail, 47u8);
        assert(text[0] == 47u8);
        let front = split(Seq::<u8>::empty(), 47u8);
        assert(front =~= seq![Seq::<u8>::empty()]);
        if rest.len() == 0 {
            assert(tail =~= Seq::<u8>::empty());
            assert(split(text, 47u8) =~= seq![Seq::<u8>::empty(), Seq::<u8>::empty()]);
            assert(split(text, 47u8).drop_last() =~= front);
            assert(front.drop_last() =~= Seq::<Seq<u8>>::empty());
            assert(kept_parts(front, true) =~= seq![]);
            assert(components(text) =~= path);
        } else {
            lemma_split_joined(rest);
            assert(front.drop_last() =~= Seq::<Seq<u8>>::empty());
            assert(kept_parts(front, true) =~= seq![]);
            lemma_kept_after(front, rest, true);
            assert(components(text) =~= path);
        }
    } else if path.len() == 0 {
        assert(split(Seq::<u8>::empty(), 47u8).drop_last() =~= Seq::<Seq<u8>>::empty());
        assert(components(rendered(path)) =~= path);
    } else {
        assert forall|i: int| 0 <= i < path.len() implies (#[trigger] path[i]).len() > 0
            && !path[i].contains(47u8) by {
            assert(is_normal_part(path[i], i));
            if i == 0 {
                assert(path[0] != root_part());
            }
        }
        lemma_split_joined(path);
        let text = rendered(path);
        lemma_joined_first(path);
        assert(path[0][0] != 47u8) by {
            assert(!path[0].contains(47u8));
        }
        let first = seq![path[0]];
        assert(path =~= first + path.skip(1));
        assert(first.drop_last() =~= Seq::<Seq<u8>>::empty());
        assert(kept_parts(first, false) =~= first);
        let rest = path.skip(1);
        assert forall|i: int| 0 <= i < rest.len() implies (#[trigger] rest[i]).len() > 0
            && !rest[i].contains(47u8) && rest[i] != dot_part() by {
            assert(rest[i] == path[i + 1]);
            assert(is_normal_part(path[i + 1], i + 1));
        }
        lemma_kept_after(first, rest, false);
        assert(components(text) =~= path);
    }
}

impl PathFact {
    /// The text spells the path.
    pub open spec fn is_read(self) -> bool {
        self.parts == components(self.text)
    }
}

/// A path that its text spells, and a name that is neither empty nor `.` and holds
/// no separator: what they lead to is spelled by its text too.
pub proof fn law_child_is_read(path: PathFact, name: Seq<u8>)
    requires
        path.is_read(),
        name.len() > 0,
        !name.contains(47u8),
        name != dot_part(),
    ensures
        path.child(name).is_read(),
{
    let text = path.text;
    let rooted = is_rooted_text(text);
    let pieces = split(text, 47u8);
    let one = seq![name];
    lemma_split_nonempty(text, 47u8);
    lemma_split_single(name, 47u8);
    assert(name[0] != 47u8) by {
        assert(!name.contains(47u8));
    }
    assert(one.drop_last() =~= Seq::<Seq<u8>>::empty());
    if text.len() == 0 {
        reveal_with_fuel(split, 2);
        reveal_with_fuel(kept_parts, 3);
        assert(pieces =~= seq![Seq::<u8>::empty()]);
        assert(pieces.drop_last() =~= Seq::<Seq<u8>>::empty());
        assert(joined(text, name) =~= name);
        assert(path.child(name).parts =~= components(name));
    } else {
        if text.last() == 47u8 {
            let init = text.drop_last();
            assert(text =~= init.push(47u8) + Seq::<u8>::empty());
            lemma_split_concat(init, Seq::<u8>::empty(), 47u8);
            lemma_split_concat(init, name, 47u8);
            lemma_split_nonempty(init, 47u8);
            assert(joined(text, name) =~= init.push(47u8) + name);
            let front = split(init, 47u8);
            let blank = split(Seq::<u8>::empty(), 47u8);
            assert(blank =~= seq![Seq::<u8>::empty()]);
            assert((front + blank).drop_last() =~= front);
            lemma_kept_after(front, one, rooted);
            assert(kept_parts(pieces, rooted) == kept_parts(front, rooted));
        } else {
            lemma_split_concat(text, name, 47u8);
            lemma_kept_after(pieces, one, rooted);
        }
        assert(joined(text, name)[0] == text[0]);
        assert(path.child(name).parts =~= components(joined(text, name)));
    }
}

/// What stands behind the first components of a path that its text spells is
/// spelled by the rest of the text.
pub proof fn law_rest_is_read(path: PathFact, count: nat)
    requires
        path.is_read(),
        count <= path.parts.len(),
    ensures
        path.skip(count).is_read(),
{
    let text = path.text;
    let rooted = is_rooted_text(text);
    let pieces = split(text, 47u8);
    let kept = kept_parts(pieces, rooted);
    let rest = rest_text(text, count);
    lemma_split_pieces(text, 47u8);
    if kept.len() > 0 {
        lemma_place_kept(pieces, rooted, (kept.len() - 1) as nat);
        lemma_last_place(pieces, rooted);
    }
    let end = place(pieces, rooted, (kept.len() - 1) as nat) + 1;
    if rooted && count == 0 {
        lemma_rooted_split(text);
        assert(path.parts.skip(0) =~= path.parts);
        reveal_with_fuel(split, 2);
        reveal_with_fuel(kept_parts, 3);
        let blank = seq![Seq::<u8>::empty()];
        assert(split(Seq::<u8>::empty(), 47u8) =~= blank);
        if kept.len() == 0 {
            assert(rest =~= Seq::<u8>::empty().push(47u8) + Seq::<u8>::empty());
            lemma_split_concat(Seq::<u8>::empty(), Seq::<u8>::empty(), 47u8);
            assert(split(rest, 47u8) =~= blank + blank);
            assert((blank + blank).drop_last() =~= blank);
            assert(blank.drop_last() =~= Seq::<Seq<u8>>::empty());
            assert(kept_parts(blank, true).len() == 0);
            assert(kept =~= seq![]);
            assert(components(rest) =~= path.parts);
        } else {
            let tail = pieces.subrange(1, end);
            assert(pieces[0].len() == 0);
            assert forall|i: int| 0 <= i < tail.len() implies !(#[trigger] tail[i]).contains(47u8) by {
                assert(tail[i] == pieces[i + 1]);
            }
            lemma_split_joined(tail);
            assert(rest =~= Seq::<u8>::empty().push(47u8) + slash_joined(tail));
            lemma_split_concat(Seq::<u8>::empty(), slash_joined(tail), 47u8);
            assert(pieces[0] =~= Seq::<u8>::empty());
            assert(split(rest, 47u8) =~= pieces.take(end));
            assert(components(rest) =~= path.parts);
        }
    } else {
        let m = if rooted {
            (count - 1) as nat
        } else {
            count
        };
        if m >= kept.len() {
            reveal_with_fuel(split, 2);
            reveal_with_fuel(kept_parts, 3);
            assert(split(rest, 47u8) =~= seq![Seq::<u8>::empty()]);
            assert(split(rest, 47u8).drop_last() =~= Seq::<Seq<u8>>::empty());
            assert(components(rest) =~= path.parts.skip(count as int));
        } else {
            let from = place(pieces, rooted, m);
            lemma_place(pieces, rooted, m);
            lemma_place_kept(pieces, rooted, m);
            assert(from <= place(pieces, rooted, (kept.len() - 1) as nat));
            let part = pieces.subrange(from, end);
            assert forall|i: int| 0 <= i < part.len() implies !(#[trigger] part[i]).contains(47u8) by {
                assert(part[i] == pieces[from + i]);
            }
            lemma_split_joined(part);
            assert(part[0] == pieces[from]);
            lemma_joined_first(part);
            assert(part[0][0] != 47u8) by {
                assert(!part[0].contains(47u8));
            }
            lemma_kept_from(pieces, rooted, m, end);
            assert(components(rest) =~= path.parts.skip(count as int));
        }
    }
}

/// Behind the last piece that gives a component there are none.
proof fn lemma_last_place(pieces: Seq<Seq<u8>>, rooted: bool)
    requires
        kept_parts(pieces, rooted).len() > 0,
    ensures
        ({
            let end = place(pieces, rooted, (kept_parts(pieces, rooted).len() - 1) as nat) + 1;
            0 < end <= pieces.len() && kept_parts(pieces.take(end), rooted) == kept_parts(
                pieces,
                rooted,
            )
        }),
    decreases pieces.len(),
{
    let init = pieces.drop_last();
    if kept_parts(init, rooted).len() == kept_parts(pieces, rooted).len() {
        lemma_last_place(init, rooted);
        let end = place(init, rooted, (kept_parts(init, rooted).len() - 1) as nat) + 1;
        assert(pieces.take(end) =~= init.take(end));
    } else {
        assert(pieces.take(pieces.len() as int) =~= pieces);
    }
}

/// The pieces from the one that gives the component `m` give the components from
/// `m` on.
proof fn lemma_kept_from(pieces: Seq<Seq<u8>>, rooted: bool, m: nat, end: int)
    requires
        m < kept_parts(pieces, rooted).len(),
        place(pieces, rooted, m) < end <= pieces.len(),
    ensures
        kept_parts(pieces.subrange(place(pieces, rooted, m), end), false) == kept_parts(
            pieces.take(end),
            rooted,
        ).skip(m as int),
        kept_parts(pieces.take(end), rooted).len() > m,
    decreases end,
{
    let from = place(pieces, rooted, m);
    lemma_place_splits(pieces, rooted, m);
    let part = pieces.subrange(from, end);
    assert(pieces.take(end).drop_last() =~= pieces.take(end - 1));
    assert(pieces.take(end).last() == pieces[end - 1]);
    if end == from + 1 {
        assert(part.drop_last() =~= Seq::<Seq<u8>>::empty());
        assert(part.last() == pieces[from]);
        reveal_with_fuel(kept_parts, 2);
        assert(kept_parts(part, false) =~= seq![pieces[from]]);
        assert(kept_parts(pieces.take(end), rooted).skip(m as int) =~= seq![pieces[from]]);
    } else {
        lemma_kept_from(pieces, rooted, m, end - 1);
        assert(part.drop_last() =~= pieces.subrange(from, end - 1));
        assert(part.last() == pieces[end - 1]);
        assert(kept_parts(part, false) =~= kept_parts(pieces.take(end), rooted).skip(m as int));
    }
}

/// Before the piece that gives the component `m`, there are `m` of them; it gives
/// the next.
proof fn lemma_place_splits(pieces: Seq<Seq<u8>>, rooted: bool, m: nat)
    requires
        m < kept_parts(pieces, rooted).len(),
    ensures
        ({
            let from = place(pieces, rooted, m);
            &&& 0 <= from < pieces.len()
            &&& kept_parts(pieces.take(from), rooted).len() == m
            &&& pieces[from].len() > 0
            &&& pieces[from] == dot_part() ==> !rooted && from == 0
        }),
    decreases pieces.len(),
{
    let init = pieces.drop_last();
    if kept_parts(init, rooted).len() > m {
        lemma_place_splits(init, rooted, m);
        let from = place(init, rooted, m);
        assert(pieces.take(from) =~= init.take(from));
    } else {
        assert(pieces.take(pieces.len() - 1) =~= init);
    }
}

proof fn lemma_split_joined(parts: Seq<Seq<u8>>)
    requires
        parts.len() > 0,
        forall|i: int| 0 <= i < parts.len() ==> !(#[trigger] parts[i]).contains(47u8),
    ensures
        split(slash_joined(parts), 47u8) == parts,
    decreases parts.len(),
{
    if parts.len() == 1 {
        lemma_split_single(parts[0], 47u8);
        assert(parts =~= seq![parts[0]]);
    } else {
        let init = parts.drop_last();
        lemma_split_joined(init);
        assert(!parts[parts.len() - 1].contains(47u8));
        lemma_split_single(parts.last(), 47u8);
        lemma_split_concat(slash_joined(init), parts.last(), 47u8);
        assert(init + seq![parts.last()] =~= parts);
    }
}

proof fn lemma_joined_first(parts: Seq<Seq<u8>>)
    requires
        parts.len() > 0,
        parts[0].len() > 0,
    ensures
        slash_joined(parts).len() > 0,
        slash_joined(parts)[0] == parts[0][0],
    decreases parts.len(),
{
    if parts.len() > 1 {
        lemma_joined_first(parts.drop_last());
    }
}

proof fn lemma_kept_after(front: Seq<Seq<u8>>, rest: Seq<Seq<u8>>, rooted: bool)
    requires
        front.len() > 0,
        forall|i: int| 0 <= i < rest.len() ==> (#[trigger] rest[i]).len() > 0 && rest[i] != dot_part(),
    ensures
        kept_parts(front + rest, rooted) == kept_parts(front, rooted) + rest,
    decreases rest.len(),
{
    if rest.len() == 0 {
        assert(front + rest =~= front);
        assert(kept_parts(front, rooted) + rest =~= kept_parts(front, rooted));
    } else {
        lemma_kept_after(front, rest.drop_last(), rooted);
        assert((front + rest).drop_last() =~= front + rest.drop_last());
        assert(rest.last() == rest[rest.len() - 1]);
        assert((front + rest).last() == rest.last());
        assert((kept_parts(front, rooted) + rest.drop_last()).push(rest.last())
            =~= kept_parts(front, rooted) + rest);
    }
}

/// A path: its components, and its text as it was given.
#[derive(Debug)]
pub struct FsPath {
    parts: Vec<Vec<u8>>,
    text: Vec<u8>,
}

impl View for FsPath {
    type V = Seq<Seq<u8>>;

    closed spec fn view(&self) -> Seq<Seq<u8>> {
        byte_strings(self.parts@)
    }
}

/// Paths are equal where their components are, however they are written.
impl PartialEq for FsPath {
    fn eq(&self, other: &FsPath) -> (r: bool) {
        self.same(other)
    }
}

impl vstd::std_specs::cmp::PartialEqSpecImpl for FsPath {
    open spec fn obeys_eq_spec() -> bool {
        true
    }

    open spec fn eq_spec(&self, other: &FsPath) -> bool {
        self@ == other@
    }
}

impl Eq for FsPath {

}

/// Paths with their texts.
pub open spec fn path_facts(list: Seq<FsPath>) -> Seq<PathFact> {
    list.map_values(|p: FsPath| p.fact())
}

/// A path with its text, if there is one.
pub open spec fn opt_fact(path: Option<FsPath>) -> Option<PathFact> {
    match path {
        Some(p) => Some(p.fact()),
        None => None,
    }
}

pub proof fn lemma_path_facts_push(list: Seq<FsPath>, p: FsPath)
    ensures
        path_facts(list.push(p)) == path_facts(list).push(p.fact()),
{
    assert(path_facts(list.push(p)) =~= path_facts(list).push(p.fact()));
}

/// The paths without their texts.
pub open spec fn parts_of(facts: Seq<PathFact>) -> Seq<Seq<Seq<u8>>> {
    facts.map_values(|f: PathFact| f.parts)
}

/// Leaving out the texts leaves the views.
pub proof fn lemma_parts_of_facts(list: Seq<FsPath>)
    ensures
        parts_of(path_facts(list)) == path_views(list),
{
    assert(parts_of(path_facts(list)) =~= path_views(list));
}

/// The first in the list of those that are the same path is `fact`.
pub open spec fn is_first_spelling(facts: Seq<PathFact>, fact: PathFact) -> bool {
    exists|k: int| #[trigger] is_first_at(facts, fact, k)
}

/// `fact` stands at `k`, and the same path nowhere before.
pub open spec fn is_first_at(facts: Seq<PathFact>, fact: PathFact, k: int) -> bool {
    &&& 0 <= k < facts.len()
    &&& facts[k] == fact
    &&& forall|j: int| 0 <= j < k ==> (#[trigger] facts[j]).parts != fact.parts
}

/// Views of a list of paths.
pub open spec fn path_views(list: Seq<FsPath>) -> Seq<Seq<Seq<u8>>> {
    list.map_values(|p: FsPath| p@)
}

pub proof fn lemma_path_views_push(list: Seq<FsPath>, p: FsPath)
    ensures
        path_views(list.push(p)) == path_views(list).push(p@),
{
    assert(path_views(list.push(p)) =~= path_views(list).push(p@));
}

fn copy_bytes(bytes: &Vec<u8>) -> (r: Vec<u8>)
    ensures
        r@ == bytes@,
{
    let mut out: Vec<u8> = Vec::new();
    let mut i: usize = 0;
    while i < bytes.len()
        invariant
            0 <= i <= bytes.len(),
            out@ =~= bytes@.take(i as int),
        decreases bytes.len() - i,
    {
        out.push(bytes[i]);
        i = i + 1;
    }
    out
}

fn append_bytes(out: &mut Vec<u8>, bytes: &Vec<u8>)
    ensures
        final(out)@ == old(out)@ + bytes@,
{
    let mut i: usize = 0;
    assert(old(out)@ + bytes@.take(0) =~= old(out)@);
    while i < bytes.len()
        invariant
            0 <= i <= bytes.len(),
            out@ =~= old(out)@ + bytes@.take(i as int),
        decreases bytes.len() - i,
    {
        out.push(bytes[i]);
        i = i + 1;
    }
    assert(bytes@.take(bytes@.len() as int) =~= bytes@);
}

fn rank_of(part: &Vec<u8>) -> (r: u8)
    ensures
        r == part_rank(part@),
{
    assert(part@.len() == 1 && part@[0] == 47u8 ==> part@ =~= root_part());
    assert(part@.len() == 1 && part@[0] == 46u8 ==> part@ =~= dot_part());
    assert(part@.len() == 2 && part@[0] == 46u8 && part@[1] == 46u8 ==> part@ =~= dot_dot_part());
    assert(root_part()[0] == 47u8 && dot_part()[0] == 46u8);
    assert(dot_dot_part()[0] == 46u8 && dot_dot_part()[1] == 46u8);
    if part.len() == 1 && part[0] == 47 {
        0
    } else if part.len() == 1 && part[0] == 46 {
        1
    } else if part.len() == 2 && part[0] == 46 && part[1] == 46 {
        2
    } else {
        3
    }
}

fn order_bytes(a: &Vec<u8>, b: &Vec<u8>) -> (r: Order)
    ensures
        r == lex(byte_order(), a@, b@),
{
    let ghost f = byte_order();
    let mut i: usize = 0;
    assert(a@.skip(0) =~= a@ && b@.skip(0) =~= b@);
    while i < a.len() && i < b.len()
        invariant
            0 <= i <= a.len(),
            i <= b.len(),
            f == byte_order(),
            lex(f, a@, b@) == lex(f, a@.skip(i as int), b@.skip(i as int)),
        decreases a.len() - i,
    {
        proof {
            lemma_lex_step(f, a@, b@, i as int);
        }
        if a[i] < b[i] {
            return Order::Before;
        }
        if b[i] < a[i] {
            return Order::After;
        }
        i = i + 1;
    }
    if i < a.len() {
        Order::After
    } else if i < b.len() {
        Order::Before
    } else {
        Order::Same
    }
}

fn order_parts(a: &Vec<u8>, b: &Vec<u8>) -> (r: Order)
    ensures
        r == part_order()(a@, b@),
{
    let (x, y) = (rank_of(a), rank_of(b));
    if x < y {
        Order::Before
    } else if y < x {
        Order::After
    } else {
        order_bytes(a, b)
    }
}

/// Whether a piece of a path text gives no component.
fn is_dropped(piece: &Vec<u8>, rooted: bool, at: usize) -> (r: bool)
    ensures
        r == (piece@.len() == 0 || (piece@ == dot_part() && (rooted || at > 0))),
{
    assert(piece@.len() == 1 && piece@[0] == 46u8 ==> piece@ =~= dot_part());
    assert(dot_part().len() == 1 && dot_part()[0] == 46u8);
    piece.len() == 0 || (piece.len() == 1 && piece[0] == 46 && (rooted || at > 0))
}

/// The component `m` comes no later than those behind it.
proof fn lemma_place(pieces: Seq<Seq<u8>>, rooted: bool, m: nat)
    requires
        m < kept_parts(pieces, rooted).len(),
    ensures
        0 <= place(pieces, rooted, m) < pieces.len(),
        forall|k: nat|
            m <= k < kept_parts(pieces, rooted).len() ==> place(pieces, rooted, m)
                <= #[trigger] place(pieces, rooted, k) < pieces.len(),
    decreases pieces.len(),
{
    let init = pieces.drop_last();
    let count = kept_parts(init, rooted).len();
    if count > m {
        lemma_place(init, rooted, m);
        assert forall|k: nat| m <= k < kept_parts(pieces, rooted).len() implies place(
            pieces,
            rooted,
            m,
        ) <= #[trigger] place(pieces, rooted, k) < pieces.len() by {
            if k < count {
                assert(place(init, rooted, m) <= place(init, rooted, k) < init.len());
            }
        }
    }
}

/// The texts of the pieces from `from` to `to`, with a `/` between each two.
fn join_pieces(pieces: &Vec<Vec<u8>>, from: usize, to: usize) -> (r: Vec<u8>)
    requires
        from <= to <= pieces@.len(),
    ensures
        r@ == slash_joined(byte_strings(pieces@).subrange(from as int, to as int)),
{
    let ghost all = byte_strings(pieces@);
    let mut out: Vec<u8> = Vec::new();
    let mut i: usize = from;
    assert(all.subrange(from as int, from as int) =~= Seq::<Seq<u8>>::empty());
    assert(out@ =~= slash_joined(all.subrange(from as int, from as int)));
    while i < to
        invariant
            from <= i <= to <= pieces@.len(),
            all == byte_strings(pieces@),
            out@ == slash_joined(all.subrange(from as int, i as int)),
        decreases to - i,
    {
        let ghost before = out@;
        if i > from {
            out.push(47);
        }
        append_bytes(&mut out, &pieces[i]);
        proof {
            let now = all.subrange(from as int, i + 1);
            assert(now.drop_last() =~= all.subrange(from as int, i as int));
            assert(now.last() == pieces@[i as int]@);
            if i == from {
                assert(before =~= Seq::<u8>::empty());
                assert(out@ =~= now[0]);
            } else {
                assert(out@ =~= before.push(47u8) + now.last());
            }
        }
        i = i + 1;
    }
    out
}

/// What stands in a path text behind the first `count` components.
fn rest_bytes(text: &Vec<u8>, count: usize) -> (r: Vec<u8>)
    ensures
        r@ == rest_text(text@, count as nat),
{
    let pieces = split_bytes(text.as_slice(), 47);
    let rooted = text.len() > 0 && text[0] == 47;
    let ghost all = byte_strings(pieces@);
    let skipped: usize = if rooted && count > 0 {
        count - 1
    } else {
        count
    };
    // Where the component behind the skipped ones stands, and where the last does.
    let mut first: usize = 0;
    let mut last: usize = 0;
    let mut kept: usize = 0;
    let mut i: usize = 0;
    assert(all.take(0) =~= Seq::<Seq<u8>>::empty());
    while i < pieces.len()
        invariant
            0 <= i <= pieces.len(),
            all == byte_strings(pieces@),
            kept == kept_parts(all.take(i as int), rooted).len(),
            kept <= i,
            kept > skipped ==> first == place(all.take(i as int), rooted, skipped as nat),
            kept > 0 ==> last == place(all.take(i as int), rooted, (kept - 1) as nat),
            kept > 0 ==> last < i,
        decreases pieces.len() - i,
    {
        proof {
            assert(all.take(i + 1).drop_last() =~= all.take(i as int));
            assert(all.take(i + 1).last() == pieces@[i as int]@);
        }
        if !is_dropped(&pieces[i], rooted, i) {
            if kept == skipped {
                first = i;
            }
            last = i;
            kept = kept + 1;
        }
        i = i + 1;
    }
    proof {
        assert(all.take(all.len() as int) =~= all);
        if skipped < kept {
            lemma_place(all, rooted, skipped as nat);
            assert(place(all, rooted, skipped as nat) <= place(all, rooted, (kept - 1) as nat));
        }
    }
    if rooted && count == 0 {
        let mut out: Vec<u8> = Vec::new();
        out.push(47);
        assert(out@ =~= root_part());
        if kept > 0 {
            proof {
                lemma_rooted_split(text@);
                assert(all[0].len() == 0);
                lemma_place_kept(all, rooted, (kept - 1) as nat);
            }
            let rest = join_pieces(&pieces, 1, last + 1);
            append_bytes(&mut out, &rest);
        }
        out
    } else if skipped >= kept {
        let out: Vec<u8> = Vec::new();
        assert(out@ =~= seq![]);
        out
    } else {
        join_pieces(&pieces, first, last + 1)
    }
}

/// The piece that gives a component is not empty.
proof fn lemma_place_kept(pieces: Seq<Seq<u8>>, rooted: bool, m: nat)
    requires
        m < kept_parts(pieces, rooted).len(),
    ensures
        0 <= place(pieces, rooted, m) < pieces.len(),
        pieces[place(pieces, rooted, m)].len() > 0,
    decreases pieces.len(),
{
    if kept_parts(pieces.drop_last(), rooted).len() > m {
        lemma_place_kept(pieces.drop_last(), rooted, m);
    }
}

/// Nothing stands before the first separator of a rooted text.
proof fn lemma_rooted_split(text: Seq<u8>)
    requires
        is_rooted_text(text),
    ensures
        split(text, 47u8).len() > 0,
        split(text, 47u8)[0].len() == 0,
{
    let rest = text.skip(1);
    assert(text =~= Seq::<u8>::empty().push(47u8) + rest);
    lemma_split_concat(Seq::<u8>::empty(), rest, 47u8);
    reveal_with_fuel(split, 2);
    assert(split(Seq::<u8>::empty(), 47u8) =~= seq![Seq::<u8>::empty()]);
}

/// How two paths compare.
pub fn order_paths(a: &FsPath, b: &FsPath) -> (r: Order)
    ensures
        r == path_order(a@, b@),
{
    let ghost f = part_order();
    let mut i: usize = 0;
    assert(a@.skip(0) =~= a@ && b@.skip(0) =~= b@);
    while i < a.parts.len() && i < b.parts.len()
        invariant
            0 <= i <= a.parts.len(),
            i <= b.parts.len(),
            f == part_order(),
            lex(f, a@, b@) == lex(f, a@.skip(i as int), b@.skip(i as int)),
        decreases a.parts.len() - i,
    {
        proof {
            lemma_lex_step(f, a@, b@, i as int);
        }
        match order_parts(&a.parts[i], &b.parts[i]) {
            Order::Before => {
                return Order::Before;
            },
            Order::After => {
                return Order::After;
            },
            Order::Same => {},
        }
        i = i + 1;
    }
    if i < a.parts.len() {
        Order::After
    } else if i < b.parts.len() {
        Order::Before
    } else {
        Order::Same
    }
}

impl Clone for FsPath {
    fn clone(&self) -> (r: Self)
        ensures
            r@ == self@,
            r.fact() == self.fact(),
    {
        let mut parts: Vec<Vec<u8>> = Vec::new();
        let mut i: usize = 0;
        while i < self.parts.len()
            invariant
                0 <= i <= self.parts.len(),
                byte_strings(parts@) =~= self@.take(i as int),
            decreases self.parts.len() - i,
        {
            let part = copy_bytes(&self.parts[i]);
            proof {
                lemma_byte_strings_push(parts@, part);
            }
            parts.push(part);
            i = i + 1;
        }
        assert(self@.take(self@.len() as int) =~= self@);
        FsPath { parts, text: copy_bytes(&self.text) }
    }
}

impl FsPath {
    /// The text, as it was given.
    pub closed spec fn text(&self) -> Seq<u8> {
        self.text@
    }

    /// The path with its text.
    pub open spec fn fact(&self) -> PathFact {
        PathFact { parts: self@, text: self.text() }
    }

    /// The path of no components.
    pub fn empty() -> (r: FsPath)
        ensures
            r@ == Seq::<Seq<u8>>::empty(),
            r.fact() == PathFact::plain(seq![]),
    {
        let r = FsPath { parts: Vec::new(), text: Vec::new() };
        assert(r@ =~= Seq::<Seq<u8>>::empty());
        assert(r.text@ =~= rendered(seq![]));
        r
    }

    /// The number of components.
    pub fn length(&self) -> (r: usize)
        ensures
            r == self@.len(),
    {
        self.parts.len()
    }

    /// The path that the bytes of a text spell.
    pub fn from_bytes(bytes: &[u8]) -> (r: FsPath)
        ensures
            r@ == components(bytes@),
            r.fact() == PathFact::spelled(bytes@),
    {
        let pieces = split_bytes(bytes, 47);
        let rooted = bytes.len() > 0 && bytes[0] == 47;
        let mut parts: Vec<Vec<u8>> = Vec::new();
        let ghost mut front: Seq<Seq<u8>> = seq![];
        if rooted {
            let mut slash: Vec<u8> = Vec::new();
            slash.push(47);
            assert(slash@ =~= root_part());
            proof {
                lemma_byte_strings_push(parts@, slash);
                front = seq![root_part()];
            }
            parts.push(slash);
        }
        assert(byte_strings(parts@) =~= front);
        let ghost all = byte_strings(pieces@);
        let mut i: usize = 0;
        assert(all.take(0) =~= Seq::<Seq<u8>>::empty());
        assert(front + kept_parts(all.take(0), rooted) =~= front);
        while i < pieces.len()
            invariant
                0 <= i <= pieces.len(),
                all == byte_strings(pieces@),
                byte_strings(parts@) == front + kept_parts(all.take(i as int), rooted),
            decreases pieces.len() - i,
        {
            let piece = &pieces[i];
            assert(all.take(i + 1).drop_last() =~= all.take(i as int));
            assert(all.take(i + 1).last() == piece@);
            assert(piece@.len() == 1 && piece@[0] == 46u8 ==> piece@ =~= dot_part());
            assert(dot_part()[0] == 46u8);
            let dropped = piece.len() == 0 || (piece.len() == 1 && piece[0] == 46 && (rooted || i
                > 0));
            if !dropped {
                let part = copy_bytes(piece);
                proof {
                    lemma_byte_strings_push(parts@, part);
                    assert((front + kept_parts(all.take(i as int), rooted)).push(part@) =~= front
                        + kept_parts(all.take(i as int), rooted).push(part@));
                }
                parts.push(part);
            }
            i = i + 1;
        }
        assert(all.take(all.len() as int) =~= all);
        let mut text: Vec<u8> = Vec::new();
        let mut k: usize = 0;
        while k < bytes.len()
            invariant
                0 <= k <= bytes.len(),
                text@ =~= bytes@.take(k as int),
            decreases bytes.len() - k,
        {
            text.push(bytes[k]);
            k = k + 1;
        }
        assert(text@ =~= bytes@);
        let r = FsPath { parts, text };
        assert(r@ =~= components(bytes@));
        r
    }

    /// The path that a text spells.
    pub fn from_text(text: &str) -> (r: FsPath)
        ensures
            r@ == components(encode_utf8(text@)),
            r.fact() == PathFact::spelled(encode_utf8(text@)),
    {
        FsPath::from_bytes(text.as_bytes())
    }

    /// The bytes of the path's text.
    pub fn to_bytes(&self) -> (r: Vec<u8>)
        ensures
            r@ == self.text(),
    {
        copy_bytes(&self.text)
    }

    /// The path in plain form.
    pub fn plain(&self) -> (r: FsPath)
        ensures
            r@ == self@,
            r.fact() == PathFact::plain(self@),
    {
        let copy = self.clone();
        FsPath { text: self.plain_bytes(), ..copy }
    }

    fn plain_bytes(&self) -> (r: Vec<u8>)
        ensures
            r@ == rendered(self@),
    {
        let mut out: Vec<u8> = Vec::new();
        let mut from: usize = 0;
        if self.parts.len() > 0 && rank_of(&self.parts[0]) == 0 {
            assert(self@[0] == root_part());
            out.push(47);
            from = 1;
        }
        let ghost rest = if is_rooted(self@) {
            self@.skip(1)
        } else {
            self@
        };
        let ghost front = out@;
        assert(front =~= if is_rooted(self@) {
            root_part()
        } else {
            seq![]
        });
        let mut i: usize = from;
        assert(rest.take(0) =~= Seq::<Seq<u8>>::empty());
        assert(front + slash_joined(rest.take(0)) =~= front);
        while i < self.parts.len()
            invariant
                from <= i <= self.parts.len(),
                rest.len() == self.parts.len() - from,
                forall|k: int| 0 <= k < rest.len() ==> #[trigger] rest[k] == self@[k + from],
                out@ == front + slash_joined(rest.take(i - from)),
            decreases self.parts.len() - i,
        {
            let ghost sofar = slash_joined(rest.take(i - from));
            if i > from {
                out.push(47);
            }
            append_bytes(&mut out, &self.parts[i]);
            proof {
                assert(rest[i - from] == self@[i as int]);
                assert(rest.take(i + 1 - from).drop_last() =~= rest.take(i - from));
                if i > from {
                    assert(out@ =~= front + (sofar.push(47u8) + self@[i as int]));
                } else {
                    assert(sofar =~= seq![]);
                    assert(out@ =~= front + self@[i as int]);
                }
            }
            i = i + 1;
        }
        assert(rest.take(rest.len() as int) =~= rest);
        assert(out@ =~= rendered(self@));
        out
    }

    /// The text of the path, bytes that are not Unicode replaced.
    pub fn to_text(&self) -> (r: String)
        ensures
            r@ == self.fact().shown(),
    {
        from_utf8_lossy(self.text.as_slice())
    }

    /// The entry `name` of this directory.
    pub fn child(&self, name: &Vec<u8>) -> (r: FsPath)
        ensures
            r@ == self@.push(name@),
            r.fact() == self.fact().child(name@),
    {
        let mut out = self.clone();
        let part = copy_bytes(name);
        proof {
            lemma_byte_strings_push(out.parts@, part);
        }
        out.parts.push(part);
        let length = out.text.len();
        if length > 0 && out.text[length - 1] != 47 {
            out.text.push(47);
        }
        append_bytes(&mut out.text, name);
        out
    }

    /// The entry of this directory that is called `name`.
    pub fn entry(&self, name: &str) -> (r: FsPath)
        ensures
            r@ == self@.push(encode_utf8(name@)),
            r.fact() == self.fact().child(encode_utf8(name@)),
    {
        let bytes = name.as_bytes();
        let mut part: Vec<u8> = Vec::new();
        let mut i: usize = 0;
        while i < bytes.len()
            invariant
                0 <= i <= bytes.len(),
                part@ =~= bytes@.take(i as int),
            decreases bytes.len() - i,
        {
            part.push(bytes[i]);
            i = i + 1;
        }
        assert(part@ =~= bytes@);
        self.child(&part)
    }

    /// Whether two paths are the same.
    pub fn same(&self, other: &FsPath) -> (r: bool)
        ensures
            r == (self@ == other@),
    {
        assert(self@.len() == self.parts.len() && other@.len() == other.parts.len());
        self.parts.len() == other.parts.len() && self.within(other)
    }

    /// Whether this path is `base` or lies below it.
    pub fn within(&self, base: &FsPath) -> (r: bool)
        ensures
            r == within(self@, base@),
            self@.len() == base@.len() ==> r == (self@ == base@),
    {
        if base.parts.len() > self.parts.len() {
            return false;
        }
        let mut i: usize = 0;
        while i < base.parts.len()
            invariant
                base.parts.len() <= self.parts.len(),
                0 <= i <= base.parts.len(),
                forall|k: int| 0 <= k < i ==> #[trigger] self@[k] == base@[k],
            decreases base.parts.len() - i,
        {
            if !same_bytes(self.parts[i].as_slice(), base.parts[i].as_slice()) {
                assert(self@[i as int] != base@[i as int]);
                assert(self@.take(base@.len() as int)[i as int] == self@[i as int]);
                return false;
            }
            assert(self@[i as int] == base@[i as int]);
            i = i + 1;
        }
        assert(self@.take(base@.len() as int) =~= base@);
        assert(self@.len() == base@.len() ==> self@ =~= base@);
        true
    }

    /// Whether this directory is above `path`.
    pub fn is_above(&self, path: &FsPath) -> (r: bool)
        ensures
            r == is_ancestor(self@, path@),
    {
        self.parts.len() < path.parts.len() && path.within(self) && (self.parts.len() > 0
            || !path.is_rooted())
    }

    /// Whether the path starts at the root.
    pub fn is_rooted(&self) -> (r: bool)
        ensures
            r == is_rooted(self@),
    {
        if self.parts.len() > 0 {
            assert(self.parts@[0]@ == self@[0]);
            rank_of(&self.parts[0]) == 0
        } else {
            false
        }
    }

    /// The first `count` components, in plain form.
    pub fn upto(&self, count: usize) -> (r: FsPath)
        requires
            count <= self@.len(),
        ensures
            r@ == self@.take(count as int),
            r.fact() == PathFact::plain(self@.take(count as int)),
    {
        let mut parts: Vec<Vec<u8>> = Vec::new();
        let mut i: usize = 0;
        while i < count
            invariant
                0 <= i <= count <= self.parts@.len(),
                byte_strings(parts@) =~= self@.take(i as int),
            decreases count - i,
        {
            let part = copy_bytes(&self.parts[i]);
            proof {
                lemma_byte_strings_push(parts@, part);
            }
            parts.push(part);
            i = i + 1;
        }
        let r = FsPath { parts, text: Vec::new() };
        r.plain()
    }

    /// The components behind the first `count`.
    pub fn skip(&self, count: usize) -> (r: FsPath)
        requires
            count <= self@.len(),
        ensures
            r@ == self@.skip(count as int),
            r.fact() == self.fact().skip(count as nat),
    {
        let mut parts: Vec<Vec<u8>> = Vec::new();
        let mut i: usize = count;
        while i < self.parts.len()
            invariant
                count <= i <= self.parts.len(),
                byte_strings(parts@) =~= self@.subrange(count as int, i as int),
            decreases self.parts.len() - i,
        {
            let part = copy_bytes(&self.parts[i]);
            proof {
                lemma_byte_strings_push(parts@, part);
            }
            parts.push(part);
            i = i + 1;
        }
        assert(self@.subrange(count as int, self@.len() as int) =~= self@.skip(count as int));
        FsPath { parts, text: rest_bytes(&self.text, count) }
    }

    /// The path below `base`, or `None` where it lies elsewhere.
    pub fn strip_prefix(&self, base: &FsPath) -> (r: Option<FsPath>)
        ensures
            r is Some <==> within(self@, base@),
            r matches Some(rest) ==> rest@ == self@.skip(base@.len() as int) && rest.fact()
                == self.fact().skip(base@.len()),
    {
        if self.within(base) {
            Some(self.skip(base.parts.len()))
        } else {
            None
        }
    }

    /// The path as it is written from `base`, or as it is where it lies elsewhere.
    pub fn relative_to(&self, base: &FsPath) -> (r: FsPath)
        ensures
            r.fact() == self.fact().relative_to(base.fact()),
    {
        match self.strip_prefix(base) {
            Some(rest) => rest,
            None => self.clone(),
        }
    }

    /// The number of components that name a directory entry.
    pub fn name_count(&self) -> (r: usize)
        ensures
            r == name_count(self@),
    {
        let mut count: usize = 0;
        let mut i: usize = 0;
        assert(self@.take(0) =~= Seq::<Seq<u8>>::empty());
        while i < self.parts.len()
            invariant
                0 <= i <= self.parts.len(),
                count <= i,
                count == name_count(self@.take(i as int)),
            decreases self.parts.len() - i,
        {
            assert(self@.take(i + 1).drop_last() =~= self@.take(i as int));
            assert(self@.take(i + 1).last() == self.parts@[i as int]@);
            if rank_of(&self.parts[i]) == 3 {
                count = count + 1;
            }
            i = i + 1;
        }
        assert(self@.take(self@.len() as int) =~= self@);
        count
    }

    /// Whether one of the components is `..`.
    pub fn climbs(&self) -> (r: bool)
        ensures
            r == self@.contains(dot_dot_part()),
    {
        let mut i: usize = 0;
        while i < self.parts.len()
            invariant
                0 <= i <= self.parts.len(),
                forall|k: int| 0 <= k < i ==> #[trigger] self@[k] != dot_dot_part(),
            decreases self.parts.len() - i,
        {
            if rank_of(&self.parts[i]) == 2 {
                assert(self@[i as int] == dot_dot_part());
                return true;
            }
            assert(self@[i as int] != dot_dot_part()) by {
                assert(dot_dot_part().len() == 2 && root_part().len() == 1 && dot_part().len() == 1);
            }
            i = i + 1;
        }
        false
    }
}

/// Whether `list` holds `path`.
pub fn holds_path(list: &Vec<FsPath>, path: &FsPath) -> (r: bool)
    ensures
        r == path_views(list@).contains(path@),
{
    let mut i: usize = 0;
    while i < list.len()
        invariant
            0 <= i <= list.len(),
            forall|k: int| 0 <= k < i ==> #[trigger] list@[k]@ != path@,
        decreases list.len() - i,
    {
        if list[i].same(path) {
            assert(path_views(list@)[i as int] == path@);
            return true;
        }
        i = i + 1;
    }
    assert forall|k: int| 0 <= k < list@.len() implies path_views(list@)[k] != path@ by {
        assert(list@[k]@ != path@);
    }
    false
}

/// A copy of a list of paths.
pub fn clone_paths(list: &Vec<FsPath>) -> (r: Vec<FsPath>)
    ensures
        path_views(r@) == path_views(list@),
        path_facts(r@) == path_facts(list@),
{
    let mut out: Vec<FsPath> = Vec::new();
    let mut i: usize = 0;
    while i < list.len()
        invariant
            0 <= i <= list.len(),
            path_facts(out@) =~= path_facts(list@).take(i as int),
        decreases list.len() - i,
    {
        let copy = list[i].clone();
        proof {
            lemma_path_facts_push(out@, copy);
        }
        out.push(copy);
        i = i + 1;
    }
    proof {
        assert(path_facts(list@).take(list@.len() as int) =~= path_facts(list@));
        lemma_parts_of_facts(out@);
        lemma_parts_of_facts(list@);
    }
    out
}

/// Each path comes strictly before all that follow it.
pub open spec fn ascending(paths: Seq<Seq<Seq<u8>>>) -> bool {
    forall|i: int, j: int|
        #![trigger paths[i], paths[j]]
        0 <= i < j < paths.len() ==> path_order(paths[i], paths[j]) == Order::Before
}

/// The paths of `list` in ascending order, each once.
pub fn sorted_unique(list: &Vec<FsPath>) -> (r: Vec<FsPath>)
    ensures
        ascending(path_views(r@)),
        forall|p: Seq<Seq<u8>>| #[trigger]
            path_views(r@).contains(p) <==> path_views(list@).contains(p),
        forall|i: int|
            0 <= i < r@.len() ==> is_first_spelling(path_facts(list@), (#[trigger] r@[i]).fact()),
{
    let ghost all = path_views(list@);
    let ghost f = |i: int, j: int| path_order(all[i], all[j]);
    proof {
        lemma_path_order_total();
        let g = lexed(part_order());
        assert forall|a: int, b: int| #[trigger] f(a, b) == f(b, a).flipped() by {
            assert(g(all[a], all[b]) == g(all[b], all[a]).flipped());
        }
        assert forall|a: int, b: int, c: int|
            #![trigger f(a, b), f(b, c)]
            f(a, b) != Order::After && f(b, c) != Order::After implies f(a, c) != Order::After by {
            assert(g(all[a], all[b]) != Order::After && g(all[b], all[c]) != Order::After);
        }
        assert(is_preorder(f));
    }
    let order = |a: usize, b: usize| -> (r: Order)
        requires
            a < list.len(),
            b < list.len(),
        ensures
            r == path_order(list@[a as int]@, list@[b as int]@),
        { order_paths(&list[a], &list[b]) };
    assert forall|a: usize, b: usize, r: Order|
        0 <= a < list.len() && 0 <= b < list.len() && #[trigger] order.ensures(
            (a, b),
            r,
        ) implies r == f(a as int, b as int) by {
        assert(r == path_order(list@[a as int]@, list@[b as int]@));
    }
    let perm = sort_positions(0, list.len(), &order, Ghost(f));
    let mut out: Vec<FsPath> = Vec::new();
    let mut i: usize = 0;
    while i < perm.len()
        invariant
            0 <= i <= perm.len(),
            all == path_views(list@),
            f == (|i: int, j: int| path_order(all[i], all[j])),
            sorts_range(perm@, 0, list@.len() as int, f),
            is_total_order(lexed(part_order())),
            ascending(path_views(out@)),
            forall|k: int|
                0 <= k < i ==> path_views(out@).contains(all[#[trigger] perm@[k] as int]),
            forall|p: Seq<Seq<u8>>| #[trigger] path_views(out@).contains(p) ==> all.contains(p),
            (out@.len() == 0) == (i == 0),
            i > 0 ==> path_views(out@).last() == all[perm@[i - 1] as int],
            forall|k: int|
                0 <= k < out@.len() ==> is_first_spelling(
                    path_facts(list@),
                    (#[trigger] out@[k]).fact(),
                ),
        decreases perm.len() - i,
    {
        let at = perm[i];
        assert(0 <= perm@[i as int] < list@.len());
        let fresh = if out.len() == 0 {
            true
        } else {
            let last = &out[out.len() - 1];
            assert(last@ == path_views(out@).last());
            !last.same(&list[at])
        };
        let ghost before = path_views(out@);
        if fresh {
            let copy = list[at].clone();
            proof {
                let facts = path_facts(list@);
                assert forall|j: int| 0 <= j < at implies (#[trigger] facts[j]).parts != copy@ by {
                    if facts[j].parts == copy@ {
                        // The same path stands earlier: it was met before.
                        assert(perm@.contains(j as usize));
                        let m = choose|m: int| 0 <= m < perm@.len() && perm@[m] == j as usize;
                        let g = lexed(part_order());
                        assert(g(all[j], all[j]) == g(all[j], all[j]).flipped());
                        assert(f(j, at as int) == Order::Same && f(at as int, j) == Order::Same);
                        if m > i {
                            assert(precedes(f, perm@[i as int] as int, perm@[m] as int));
                        }
                        assert(m < i);
                        assert(before.contains(all[perm@[m] as int]));
                        let b = choose|b: int| 0 <= b < before.len() && before[b] == copy@;
                        let prev = perm@[i - 1] as int;
                        assert(precedes(f, prev, at as int));
                        if m < i - 1 {
                            assert(precedes(f, j, prev));
                        }
                        assert(g(all[j], all[prev]) != Order::After);
                        assert(g(all[prev], all[at as int]) != Order::After);
                        assert(g(all[prev], all[at as int]) == g(all[at as int], all[prev]).flipped());
                        assert(g(all[prev], all[at as int]) == Order::Same);
                    }
                }
                assert(is_first_at(facts, copy.fact(), at as int));
                lemma_path_views_push(out@, copy);
                if i > 0 {
                    let prev = perm@[i - 1] as int;
                    assert(f(prev, at as int) != Order::After);
                    let g = lexed(part_order());
                    assert(g(all[prev], all[at as int]) != Order::Same);
                    assert(path_order(all[prev], all[at as int]) == Order::Before);
                    assert forall|k: int| 0 <= k < before.len() implies path_order(
                        #[trigger] before[k],
                        all[at as int],
                    ) == Order::Before by {
                        if k < before.len() - 1 {
                            let (x, y, z) = (before[k], before.last(), all[at as int]);
                            assert(before[before.len() - 1] == y);
                            assert(g(x, y) == Order::Before && g(y, z) == Order::Before);
                            assert(g(x, z) == g(z, x).flipped());
                            if g(x, z) == Order::Same {
                                assert(g(z, x) != Order::After);
                                assert(g(y, z) != Order::After);
                                assert(g(y, x) != Order::After);
                                assert(g(x, y) == g(y, x).flipped());
                            }
                        }
                    }
                }
            }
            out.push(copy);
        }
        proof {
            let after = path_views(out@);
            assert(after.last() == all[at as int]);
            assert forall|p: Seq<Seq<u8>>| before.contains(p) implies after.contains(p) by {
                let k = choose|k: int| 0 <= k < before.len() && before[k] == p;
                assert(after[k] == p);
            }
            assert(after[after.len() - 1] == all[at as int]);
            assert forall|p: Seq<Seq<u8>>| #[trigger] after.contains(p) implies all.contains(p) by {
                let k = choose|k: int| 0 <= k < after.len() && after[k] == p;
                if k < before.len() {
                    assert(before[k] == p);
                    assert(before.contains(p));
                } else {
                    assert(p == all[at as int]);
                }
            }
            assert(ascending(after));
        }
        i = i + 1;
    }
    proof {
        let got = path_views(out@);
        assert forall|p: Seq<Seq<u8>>| all.contains(p) implies got.contains(p) by {
            let k = choose|k: int| 0 <= k < all.len() && all[k] == p;
            assert(perm@.contains(k as usize));
            let m = choose|m: int| 0 <= m < perm@.len() && perm@[m] == k as usize;
            assert(got.contains(all[perm@[m] as int]));
        }
    }
    out
}

/// A path lies within another where that one is its beginning.
pub proof fn law_within_is_prefix(path: Seq<Seq<u8>>, base: Seq<Seq<u8>>)
    ensures
        within(path, base) <==> exists|rest: Seq<Seq<u8>>| path == #[trigger] (base + rest),
        is_ancestor(base, path) ==> base.len() < path.len(),
        base.len() > 0 ==> (is_ancestor(base, path) <==> exists|rest: Seq<Seq<u8>>|
            rest.len() > 0 && path == #[trigger] (base + rest)),
{
    if within(path, base) {
        let rest = path.skip(base.len() as int);
        assert(path =~= base + rest);
    }
    assert forall|rest: Seq<Seq<u8>>| path == #[trigger] (base + rest) implies within(path, base) by {
        assert(path.take(base.len() as int) =~= base);
    }
}

/// Every component names a directory entry but the root, `.` and `..`: so an absolute
/// path of `n` names has depth `n`.
pub proof fn law_names_are_counted(names: Seq<Seq<u8>>)
    requires
        forall|i: int|
            0 <= i < names.len() ==> (#[trigger] names[i]) != seq![47u8] && names[i] != seq![46u8]
                && names[i] != seq![46u8, 46u8],
    ensures
        name_count(names) == names.len(),
        name_count(seq![seq![47u8]] + names) == names.len(),
        name_count(names.push(seq![46u8, 46u8])) == names.len(),
        name_count(names.push(seq![46u8])) == names.len(),
    decreases names.len(),
{
    let root = seq![seq![47u8]];
    let (up, here) = (names.push(seq![46u8, 46u8]), names.push(seq![46u8]));
    assert(up.drop_last() =~= names && here.drop_last() =~= names);
    assert(up.last() == dot_dot_part() && here.last() == dot_part());
    assert(!is_name(up.last()) && !is_name(here.last()));
    assert(name_count(up) == name_count(names) && name_count(here) == name_count(names));
    if names.len() == 0 {
        assert(root + names =~= root);
        assert(root.drop_last() =~= Seq::<Seq<u8>>::empty());
        assert(name_count(root.drop_last()) == 0);
    } else {
        let init = names.drop_last();
        assert forall|i: int| 0 <= i < init.len() implies (#[trigger] init[i]) != seq![47u8]
            && init[i] != seq![46u8] && init[i] != seq![46u8, 46u8] by {
            assert(init[i] == names[i]);
        }
        law_names_are_counted(init);
        assert((root + names).drop_last() =~= root + init);
        assert((root + names).last() == names[names.len() - 1]);
        assert(names.last() == names[names.len() - 1]);
    }
}

/// Repeated separators and `.` between two names leave no trace in the components.
pub proof fn law_separators_do_not_count(front: Seq<u8>, back: Seq<u8>)
    requires
        front.len() > 0,
    ensures
        components(front + seq![47u8, 47u8] + back) == components(front + seq![47u8] + back),
        components(front + seq![47u8, 46u8, 47u8] + back) == components(front + seq![47u8] + back),
        components(front + seq![47u8]) == components(front),
{
    let none = Seq::<u8>::empty();
    let dot = seq![46u8];
    let (a, b) = (split(front, 47u8), split(back, 47u8));
    let rooted = is_rooted_text(front);
    lemma_split_nonempty(front, 47u8);
    assert(split(none, 47u8) =~= seq![none]);
    assert(!dot.contains(47u8));
    lemma_split_single(dot, 47u8);
    assert(front + seq![47u8, 47u8] + back =~= front.push(47u8) + (none.push(47u8) + back));
    assert(front + seq![47u8, 46u8, 47u8] + back =~= front.push(47u8) + (dot.push(47u8) + back));
    assert(front + seq![47u8] + back =~= front.push(47u8) + back);
    assert(front + seq![47u8] =~= front.push(47u8) + none);
    lemma_split_concat(front, none.push(47u8) + back, 47u8);
    lemma_split_concat(none, back, 47u8);
    lemma_split_concat(front, dot.push(47u8) + back, 47u8);
    lemma_split_concat(dot, back, 47u8);
    lemma_split_concat(front, back, 47u8);
    lemma_split_concat(front, none, 47u8);
    lemma_blank_between(a, none, b, rooted);
    lemma_blank_between(a, dot, b, rooted);
    assert((a + seq![none]).drop_last() =~= a);
    assert(a + (seq![none] + b) =~= a + seq![none] + b);
    assert(a + (seq![dot] + b) =~= a + seq![dot] + b);
    assert((front + seq![47u8, 47u8] + back)[0] == front[0]);
    assert((front + seq![47u8, 46u8, 47u8] + back)[0] == front[0]);
    assert((front + seq![47u8] + back)[0] == front[0]);
    assert((front + seq![47u8])[0] == front[0]);
}

proof fn lemma_blank_between(a: Seq<Seq<u8>>, blank: Seq<u8>, b: Seq<Seq<u8>>, rooted: bool)
    requires
        a.len() > 0,
        blank.len() == 0 || blank == dot_part(),
    ensures
        kept_parts(a + seq![blank] + b, rooted) == kept_parts(a + b, rooted),
    decreases b.len(),
{
    if b.len() == 0 {
        assert(a + seq![blank] + b =~= a.push(blank));
        assert(a.push(blank).drop_last() =~= a);
        assert(a + b =~= a);
    } else {
        lemma_blank_between(a, blank, b.drop_last(), rooted);
        assert((a + seq![blank] + b).drop_last() =~= a + seq![blank] + b.drop_last());
        assert((a + b).drop_last() =~= a + b.drop_last());
        assert((a + seq![blank] + b).last() == b.last());
        assert((a + b).last() == b.last());
    }
}

/// Paths compare by the first component in which they differ, names byte by byte; a
/// directory comes before what lies in it.
pub proof fn law_paths_compare(
    p: Seq<Seq<u8>>,
    name: Seq<u8>,
    x: u8,
    y: u8,
    a: Seq<u8>,
    b: Seq<u8>,
    below: Seq<Seq<u8>>,
    beside: Seq<Seq<u8>>,
)
    requires
        x < y,
        part_rank(name.push(x) + a) == 3,
        part_rank(name.push(y) + b) == 3,
    ensures
        path_order(p.push(name.push(x) + a) + below, p.push(name.push(y) + b) + beside)
            == Order::Before,
        path_order(p.push(name.push(y) + b) + beside, p.push(name.push(x) + a) + below)
            == Order::After,
        path_order(p, p.push(name.push(x) + a) + below) == Order::Before,
        path_order(p, p) == Order::Same,
{
    let (s, t) = (name.push(x) + a, name.push(y) + b);
    lemma_lex_prefix(byte_order(), name, x, y, a, b);
    lemma_lex_prefix(byte_order(), name, y, x, b, a);
    lemma_path_order_total();
    let f = part_order();
    let g = lexed(f);
    assert forall|i: int| 0 <= i < p.len() implies f(#[trigger] p[i], p[i]) == Order::Same by {
        assert(f(p[i], p[i]) == f(p[i], p[i]).flipped());
    }
    assert(f(s, t) == Order::Before && f(t, s) == Order::After);
    lemma_lex_prefix(f, p, s, t, below, beside);
    lemma_lex_prefix(f, p, t, s, beside, below);
    assert(g(p, p) == g(p, p).flipped());
}

/// A name is anything but the root, `.` and `..`.
pub proof fn law_names_rank_last(name: Seq<u8>)
    ensures
        name != seq![47u8] && name != seq![46u8] && name != seq![46u8, 46u8] <==> part_rank(name)
            == 3,
{
}

} // verus!
