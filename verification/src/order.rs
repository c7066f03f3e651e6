//! Three-way comparison, lexicographic order and a stable sort.

use vstd::prelude::*;

verus! {

/// The outcome of comparing two values.
#[derive(Clone, Copy, Debug, PartialEq, Eq, Structural)]
pub enum Order {
    Before,
    Same,
    After,
}

impl Order {
    /// The outcome of the comparison with its sides swapped.
    pub open spec fn flipped(self) -> Order {
        match self {
            Order::Before => Order::After,
            Order::Same => Order::Same,
            Order::After => Order::Before,
        }
    }

    /// `self`, or `other` where `self` does not decide.
    pub open spec fn or_else(self, other: Order) -> Order {
        if self == Order::Same {
            other
        } else {
            self
        }
    }
}

/// How two integers compare.
pub open spec fn order_int(a: int, b: int) -> Order {
    if a < b {
        Order::Before
    } else if a > b {
        Order::After
    } else {
        Order::Same
    }
}

pub fn order_u64(a: u64, b: u64) -> (r: Order)
    ensures
        r == order_int(a as int, b as int),
{
    if a < b {
        Order::Before
    } else if a > b {
        Order::After
    } else {
        Order::Same
    }
}

/// `f` compares consistently: swapping sides flips it and "not after" chains.
pub open spec fn is_preorder<A>(f: spec_fn(A, A) -> Order) -> bool {
    &&& forall|a: A, b: A| #[trigger] f(a, b) == f(b, a).flipped()
    &&& forall|a: A, b: A, c: A|
        #![trigger f(a, b), f(b, c)]
        f(a, b) != Order::After && f(b, c) != Order::After ==> f(a, c) != Order::After
}

/// A preorder that calls two values the same only when they are equal.
pub open spec fn is_total_order<A>(f: spec_fn(A, A) -> Order) -> bool {
    &&& is_preorder(f)
    &&& forall|a: A, b: A| #[trigger] f(a, b) == Order::Same ==> a == b
}

/// Dictionary order of sequences whose elements compare by `f`.
pub open spec fn lex<A>(f: spec_fn(A, A) -> Order, a: Seq<A>, b: Seq<A>) -> Order
    decreases a.len(),
{
    if a.len() == 0 {
        if b.len() == 0 {
            Order::Same
        } else {
            Order::Before
        }
    } else if b.len() == 0 {
        Order::After
    } else {
        f(a[0], b[0]).or_else(lex(f, a.skip(1), b.skip(1)))
    }
}

/// [`lex`] as a comparison of its own.
pub open spec fn lexed<A>(f: spec_fn(A, A) -> Order) -> spec_fn(Seq<A>, Seq<A>) -> Order {
    |a: Seq<A>, b: Seq<A>| lex(f, a, b)
}

proof fn lemma_lex_flips<A>(f: spec_fn(A, A) -> Order, a: Seq<A>, b: Seq<A>)
    requires
        is_preorder(f),
    ensures
        lex(f, a, b) == lex(f, b, a).flipped(),
    decreases a.len(),
{
    if a.len() > 0 && b.len() > 0 {
        lemma_lex_flips(f, a.skip(1), b.skip(1));
        assert(f(a[0], b[0]) == f(b[0], a[0]).flipped());
    }
}

proof fn lemma_lex_chains<A>(f: spec_fn(A, A) -> Order, a: Seq<A>, b: Seq<A>, c: Seq<A>)
    requires
        is_preorder(f),
        lex(f, a, b) != Order::After,
        lex(f, b, c) != Order::After,
    ensures
        lex(f, a, c) != Order::After,
    decreases a.len(),
{
    if a.len() > 0 && b.len() > 0 && c.len() > 0 {
        let (x, y, z) = (a[0], b[0], c[0]);
        assert(f(x, y) == f(y, x).flipped());
        assert(f(y, z) == f(z, y).flipped());
        assert(f(x, z) == f(z, x).flipped());
        if f(x, y) == Order::Same && f(y, z) == Order::Same {
            lemma_lex_chains(f, a.skip(1), b.skip(1), c.skip(1));
        }
    }
}

proof fn lemma_lex_same<A>(f: spec_fn(A, A) -> Order, a: Seq<A>, b: Seq<A>)
    requires
        is_total_order(f),
        lex(f, a, b) == Order::Same,
    ensures
        a == b,
    decreases a.len(),
{
    if a.len() > 0 && b.len() > 0 {
        lemma_lex_same(f, a.skip(1), b.skip(1));
        assert(a =~= seq![a[0]] + a.skip(1));
        assert(b =~= seq![b[0]] + b.skip(1));
    } else {
        assert(a =~= b);
    }
}

/// Dictionary order inherits totality from the order of the elements.
pub proof fn lemma_lex_total<A>(f: spec_fn(A, A) -> Order)
    requires
        is_total_order(f),
    ensures
        is_total_order(lexed(f)),
{
    let g = lexed(f);
    assert forall|a: Seq<A>, b: Seq<A>| #[trigger] g(a, b) == g(b, a).flipped() by {
        lemma_lex_flips(f, a, b);
    }
    assert forall|a: Seq<A>, b: Seq<A>, c: Seq<A>|
        #![trigger g(a, b), g(b, c)]
        g(a, b) != Order::After && g(b, c) != Order::After implies g(a, c) != Order::After by {
        lemma_lex_chains(f, a, b, c);
    }
    assert forall|a: Seq<A>, b: Seq<A>| #[trigger] g(a, b) == Order::Same implies a == b by {
        lemma_lex_same(f, a, b);
    }
}

/// Where two sequences agree up to `i`, what follows decides.
pub proof fn lemma_lex_step<A>(f: spec_fn(A, A) -> Order, a: Seq<A>, b: Seq<A>, i: int)
    requires
        0 <= i < a.len(),
        i < b.len(),
    ensures
        lex(f, a.skip(i), b.skip(i)) == f(a[i], b[i]).or_else(lex(f, a.skip(i + 1), b.skip(i + 1))),
{
    assert(a.skip(i).skip(1) =~= a.skip(i + 1));
    assert(b.skip(i).skip(1) =~= b.skip(i + 1));
}

/// `a` comes strictly before `b`: by `f`, or by position where `f` does not tell.
pub open spec fn precedes(f: spec_fn(int, int) -> Order, a: int, b: int) -> bool {
    f(a, b) == Order::Before || (f(a, b) == Order::Same && a < b)
}

/// `perm` lists `lo..hi`, each once, in the order of `f`; ties keep their order.
pub open spec fn sorts_range(perm: Seq<usize>, lo: int, hi: int, f: spec_fn(int, int) -> Order) -> bool {
    &&& perm.len() == hi - lo
    &&& forall|i: int| 0 <= i < perm.len() ==> lo <= #[trigger] perm[i] < hi
    &&& forall|x: usize| lo <= x < hi ==> #[trigger] perm.contains(x)
    &&& forall|i: int, j: int|
        #![trigger perm[i], perm[j]]
        0 <= i < j < perm.len() ==> precedes(f, perm[i] as int, perm[j] as int)
}

/// `perm` is the stable sort of the positions `0..n` by `f`.
pub open spec fn is_stable_sort(perm: Seq<usize>, n: nat, f: spec_fn(int, int) -> Order) -> bool {
    sorts_range(perm, 0, n as int, f)
}

/// `out` is `input` rearranged: stably sorted by `f`.
pub open spec fn stably_sorted<A>(input: Seq<A>, out: Seq<A>, f: spec_fn(A, A) -> Order) -> bool {
    exists|perm: Seq<usize>| #[trigger] is_rearrangement(input, out, perm, f)
}

/// `out` is `input` read in the order `perm`, the stable sort of its positions.
pub open spec fn is_rearrangement<A>(
    input: Seq<A>,
    out: Seq<A>,
    perm: Seq<usize>,
    f: spec_fn(A, A) -> Order,
) -> bool {
    &&& is_stable_sort(perm, input.len(), |i: int, j: int| f(input[i], input[j]))
    &&& out =~= Seq::new(perm.len(), |i: int| input[perm[i] as int])
}

proof fn lemma_precedes_chains(f: spec_fn(int, int) -> Order, a: int, b: int, c: int)
    requires
        is_preorder(f),
        precedes(f, a, b),
        precedes(f, b, c),
    ensures
        precedes(f, a, c),
{
    assert(f(a, b) == f(b, a).flipped());
    assert(f(b, c) == f(c, b).flipped());
    assert(f(a, c) == f(c, a).flipped());
    if f(a, c) == Order::Same {
        if f(a, b) == Order::Before {
            assert(f(b, c) != Order::After && f(c, a) != Order::After);
            assert(f(b, a) != Order::After);
        } else if f(b, c) == Order::Before {
            assert(f(c, a) != Order::After && f(a, b) != Order::After);
            assert(f(c, b) != Order::After);
        }
    }
}

/// Merge two sorted runs, all of the left's positions lying before the right's.
fn merge<F: Fn(usize, usize) -> Order>(
    left: Vec<usize>,
    right: Vec<usize>,
    order: &F,
    Ghost(lo): Ghost<int>,
    Ghost(mid): Ghost<int>,
    Ghost(hi): Ghost<int>,
    Ghost(f): Ghost<spec_fn(int, int) -> Order>,
) -> (out: Vec<usize>)
    requires
        lo <= mid <= hi <= usize::MAX,
        is_preorder(f),
        sorts_range(left@, lo, mid, f),
        sorts_range(right@, mid, hi, f),
        forall|a: usize, b: usize| lo <= a < hi && lo <= b < hi ==> #[trigger] order.requires((a, b)),
        forall|a: usize, b: usize, r: Order|
            lo <= a < hi && lo <= b < hi && #[trigger] order.ensures((a, b), r) ==> r == f(
                a as int,
                b as int,
            ),
    ensures
        sorts_range(out@, lo, hi, f),
{
    let mut out: Vec<usize> = Vec::with_capacity(left.len().saturating_add(right.len()));
    let mut i: usize = 0;
    let mut j: usize = 0;
    while i < left.len() || j < right.len()
        invariant
            lo <= mid <= hi <= usize::MAX,
            is_preorder(f),
            sorts_range(left@, lo, mid, f),
            sorts_range(right@, mid, hi, f),
            forall|a: usize, b: usize|
                lo <= a < hi && lo <= b < hi ==> #[trigger] order.requires((a, b)),
            forall|a: usize, b: usize, r: Order|
                lo <= a < hi && lo <= b < hi && #[trigger] order.ensures((a, b), r) ==> r == f(
                    a as int,
                    b as int,
                ),
            0 <= i <= left.len(),
            0 <= j <= right.len(),
            out.len() == i + j,
            forall|k: int| 0 <= k < out.len() ==> lo <= #[trigger] out[k] < hi,
            forall|k: int| 0 <= k < i ==> out@.contains(#[trigger] left[k]),
            forall|k: int| 0 <= k < j ==> out@.contains(#[trigger] right[k]),
            forall|k: int, l: int|
                #![trigger out[k], out[l]]
                0 <= k < l < out.len() ==> precedes(f, out[k] as int, out[l] as int),
            forall|k: int, l: int|
                #![trigger out[k], left[l]]
                0 <= k < out.len() && i <= l < left.len() ==> precedes(
                    f,
                    out[k] as int,
                    left[l] as int,
                ),
            forall|k: int, l: int|
                #![trigger out[k], right[l]]
                0 <= k < out.len() && j <= l < right.len() ==> precedes(
                    f,
                    out[k] as int,
                    right[l] as int,
                ),
        decreases left.len() + right.len() - i - j,
    {
        let take_left = if i == left.len() {
            false
        } else if j == right.len() {
            true
        } else {
            order(right[j], left[i]) != Order::Before
        };
        let ghost before = out@;
        if take_left {
            proof {
                assert forall|l: int| j <= l < right.len() implies precedes(
                    f,
                    left[i as int] as int,
                    #[trigger] right[l] as int,
                ) by {
                    let (a, b) = (left[i as int] as int, right[j as int] as int);
                    assert(f(a, b) == f(b, a).flipped());
                    assert(precedes(f, a, b));
                    if l > j {
                        lemma_precedes_chains(f, a, b, right[l] as int);
                    }
                }
            }
            out.push(left[i]);
            i = i + 1;
        } else {
            proof {
                assert forall|l: int| i <= l < left.len() implies precedes(
                    f,
                    right[j as int] as int,
                    #[trigger] left[l] as int,
                ) by {
                    let (a, b) = (right[j as int] as int, left[i as int] as int);
                    assert(precedes(f, a, b));
                    if l > i {
                        lemma_precedes_chains(f, a, b, left[l] as int);
                    }
                }
            }
            out.push(right[j]);
            j = j + 1;
        }
        assert(out@.drop_last() =~= before);
        assert(forall|k: int| 0 <= k < before.len() ==> #[trigger] out@[k] == before[k]);
        assert forall|x: usize| before.contains(x) implies out@.contains(x) by {
            let k = choose|k: int| 0 <= k < before.len() && before[k] == x;
            assert(out@[k] == x);
        }
        assert(out@[out@.len() - 1] == out@.last());
    }
    proof {
        assert forall|x: usize| lo <= x < hi implies #[trigger] out@.contains(x) by {
            if x < mid {
                assert(left@.contains(x));
                let k = choose|k: int| 0 <= k < left@.len() && left@[k] == x;
                assert(out@.contains(left[k]));
            } else {
                assert(right@.contains(x));
                let k = choose|k: int| 0 <= k < right@.len() && right@[k] == x;
                assert(out@.contains(right[k]));
            }
        }
    }
    out
}

/// The positions `lo..hi` in the order of `f`, ties in ascending position.
pub(crate) fn sort_positions<F: Fn(usize, usize) -> Order>(
    lo: usize,
    hi: usize,
    order: &F,
    Ghost(f): Ghost<spec_fn(int, int) -> Order>,
) -> (out: Vec<usize>)
    requires
        lo <= hi,
        is_preorder(f),
        forall|a: usize, b: usize| lo <= a < hi && lo <= b < hi ==> #[trigger] order.requires((a, b)),
        forall|a: usize, b: usize, r: Order|
            lo <= a < hi && lo <= b < hi && #[trigger] order.ensures((a, b), r) ==> r == f(
                a as int,
                b as int,
            ),
    ensures
        sorts_range(out@, lo as int, hi as int, f),
    decreases hi - lo,
{
    if lo == hi {
        return Vec::new();
    }
    if hi - lo == 1 {
        let mut out: Vec<usize> = Vec::new();
        out.push(lo);
        assert(out@[0] == lo);
        return out;
    }
    let mid = lo + (hi - lo) / 2;
    let left = sort_positions(lo, mid, order, Ghost(f));
    let right = sort_positions(mid, hi, order, Ghost(f));
    merge(
        left,
        right,
        order,
        Ghost(lo as int),
        Ghost(mid as int),
        Ghost(hi as int),
        Ghost(f),
    )
}

/// A sorted list holds what it was made from, as much of it, and nothing that
/// should come later stands before anything else.
pub proof fn law_sorted_list<A>(input: Seq<A>, out: Seq<A>, f: spec_fn(A, A) -> Order)
    requires
        stably_sorted(input, out, f),
        input.len() <= usize::MAX,
    ensures
        out.len() == input.len(),
        forall|x: A| #[trigger] out.contains(x) <==> input.contains(x),
        forall|i: int, j: int|
            #![trigger out[i], out[j]]
            0 <= i < j < out.len() ==> f(out[i], out[j]) != Order::After,
{
    let perm = choose|perm: Seq<usize>| #[trigger] is_rearrangement(input, out, perm, f);
    let g = |i: int, j: int| f(input[i], input[j]);
    assert(sorts_range(perm, 0, input.len() as int, g));
    assert forall|i: int, j: int|
        #![trigger out[i], out[j]]
        0 <= i < j < out.len() implies f(out[i], out[j]) != Order::After by {
        assert(precedes(g, perm[i] as int, perm[j] as int));
        assert(out[i] == input[perm[i] as int] && out[j] == input[perm[j] as int]);
    }
    assert forall|x: A| #[trigger] out.contains(x) <==> input.contains(x) by {
        if out.contains(x) {
            let i = choose|i: int| 0 <= i < out.len() && out[i] == x;
            assert(out[i] == input[perm[i] as int]);
        }
        if input.contains(x) {
            let i = choose|i: int| 0 <= i < input.len() && input[i] == x;
            assert(perm.contains(i as usize));
            let k = choose|k: int| 0 <= k < perm.len() && perm[k] == i as usize;
            assert(out[k] == x);
        }
    }
}

/// Sequences compare by the first place in which they differ.
pub proof fn lemma_lex_prefix<A>(
    f: spec_fn(A, A) -> Order,
    p: Seq<A>,
    x: A,
    y: A,
    a: Seq<A>,
    b: Seq<A>,
)
    requires
        forall|i: int| 0 <= i < p.len() ==> f(#[trigger] p[i], p[i]) == Order::Same,
        f(x, y) != Order::Same,
    ensures
        lex(f, p.push(x) + a, p.push(y) + b) == f(x, y),
        lex(f, p, p.push(x) + a) == Order::Before,
        lex(f, p.push(x) + a, p) == Order::After,
    decreases p.len(),
{
    let (s, t) = (p.push(x) + a, p.push(y) + b);
    if p.len() > 0 {
        let rest = p.skip(1);
        assert forall|i: int| 0 <= i < rest.len() implies f(#[trigger] rest[i], rest[i])
            == Order::Same by {
            assert(rest[i] == p[i + 1]);
        }
        lemma_lex_prefix(f, rest, x, y, a, b);
        assert(s.skip(1) =~= rest.push(x) + a);
        assert(t.skip(1) =~= rest.push(y) + b);
        assert(s[0] == p[0] && t[0] == p[0]);
        assert(f(p[0], p[0]) == Order::Same);
    } else {
        assert(s[0] == x && t[0] == y);
    }
}

} // verus!
