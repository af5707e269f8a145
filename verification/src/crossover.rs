//! Permutation-preserving crossover operators and segment-reversal mutation.
//!
//! PMX (partially matched crossover) transplants a segment of one parent into
//! the other and repairs the clashes; it is built from transpositions, so the
//! children are permutations by construction.  CX (cycle crossover) partitions
//! the positions into cycles of the mapping between the parents and hands
//! alternate cycles to alternate parents.

use vstd::prelude::*;

use crate::moves::{lemma_reversed_multiset, reverse_segment, reversed};
use crate::rng::rand_below;
use crate::tour::{clone_tour, lemma_swap_valid, lemma_tour_counting, swap_positions, valid_tour};

verus! {

/// Position of `v` in a vector known to contain it.
fn find_pos(c: &Vec<usize>, v: usize) -> (r: usize)
    requires
        c@.contains(v),
    ensures
        r < c@.len(),
        c@[r as int] == v,
{
    let mut i: usize = 0;
    while i < c.len()
        invariant
            i <= c@.len(),
            c@.contains(v),
            forall|k: int| 0 <= k < i ==> c@[k] != v,
        decreases c@.len() - i,
    {
        if c[i] == v {
            return i;
        }
        i = i + 1;
    }
    proof {
        let k = choose|k: int| 0 <= k < c@.len() && c@[k] == v;
        assert(false);
    }
    0
}

/// One PMX child: `base` receives `seg`'s values on the positions
/// `start..end`; each transplant is a transposition, so the result stays a
/// permutation, and a position outside the segment whose `base` value does
/// not clash with the transplanted block keeps that value.
pub fn pmx_child(base: &Vec<usize>, seg: &Vec<usize>, start: usize, end: usize) -> (c: Vec<usize>)
    requires
        valid_tour(base@, base@.len()),
        valid_tour(seg@, base@.len()),
        start <= end <= base@.len(),
    ensures
        valid_tour(c@, base@.len()),
        c@.subrange(start as int, end as int) == seg@.subrange(start as int, end as int),
        forall|t: int|
            0 <= t < base@.len() && !(start <= t < end) && !seg@.subrange(
                start as int,
                end as int,
            ).contains(#[trigger] base@[t]) ==> c@[t] == base@[t],
{
    let n_exec = base.len();
    let ghost n = base@.len();
    proof {
        assert(n == n_exec as nat);
    }
    let mut c = clone_tour(base);
    let mut k: usize = start;
    while k < end
        invariant
            valid_tour(base@, n),
            valid_tour(seg@, n),
            valid_tour(c@, n),
            n == n_exec as nat,
            start <= k <= end <= n,
            forall|t: int| start <= t < k ==> c@[t] == seg@[t],
            forall|t: int|
                0 <= t < n && !(start <= t < end) && !seg@.subrange(
                    start as int,
                    end as int,
                ).contains(#[trigger] base@[t]) ==> c@[t] == base@[t],
        decreases end - k,
    {
        let v = seg[k];
        proof {
            lemma_tour_counting(c@, n);
            assert(c@.contains(v));
        }
        let pos = find_pos(&c, v);
        let ghost c0 = c@;
        proof {
            lemma_swap_valid(c@, k as int, pos as int, n);
            // The prefix already matching the segment holds other values of
            // `seg`, which are all distinct from `v`, so `pos` lies outside it.
            if start <= pos && pos < k {
                assert(c0[pos as int] == seg@[pos as int]);
                assert(seg@[pos as int] != seg@[k as int]);
                assert(false);
            }
            // A protected outside position holds a value that is not in the
            // transplanted block, while `v` is; so `pos` is not that position.
            assert(seg@.subrange(start as int, end as int)[k - start] == v);
        }
        swap_positions(&mut c, k, pos);
        k = k + 1;
    }
    proof {
        assert(c@.subrange(start as int, end as int) =~= seg@.subrange(start as int, end as int));
    }
    c
}

/// Partially matched crossover: a random segment of each parent is
/// transplanted into the other and the clashes are repaired, yielding two
/// valid child permutations.
pub fn pmx_crossover(
    rng: &mut rand_pcg::Pcg64,
    parent1: &Vec<usize>,
    parent2: &Vec<usize>,
) -> (r: (Vec<usize>, Vec<usize>))
    requires
        parent1@.len() >= 1,
        valid_tour(parent1@, parent1@.len()),
        valid_tour(parent2@, parent1@.len()),
    ensures
        valid_tour(r.0@, parent1@.len()),
        valid_tour(r.1@, parent1@.len()),
        exists|s: int, e: int|
            0 <= s <= e < parent1@.len() && r.0@.subrange(s, e) == parent2@.subrange(s, e)
                && r.1@.subrange(s, e) == parent1@.subrange(s, e),
{
    let n = parent1.len();
    let cut1 = rand_below(rng, n);
    let cut2 = rand_below(rng, n);
    let (start, end) = if cut1 < cut2 {
        (cut1, cut2)
    } else {
        (cut2, cut1)
    };
    let child1 = pmx_child(parent1, parent2, start, end);
    let child2 = pmx_child(parent2, parent1, start, end);
    proof {
        let s = start as int;
        let e = end as int;
        assert(0 <= s && s <= e && e < parent1@.len() && child1@.subrange(s, e)
            == parent2@.subrange(s, e) && child2@.subrange(s, e) == parent1@.subrange(s, e));
    }
    (child1, child2)
}

/// Position in `p2` of the value `p1` holds at `v`: following it from any
/// position walks the cycle of the parent mapping that contains it.
pub open spec fn cx_next(p1: Seq<usize>, inv2: Seq<usize>, v: int) -> int {
    inv2[p1[v] as int] as int
}

/// The same successor map as a pure function of the parents alone.
pub open spec fn cx_successor(p1: Seq<usize>, p2: Seq<usize>, v: int) -> int {
    p2.index_of(p1[v])
}

/// `k`-fold application of the successor map.
pub open spec fn cx_iter(p1: Seq<usize>, p2: Seq<usize>, v: int, k: nat) -> int
    decreases k,
{
    if k == 0 {
        v
    } else {
        cx_successor(p1, p2, cx_iter(p1, p2, v, (k - 1) as nat))
    }
}

/// `t` lies on the cycle walked from `u`.
pub open spec fn cx_reaches(p1: Seq<usize>, p2: Seq<usize>, u: int, t: int) -> bool {
    exists|k: nat| #[trigger] cx_iter(p1, p2, u, k) == t
}

/// `m` is the first position of its cycle: no smaller position reaches it.
pub open spec fn cx_cycle_start(p1: Seq<usize>, p2: Seq<usize>, m: int) -> bool {
    0 <= m < p1.len() && forall|u: int| 0 <= u < m ==> !cx_reaches(p1, p2, u, m)
}

/// Number of cycle starts at positions below `m`: the cycles' discovery
/// order, scanning positions upward.
pub open spec fn cx_starts_before(p1: Seq<usize>, p2: Seq<usize>, m: int) -> int
    decreases m,
{
    if m <= 0 {
        0
    } else {
        cx_starts_before(p1, p2, m - 1) + if cx_cycle_start(p1, p2, m - 1) {
            1int
        } else {
            0int
        }
    }
}

/// `t` belongs to an odd-indexed cycle in discovery order: exactly these
/// positions take the second parent in the first child.
pub open spec fn cx_takes_second(p1: Seq<usize>, p2: Seq<usize>, t: int) -> bool {
    exists|u: int|
        0 <= u < p1.len() && #[trigger] cx_cycle_start(p1, p2, u) && cx_reaches(p1, p2, u, t)
            && cx_starts_before(p1, p2, u) % 2 == 1
}

/// The successor is well defined and inverts through the second parent.
proof fn lemma_cx_successor_bounds(p1: Seq<usize>, p2: Seq<usize>, v: int)
    requires
        p1.len() <= usize::MAX,
        valid_tour(p1, p1.len()),
        valid_tour(p2, p1.len()),
        0 <= v < p1.len(),
    ensures
        0 <= cx_successor(p1, p2, v) < p1.len(),
        p2[cx_successor(p1, p2, v)] == p1[v],
{
    lemma_tour_counting(p2, p1.len());
    assert(p2.contains(p1[v]));
    let i = choose|i: int| 0 <= i < p2.len() && p2[i] == p1[v];
    assert(0 <= p2.index_of(p1[v]) < p2.len() && p2[p2.index_of(p1[v])] == p1[v]);
}

/// The successor map is injective on the positions.
proof fn lemma_cx_successor_injective(p1: Seq<usize>, p2: Seq<usize>, a: int, b: int)
    requires
        p1.len() <= usize::MAX,
        valid_tour(p1, p1.len()),
        valid_tour(p2, p1.len()),
        0 <= a < p1.len(),
        0 <= b < p1.len(),
        cx_successor(p1, p2, a) == cx_successor(p1, p2, b),
    ensures
        a == b,
{
    lemma_cx_successor_bounds(p1, p2, a);
    lemma_cx_successor_bounds(p1, p2, b);
    assert(p1[a] == p1[b]);
    if a != b {
        assert(false);
    }
}

/// Iterates of a position stay positions.
proof fn lemma_cx_iter_bounds(p1: Seq<usize>, p2: Seq<usize>, v: int, k: nat)
    requires
        p1.len() <= usize::MAX,
        valid_tour(p1, p1.len()),
        valid_tour(p2, p1.len()),
        0 <= v < p1.len(),
    ensures
        0 <= cx_iter(p1, p2, v, k) < p1.len(),
    decreases k,
{
    if k > 0 {
        lemma_cx_iter_bounds(p1, p2, v, (k - 1) as nat);
        lemma_cx_successor_bounds(p1, p2, cx_iter(p1, p2, v, (k - 1) as nat));
    }
}

/// Iteration composes additively.
proof fn lemma_cx_iter_add(p1: Seq<usize>, p2: Seq<usize>, v: int, a: nat, b: nat)
    requires
        p1.len() <= usize::MAX,
        valid_tour(p1, p1.len()),
        valid_tour(p2, p1.len()),
        0 <= v < p1.len(),
    ensures
        cx_iter(p1, p2, v, a + b) == cx_iter(p1, p2, cx_iter(p1, p2, v, b), a),
    decreases a,
{
    if a > 0 {
        lemma_cx_iter_add(p1, p2, v, (a - 1) as nat, b);
    }
}

/// Two walks that meet have one start on the other's walk.
proof fn lemma_cx_meet(p1: Seq<usize>, p2: Seq<usize>, u: int, w: int, a: nat, b: nat)
    requires
        p1.len() <= usize::MAX,
        valid_tour(p1, p1.len()),
        valid_tour(p2, p1.len()),
        0 <= u < p1.len(),
        0 <= w < p1.len(),
        cx_iter(p1, p2, u, a) == cx_iter(p1, p2, w, b),
        a <= b,
    ensures
        u == cx_iter(p1, p2, w, (b - a) as nat),
    decreases a,
{
    if a > 0 {
        lemma_cx_iter_bounds(p1, p2, u, (a - 1) as nat);
        lemma_cx_iter_bounds(p1, p2, w, (b - 1) as nat);
        lemma_cx_successor_injective(
            p1,
            p2,
            cx_iter(p1, p2, u, (a - 1) as nat),
            cx_iter(p1, p2, w, (b - 1) as nat),
        );
        lemma_cx_meet(p1, p2, u, w, (a - 1) as nat, (b - 1) as nat);
    }
}

/// Every position returns to itself within `n` steps.
proof fn lemma_cx_period(p1: Seq<usize>, p2: Seq<usize>, v: int)
    requires
        p1.len() <= usize::MAX,
        valid_tour(p1, p1.len()),
        valid_tour(p2, p1.len()),
        0 <= v < p1.len(),
    ensures
        exists|p: nat| 1 <= p <= p1.len() && #[trigger] cx_iter(p1, p2, v, p) == v,
{
    let n = p1.len();
    let its = Seq::<usize>::new((n + 1) as nat, |k: int| cx_iter(p1, p2, v, k as nat) as usize);
    assert forall|k: int| 0 <= k < its.len() implies (#[trigger] its[k]) < n by {
        lemma_cx_iter_bounds(p1, p2, v, k as nat);
    }
    if its.no_duplicates() {
        lemma_tour_counting(its, n);
        assert(false);
    }
    let (a, b) = choose|a: int, b: int| 0 <= a < b < its.len() && its[a] == its[b];
    lemma_cx_iter_bounds(p1, p2, v, a as nat);
    lemma_cx_iter_bounds(p1, p2, v, b as nat);
    assert(cx_iter(p1, p2, v, a as nat) == cx_iter(p1, p2, v, b as nat)) by {
        assert(its[a] == cx_iter(p1, p2, v, a as nat) as usize);
        assert(its[b] == cx_iter(p1, p2, v, b as nat) as usize);
    }
    lemma_cx_meet(p1, p2, v, v, a as nat, b as nat);
    assert(cx_iter(p1, p2, v, (b - a) as nat) == v);
    assert(1 <= b - a <= n);
}

/// A walk of any length is matched by one shorter than the period.
proof fn lemma_cx_reduce(p1: Seq<usize>, p2: Seq<usize>, u: int, k: nat, p: nat)
    requires
        p1.len() <= usize::MAX,
        valid_tour(p1, p1.len()),
        valid_tour(p2, p1.len()),
        0 <= u < p1.len(),
        p >= 1,
        cx_iter(p1, p2, u, p) == u,
    ensures
        exists|k2: nat| k2 < p && #[trigger] cx_iter(p1, p2, u, k2) == cx_iter(p1, p2, u, k),
    decreases k,
{
    if k < p {
        let k2: nat = k;
        assert(k2 < p && cx_iter(p1, p2, u, k2) == cx_iter(p1, p2, u, k));
    } else {
        lemma_cx_iter_add(p1, p2, u, (k - p) as nat, p);
        assert(cx_iter(p1, p2, u, k) == cx_iter(p1, p2, u, (k - p) as nat));
        lemma_cx_reduce(p1, p2, u, (k - p) as nat, p);
        let k2 = choose|k2: nat|
            k2 < p && #[trigger] cx_iter(p1, p2, u, k2) == cx_iter(p1, p2, u, (k - p) as nat);
        assert(cx_iter(p1, p2, u, k2) == cx_iter(p1, p2, u, k));
    }
}

/// Reachability along the cycles is symmetric: the walk wraps around.
proof fn lemma_cx_reach_sym(p1: Seq<usize>, p2: Seq<usize>, u: int, t: int)
    requires
        p1.len() <= usize::MAX,
        valid_tour(p1, p1.len()),
        valid_tour(p2, p1.len()),
        0 <= u < p1.len(),
        cx_reaches(p1, p2, u, t),
    ensures
        cx_reaches(p1, p2, t, u),
{
    let k = choose|k: nat| #[trigger] cx_iter(p1, p2, u, k) == t;
    lemma_cx_period(p1, p2, u);
    let p = choose|p: nat| 1 <= p <= p1.len() && #[trigger] cx_iter(p1, p2, u, p) == u;
    lemma_cx_reduce(p1, p2, u, k, p);
    let k2 = choose|k2: nat| k2 < p && #[trigger] cx_iter(p1, p2, u, k2) == cx_iter(p1, p2, u, k);
    lemma_cx_iter_bounds(p1, p2, u, k2);
    lemma_cx_iter_add(p1, p2, u, (p - k2) as nat, k2);
    assert(cx_iter(p1, p2, t, (p - k2) as nat) == u);
}

/// Two cycle starts that reach a common position are the same position.
proof fn lemma_cx_start_unique(p1: Seq<usize>, p2: Seq<usize>, u1: int, u2: int, t: int)
    requires
        p1.len() <= usize::MAX,
        valid_tour(p1, p1.len()),
        valid_tour(p2, p1.len()),
        cx_cycle_start(p1, p2, u1),
        cx_cycle_start(p1, p2, u2),
        cx_reaches(p1, p2, u1, t),
        cx_reaches(p1, p2, u2, t),
    ensures
        u1 == u2,
{
    if u1 != u2 {
        let a = choose|a: nat| #[trigger] cx_iter(p1, p2, u1, a) == t;
        let b = choose|b: nat| #[trigger] cx_iter(p1, p2, u2, b) == t;
        if a <= b {
            lemma_cx_meet(p1, p2, u1, u2, a, b);
            assert(cx_reaches(p1, p2, u2, u1));
        } else {
            lemma_cx_meet(p1, p2, u2, u1, b, a);
            assert(cx_reaches(p1, p2, u1, u2));
        }
        if u1 < u2 {
            if cx_reaches(p1, p2, u2, u1) {
                lemma_cx_reach_sym(p1, p2, u2, u1);
            }
            assert(cx_reaches(p1, p2, u1, u2));
            assert(false);
        } else {
            if cx_reaches(p1, p2, u1, u2) {
                lemma_cx_reach_sym(p1, p2, u1, u2);
            }
            assert(cx_reaches(p1, p2, u2, u1));
            assert(false);
        }
    }
}

/// A marked set closed under the successor is closed under whole walks.
proof fn lemma_cx_mark_closed_iter(
    p1: Seq<usize>,
    p2: Seq<usize>,
    mark: Seq<bool>,
    u: int,
    k: nat,
)
    requires
        p1.len() <= usize::MAX,
        valid_tour(p1, p1.len()),
        valid_tour(p2, p1.len()),
        mark.len() == p1.len(),
        forall|v: int|
            0 <= v < p1.len() && (#[trigger] mark[v]) ==> mark[cx_successor(p1, p2, v)],
        0 <= u < p1.len(),
        mark[u],
    ensures
        mark[cx_iter(p1, p2, u, k)],
    decreases k,
{
    lemma_cx_iter_bounds(p1, p2, u, k);
    if k > 0 {
        lemma_cx_mark_closed_iter(p1, p2, mark, u, (k - 1) as nat);
        lemma_cx_iter_bounds(p1, p2, u, (k - 1) as nat);
    }
}

/// Every marked position's cycle successor is marked and assigned to the
/// same parent.
spec fn cycle_consistent(
    p1: Seq<usize>,
    inv2: Seq<usize>,
    mark: Seq<bool>,
    take2: Seq<bool>,
) -> bool {
    forall|v: int|
        0 <= v < mark.len() && (#[trigger] mark[v]) ==> mark[cx_next(p1, inv2, v)] && take2[
            cx_next(p1, inv2, v)
        ] == take2[v]
}

/// Every marked position's cycle predecessor is marked.
spec fn pre_closed(p2: Seq<usize>, inv1: Seq<usize>, mark: Seq<bool>) -> bool {
    forall|v: int|
        0 <= v < mark.len() && (#[trigger] mark[v]) ==> mark[inv1[p2[v] as int] as int]
}

/// The inverse of a permutation: `r[p[k]] == k` and `p[r[v]] == v`.
fn build_inverse(p: &Vec<usize>) -> (r: Vec<usize>)
    requires
        valid_tour(p@, p@.len()),
    ensures
        r@.len() == p@.len(),
        forall|v: int| 0 <= v < p@.len() ==> (#[trigger] r@[v]) < p@.len(),
        forall|k: int| 0 <= k < p@.len() ==> (#[trigger] r@[p@[k] as int]) == k,
        forall|v: int| 0 <= v < p@.len() ==> (#[trigger] p@[r@[v] as int]) as int == v,
{
    let n_exec = p.len();
    let ghost n = p@.len();
    let mut r: Vec<usize> = Vec::new();
    let mut i: usize = 0;
    while i < n_exec
        invariant
            n_exec == n,
            i <= n,
            r@.len() == i,
            forall|k: int| 0 <= k < i ==> (#[trigger] r@[k]) == 0,
        decreases n_exec - i,
    {
        r.push(0);
        i = i + 1;
    }
    let mut k: usize = 0;
    while k < n_exec
        invariant
            n == p@.len(),
            n_exec == n,
            valid_tour(p@, n),
            r@.len() == n,
            k <= n,
            forall|v: int| 0 <= v < n ==> (#[trigger] r@[v]) < n,
            forall|q: int| 0 <= q < k ==> (#[trigger] r@[p@[q] as int]) == q,
        decreases n_exec - k,
    {
        proof {
            assert(p@[k as int] < n);
            assert forall|q: int| 0 <= q < k implies r@.update(p@[k as int] as int, k)[p@[
            q] as int] == q by {
                assert(p@[q] != p@[k as int]);
            }
        }
        r.set(p[k], k);
        k = k + 1;
    }
    proof {
        lemma_tour_counting(p@, n);
        assert forall|v: int| 0 <= v < n implies (#[trigger] p@[r@[v] as int]) as int == v by {
            assert(p@.contains(v as usize));
            let q = choose|q: int| 0 <= q < p@.len() && p@[q] == v as usize;
            assert(r@[p@[q] as int] == q);
        }
    }
    r
}

/// Corollaries of the cycle characterization used by the crossover proofs:
/// the choice of parent is constant along a cycle, and the origin's cycle
/// always takes the first parent.
proof fn lemma_cx_takes_second_step(p1: Seq<usize>, p2: Seq<usize>, v: int)
    requires
        p1.len() <= usize::MAX,
        valid_tour(p1, p1.len()),
        valid_tour(p2, p1.len()),
        0 <= v < p1.len(),
    ensures
        cx_takes_second(p1, p2, cx_successor(p1, p2, v)) <==> cx_takes_second(p1, p2, v),
{
    let sv = cx_successor(p1, p2, v);
    lemma_cx_successor_bounds(p1, p2, v);
    assert(cx_iter(p1, p2, v, 0) == v);
    assert(cx_iter(p1, p2, v, 1) == sv);
    if cx_takes_second(p1, p2, v) {
        let u = choose|u: int|
            0 <= u < p1.len() && #[trigger] cx_cycle_start(p1, p2, u) && cx_reaches(p1, p2, u, v)
                && cx_starts_before(p1, p2, u) % 2 == 1;
        let k = choose|k: nat| #[trigger] cx_iter(p1, p2, u, k) == v;
        lemma_cx_iter_add(p1, p2, u, 1, k);
        assert(cx_iter(p1, p2, u, k + 1) == sv);
        assert(cx_reaches(p1, p2, u, sv));
    }
    if cx_takes_second(p1, p2, sv) {
        let u = choose|u: int|
            0 <= u < p1.len() && #[trigger] cx_cycle_start(p1, p2, u) && cx_reaches(p1, p2, u, sv)
                && cx_starts_before(p1, p2, u) % 2 == 1;
        let a = choose|a: nat| #[trigger] cx_iter(p1, p2, u, a) == sv;
        if a <= 1 {
            lemma_cx_meet(p1, p2, u, v, a, 1);
            assert(cx_reaches(p1, p2, v, u));
            lemma_cx_reach_sym(p1, p2, v, u);
        } else {
            lemma_cx_meet(p1, p2, v, u, 1, a);
            assert(cx_iter(p1, p2, u, (a - 1) as nat) == v);
            assert(cx_reaches(p1, p2, u, v));
        }
        assert(cx_takes_second(p1, p2, v));
    }
}

proof fn lemma_cx_origin(p1: Seq<usize>, p2: Seq<usize>)
    requires
        p1.len() <= usize::MAX,
        valid_tour(p1, p1.len()),
        valid_tour(p2, p1.len()),
        p1.len() >= 1,
    ensures
        !cx_takes_second(p1, p2, 0),
{
    assert(cx_cycle_start(p1, p2, 0));
    assert(cx_iter(p1, p2, 0, 0) == 0);
    assert(cx_reaches(p1, p2, 0, 0));
    if cx_takes_second(p1, p2, 0) {
        let u = choose|u: int|
            0 <= u < p1.len() && #[trigger] cx_cycle_start(p1, p2, u) && cx_reaches(p1, p2, u, 0)
                && cx_starts_before(p1, p2, u) % 2 == 1;
        lemma_cx_start_unique(p1, p2, u, 0, 0);
    }
}

/// One step of a cycle trace preserves the trace's bookkeeping: earlier
/// marks and choices are untouched, the new mark carries the trace's parity
/// and reachability from the start, and the successor/predecessor links of
/// the traced positions stay within the trace.
#[verifier::rlimit(100)]
proof fn lemma_cx_trace_step(
    p1: Seq<usize>,
    p2: Seq<usize>,
    inv1: Seq<usize>,
    inv2: Seq<usize>,
    mark0: Seq<bool>,
    take20: Seq<bool>,
    mark_pre: Seq<bool>,
    take2_pre: Seq<bool>,
    i: int,
    cur: int,
    prev: int,
    parity: bool,
)
    requires
        p1.len() <= usize::MAX,
        valid_tour(p1, p1.len()),
        valid_tour(p2, p1.len()),
        inv1.len() == p1.len(),
        inv2.len() == p1.len(),
        forall|q: int| 0 <= q < p1.len() ==> (#[trigger] inv2[q]) < p1.len(),
        forall|q: int| 0 <= q < p1.len() ==> (#[trigger] inv1[q]) < p1.len(),
        forall|q: int| 0 <= q < p1.len() ==> (#[trigger] inv1[p1[q] as int]) == q,
        forall|q: int| 0 <= q < p1.len() ==> (#[trigger] p1[inv1[q] as int]) as int == q,
        forall|q: int| 0 <= q < p1.len() ==> (#[trigger] inv2[p2[q] as int]) == q,
        forall|q: int| 0 <= q < p1.len() ==> (#[trigger] p2[inv2[q] as int]) as int == q,
        forall|v: int| 0 <= v < p1.len() ==> cx_next(p1, inv2, v) == cx_successor(p1, p2, v),
        mark_pre.len() == p1.len(),
        take2_pre.len() == p1.len(),
        mark0.len() == p1.len(),
        take20.len() == p1.len(),
        0 <= cur < p1.len(),
        0 <= i < p1.len(),
        !mark_pre[cur],
        cx_reaches(p1, p2, i, cur),
        forall|v: int|
            0 <= v < p1.len() && mark0[v] ==> (#[trigger] mark_pre[v]) && take2_pre[v] == take20[v],
        forall|v: int|
            0 <= v < p1.len() && (#[trigger] mark_pre[v]) && !mark0[v] ==> take2_pre[v] == parity
                && cx_reaches(p1, p2, i, v),
        forall|v: int|
            0 <= v < p1.len() && (#[trigger] mark_pre[v]) && !mark0[v] && v != prev ==> mark_pre[
                cx_next(p1, inv2, v)
            ] && !mark0[cx_next(p1, inv2, v)],
        forall|v: int|
            0 <= v < p1.len() && (#[trigger] mark_pre[v]) && !mark0[v] && v != i ==> mark_pre[
                inv1[p2[v] as int] as int
            ] && !mark0[inv1[p2[v] as int] as int],
        (prev == -1 && mark_pre == mark0 && cur == i) || (0 <= prev < p1.len() && mark_pre[prev]
            && !mark0[prev] && cx_next(p1, inv2, prev) == cur),
    ensures
        ({
            let mark = mark_pre.update(cur, true);
            let take2 = take2_pre.update(cur, parity);
            &&& forall|v: int|
                0 <= v < p1.len() && mark0[v] ==> (#[trigger] mark[v]) && take2[v] == take20[v]
            &&& forall|v: int|
                0 <= v < p1.len() && (#[trigger] mark[v]) && !mark0[v] ==> take2[v] == parity
                    && cx_reaches(p1, p2, i, v)
            &&& forall|v: int|
                0 <= v < p1.len() && (#[trigger] mark[v]) && !mark0[v] && v != cur ==> mark[
                    cx_next(p1, inv2, v)
                ] && !mark0[cx_next(p1, inv2, v)]
            &&& forall|v: int|
                0 <= v < p1.len() && (#[trigger] mark[v]) && !mark0[v] && v != i ==> mark[
                    inv1[p2[v] as int] as int
                ] && !mark0[inv1[p2[v] as int] as int]
            &&& mark[cur] && !mark0[cur] && cx_next(p1, inv2, cur) < p1.len()
            &&& cx_reaches(p1, p2, i, cx_next(p1, inv2, cur))
        }),
{
    let n = p1.len();
    let mark = mark_pre.update(cur, true);
    let take2 = take2_pre.update(cur, parity);
    assert forall|v: int|
        0 <= v < n && mark0[v] implies (#[trigger] mark[v]) && take2[v] == take20[v] by {
        assert(mark_pre[v]);
        assert(v != cur);
    }
    assert forall|v: int|
        0 <= v < n && (#[trigger] mark[v]) && !mark0[v] implies take2[v] == parity && cx_reaches(
        p1,
        p2,
        i,
        v,
    ) by {
        if v != cur {
            assert(mark_pre[v]);
        }
    }
    assert forall|v: int|
        0 <= v < n && (#[trigger] mark[v]) && !mark0[v] && v != cur implies mark[cx_next(
        p1,
        inv2,
        v,
    )] && !mark0[cx_next(p1, inv2, v)] by {
        if prev == -1 {
            assert(mark_pre == mark0);
            assert(false);
        } else if v == prev {
            assert(cx_next(p1, inv2, prev) == cur);
        }
    }
    assert forall|v: int|
        0 <= v < n && (#[trigger] mark[v]) && !mark0[v] && v != i implies mark[inv1[p2[
    v] as int] as int] && !mark0[inv1[p2[v] as int] as int] by {
        if v == cur {
            if prev == -1 {
                assert(mark_pre == mark0);
                assert(cur == i);
                assert(false);
            } else {
                // The predecessor of `cur` is `prev`.
                assert(inv2[p1[prev] as int] == cur);
                assert(p2[inv2[p1[prev] as int] as int] as int == p1[prev] as int);
                assert(p2[cur] == p1[prev]);
                assert(inv1[p1[prev] as int] == prev);
                assert(inv1[p2[cur] as int] == prev);
            }
        }
    }
    // The pending position stays on the walk from the start.
    let k = choose|k: nat| #[trigger] cx_iter(p1, p2, i, k) == cur;
    lemma_cx_iter_add(p1, p2, i, 1, k);
    assert(cx_iter(p1, p2, i, k + 1) == cx_successor(p1, p2, cur));
    assert(cx_reaches(p1, p2, i, cx_next(p1, inv2, cur)));
}

/// The cycle assignment: position `t` is assigned the second parent exactly
/// when its cycle is odd-indexed in discovery order, `cx_takes_second`.
#[verifier::rlimit(100)]
fn cx_assignment(parent1: &Vec<usize>, parent2: &Vec<usize>) -> (take2: Vec<bool>)
    requires
        valid_tour(parent1@, parent1@.len()),
        valid_tour(parent2@, parent1@.len()),
    ensures
        take2@.len() == parent1@.len(),
        forall|t: int|
            0 <= t < parent1@.len() ==> ((#[trigger] take2@[t]) <==> cx_takes_second(
                parent1@,
                parent2@,
                t,
            )),
{
    let ghost n = parent1@.len();
    let n_exec = parent1.len();
    let inv1 = build_inverse(parent1);
    let inv2 = build_inverse(parent2);
    proof {
        // The executable successor (through the inverse table) agrees with
        // the specification successor.
        assert forall|v: int| 0 <= v < n implies cx_next(parent1@, inv2@, v) == cx_successor(
            parent1@,
            parent2@,
            v,
        ) by {
            lemma_cx_successor_bounds(parent1@, parent2@, v);
            assert(inv2@[parent2@[cx_successor(parent1@, parent2@, v)] as int] == cx_successor(
                parent1@,
                parent2@,
                v,
            ));
        }
    }
    let mut take2: Vec<bool> = Vec::new();
    let mut mark: Vec<bool> = Vec::new();
    let mut i: usize = 0;
    while i < n_exec
        invariant
            n_exec == n,
            i <= n,
            take2@.len() == i,
            mark@.len() == i,
            forall|p: int| 0 <= p < i ==> !(#[trigger] mark@[p]),
            forall|p: int| 0 <= p < i ==> !(#[trigger] take2@[p]),
        decreases n_exec - i,
    {
        take2.push(false);
        mark.push(false);
        i = i + 1;
    }
    let mut parity = false;
    let mut i: usize = 0;
    while i < n_exec
        invariant
            n == parent1@.len(),
            n_exec == n,
            valid_tour(parent1@, n),
            valid_tour(parent2@, n),
            inv1@.len() == n,
            inv2@.len() == n,
            forall|p: int| 0 <= p < n ==> (#[trigger] inv2@[p]) < n,
            forall|q: int| 0 <= q < n ==> (#[trigger] inv1@[q]) < n,
            forall|q: int| 0 <= q < n ==> (#[trigger] inv1@[parent1@[q] as int]) == q,
            forall|q: int| 0 <= q < n ==> (#[trigger] parent1@[inv1@[q] as int]) as int == q,
            forall|q: int| 0 <= q < n ==> (#[trigger] inv2@[parent2@[q] as int]) == q,
            forall|q: int| 0 <= q < n ==> (#[trigger] parent2@[inv2@[q] as int]) as int == q,
            forall|v: int|
                0 <= v < n ==> cx_next(parent1@, inv2@, v) == cx_successor(parent1@, parent2@, v),
            take2@.len() == n,
            mark@.len() == n,
            i <= n,
            forall|v: int| 0 <= v < i ==> (#[trigger] mark@[v]),
            cycle_consistent(parent1@, inv2@, mark@, take2@),
            pre_closed(parent2@, inv1@, mark@),
            parity <==> cx_starts_before(parent1@, parent2@, i as int) % 2 == 1,
            forall|v: int|
                0 <= v < n && (#[trigger] mark@[v]) ==> (take2@[v] <==> cx_takes_second(
                    parent1@,
                    parent2@,
                    v,
                )),
            forall|v: int|
                0 <= v < n && (#[trigger] mark@[v]) ==> exists|u: int|
                    0 <= u < i && #[trigger] cx_cycle_start(parent1@, parent2@, u) && cx_reaches(
                        parent1@,
                        parent2@,
                        u,
                        v,
                    ),
        decreases n_exec - i,
    {
        if !mark[i] {
            proof {
                // Unmarked means no smaller position walks to `i`: marked
                // positions' whole walks are marked.
                assert forall|u: int| 0 <= u < i implies !cx_reaches(
                    parent1@,
                    parent2@,
                    u,
                    i as int,
                ) by {
                    if cx_reaches(parent1@, parent2@, u, i as int) {
                        let k = choose|k: nat|
                            #[trigger] cx_iter(parent1@, parent2@, u, k) == i as int;
                        assert forall|v: int|
                            0 <= v < n && (#[trigger] mark@[v]) implies mark@[cx_successor(
                            parent1@,
                            parent2@,
                            v,
                        )] by {
                            assert(mark@[cx_next(parent1@, inv2@, v)]);
                        }
                        lemma_cx_mark_closed_iter(parent1@, parent2@, mark@, u, k);
                        assert(false);
                    }
                }
                assert(cx_cycle_start(parent1@, parent2@, i as int));
                assert(cx_iter(parent1@, parent2@, i as int, 0) == i as int);
                assert(cx_reaches(parent1@, parent2@, i as int, i as int));
            }
            let ghost mark0 = mark@;
            let ghost take20 = take2@;
            let ghost mut prev: int = -1;
            let mut cur = i;
            while !mark[cur]
                invariant
                    n == parent1@.len(),
                    n_exec == n,
                    valid_tour(parent1@, n),
                    valid_tour(parent2@, n),
                    inv1@.len() == n,
                    inv2@.len() == n,
                    forall|p: int| 0 <= p < n ==> (#[trigger] inv2@[p]) < n,
                    forall|q: int| 0 <= q < n ==> (#[trigger] inv1@[q]) < n,
                    forall|q: int| 0 <= q < n ==> (#[trigger] inv1@[parent1@[q] as int]) == q,
                    forall|q: int|
                        0 <= q < n ==> (#[trigger] parent1@[inv1@[q] as int]) as int == q,
                    forall|q: int| 0 <= q < n ==> (#[trigger] inv2@[parent2@[q] as int]) == q,
                    forall|q: int|
                        0 <= q < n ==> (#[trigger] parent2@[inv2@[q] as int]) as int == q,
                    forall|v: int|
                        0 <= v < n ==> cx_next(parent1@, inv2@, v) == cx_successor(
                            parent1@,
                            parent2@,
                            v,
                        ),
                    take2@.len() == n,
                    mark@.len() == n,
                    mark0.len() == n,
                    take20.len() == n,
                    cur < n,
                    i < n,
                    !mark0[i as int],
                    cx_cycle_start(parent1@, parent2@, i as int),
                    cx_reaches(parent1@, parent2@, i as int, cur as int),
                    mark@[i as int] || cur == i,
                    // Positions marked before this trace keep mark and choice.
                    forall|v: int|
                        0 <= v < n && mark0[v] ==> (#[trigger] mark@[v]) && take2@[v] == take20[v],
                    // Positions of this trace carry the current parity and
                    // are reached from the trace's start.
                    forall|v: int|
                        0 <= v < n && (#[trigger] mark@[v]) && !mark0[v] ==> take2@[v] == parity
                            && cx_reaches(parent1@, parent2@, i as int, v),
                    // Each traced position but the latest has its traced successor.
                    forall|v: int|
                        0 <= v < n && (#[trigger] mark@[v]) && !mark0[v] && v != prev ==> mark@[
                            cx_next(parent1@, inv2@, v)
                        ] && !mark0[cx_next(parent1@, inv2@, v)],
                    // Each traced position but the start has a traced predecessor.
                    forall|v: int|
                        0 <= v < n && (#[trigger] mark@[v]) && !mark0[v] && v != i ==> mark@[
                            inv1@[parent2@[v] as int] as int
                        ] && !mark0[inv1@[parent2@[v] as int] as int],
                    // The latest traced position points at the pending one.
                    (prev == -1 && mark@ == mark0 && cur == i) || (0 <= prev < n && mark@[prev]
                        && !mark0[prev] && cx_next(parent1@, inv2@, prev) == cur),
                decreases n - marked_set(mark@, n).len(),
            {
                proof {
                    broadcast use vstd::set::group_set_axioms;

                    lemma_marked_set_le(mark@, n);
                    assert(!marked_set(mark@, n).contains(cur as int));
                    if marked_set(mark@, n).len() == n {
                        let range = vstd::set_lib::set_int_range(0, n as int);
                        vstd::set_lib::lemma_int_range(0, n as int);
                        assert(marked_set(mark@, n).subset_of(range));
                        vstd::set_lib::lemma_subset_equality(marked_set(mark@, n), range);
                        assert(range.contains(cur as int));
                        assert(false);
                    }
                    lemma_marked_set_insert(mark@, n, cur as int);
                }
                let ghost mark_pre = mark@;
                let ghost take2_pre = take2@;
                mark.set(cur, true);
                take2.set(cur, parity);
                proof {
                    assert(mark@ == mark_pre.update(cur as int, true));
                    assert(take2@ == take2_pre.update(cur as int, parity));
                    assert(!mark_pre[cur as int]);
                    lemma_cx_trace_step(
                        parent1@,
                        parent2@,
                        inv1@,
                        inv2@,
                        mark0,
                        take20,
                        mark_pre,
                        take2_pre,
                        i as int,
                        cur as int,
                        prev,
                        parity,
                    );
                    prev = cur as int;
                }
                cur = inv2[parent1[cur]];
            }
            proof {
                broadcast use vstd::set::group_set_axioms;

                // The trace ran at least once and never re-entered an
                // earlier cycle: a marked predecessor of the exit position
                // would itself have been marked before the trace.
                if prev == -1 {
                    assert(mark@ == mark0);
                    assert(cur == i);
                    assert(false);
                }
                if mark0[cur as int] {
                    assert(inv2@[parent1@[prev] as int] == cur);
                    assert(parent2@[inv2@[parent1@[prev] as int] as int] as int == parent1@[
                    prev] as int);
                    assert(parent2@[cur as int] == parent1@[prev]);
                    assert(inv1@[parent1@[prev] as int] == prev);
                    assert(inv1@[parent2@[cur as int] as int] == prev);
                    assert(mark0[prev]);
                    assert(false);
                }
                assert(mark@[cur as int] && !mark0[cur as int]);
                assert(take2@[cur as int] == parity);
                // Consistency of the grown assignment.
                assert forall|v: int|
                    0 <= v < n && (#[trigger] mark@[v]) implies mark@[cx_next(parent1@, inv2@, v)]
                    && take2@[cx_next(parent1@, inv2@, v)] == take2@[v] by {
                    if mark0[v] {
                        assert(mark0[cx_next(parent1@, inv2@, v)]);
                        assert(take20[cx_next(parent1@, inv2@, v)] == take20[v]);
                        assert(mark@[cx_next(parent1@, inv2@, v)]);
                        assert(take2@[cx_next(parent1@, inv2@, v)] == take2@[cx_next(
                            parent1@,
                            inv2@,
                            v,
                        )]);
                    } else if v == prev {
                        assert(cx_next(parent1@, inv2@, prev) == cur);
                        assert(take2@[v] == parity);
                    } else {
                        assert(mark@[cx_next(parent1@, inv2@, v)] && !mark0[cx_next(
                            parent1@,
                            inv2@,
                            v,
                        )]);
                        assert(take2@[cx_next(parent1@, inv2@, v)] == parity);
                        assert(take2@[v] == parity);
                    }
                }
                // Predecessor closure, through the cycle of the start
                // position being fully walked.
                let tset = Set::new(|v: int| 0 <= v < n && mark@[v] && !mark0[v]);
                let f = |v: int| cx_next(parent1@, inv2@, v);
                let range = vstd::set_lib::set_int_range(0, n as int);
                vstd::set_lib::lemma_int_range(0, n as int);
                assert(tset.subset_of(range));
                vstd::set_lib::lemma_len_subset(tset, range);
                assert(vstd::relations::injective_on(f, tset)) by {
                    assert forall|a: int, b: int|
                        #![trigger tset.contains(a), tset.contains(b)]
                        tset.contains(a) && tset.contains(b) && f(a) == f(b) implies a == b by {
                        assert(parent2@[inv2@[parent1@[a] as int] as int] == parent1@[a]);
                        assert(parent2@[inv2@[parent1@[b] as int] as int] == parent1@[b]);
                        assert(parent1@[a] == parent1@[b]);
                    }
                }
                let mapped = tset.map(f);
                assert(mapped.subset_of(tset)) by {
                    assert forall|u: int| mapped.contains(u) implies tset.contains(u) by {
                        let a = choose|a: int| tset.contains(a) && f(a) == u;
                        if a == prev {
                            assert(tset.contains(cur as int));
                        }
                    }
                }
                vstd::set_lib::lemma_map_size(tset, mapped, f);
                vstd::set_lib::lemma_len_subset(mapped, tset);
                vstd::set_lib::lemma_subset_equality(mapped, tset);
                assert(tset.contains(i as int));
                assert(mapped.contains(i as int));
                let u = choose|u: int| tset.contains(u) && f(u) == i as int;
                assert(inv2@[parent1@[u] as int] == i as int);
                assert(parent2@[inv2@[parent1@[u] as int] as int] as int == parent1@[u] as int);
                assert(parent2@[i as int] == parent1@[u]);
                assert(inv1@[parent1@[u] as int] == u);
                assert(inv1@[parent2@[i as int] as int] == u);
                assert forall|v: int|
                    0 <= v < n && (#[trigger] mark@[v]) implies mark@[inv1@[parent2@[
                v] as int] as int] by {
                    if mark0[v] {
                        assert(mark0[inv1@[parent2@[v] as int] as int]);
                    } else if v == i {
                        assert(mark@[u]);
                    }
                }
                // The assignment matches the parity characterization.
                assert forall|v: int|
                    0 <= v < n && (#[trigger] mark@[v]) implies (take2@[v] <==> cx_takes_second(
                    parent1@,
                    parent2@,
                    v,
                )) by {
                    if !mark0[v] {
                        if parity {
                            assert(cx_starts_before(parent1@, parent2@, i as int) % 2 == 1);
                            assert(cx_reaches(parent1@, parent2@, i as int, v));
                            assert(cx_cycle_start(parent1@, parent2@, i as int));
                            assert(cx_takes_second(parent1@, parent2@, v));
                        } else {
                            if cx_takes_second(parent1@, parent2@, v) {
                                let w = choose|w: int|
                                    0 <= w < n && #[trigger] cx_cycle_start(parent1@, parent2@, w)
                                        && cx_reaches(parent1@, parent2@, w, v)
                                        && cx_starts_before(parent1@, parent2@, w) % 2 == 1;
                                lemma_cx_start_unique(parent1@, parent2@, w, i as int, v);
                                assert(false);
                            }
                        }
                    }
                }
                // One more cycle was discovered below `i + 1`.
                assert(cx_starts_before(parent1@, parent2@, i + 1) == cx_starts_before(
                    parent1@,
                    parent2@,
                    i as int,
                ) + 1);
                // Every marked position has its discovered start below `i + 1`.
                assert forall|v: int| 0 <= v < n && (#[trigger] mark@[v]) implies exists|w: int|
                    0 <= w < i + 1 && #[trigger] cx_cycle_start(parent1@, parent2@, w)
                        && cx_reaches(parent1@, parent2@, w, v) by {
                    if !mark0[v] {
                        assert(cx_cycle_start(parent1@, parent2@, i as int) && cx_reaches(
                            parent1@,
                            parent2@,
                            i as int,
                            v,
                        ));
                    }
                }
            }
            parity = !parity;
        } else {
            proof {
                // A marked position lies on an already-discovered cycle and
                // starts none.
                let u = choose|u: int|
                    0 <= u < i && #[trigger] cx_cycle_start(parent1@, parent2@, u) && cx_reaches(
                        parent1@,
                        parent2@,
                        u,
                        i as int,
                    );
                assert(!cx_cycle_start(parent1@, parent2@, i as int));
                assert(cx_starts_before(parent1@, parent2@, i + 1) == cx_starts_before(
                    parent1@,
                    parent2@,
                    i as int,
                ));
            }
        }
        i = i + 1;
    }
    proof {
        assert forall|t: int|
            0 <= t < n implies ((#[trigger] take2@[t]) <==> cx_takes_second(
            parent1@,
            parent2@,
            t,
        )) by {
            assert(mark@[t]);
        }
    }
    take2
}

/// Cycle crossover: positions are partitioned into the cycles of the mapping
/// `value of parent1 -> its position in parent2`; the first child takes
/// parent1's values on the first, third, ... cycle in discovery order and
/// parent2's on the rest, the second child the other way round.  The
/// children are therefore valid permutations, pinned position by position by
/// the `cx_takes_second` characterization.
pub fn cx_crossover(parent1: &Vec<usize>, parent2: &Vec<usize>) -> (r: (Vec<usize>, Vec<usize>))
    requires
        valid_tour(parent1@, parent1@.len()),
        valid_tour(parent2@, parent1@.len()),
    ensures
        valid_tour(r.0@, parent1@.len()),
        valid_tour(r.1@, parent1@.len()),
        forall|t: int|
            0 <= t < parent1@.len() ==> (#[trigger] r.0@[t]) == (if cx_takes_second(
                parent1@,
                parent2@,
                t,
            ) {
                parent2@[t]
            } else {
                parent1@[t]
            }) && r.1@[t] == (if cx_takes_second(parent1@, parent2@, t) {
                parent1@[t]
            } else {
                parent2@[t]
            }),
        parent1@.len() >= 1 ==> r.0@[0] == parent1@[0] && r.1@[0] == parent2@[0],
{
    let ghost n = parent1@.len();
    let n_exec = parent1.len();
    let take2 = cx_assignment(parent1, parent2);
    let mut c1: Vec<usize> = Vec::new();
    let mut c2: Vec<usize> = Vec::new();
    let mut t: usize = 0;
    while t < n_exec
        invariant
            n == parent1@.len(),
            n_exec == n,
            valid_tour(parent1@, n),
            valid_tour(parent2@, n),
            take2@.len() == n,
            forall|p: int|
                0 <= p < n ==> ((#[trigger] take2@[p]) <==> cx_takes_second(
                    parent1@,
                    parent2@,
                    p,
                )),
            t <= n,
            c1@.len() == t,
            c2@.len() == t,
            forall|p: int| 0 <= p < t && !take2@[p] ==> (#[trigger] c1@[p]) == parent1@[p],
            forall|p: int| 0 <= p < t && take2@[p] ==> (#[trigger] c1@[p]) == parent2@[p],
            forall|p: int| 0 <= p < t && !take2@[p] ==> (#[trigger] c2@[p]) == parent2@[p],
            forall|p: int| 0 <= p < t && take2@[p] ==> (#[trigger] c2@[p]) == parent1@[p],
        decreases n_exec - t,
    {
        let ghost c10 = c1@;
        let ghost c20 = c2@;
        if take2[t] {
            c1.push(parent2[t]);
            c2.push(parent1[t]);
        } else {
            c1.push(parent1[t]);
            c2.push(parent2[t]);
        }
        proof {
            assert(c1@.len() == t + 1 && c2@.len() == t + 1);
            assert(forall|p: int| 0 <= p < t ==> c1@[p] == c10[p] && c2@[p] == c20[p]);
            if take2@[t as int] {
                assert(c1@[t as int] == parent2@[t as int] && c2@[t as int] == parent1@[t as int]);
            } else {
                assert(c1@[t as int] == parent1@[t as int] && c2@[t as int] == parent2@[t as int]);
            }
        }
        t = t + 1;
    }
    proof {
        // Two positions of equal child value would be cycle neighbours with
        // different assignments, against the cycle-constant choice; so each
        // child is duplicate-free, bounded, and of full length.
        assert forall|k: int, l: int| 0 <= k < l < n implies c1@[k] != c1@[l] by {
            if c1@[k] == c1@[l] && cx_takes_second(parent1@, parent2@, k) != cx_takes_second(
                parent1@,
                parent2@,
                l,
            ) {
                if !cx_takes_second(parent1@, parent2@, k) {
                    assert(parent1@[k] == parent2@[l]);
                    lemma_cx_successor_bounds(parent1@, parent2@, k);
                    assert(cx_successor(parent1@, parent2@, k) == l);
                    lemma_cx_takes_second_step(parent1@, parent2@, k);
                } else {
                    assert(parent2@[k] == parent1@[l]);
                    lemma_cx_successor_bounds(parent1@, parent2@, l);
                    assert(cx_successor(parent1@, parent2@, l) == k);
                    lemma_cx_takes_second_step(parent1@, parent2@, l);
                }
            }
        }
        assert forall|k: int, l: int| 0 <= k < l < n implies c2@[k] != c2@[l] by {
            if c2@[k] == c2@[l] && cx_takes_second(parent1@, parent2@, k) != cx_takes_second(
                parent1@,
                parent2@,
                l,
            ) {
                if !cx_takes_second(parent1@, parent2@, k) {
                    assert(parent2@[k] == parent1@[l]);
                    lemma_cx_successor_bounds(parent1@, parent2@, l);
                    assert(cx_successor(parent1@, parent2@, l) == k);
                    lemma_cx_takes_second_step(parent1@, parent2@, l);
                } else {
                    assert(parent1@[k] == parent2@[l]);
                    lemma_cx_successor_bounds(parent1@, parent2@, k);
                    assert(cx_successor(parent1@, parent2@, k) == l);
                    lemma_cx_takes_second_step(parent1@, parent2@, k);
                }
            }
        }
        assert forall|k: int| 0 <= k < n implies (#[trigger] c1@[k]) < n by {}
        assert forall|k: int| 0 <= k < n implies (#[trigger] c2@[k]) < n by {}
        assert(valid_tour(c1@, n));
        assert(valid_tour(c2@, n));
        if n >= 1 {
            lemma_cx_origin(parent1@, parent2@);
        }
    }
    (c1, c2)
}


/// The set of marked positions below `n`.
pub open spec fn marked_set(mark: Seq<bool>, n: nat) -> Set<int> {
    Set::new(|v: int| 0 <= v < n && mark[v])
}

/// The marked set is finite and holds at most `n` positions.
proof fn lemma_marked_set_le(mark: Seq<bool>, n: nat)
    ensures
        marked_set(mark, n).finite(),
        marked_set(mark, n).len() <= n,
{
    broadcast use vstd::set::group_set_axioms;

    let range = vstd::set_lib::set_int_range(0, n as int);
    vstd::set_lib::lemma_int_range(0, n as int);
    assert(marked_set(mark, n).subset_of(range));
    vstd::set_lib::lemma_len_subset(marked_set(mark, n), range);
}

/// Marking one unmarked position grows the marked set by one.
proof fn lemma_marked_set_insert(mark: Seq<bool>, n: nat, v: int)
    requires
        mark.len() == n,
        0 <= v < n,
        !mark[v],
    ensures
        marked_set(mark.update(v, true), n) == marked_set(mark, n).insert(v),
        marked_set(mark.update(v, true), n).len() == marked_set(mark, n).len() + 1,
{
    broadcast use vstd::set::group_set_axioms;

    lemma_marked_set_le(mark, n);
    lemma_marked_set_le(mark.update(v, true), n);
    assert(marked_set(mark.update(v, true), n) =~= marked_set(mark, n).insert(v));
    assert(!marked_set(mark, n).contains(v));
}

/// Segment-reversal mutation: one contiguous block between two random cut
/// points is reversed in place, which keeps the multiset of elements, so
/// validity is preserved; a vector of fewer than two elements is untouched.
pub fn mutation(rng: &mut rand_pcg::Pcg64, child: &mut Vec<usize>)
    ensures
        final(child)@.len() == old(child)@.len(),
        final(child)@.to_multiset() == old(child)@.to_multiset(),
        old(child)@.len() < 2 ==> final(child)@ == old(child)@,
        old(child)@.len() >= 2 ==> exists|s: int, e: int|
            0 <= s <= e < old(child)@.len() && final(child)@ == reversed(old(child)@, s, e),
{
    let len = child.len();
    if len < 2 {
        return ;
    }
    let start = rand_below(rng, len - 1);
    let end = start + 1 + rand_below(rng, len - start - 1);
    proof {
        lemma_reversed_multiset(child@, start as int, (end - 1) as int);
    }
    reverse_segment(child, start, end - 1);
    proof {
        let s = start as int;
        let e = (end - 1) as int;
        assert(0 <= s && s <= e && e < old(child)@.len() && child@ == reversed(old(child)@, s, e));
    }
}

} // verus!
