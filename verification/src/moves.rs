//! 2-opt moves and the constant-time delta evaluator.
//!
//! A move `(i, j)` with `i <= j` reverses the tour positions `i..=j`.  Only
//! the two boundary edges of the reversed block change: the edge into
//! position `i` and the edge out of position `j`, with positions wrapping
//! modulo `n`.  `invert_weight` evaluates the resulting cost from the current
//! cost and the four affected entries alone, and `lemma_delta_cost` proves
//! that this equals the cost of the reversed tour recomputed from scratch.

use vstd::prelude::*;

use crate::matrix::{DistanceMatrix, in_bounds, path_cost, tour_cost, lemma_path_cost_bounds,
    lemma_tour_cost_bounds};
use crate::tour::valid_tour;
use vstd::seq_lib::lemma_multiset_commutative;

verus! {

/// The tour with positions `i..=j` reversed.
pub open spec fn reversed(t: Seq<usize>, i: int, j: int) -> Seq<usize> {
    t.take(i) + t.subrange(i, j + 1).reverse() + t.skip(j + 1)
}

/// Position of the tour edge entering position `i`, wrapping at the origin.
pub open spec fn move_pre(i: int, n: int) -> int {
    if i == 0 {
        n - 1
    } else {
        i - 1
    }
}

/// Position of the tour edge leaving position `j`, wrapping at the end.
pub open spec fn move_post(j: int, n: int) -> int {
    if j == n - 1 {
        0
    } else {
        j + 1
    }
}

/// The incremental delta formula: current cost minus the two removed edges
/// plus the two added edges.
pub open spec fn delta_cost(m: DistanceMatrix, t: Seq<usize>, i: int, j: int) -> int {
    let n = t.len() as int;
    let pre = move_pre(i, n);
    let post = move_post(j, n);
    tour_cost(m, t) - m.at(t[i] as int, t[pre] as int) - m.at(t[j] as int, t[post] as int)
        + m.at(t[j] as int, t[pre] as int) + m.at(t[i] as int, t[post] as int)
}

/// The `k`-th edge of the closed cycle `t`: consecutive positions, and from
/// the last position back to the first.
pub open spec fn cyc_edge(m: DistanceMatrix, t: Seq<usize>, k: int) -> int {
    if k == t.len() - 1 {
        m.at(t[k] as int, t[0] as int) as int
    } else {
        m.at(t[k] as int, t[k + 1] as int) as int
    }
}

/// Concatenation splits a path cost into the two parts plus the joining edge.
pub proof fn lemma_path_cost_concat(m: DistanceMatrix, s1: Seq<usize>, s2: Seq<usize>)
    ensures
        path_cost(m, s1 + s2) == path_cost(m, s1) + path_cost(m, s2) + if s1.len() > 0
            && s2.len() > 0 {
            m.at(s1.last() as int, s2.first() as int) as int
        } else {
            0
        },
    decreases s2.len(),
{
    if s2.len() == 0 {
        assert(s1 + s2 =~= s1);
    } else if s2.len() == 1 {
        if s1.len() == 0 {
            assert(s1 + s2 =~= s2);
        } else {
            assert((s1 + s2).drop_last() =~= s1);
        }
    } else {
        lemma_path_cost_concat(m, s1, s2.drop_last());
        assert((s1 + s2).drop_last() =~= s1 + s2.drop_last());
        if s1.len() > 0 {
            assert((s1 + s2.drop_last()).last() == s2[s2.len() - 2]);
        }
    }
}

/// A path cost can also be unfolded from the front.
pub proof fn lemma_path_cost_front(m: DistanceMatrix, s: Seq<usize>)
    requires
        s.len() >= 1,
    ensures
        path_cost(m, s) == path_cost(m, s.drop_first()) + if s.len() >= 2 {
            m.at(s[0] as int, s[1] as int) as int
        } else {
            0
        },
{
    assert(s =~= seq![s[0]] + s.drop_first());
    lemma_path_cost_concat(m, seq![s[0]], s.drop_first());
}

/// Reversing a path keeps its cost: the same edges are walked in the other
/// direction and the matrix is symmetric.
pub proof fn lemma_path_cost_reverse(m: DistanceMatrix, s: Seq<usize>)
    requires
        m.wf(),
        in_bounds(s, m.n()),
    ensures
        path_cost(m, s.reverse()) == path_cost(m, s),
    decreases s.len(),
{
    if s.len() >= 2 {
        let rest = s.drop_first();
        lemma_path_cost_reverse(m, rest);
        assert(s.reverse() =~= rest.reverse() + seq![s[0]]);
        lemma_path_cost_concat(m, rest.reverse(), seq![s[0]]);
        assert(rest.reverse().last() == s[1]);
        lemma_path_cost_front(m, s);
        assert(m.at(s[1] as int, s[0] as int) == m.at(s[0] as int, s[1] as int));
    }
}

/// A single path edge is a lower bound on the path cost.
pub proof fn lemma_path_cost_edge(m: DistanceMatrix, s: Seq<usize>, k: int)
    requires
        m.wf(),
        in_bounds(s, m.n()),
        0 <= k < s.len() - 1,
    ensures
        path_cost(m, s) >= m.at(s[k] as int, s[k + 1] as int),
    decreases s.len(),
{
    if k == s.len() - 2 {
        lemma_path_cost_bounds(m, s.drop_last());
    } else {
        lemma_path_cost_edge(m, s.drop_last(), k);
    }
}

/// Two distinct path edges together are a lower bound on the path cost.
pub proof fn lemma_path_cost_two_edges(m: DistanceMatrix, s: Seq<usize>, k: int, l: int)
    requires
        m.wf(),
        in_bounds(s, m.n()),
        0 <= k < l < s.len() - 1,
    ensures
        path_cost(m, s) >= m.at(s[k] as int, s[k + 1] as int) + m.at(s[l] as int, s[l + 1] as int),
    decreases s.len(),
{
    if l == s.len() - 2 {
        lemma_path_cost_edge(m, s.drop_last(), k);
    } else {
        lemma_path_cost_two_edges(m, s.drop_last(), k, l);
    }
}

/// Two distinct cycle edges together are a lower bound on the tour cost, so
/// subtracting the two removed edges of a move can never underflow.
pub proof fn lemma_tour_cost_two_cyc_edges(m: DistanceMatrix, t: Seq<usize>, k: int, l: int)
    requires
        m.wf(),
        in_bounds(t, m.n()),
        t.len() >= 2,
        0 <= k < l < t.len(),
    ensures
        tour_cost(m, t) >= cyc_edge(m, t, k) + cyc_edge(m, t, l),
{
    if l == t.len() - 1 {
        lemma_path_cost_edge(m, t, k);
    } else {
        lemma_path_cost_two_edges(m, t, k, l);
        lemma_path_cost_bounds(m, t);
    }
}

/// Pointwise description of `reversed`: the block `i..=j` is mirrored, the
/// rest is untouched.
pub proof fn lemma_reversed_index(t: Seq<usize>, i: int, j: int)
    requires
        0 <= i <= j < t.len(),
    ensures
        reversed(t, i, j).len() == t.len(),
        forall|k: int|
            0 <= k < t.len() ==> reversed(t, i, j)[k] == (if i <= k <= j {
                t[i + j - k]
            } else {
                t[k]
            }),
{
    let r = reversed(t, i, j);
    assert forall|k: int| 0 <= k < t.len() implies r[k] == (if i <= k <= j {
        t[i + j - k]
    } else {
        t[k]
    }) by {
        if k < i {
        } else if k <= j {
            assert(r[k] == t.subrange(i, j + 1).reverse()[k - i]);
        } else {
        }
    }
}

/// Reversing a block keeps the length and the multiset of elements.
pub proof fn lemma_reversed_multiset(t: Seq<usize>, i: int, j: int)
    requires
        0 <= i <= j < t.len(),
    ensures
        reversed(t, i, j).len() == t.len(),
        reversed(t, i, j).to_multiset() == t.to_multiset(),
{
    let a = t.take(i);
    let b = t.subrange(i, j + 1);
    let c = t.skip(j + 1);
    let r = b.reverse();
    assert(t =~= (a + b) + c);
    assert(reversed(t, i, j) =~= (a + r) + c);
    b.lemma_reverse_to_multiset();
    lemma_multiset_commutative(a, b);
    lemma_multiset_commutative(a + b, c);
    lemma_multiset_commutative(a, r);
    lemma_multiset_commutative(a + r, c);
    assert(reversed(t, i, j).to_multiset() =~= t.to_multiset());
}

/// Reversing a block keeps the multiset of tour elements, hence keeps
/// permutation validity.
pub proof fn lemma_reversed_valid(t: Seq<usize>, i: int, j: int, n: nat)
    requires
        valid_tour(t, n),
        0 <= i <= j < t.len(),
    ensures
        valid_tour(reversed(t, i, j), n),
        reversed(t, i, j).to_multiset() == t.to_multiset(),
{
    lemma_reversed_multiset(t, i, j);
    crate::tour::lemma_same_multiset_valid(t, reversed(t, i, j), n);
}

/// The delta formula equals the full recomputation on the reversed tour, for
/// every move except reversing the whole cycle (whose two removed edges would
/// coincide).  Wrap-around moves touching position `0` or `n - 1` are
/// covered.
pub proof fn lemma_delta_cost(m: DistanceMatrix, t: Seq<usize>, i: int, j: int)
    requires
        m.wf(),
        in_bounds(t, m.n()),
        t.len() >= 2,
        0 <= i <= j < t.len(),
        !(i == 0 && j == t.len() - 1),
    ensures
        tour_cost(m, reversed(t, i, j)) == delta_cost(m, t, i, j),
{
    let n = t.len() as int;
    let a = t.take(i);
    let b = t.subrange(i, j + 1);
    let c = t.skip(j + 1);
    let r = b.reverse();
    let t2 = reversed(t, i, j);
    assert(in_bounds(b, m.n())) by {
        assert(forall|k: int| 0 <= k < b.len() ==> b[k] == t[i + k]);
    }
    assert(t =~= (a + b) + c);
    assert(t2 =~= (a + r) + c);
    lemma_path_cost_concat(m, a + b, c);
    lemma_path_cost_concat(m, a, b);
    lemma_path_cost_concat(m, a + r, c);
    lemma_path_cost_concat(m, a, r);
    lemma_path_cost_reverse(m, b);
    assert(b.first() == t[i]);
    assert(b.last() == t[j]);
    assert(r.first() == t[j]);
    assert(r.last() == t[i]);
    if a.len() > 0 {
        assert(a.last() == t[i - 1]);
        assert((a + b).last() == t[j]);
        assert((a + r).last() == t[i]);
    }
    if c.len() > 0 {
        assert(c.first() == t[j + 1]);
        assert(c.last() == t[n - 1]);
    }
    assert(t2.len() == n);
    assert(t2[0] == (if i == 0 { t[j] } else { t[0] }));
    assert(t2[n - 1] == (if j == n - 1 { t[i] } else { t[n - 1] }));
    let pre = move_pre(i, n);
    let post = move_post(j, n);
    assert(m.at(t[i] as int, t[pre] as int) == m.at(t[pre] as int, t[i] as int));
    assert(m.at(t[j] as int, t[pre] as int) == m.at(t[pre] as int, t[j] as int));
    assert(m.at(t[j] as int, t[post] as int) == m.at(t[post] as int, t[j] as int));
    assert(m.at(t[i] as int, t[post] as int) == m.at(t[post] as int, t[i] as int));
}

/// Constant-time evaluation of the cost after reversing `i..=j`, from the
/// current cost and the four boundary entries alone.
pub fn invert_weight(
    permutation: &Vec<usize>,
    adj_matrix: &DistanceMatrix,
    i: usize,
    j: usize,
    weight: u64,
) -> (r: u64)
    requires
        adj_matrix.wf(),
        in_bounds(permutation@, adj_matrix.n()),
        permutation@.len() <= adj_matrix.n(),
        2 <= permutation@.len(),
        i <= j < permutation@.len(),
        !(i == 0 && j == permutation@.len() - 1),
        weight == tour_cost(*adj_matrix, permutation@),
    ensures
        r == delta_cost(*adj_matrix, permutation@, i as int, j as int),
        r == tour_cost(*adj_matrix, reversed(permutation@, i as int, j as int)),
{
    let ghost m = *adj_matrix;
    let ghost t = permutation@;
    let n = permutation.len();
    let last = n - 1;
    let pre = if i == 0 {
        last
    } else {
        i - 1
    };
    let post = if j == last {
        0
    } else {
        j + 1
    };
    proof {
        lemma_delta_cost(m, t, i as int, j as int);
        lemma_reversed_index(t, i as int, j as int);
        lemma_tour_cost_bounds(m, reversed(t, i as int, j as int));
        // The two removed edges are distinct cycle edges, so their sum is
        // bounded by the current cost.
        if i == 0 {
            lemma_tour_cost_two_cyc_edges(m, t, j as int, (n - 1) as int);
            assert(m.at(t[i as int] as int, t[pre as int] as int) == cyc_edge(m, t, (n - 1) as int));
            assert(m.at(t[j as int] as int, t[post as int] as int) == cyc_edge(m, t, j as int));
        } else {
            lemma_tour_cost_two_cyc_edges(m, t, (i - 1) as int, j as int);
            assert(m.at(t[i as int] as int, t[pre as int] as int) == cyc_edge(m, t, (i - 1) as int));
            assert(m.at(t[j as int] as int, t[post as int] as int) == cyc_edge(m, t, j as int));
        }
    }
    let ti = permutation[i];
    let tj = permutation[j];
    let tpre = permutation[pre];
    let tpost = permutation[post];
    weight - adj_matrix.d[ti][tpre] - adj_matrix.d[tj][tpost] + adj_matrix.d[tj][tpre]
        + adj_matrix.d[ti][tpost]
}

/// The moves that the full neighborhood emits: reverse a block of at least
/// two and less than half of the tour, at any end position.
pub open spec fn emitted_move(i: int, j: int, n: int) -> bool {
    &&& 0 <= i < j < n
    &&& j - i < n / 2
}

/// Number of emitted moves whose block difference lies below `diff`.
pub open spec fn moves_below_diff(n: int, diff: int) -> int
    decreases diff,
{
    if diff <= 1 {
        0
    } else {
        moves_below_diff(n, diff - 1) + (n - (diff - 1))
    }
}

/// Number of moves of the full neighborhood: for each difference `d` with
/// `1 <= d < n / 2` there is one move per end position `j` in `d <= j < n`,
/// `n - d` of them.
pub open spec fn emitted_move_count(n: int) -> int {
    moves_below_diff(n, n / 2)
}

proof fn lemma_moves_below_diff_at_least(n: int, d: int)
    requires
        2 <= d <= n / 2,
    ensures
        moves_below_diff(n, d) >= n - 1,
    decreases d,
{
    assert(moves_below_diff(n, 1) == 0);
    if d > 2 {
        lemma_moves_below_diff_at_least(n, d - 1);
    }
}

/// On at least four points the full neighborhood is never empty.
pub proof fn lemma_emitted_move_count_at_least(n: int)
    requires
        n >= 4,
    ensures
        emitted_move_count(n) >= n - 1,
{
    lemma_moves_below_diff_at_least(n, n / 2);
}

/// A 2-opt move together with the cost of the tour it would produce.
#[derive(Clone, Copy)]
pub struct Candidate {
    pub i: usize,
    pub j: usize,
    pub weight: u64,
}

/// `c` is an emitted move of `t` and carries the exact resulting cost.
pub open spec fn candidate_ok(m: DistanceMatrix, t: Seq<usize>, c: Candidate) -> bool {
    &&& emitted_move(c.i as int, c.j as int, t.len() as int)
    &&& c.weight == tour_cost(m, reversed(t, c.i as int, c.j as int))
}

/// The full 2-opt neighborhood with incremental cost evaluation: exactly one
/// candidate for every emitted move, each with the exact cost of the reversed
/// tour.
pub fn get_neighborhood(permutation: &Vec<usize>, adj_matrix: &DistanceMatrix, weight: u64) -> (r:
    Vec<Candidate>)
    requires
        adj_matrix.wf(),
        in_bounds(permutation@, adj_matrix.n()),
        permutation@.len() <= adj_matrix.n(),
        permutation@.len() >= 2,
        weight == tour_cost(*adj_matrix, permutation@),
    ensures
        r@.len() == emitted_move_count(permutation@.len() as int),
        forall|k: int| 0 <= k < r@.len() ==> candidate_ok(*adj_matrix, permutation@, #[trigger] r@[k]),
        forall|a: int, b: int|
            emitted_move(a, b, permutation@.len() as int) ==> exists|k: int|
                0 <= k < r@.len() && (#[trigger] r@[k]).i == a && r@[k].j == b,
        forall|k: int, l: int|
            #![trigger r@[k], r@[l]]
            0 <= k < l < r@.len() ==> r@[k].i != r@[l].i || r@[k].j != r@[l].j,
{
    let ghost m = *adj_matrix;
    let ghost t = permutation@;
    let n = permutation.len();
    let mut r: Vec<Candidate> = Vec::new();
    let mut diff: usize = 1;
    while diff < n / 2
        invariant
            adj_matrix.wf(),
            m == *adj_matrix,
            t == permutation@,
            in_bounds(t, m.n()),
            t.len() == n,
            n <= m.n(),
            n >= 2,
            weight == tour_cost(m, t),
            1 <= diff <= n / 2,
            r@.len() == moves_below_diff(n as int, diff as int),
            forall|k: int| 0 <= k < r@.len() ==> candidate_ok(m, t, #[trigger] r@[k]),
            forall|k: int| 0 <= k < r@.len() ==> (#[trigger] r@[k]).j - r@[k].i < diff,
            forall|a: int, b: int|
                emitted_move(a, b, n as int) && b - a < diff ==> exists|k: int|
                    0 <= k < r@.len() && (#[trigger] r@[k]).i == a && r@[k].j == b,
            forall|k: int, l: int|
                #![trigger r@[k], r@[l]]
                0 <= k < l < r@.len() ==> r@[k].i != r@[l].i || r@[k].j != r@[l].j,
        decreases n / 2 - diff,
    {
        let mut j: usize = diff;
        while j < n
            invariant
                adj_matrix.wf(),
                m == *adj_matrix,
                t == permutation@,
                in_bounds(t, m.n()),
                t.len() == n,
                n <= m.n(),
                n >= 2,
                weight == tour_cost(m, t),
                1 <= diff < n / 2,
                diff <= j <= n,
                r@.len() == moves_below_diff(n as int, diff as int) + (j - diff),
                forall|k: int| 0 <= k < r@.len() ==> candidate_ok(m, t, #[trigger] r@[k]),
                forall|k: int|
                    0 <= k < r@.len() ==> (#[trigger] r@[k]).j - r@[k].i < diff || (r@[k].j - r@[
                    k].i == diff && r@[k].j < j),
                forall|a: int, b: int|
                    emitted_move(a, b, n as int) && (b - a < diff || (b - a == diff && b < j))
                        ==> exists|k: int|
                        0 <= k < r@.len() && (#[trigger] r@[k]).i == a && r@[k].j == b,
                forall|k: int, l: int|
                    #![trigger r@[k], r@[l]]
                    0 <= k < l < r@.len() ==> r@[k].i != r@[l].i || r@[k].j != r@[l].j,
            decreases n - j,
        {
            let i = j - diff;
            let w = invert_weight(permutation, adj_matrix, i, j, weight);
            let c = Candidate { i, j, weight: w };
            let ghost r0 = r@;
            r.push(c);
            proof {
                assert(candidate_ok(m, t, c));
                assert(r@ == r0.push(c));
                // The new move differs from every earlier one: earlier moves
                // have a smaller difference or a smaller end position.
                assert forall|k: int, l: int|
                    #![trigger r@[k], r@[l]]
                    0 <= k < l < r@.len() implies r@[k].i != r@[l].i || r@[k].j != r@[l].j by {
                    if l == r0.len() {
                        assert(r@[k] == r0[k]);
                        if r@[k].i == c.i && r@[k].j == c.j {
                            assert(r0[k].j - r0[k].i == diff && r0[k].j == j);
                        }
                    } else {
                        assert(r@[k] == r0[k] && r@[l] == r0[l]);
                    }
                }
                assert forall|a: int, b: int|
                    emitted_move(a, b, n as int) && (b - a < diff || (b - a == diff && b < j
                        + 1)) implies exists|k: int|
                    0 <= k < r@.len() && (#[trigger] r@[k]).i == a && r@[k].j == b by {
                    if b - a == diff && b == j {
                        assert(r@[r0.len() as int].i == a && r@[r0.len() as int].j == b);
                    } else {
                        let k = choose|k: int|
                            0 <= k < r0.len() && (#[trigger] r0[k]).i == a && r0[k].j == b;
                        assert(r@[k].i == a && r@[k].j == b);
                    }
                }
            }
            j = j + 1;
        }
        proof {
            assert(moves_below_diff(n as int, diff + 1) == moves_below_diff(n as int, diff as int)
                + (n - diff));
        }
        diff = diff + 1;
    }
    r
}

/// The sampled neighborhood: a subset of the full candidate set, drawn
/// without replacement, of the tour's length (or the whole set when that is
/// smaller), used to bound the per-iteration cost at large `n`.  Each
/// returned candidate is an emitted move with its exact cost and no move
/// appears twice; which moves are drawn is random.
pub fn get_faster_neighborhood(
    permutation: &Vec<usize>,
    adj_matrix: &DistanceMatrix,
    rng: &mut rand_pcg::Pcg64,
) -> (r: Vec<Candidate>)
    requires
        adj_matrix.wf(),
        in_bounds(permutation@, adj_matrix.n()),
        permutation@.len() <= adj_matrix.n(),
        permutation@.len() >= 2,
    ensures
        r@.len() == if permutation@.len() <= emitted_move_count(permutation@.len() as int) {
            permutation@.len() as int
        } else {
            emitted_move_count(permutation@.len() as int)
        },
        forall|k: int| 0 <= k < r@.len() ==> candidate_ok(*adj_matrix, permutation@, #[trigger] r@[k]),
        forall|k: int, l: int|
            #![trigger r@[k], r@[l]]
            0 <= k < l < r@.len() ==> r@[k].i != r@[l].i || r@[k].j != r@[l].j,
{
    let ghost m = *adj_matrix;
    let ghost t = permutation@;
    let n = permutation.len();
    let weight = crate::matrix::permutation_weight(permutation, adj_matrix);
    let mut moves: Vec<(usize, usize)> = Vec::new();
    let mut diff: usize = 1;
    while diff < n / 2
        invariant
            t == permutation@,
            t.len() == n,
            1 <= diff <= n / 2,
            moves@.len() == moves_below_diff(n as int, diff as int),
            forall|k: int|
                0 <= k < moves@.len() ==> emitted_move(
                    (#[trigger] moves@[k]).0 as int,
                    moves@[k].1 as int,
                    n as int,
                ),
            forall|k: int|
                0 <= k < moves@.len() ==> (#[trigger] moves@[k]).1 - moves@[k].0 < diff,
            forall|k: int, l: int|
                #![trigger moves@[k], moves@[l]]
                0 <= k < l < moves@.len() ==> moves@[k].0 != moves@[l].0 || moves@[k].1
                    != moves@[l].1,
        decreases n / 2 - diff,
    {
        let mut j: usize = diff;
        while j < n
            invariant
                t == permutation@,
                t.len() == n,
                1 <= diff < n / 2,
                diff <= j <= n,
                moves@.len() == moves_below_diff(n as int, diff as int) + (j - diff),
                forall|k: int|
                    0 <= k < moves@.len() ==> emitted_move(
                        (#[trigger] moves@[k]).0 as int,
                        moves@[k].1 as int,
                        n as int,
                    ),
                forall|k: int|
                    0 <= k < moves@.len() ==> (#[trigger] moves@[k]).1 - moves@[k].0 < diff || ((
                    #[trigger] moves@[k]).1 - moves@[k].0 == diff && moves@[k].1 < j),
                forall|k: int, l: int|
                    #![trigger moves@[k], moves@[l]]
                    0 <= k < l < moves@.len() ==> moves@[k].0 != moves@[l].0 || moves@[k].1
                        != moves@[l].1,
            decreases n - j,
        {
            let ghost mv0 = moves@;
            let mv = (j - diff, j);
            moves.push(mv);
            proof {
                assert(moves@ == mv0.push(mv));
                assert forall|k: int, l: int|
                    #![trigger moves@[k], moves@[l]]
                    0 <= k < l < moves@.len() implies moves@[k].0 != moves@[l].0 || moves@[k].1
                    != moves@[l].1 by {
                    if l == mv0.len() {
                        assert(moves@[k] == mv0[k]);
                        if moves@[k].0 == j - diff && moves@[k].1 == j {
                            assert(mv0[k].1 - mv0[k].0 == diff && mv0[k].1 == j);
                        }
                    } else {
                        assert(moves@[k] == mv0[k] && moves@[l] == mv0[l]);
                    }
                }
            }
            j = j + 1;
        }
        proof {
            assert(moves_below_diff(n as int, diff + 1) == moves_below_diff(n as int, diff as int)
                + (n - diff));
        }
        diff = diff + 1;
    }
    let picks = crate::rng::sample_indices(rng, moves.len(), n);
    let mut r: Vec<Candidate> = Vec::new();
    let mut k: usize = 0;
    while k < picks.len()
        invariant
            adj_matrix.wf(),
            m == *adj_matrix,
            t == permutation@,
            in_bounds(t, m.n()),
            t.len() == n,
            n <= m.n(),
            n >= 2,
            weight == tour_cost(m, t),
            k <= picks@.len(),
            r@.len() == k,
            picks@.no_duplicates(),
            forall|p: int| 0 <= p < picks@.len() ==> (#[trigger] picks@[p]) < moves@.len(),
            forall|p: int|
                0 <= p < moves@.len() ==> emitted_move(
                    (#[trigger] moves@[p]).0 as int,
                    moves@[p].1 as int,
                    n as int,
                ),
            forall|p: int, q: int|
                #![trigger moves@[p], moves@[q]]
                0 <= p < q < moves@.len() ==> moves@[p].0 != moves@[q].0 || moves@[p].1
                    != moves@[q].1,
            forall|p: int| 0 <= p < r@.len() ==> candidate_ok(m, t, #[trigger] r@[p]),
            forall|p: int|
                0 <= p < r@.len() ==> (#[trigger] r@[p]).i == moves@[picks@[p] as int].0 && r@[
                p].j == moves@[picks@[p] as int].1,
        decreases picks@.len() - k,
    {
        let (mi, mj) = moves[picks[k]];
        let w = invert_weight(permutation, adj_matrix, mi, mj, weight);
        r.push(Candidate { i: mi, j: mj, weight: w });
        k = k + 1;
    }
    proof {
        // Distinct picks select distinct moves, so no move appears twice.
        assert forall|a: int, b: int|
            #![trigger r@[a], r@[b]]
            0 <= a < b < r@.len() implies r@[a].i != r@[b].i || r@[a].j != r@[b].j by {
            assert(picks@[a] != picks@[b]);
            let pa = picks@[a] as int;
            let pb = picks@[b] as int;
            if pa < pb {
                assert(moves@[pa].0 != moves@[pb].0 || moves@[pa].1 != moves@[pb].1);
            } else {
                assert(moves@[pb].0 != moves@[pa].0 || moves@[pb].1 != moves@[pa].1);
            }
        }
    }
    r
}

/// In-place reversal of the positions `i..=j` of a tour.
pub fn reverse_segment(t: &mut Vec<usize>, i: usize, j: usize)
    requires
        i <= j < old(t)@.len(),
    ensures
        final(t)@ == reversed(old(t)@, i as int, j as int),
        final(t)@.len() == old(t)@.len(),
{
    proof {
        lemma_reversed_index(old(t)@, i as int, j as int);
    }
    let mut lo = i;
    let mut hi = j;
    while lo < hi
        invariant
            i <= lo,
            hi <= j,
            lo + hi == i + j,
            j < t@.len(),
            t@.len() == old(t)@.len(),
            forall|k: int|
                0 <= k < t@.len() && (k < lo || k > hi) ==> t@[k] == reversed(
                    old(t)@,
                    i as int,
                    j as int,
                )[k],
            forall|k: int| lo <= k <= hi ==> t@[k] == old(t)@[k],
        decreases hi + 1 - lo,
    {
        let x = t[lo];
        let y = t[hi];
        t.set(lo, y);
        t.set(hi, x);
        lo = lo + 1;
        hi = hi - 1;
    }
    proof {
        assert(t@ =~= reversed(old(t)@, i as int, j as int));
    }
}

} // verus!
