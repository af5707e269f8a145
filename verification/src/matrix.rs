//! The distance matrix and the ground-truth tour cost.
//!
//! A `DistanceMatrix` is a square table of non-negative integer distances,
//! symmetric with a zero diagonal.  The cost of a tour is the sum of the
//! distances along consecutive tour positions plus the closing edge from the
//! last element back to the first; `permutation_weight` computes it from
//! scratch and is the ground truth against which every incremental update of
//! the heuristics is stated.

use vstd::prelude::*;

verus! {

/// Largest admitted distance entry; together with the bound on the point
/// count it keeps every tour cost strictly below `u64::MAX`.
pub const MAX_DISTANCE: u64 = 0xFFFF_FFFF;

/// Largest admitted point count.
pub const MAX_POINTS: u64 = 0xFFFF_FFFF;

/// A square, symmetric, zero-diagonal table of distances.
pub struct DistanceMatrix {
    pub d: Vec<Vec<u64>>,
}

/// Rejected inputs of `DistanceMatrix::new`.
#[derive(Clone, Copy, Debug, PartialEq, Eq, Structural)]
pub enum MatrixError {
    /// Some row's length differs from the number of rows.
    NotSquare,
    /// `d[i][j] != d[j][i]` for some pair.
    NotSymmetric,
    /// `d[i][i] != 0` for some `i`.
    NonZeroDiagonal,
    /// The point count or an entry exceeds the engine's bounds.
    TooLarge,
}

impl DistanceMatrix {
    /// Number of points.
    pub open spec fn n(self) -> nat {
        self.d@.len()
    }

    /// The distance entry at row `i`, column `j`.
    pub open spec fn at(self, i: int, j: int) -> u64 {
        self.d@[i]@[j]
    }

    /// Well-formedness: square, bounded, symmetric, zero diagonal.
    pub open spec fn wf(self) -> bool {
        &&& self.n() <= MAX_POINTS
        &&& forall|i: int| 0 <= i < self.n() ==> (#[trigger] self.d@[i]@.len()) == self.n()
        &&& forall|i: int, j: int|
            0 <= i < self.n() && 0 <= j < self.n() ==> (#[trigger] self.at(i, j)) <= MAX_DISTANCE
        &&& forall|i: int, j: int|
            0 <= i < self.n() && 0 <= j < self.n() ==> self.at(i, j) == self.at(j, i)
        &&& forall|i: int| 0 <= i < self.n() ==> self.at(i, i) == 0
    }

    /// Validating constructor: accepts exactly the well-formed tables.
    pub fn new(d: Vec<Vec<u64>>) -> (r: Result<DistanceMatrix, MatrixError>)
        ensures
            r is Ok <==> (DistanceMatrix { d: d }).wf(),
            r matches Ok(m) ==> m == (DistanceMatrix { d: d }),
    {
        let n = d.len();
        if n as u64 > MAX_POINTS {
            return Err(MatrixError::TooLarge);
        }
        for i in 0..n
            invariant
                n == d@.len(),
                n <= MAX_POINTS,
                forall|p: int| 0 <= p < i ==> (#[trigger] d@[p]@.len()) == n,
        {
            if d[i].len() != n {
                return Err(MatrixError::NotSquare);
            }
        }
        for i in 0..n
            invariant
                n == d@.len(),
                n <= MAX_POINTS,
                forall|p: int| 0 <= p < n ==> (#[trigger] d@[p]@.len()) == n,
                forall|p: int, q: int|
                    0 <= p < i && 0 <= q < n ==> (#[trigger] d@[p]@[q]) <= MAX_DISTANCE,
        {
            for j in 0..n
                invariant
                    n == d@.len(),
                    i < n,
                    forall|p: int| 0 <= p < n ==> (#[trigger] d@[p]@.len()) == n,
                    forall|p: int, q: int|
                        0 <= p < i && 0 <= q < n ==> (#[trigger] d@[p]@[q]) <= MAX_DISTANCE,
                    forall|q: int| 0 <= q < j ==> (#[trigger] d@[i as int]@[q]) <= MAX_DISTANCE,
            {
                if d[i][j] > MAX_DISTANCE {
                    proof {
                        let mm = DistanceMatrix { d: d };
                        assert(mm.at(i as int, j as int) > MAX_DISTANCE);
                    }
                    return Err(MatrixError::TooLarge);
                }
            }
        }
        for i in 0..n
            invariant
                n == d@.len(),
                forall|p: int| 0 <= p < n ==> (#[trigger] d@[p]@.len()) == n,
                forall|p: int| 0 <= p < i ==> (#[trigger] d@[p]@[p]) == 0,
        {
            if d[i][i] != 0 {
                proof {
                    let mm = DistanceMatrix { d: d };
                    assert(mm.at(i as int, i as int) != 0);
                }
                return Err(MatrixError::NonZeroDiagonal);
            }
        }
        for i in 0..n
            invariant
                n == d@.len(),
                forall|p: int| 0 <= p < n ==> (#[trigger] d@[p]@.len()) == n,
                forall|p: int, q: int|
                    0 <= p < i && 0 <= q < n ==> (#[trigger] d@[p]@[q]) == d@[q]@[p],
        {
            for j in 0..n
                invariant
                    n == d@.len(),
                    i < n,
                    forall|p: int| 0 <= p < n ==> (#[trigger] d@[p]@.len()) == n,
                    forall|p: int, q: int|
                        0 <= p < i && 0 <= q < n ==> (#[trigger] d@[p]@[q]) == d@[q]@[p],
                    forall|q: int| 0 <= q < j ==> (#[trigger] d@[i as int]@[q]) == d@[q]@[i as int],
            {
                if d[i][j] != d[j][i] {
                    proof {
                        let mm = DistanceMatrix { d: d };
                        assert(mm.at(i as int, j as int) != mm.at(j as int, i as int));
                    }
                    return Err(MatrixError::NotSymmetric);
                }
            }
        }
        let m = DistanceMatrix { d };
        Ok(m)
    }

    /// Number of points, as an executable value.
    pub fn len(&self) -> (r: usize)
        ensures
            r == self.n(),
    {
        self.d.len()
    }
}

/// Every index of `t` is a row of `m`.
pub open spec fn in_bounds(t: Seq<usize>, n: nat) -> bool {
    forall|k: int| 0 <= k < t.len() ==> (#[trigger] t[k]) < n
}

/// Sum of the distances along consecutive positions of `t` (no closing edge).
pub open spec fn path_cost(m: DistanceMatrix, t: Seq<usize>) -> int
    decreases t.len(),
{
    if t.len() < 2 {
        0
    } else {
        path_cost(m, t.drop_last()) + m.at(t[t.len() - 2] as int, t[t.len() - 1] as int)
    }
}

/// Cost of `t` as a closed cycle: the path cost plus the edge from the last
/// element back to the first.  Zero for fewer than two points.
pub open spec fn tour_cost(m: DistanceMatrix, t: Seq<usize>) -> int {
    if t.len() < 2 {
        0
    } else {
        path_cost(m, t) + m.at(t[t.len() - 1] as int, t[0] as int)
    }
}

/// The path cost of `t` is non-negative and at most `(len - 1) * MAX_DISTANCE`.
pub proof fn lemma_path_cost_bounds(m: DistanceMatrix, t: Seq<usize>)
    requires
        m.wf(),
        in_bounds(t, m.n()),
    ensures
        0 <= path_cost(m, t),
        t.len() >= 1 ==> path_cost(m, t) <= (t.len() - 1) * MAX_DISTANCE,
    decreases t.len(),
{
    if t.len() >= 2 {
        lemma_path_cost_bounds(m, t.drop_last());
    }
}

/// The cost of a cycle is non-negative and at most `len * MAX_DISTANCE`.
pub proof fn lemma_tour_cost_bounds(m: DistanceMatrix, t: Seq<usize>)
    requires
        m.wf(),
        in_bounds(t, m.n()),
        t.len() <= m.n(),
    ensures
        0 <= tour_cost(m, t),
        tour_cost(m, t) <= t.len() * MAX_DISTANCE,
        tour_cost(m, t) < u64::MAX,
{
    lemma_path_cost_bounds(m, t);
    if t.len() >= 2 {
        assert(t.len() * MAX_DISTANCE == (t.len() - 1) * MAX_DISTANCE + MAX_DISTANCE) by (nonlinear_arith);
    }
    assert(t.len() * MAX_DISTANCE <= MAX_POINTS * MAX_DISTANCE) by (nonlinear_arith)
        requires t.len() <= MAX_POINTS;
}

/// Full recomputation of the cost of `t` under `m`: the ground truth that the
/// heuristics' internally tracked costs are stated against.
pub fn permutation_weight(permutation: &Vec<usize>, adj_matrix: &DistanceMatrix) -> (r: u64)
    requires
        adj_matrix.wf(),
        in_bounds(permutation@, adj_matrix.n()),
        permutation@.len() <= adj_matrix.n(),
    ensures
        r == tour_cost(*adj_matrix, permutation@),
{
    let n = permutation.len();
    if n < 2 {
        return 0;
    }
    let ghost m = *adj_matrix;
    let ghost t = permutation@;
    let mut s: u64 = 0;
    let mut k: usize = 1;
    while k < n
        invariant
            adj_matrix.wf(),
            m == *adj_matrix,
            t == permutation@,
            in_bounds(t, m.n()),
            t.len() == n,
            n <= m.n(),
            1 <= k <= n,
            s == path_cost(m, t.take(k as int)),
            s <= (k - 1) * MAX_DISTANCE,
        decreases n - k,
    {
        let prev = permutation[k - 1];
        let cur = permutation[k];
        proof {
            assert(adj_matrix.at(prev as int, cur as int) <= MAX_DISTANCE);
            assert(t.take(k + 1).drop_last() =~= t.take(k as int));
            assert(t.take(k + 1)[k as int] == t[k as int]);
            assert(t.take(k + 1)[k - 1] == t[k - 1]);
        }
        s = s + adj_matrix.d[prev][cur];
        k = k + 1;
    }
    let last = permutation[n - 1];
    let first = permutation[0];
    proof {
        assert(t.take(n as int) =~= t);
        assert(adj_matrix.at(last as int, first as int) <= MAX_DISTANCE);
    }
    s + adj_matrix.d[last][first]
}

} // verus!
