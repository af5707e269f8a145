//! Tours: permutations of `0..n`, understood as closed cycles.

use vstd::prelude::*;

verus! {

/// `t` is a permutation of `0..n`: length `n`, every element below `n`,
/// no element twice.
pub open spec fn valid_tour(t: Seq<usize>, n: nat) -> bool {
    &&& t.len() == n
    &&& forall|k: int| 0 <= k < t.len() ==> (#[trigger] t[k]) < n
    &&& t.no_duplicates()
}

/// Exact permutation test, used to reject malformed tours before a heuristic
/// runs on them.
pub fn is_permutation(t: &Vec<usize>, n: usize) -> (r: bool)
    ensures
        r <==> valid_tour(t@, n as nat),
{
    if t.len() != n {
        return false;
    }
    let mut seen: Vec<bool> = Vec::new();
    let mut i: usize = 0;
    while i < n
        invariant
            seen@.len() == i,
            i <= n,
            forall|v: int| 0 <= v < i ==> !(#[trigger] seen@[v]),
        decreases n - i,
    {
        seen.push(false);
        i = i + 1;
    }
    let mut k: usize = 0;
    while k < n
        invariant
            t@.len() == n,
            seen@.len() == n,
            k <= n,
            forall|p: int| 0 <= p < k ==> (#[trigger] t@[p]) < n,
            forall|p: int, q: int| 0 <= p < q < k ==> t@[p] != t@[q],
            forall|v: int|
                0 <= v < n ==> ((#[trigger] seen@[v]) <==> exists|p: int|
                    0 <= p < k && t@[p] == v),
        decreases n - k,
    {
        let e = t[k];
        if e >= n {
            return false;
        }
        if seen[e] {
            proof {
                let p = choose|p: int| 0 <= p < k && t@[p] == e;
                assert(t@[p] == t@[k as int]);
            }
            return false;
        }
        seen.set(e, true);
        k = k + 1;
    }
    true
}

/// The identity tour `0, 1, ..., n - 1`.
pub fn identity_tour(n: usize) -> (r: Vec<usize>)
    ensures
        r@.len() == n,
        forall|k: int| 0 <= k < n ==> (#[trigger] r@[k]) == k,
        valid_tour(r@, n as nat),
{
    let mut t: Vec<usize> = Vec::new();
    let mut i: usize = 0;
    while i < n
        invariant
            t@.len() == i,
            i <= n,
            forall|k: int| 0 <= k < i ==> (#[trigger] t@[k]) == k,
        decreases n - i,
    {
        t.push(i);
        i = i + 1;
    }
    t
}

/// Counting argument for duplicate-free sequences over `0..n`: they hold at
/// most `n` elements, a full one holds every value, and one holding every
/// value is full.
pub proof fn lemma_tour_counting(t: Seq<usize>, n: nat)
    requires
        n <= usize::MAX,
        t.no_duplicates(),
        forall|k: int| 0 <= k < t.len() ==> (#[trigger] t[k]) < n,
    ensures
        t.len() <= n,
        t.len() == n ==> forall|v: usize| v < n ==> t.contains(v),
        (forall|v: usize| v < n ==> #[trigger] t.contains(v)) ==> t.len() == n,
{
    broadcast use vstd::seq_lib::seq_to_set_is_finite;
    broadcast use vstd::set::group_set_axioms;

    let f = |x: usize| x as int;
    assert(vstd::relations::injective(f)) by {
        assert(forall|x: usize, y: usize| #[trigger] f(x) == #[trigger] f(y) ==> x == y);
    }
    let ti = t.map_values(f);
    t.lemma_no_duplicates_injective(f);
    ti.unique_seq_to_set();
    let range = vstd::set_lib::set_int_range(0, n as int);
    vstd::set_lib::lemma_int_range(0, n as int);
    assert(ti.to_set().subset_of(range)) by {
        assert forall|x: int| ti.to_set().contains(x) implies range.contains(x) by {
            let k = choose|k: int| 0 <= k < ti.len() && ti[k] == x;
            assert(t[k] < n);
        }
    }
    vstd::set_lib::lemma_len_subset(ti.to_set(), range);
    if t.len() == n {
        vstd::set_lib::lemma_subset_equality(ti.to_set(), range);
        assert forall|v: usize| v < n implies t.contains(v) by {
            assert(range.contains(v as int));
            assert(ti.to_set().contains(v as int));
            let k = choose|k: int| 0 <= k < ti.len() && ti[k] == v as int;
            assert(t[k] == v);
        }
    }
    if forall|v: usize| v < n ==> #[trigger] t.contains(v) {
        assert(range.subset_of(ti.to_set())) by {
            assert forall|x: int| range.contains(x) implies ti.to_set().contains(x) by {
                assert(t.contains(x as usize));
                let k = choose|k: int| 0 <= k < t.len() && t[k] == x as usize;
                assert(ti[k] == x);
                assert(ti.contains(x));
            }
        }
        vstd::set_lib::lemma_len_subset(range, ti.to_set());
    }
}

/// The tour with the elements at positions `a` and `b` exchanged.
pub open spec fn swapped(t: Seq<usize>, a: int, b: int) -> Seq<usize> {
    t.update(a, t[b]).update(b, t[a])
}

/// In-place transposition of two positions.
pub fn swap_positions(t: &mut Vec<usize>, a: usize, b: usize)
    requires
        a < old(t)@.len(),
        b < old(t)@.len(),
    ensures
        final(t)@ == swapped(old(t)@, a as int, b as int),
{
    let va = t[a];
    let vb = t[b];
    t.set(a, vb);
    t.set(b, va);
}

/// A transposition keeps the multiset of elements, hence keeps permutation
/// validity.
pub proof fn lemma_swap_valid(t: Seq<usize>, a: int, b: int, n: nat)
    requires
        valid_tour(t, n),
        0 <= a < t.len(),
        0 <= b < t.len(),
    ensures
        valid_tour(swapped(t, a, b), n),
        swapped(t, a, b).to_multiset() == t.to_multiset(),
{
    broadcast use vstd::seq_lib::to_multiset_update;
    broadcast use vstd::multiset::group_multiset_axioms;
    broadcast use vstd::seq_lib::group_to_multiset_ensures;

    let t2 = swapped(t, a, b);
    assert(t.contains(t[a]));
    assert(t2.to_multiset() =~= t.to_multiset());
    lemma_same_multiset_valid(t, t2, n);
}

/// An element-by-element copy of a tour.
pub fn clone_tour(v: &Vec<usize>) -> (r: Vec<usize>)
    ensures
        r@ == v@,
{
    let mut r: Vec<usize> = Vec::new();
    let mut i: usize = 0;
    while i < v.len()
        invariant
            i <= v@.len(),
            r@ == v@.take(i as int),
        decreases v@.len() - i,
    {
        r.push(v[i]);
        proof {
            assert(r@ =~= v@.take(i + 1));
        }
        i = i + 1;
    }
    proof {
        assert(v@.take(v@.len() as int) =~= v@);
    }
    r
}

/// A uniformly random tour: the identity tour shuffled in place.  Shuffling
/// keeps the multiset of elements, so the result is a valid permutation.
pub fn seed_tour(n: usize, rng: &mut rand_pcg::Pcg64) -> (r: Vec<usize>)
    ensures
        valid_tour(r@, n as nat),
{
    let mut t = identity_tour(n);
    let ghost t0 = t@;
    crate::rng::shuffle_vec(rng, &mut t);
    proof {
        lemma_same_multiset_valid(t0, t@, n as nat);
    }
    t
}

/// A sequence with the same length and the same multiset of elements as a
/// valid tour is itself a valid tour.
pub proof fn lemma_same_multiset_valid(t1: Seq<usize>, t2: Seq<usize>, n: nat)
    requires
        valid_tour(t1, n),
        t2.len() == t1.len(),
        t2.to_multiset() == t1.to_multiset(),
    ensures
        valid_tour(t2, n),
{
    t1.lemma_multiset_has_no_duplicates();
    broadcast use vstd::seq_lib::group_to_multiset_ensures;

    assert forall|k: int| 0 <= k < t2.len() implies (#[trigger] t2[k]) < n by {
        assert(t2.to_multiset().count(t2[k]) > 0);
        assert(t1.contains(t2[k]));
    }
    t2.lemma_multiset_has_no_duplicates_conv();
}

} // verus!
