//! Seeding tours from a minimum spanning tree.
//!
//! Prim's algorithm builds a parent array over the distance matrix, the
//! parent array becomes an adjacency list, and a depth-first traversal
//! linearizes it into a tour.  The traversal visits every vertex exactly
//! once, so the seed is always a valid permutation.

use vstd::prelude::*;

use crate::matrix::{DistanceMatrix, MAX_DISTANCE, in_bounds, path_cost};
use crate::tour::{lemma_tour_counting, valid_tour};

verus! {

/// Index of a cheapest not-yet-included vertex.  When every open vertex still
/// has an unset (maximal) key the first open vertex is as good as any.
fn min_key(key: &Vec<u64>, mst_set: &Vec<bool>, point_count: usize) -> (r: usize)
    requires
        key@.len() == point_count,
        mst_set@.len() == point_count,
        point_count >= 1,
    ensures
        r < point_count,
        forall|v: int|
            0 <= v < point_count && !mst_set@[v] && (#[trigger] key@[v]) < u64::MAX ==> !mst_set@[r as int]
                && key@[r as int] <= key@[v],
{
    let mut min: u64 = u64::MAX;
    let mut min_index: usize = 0;
    let mut v: usize = 0;
    while v < point_count
        invariant
            key@.len() == point_count,
            mst_set@.len() == point_count,
            point_count >= 1,
            v <= point_count,
            min_index < point_count,
            min < u64::MAX ==> !mst_set@[min_index as int] && key@[min_index as int] == min,
            forall|p: int|
                0 <= p < v && !mst_set@[p] && (#[trigger] key@[p]) < u64::MAX ==> min <= key@[p],
        decreases point_count - v,
    {
        if !mst_set[v] && key[v] < min {
            min = key[v];
            min_index = v;
        }
        v = v + 1;
    }
    min_index
}

/// Prim's algorithm: `parent[v]` is the tree neighbour of `v` towards the
/// root `0`.  Zero-length edges are admitted as tree edges, so every vertex
/// receives a parent even when points coincide.
pub fn prim(adj_matrix: &DistanceMatrix, point_count: usize) -> (r: Vec<usize>)
    requires
        adj_matrix.wf(),
        point_count == adj_matrix.n(),
        point_count >= 1,
    ensures
        r@.len() == point_count,
        forall|v: int| 0 <= v < point_count ==> (#[trigger] r@[v]) < point_count,
        forall|v: int| 1 <= v < point_count ==> (#[trigger] r@[v]) != v,
{
    let ghost m = *adj_matrix;
    let n = point_count;
    let mut parent: Vec<usize> = Vec::new();
    let mut key: Vec<u64> = Vec::new();
    let mut mst_set: Vec<bool> = Vec::new();
    let mut v: usize = 0;
    while v < n
        invariant
            v <= n,
            parent@.len() == v,
            key@.len() == v,
            mst_set@.len() == v,
            forall|p: int| 0 <= p < v ==> (#[trigger] parent@[p]) == 0,
            forall|p: int| 0 <= p < v ==> (#[trigger] key@[p]) == u64::MAX,
            forall|p: int| 0 <= p < v ==> !(#[trigger] mst_set@[p]),
        decreases n - v,
    {
        parent.push(0);
        key.push(u64::MAX);
        mst_set.push(false);
        v = v + 1;
    }
    key.set(0, 0);
    let mut round: usize = 0;
    while round < n - 1
        invariant
            adj_matrix.wf(),
            m == *adj_matrix,
            n == m.n(),
            n >= 1,
            round <= n - 1,
            parent@.len() == n,
            key@.len() == n,
            mst_set@.len() == n,
            forall|p: int| 0 <= p < n ==> (#[trigger] parent@[p]) < n,
            forall|p: int| 1 <= p < n ==> (#[trigger] parent@[p]) != p,
        decreases n - 1 - round,
    {
        let u = min_key(&key, &mst_set, n);
        mst_set.set(u, true);
        let mut w: usize = 0;
        while w < n
            invariant
                adj_matrix.wf(),
                m == *adj_matrix,
                n == m.n(),
                u < n,
                w <= n,
                parent@.len() == n,
                key@.len() == n,
                mst_set@.len() == n,
                mst_set@[u as int],
                forall|p: int| 0 <= p < n ==> (#[trigger] parent@[p]) < n,
                forall|p: int| 1 <= p < n ==> (#[trigger] parent@[p]) != p,
            decreases n - w,
        {
            if !mst_set[w] && adj_matrix.d[u][w] < key[w] {
                parent.set(w, u);
                key.set(w, adj_matrix.d[u][w]);
            }
            w = w + 1;
        }
        round = round + 1;
    }
    parent
}

/// Total weight of the spanning tree described by a parent array.
pub fn mst_weight(tree: &Vec<usize>, adj_matrix: &DistanceMatrix) -> (r: u64)
    requires
        adj_matrix.wf(),
        tree@.len() <= adj_matrix.n(),
        forall|v: int| 0 <= v < tree@.len() ==> (#[trigger] tree@[v]) < adj_matrix.n(),
    ensures
        r == mst_weight_spec(*adj_matrix, tree@, tree@.len() as int),
{
    let ghost m = *adj_matrix;
    let mut s: u64 = 0;
    let mut i: usize = 1;
    if tree.len() == 0 {
        return 0;
    }
    while i < tree.len()
        invariant
            adj_matrix.wf(),
            m == *adj_matrix,
            tree@.len() <= m.n(),
            forall|v: int| 0 <= v < tree@.len() ==> (#[trigger] tree@[v]) < m.n(),
            1 <= i <= tree@.len(),
            s == mst_weight_spec(m, tree@, i as int),
            s <= (i - 1) * MAX_DISTANCE,
        decreases tree@.len() - i,
    {
        proof {
            assert(m.at(i as int, tree@[i as int] as int) <= MAX_DISTANCE);
        }
        s = s + adj_matrix.d[i][tree[i]];
        i = i + 1;
    }
    s
}

/// Sum of the edges `(v, tree[v])` for `1 <= v < upto`.
pub open spec fn mst_weight_spec(m: DistanceMatrix, tree: Seq<usize>, upto: int) -> int
    decreases upto,
{
    if upto <= 1 {
        0
    } else {
        mst_weight_spec(m, tree, upto - 1) + m.at(upto - 1, tree[upto - 1] as int)
    }
}

/// The parent array as an undirected adjacency list: each vertex `v >= 1`
/// lists its parent first, and every vertex lists the children that name it.
pub fn parent_to_adj_list(parent: &Vec<usize>) -> (r: Vec<Vec<usize>>)
    requires
        forall|v: int| 0 <= v < parent@.len() ==> (#[trigger] parent@[v]) < parent@.len(),
    ensures
        r@.len() == parent@.len(),
        forall|u: int, k: int|
            0 <= u < r@.len() && 0 <= k < r@[u]@.len() ==> (#[trigger] r@[u]@[k]) < parent@.len(),
        forall|v: int| 1 <= v < parent@.len() ==> (#[trigger] r@[v])@.contains(parent@[v]),
        forall|v: int|
            1 <= v < parent@.len() ==> (#[trigger] r@[parent@[v] as int])@.contains(v as usize),
{
    let n = parent.len();
    let mut adj: Vec<Vec<usize>> = Vec::new();
    let mut u: usize = 0;
    while u < n
        invariant
            n == parent@.len(),
            u <= n,
            adj@.len() == u,
            forall|v: int| 0 <= v < n ==> (#[trigger] parent@[v]) < n,
            forall|p: int, k: int|
                0 <= p < u && 0 <= k < adj@[p]@.len() ==> (#[trigger] adj@[p]@[k]) < n,
            forall|v: int| 1 <= v < n && v < u ==> (#[trigger] adj@[v])@.contains(parent@[v]),
            forall|v: int|
                1 <= v < n && parent@[v] < u ==> (#[trigger] adj@[parent@[v] as int])@.contains(
                    v as usize,
                ),
        decreases n - u,
    {
        let mut row: Vec<usize> = Vec::new();
        if u >= 1 {
            row.push(parent[u]);
            proof {
                assert(row@[0] == parent@[u as int]);
            }
        }
        let mut w: usize = 1;
        while w < n
            invariant
                n == parent@.len(),
                u < n,
                1 <= w <= n || n == 0,
                forall|v: int| 0 <= v < n ==> (#[trigger] parent@[v]) < n,
                forall|k: int| 0 <= k < row@.len() ==> (#[trigger] row@[k]) < n,
                u >= 1 ==> row@.contains(parent@[u as int]),
                forall|v: int|
                    1 <= v < w && parent@[v] == u ==> row@.contains(v as usize),
            decreases n - w,
        {
            if parent[w] == u {
                let ghost row0 = row@;
                row.push(w);
                proof {
                    assert(row@ == row0.push(w));
                    assert forall|v: int| 1 <= v < w + 1 && parent@[v] == u implies row@.contains(
                        v as usize,
                    ) by {
                        if v < w {
                            let k = choose|k: int| 0 <= k < row0.len() && row0[k] == v as usize;
                            assert(row@[k] == v as usize);
                        } else {
                            assert(row@[row0.len() as int] == v as usize);
                        }
                    }
                    if u >= 1 {
                        let k = choose|k: int| 0 <= k < row0.len() && row0[k] == parent@[u as int];
                        assert(row@[k] == parent@[u as int]);
                    }
                }
            }
            w = w + 1;
        }
        adj.push(row);
        u = u + 1;
    }
    adj
}

/// Depth-first linearization of a graph on `0..n`: every vertex appears in
/// the traversal exactly once, whatever the graph's shape, because every
/// vertex is used as a restart point.  The result is therefore always a valid
/// tour.
pub fn dfs(graph: &Vec<Vec<usize>>) -> (r: Vec<usize>)
    requires
        graph@.len() <= usize::MAX,
        forall|u: int, k: int|
            0 <= u < graph@.len() && 0 <= k < graph@[u]@.len() ==> (#[trigger] graph@[u]@[k])
                < graph@.len(),
    ensures
        valid_tour(r@, graph@.len()),
{
    let n = graph.len();
    let mut visited: Vec<bool> = Vec::new();
    let mut i: usize = 0;
    while i < n
        invariant
            i <= n,
            visited@.len() == i,
            forall|v: int| 0 <= v < i ==> !(#[trigger] visited@[v]),
        decreases n - i,
    {
        visited.push(false);
        i = i + 1;
    }
    let mut traversal: Vec<usize> = Vec::new();
    let mut i: usize = 0;
    while i < n
        invariant
            n == graph@.len(),
            forall|u: int, k: int|
                0 <= u < n && 0 <= k < graph@[u]@.len() ==> (#[trigger] graph@[u]@[k]) < n,
            i <= n,
            visited@.len() == n,
            traversal@.no_duplicates(),
            forall|k: int| 0 <= k < traversal@.len() ==> (#[trigger] traversal@[k]) < n,
            forall|v: int| 0 <= v < n ==> ((#[trigger] visited@[v]) <==> traversal@.contains(v as usize)),
            forall|v: int| 0 <= v < i ==> (#[trigger] visited@[v]),
        decreases n - i,
    {
        if !visited[i] {
            dfs_component(graph, &mut visited, &mut traversal, i);
        }
        i = i + 1;
    }
    proof {
        lemma_tour_counting(traversal@, n as nat);
        assert forall|v: usize| v < n implies traversal@.contains(v) by {
            assert(visited@[v as int]);
        }
    }
    traversal
}

/// The stack phase of one depth-first restart: visits the component of
/// `start` that is still unvisited, appending each vertex to the traversal
/// exactly once.
fn dfs_component(
    graph: &Vec<Vec<usize>>,
    visited: &mut Vec<bool>,
    traversal: &mut Vec<usize>,
    start: usize,
)
    requires
        forall|u: int, k: int|
            0 <= u < graph@.len() && 0 <= k < graph@[u]@.len() ==> (#[trigger] graph@[u]@[k])
                < graph@.len(),
        old(visited)@.len() == graph@.len(),
        start < graph@.len(),
        !old(visited)@[start as int],
        old(traversal)@.no_duplicates(),
        forall|k: int|
            0 <= k < old(traversal)@.len() ==> (#[trigger] old(traversal)@[k]) < graph@.len(),
        forall|v: int|
            0 <= v < graph@.len() ==> ((#[trigger] old(visited)@[v]) <==> old(traversal)@.contains(v as usize)),
    ensures
        final(visited)@.len() == graph@.len(),
        final(traversal)@.no_duplicates(),
        forall|k: int|
            0 <= k < final(traversal)@.len() ==> (#[trigger] final(traversal)@[k]) < graph@.len(),
        forall|v: int|
            0 <= v < graph@.len() ==> ((#[trigger] final(visited)@[v]) <==> final(traversal)@.contains(v as usize)),
        forall|v: int| 0 <= v < graph@.len() && old(visited)@[v] ==> final(visited)@[v],
        final(visited)@[start as int],
        final(traversal)@.len() > old(traversal)@.len(),
        final(traversal)@[old(traversal)@.len() as int] == start,
        final(traversal)@.take(old(traversal)@.len() as int) == old(traversal)@,
{
    let n = graph.len();
    let mut stack: Vec<usize> = Vec::new();
    visited.set(start, true);
    stack.push(start);
    proof {
        assert(stack@[0] == start);
        assert forall|v: int|
            0 <= v < n implies ((#[trigger] visited@[v]) <==> traversal@.contains(v as usize)
            || stack@.contains(v as usize)) by {
            if v == start {
                assert(stack@.contains(start));
            } else {
                if stack@.contains(v as usize) {
                    let k = choose|k: int| 0 <= k < stack@.len() && stack@[k] == v as usize;
                    assert(false);
                }
            }
        }
        assert forall|k: int| 0 <= k < stack@.len() implies !traversal@.contains(
            #[trigger] stack@[k],
        ) by {
            assert(stack@[k] == start);
            assert(!old(visited)@[start as int]);
        }
    }
    while stack.len() > 0
        invariant
            n == graph@.len(),
            start < n,
            old(visited)@.len() == n,
            forall|u: int, k: int|
                0 <= u < n && 0 <= k < graph@[u]@.len() ==> (#[trigger] graph@[u]@[k]) < n,
            visited@.len() == n,
            traversal@.no_duplicates(),
            stack@.no_duplicates(),
            forall|k: int| 0 <= k < traversal@.len() ==> (#[trigger] traversal@[k]) < n,
            forall|k: int| 0 <= k < stack@.len() ==> (#[trigger] stack@[k]) < n,
            forall|k: int| 0 <= k < stack@.len() ==> !traversal@.contains(#[trigger] stack@[k]),
            forall|v: int|
                0 <= v < n ==> ((#[trigger] visited@[v]) <==> traversal@.contains(v as usize)
                    || stack@.contains(v as usize)),
            forall|v: int| 0 <= v < n && old(visited)@[v] ==> (#[trigger] visited@[v]),
            visited@[start as int],
            traversal@.len() >= old(traversal)@.len(),
            traversal@.take(old(traversal)@.len() as int) == old(traversal)@,
            traversal@.len() == old(traversal)@.len() ==> stack@.len() == 1 && stack@[0] == start,
            traversal@.len() > old(traversal)@.len() ==> traversal@[old(traversal)@.len() as int]
                == start,
        decreases n - traversal@.len(),
    {
        let ghost st_before = stack@;
        proof {
            lemma_tour_counting(traversal@, n as nat);
            let top = st_before[st_before.len() - 1];
            assert(!traversal@.contains(top));
            if traversal@.len() == n {
                assert(traversal@.contains(top));
            }
        }
        let node = match stack.pop() {
            Some(x) => x,
            None => {
                return ;
            },
        };
        let ghost tr0 = traversal@;
        traversal.push(node);
        proof {
            assert(node == st_before[st_before.len() - 1]);
            assert(stack@ == st_before.subrange(0, st_before.len() - 1));
            assert(traversal@ == tr0.push(node));
            // Containment in the traversal gains exactly `node`.
            assert forall|x: usize| traversal@.contains(x) implies tr0.contains(x) || x == node by {
                let k = choose|k: int| 0 <= k < traversal@.len() && traversal@[k] == x;
                if k < tr0.len() {
                    assert(tr0[k] == x);
                }
            }
            assert forall|x: usize| tr0.contains(x) implies traversal@.contains(x) by {
                let k = choose|k: int| 0 <= k < tr0.len() && tr0[k] == x;
                assert(traversal@[k] == x);
            }
            assert(traversal@[tr0.len() as int] == node);
            assert(traversal@.contains(node));
            assert(traversal@.take(old(traversal)@.len() as int) =~= tr0.take(
                old(traversal)@.len() as int,
            ));
            // The traversal stays duplicate-free: `node` came off the stack,
            // which is disjoint from the traversal.
            assert(!tr0.contains(node));
            assert forall|a: int, b: int|
                0 <= a < b < traversal@.len() implies traversal@[a] != traversal@[b] by {
                if b == tr0.len() {
                    assert(!tr0.contains(node));
                    if tr0[a] == node {
                        assert(tr0.contains(node));
                    }
                }
            }
            // Containment in the stack loses exactly `node` (it held no
            // duplicates, so no second copy remains).
            assert forall|x: usize| st_before.contains(x) implies stack@.contains(x) || x
                == node by {
                let k = choose|k: int| 0 <= k < st_before.len() && st_before[k] == x;
                if k < st_before.len() - 1 {
                    assert(stack@[k] == x);
                }
            }
            assert forall|x: usize| stack@.contains(x) implies st_before.contains(x) && x
                != node by {
                let k = choose|k: int| 0 <= k < stack@.len() && stack@[k] == x;
                assert(st_before[k] == x);
                assert(st_before[k] != st_before[st_before.len() - 1]);
            }
            assert forall|v: int|
                0 <= v < n implies ((#[trigger] visited@[v]) <==> traversal@.contains(v as usize)
                || stack@.contains(v as usize)) by {
                if v == node {
                } else {
                }
            }
            assert forall|k: int| 0 <= k < stack@.len() implies !traversal@.contains(
                #[trigger] stack@[k],
            ) by {
                assert(stack@.contains(stack@[k]));
                assert(stack@[k] != node);
                assert(!tr0.contains(stack@[k]));
            }
        }
        let mut q: usize = 0;
        while q < graph[node].len()
            invariant
                n == graph@.len(),
                node < n,
                start < n,
                old(visited)@.len() == n,
                forall|u: int, k: int|
                    0 <= u < n && 0 <= k < graph@[u]@.len() ==> (#[trigger] graph@[u]@[k]) < n,
                q <= graph@[node as int]@.len(),
                visited@.len() == n,
                traversal@.no_duplicates(),
                stack@.no_duplicates(),
                forall|k: int| 0 <= k < traversal@.len() ==> (#[trigger] traversal@[k]) < n,
                forall|k: int| 0 <= k < stack@.len() ==> (#[trigger] stack@[k]) < n,
                forall|k: int| 0 <= k < stack@.len() ==> !traversal@.contains(#[trigger] stack@[k]),
                forall|v: int|
                    0 <= v < n ==> ((#[trigger] visited@[v]) <==> traversal@.contains(v as usize)
                        || stack@.contains(v as usize)),
                forall|v: int| 0 <= v < n && old(visited)@[v] ==> (#[trigger] visited@[v]),
                visited@[start as int],
                traversal@.len() > old(traversal)@.len(),
                traversal@.take(old(traversal)@.len() as int) == old(traversal)@,
                traversal@[old(traversal)@.len() as int] == start,
                traversal@.contains(node),
            decreases graph@[node as int]@.len() - q,
        {
            let j = graph[node][q];
            if !visited[j] {
                proof {
                    assert(!traversal@.contains(j));
                    assert(!stack@.contains(j));
                }
                visited.set(j, true);
                let ghost st0 = stack@;
                stack.push(j);
                proof {
                    assert(stack@ == st0.push(j));
                    assert forall|x: usize| stack@.contains(x) implies st0.contains(x) || x
                        == j by {
                        let k = choose|k: int| 0 <= k < stack@.len() && stack@[k] == x;
                        if k < st0.len() {
                            assert(st0[k] == x);
                        }
                    }
                    assert forall|x: usize| st0.contains(x) implies stack@.contains(x) by {
                        let k = choose|k: int| 0 <= k < st0.len() && st0[k] == x;
                        assert(stack@[k] == x);
                    }
                    assert(stack@[st0.len() as int] == j);
                    assert(stack@.contains(j));
                    assert forall|a: int, b: int|
                        0 <= a < b < stack@.len() implies stack@[a] != stack@[b] by {
                        if b == st0.len() {
                            if st0[a] == j {
                                assert(st0.contains(j));
                            }
                        }
                    }
                    assert forall|v: int|
                        0 <= v < n implies ((#[trigger] visited@[v]) <==> traversal@.contains(
                        v as usize,
                    ) || stack@.contains(v as usize)) by {
                        if v == j {
                        } else {
                        }
                    }
                    assert forall|k: int| 0 <= k < stack@.len() implies !traversal@.contains(
                        #[trigger] stack@[k],
                    ) by {
                        if k < st0.len() {
                            assert(!traversal@.contains(st0[k]));
                        }
                    }
                }
            }
            q = q + 1;
        }
    }
}

/// Depth-first linearization started at a chosen vertex: the traversal
/// begins at `start` and walks its component; vertices the component does
/// not reach are appended by further restarts, so the result is always a
/// valid tour.
pub fn dfs_from_point(graph: &Vec<Vec<usize>>, start: usize) -> (r: Vec<usize>)
    requires
        graph@.len() <= usize::MAX,
        forall|u: int, k: int|
            0 <= u < graph@.len() && 0 <= k < graph@[u]@.len() ==> (#[trigger] graph@[u]@[k])
                < graph@.len(),
        start < graph@.len(),
    ensures
        valid_tour(r@, graph@.len()),
        r@[0] == start,
{
    let n = graph.len();
    let mut visited: Vec<bool> = Vec::new();
    let mut i: usize = 0;
    while i < n
        invariant
            i <= n,
            visited@.len() == i,
            forall|v: int| 0 <= v < i ==> !(#[trigger] visited@[v]),
        decreases n - i,
    {
        visited.push(false);
        i = i + 1;
    }
    let mut traversal: Vec<usize> = Vec::new();
    dfs_component(graph, &mut visited, &mut traversal, start);
    let ghost head = traversal@[0];
    let mut i: usize = 0;
    while i < n
        invariant
            n == graph@.len(),
            forall|u: int, k: int|
                0 <= u < n && 0 <= k < graph@[u]@.len() ==> (#[trigger] graph@[u]@[k]) < n,
            i <= n,
            visited@.len() == n,
            traversal@.no_duplicates(),
            traversal@.len() > 0,
            traversal@[0] == head,
            forall|k: int| 0 <= k < traversal@.len() ==> (#[trigger] traversal@[k]) < n,
            forall|v: int| 0 <= v < n ==> ((#[trigger] visited@[v]) <==> traversal@.contains(v as usize)),
            forall|v: int| 0 <= v < i ==> (#[trigger] visited@[v]),
        decreases n - i,
    {
        if !visited[i] {
            dfs_component(graph, &mut visited, &mut traversal, i);
        }
        i = i + 1;
    }
    proof {
        lemma_tour_counting(traversal@, n as nat);
        assert forall|v: usize| v < n implies traversal@.contains(v) by {
            assert(visited@[v as int]);
        }
    }
    traversal
}

/// Sum of the distances along consecutive positions of a traversal, without
/// the closing edge: the weight of the linearized walk as an open path.
pub fn weight_traversal(traversal: &Vec<usize>, adj_matrix: &DistanceMatrix) -> (r: u64)
    requires
        adj_matrix.wf(),
        in_bounds(traversal@, adj_matrix.n()),
        traversal@.len() <= adj_matrix.n(),
    ensures
        r == path_cost(*adj_matrix, traversal@),
{
    let ghost m = *adj_matrix;
    let ghost t = traversal@;
    let n = traversal.len();
    if n < 2 {
        return 0;
    }
    let mut s: u64 = 0;
    let mut k: usize = 1;
    while k < n
        invariant
            adj_matrix.wf(),
            m == *adj_matrix,
            t == traversal@,
            in_bounds(t, m.n()),
            t.len() == n,
            n <= m.n(),
            1 <= k <= n,
            s == path_cost(m, t.take(k as int)),
            s <= (k - 1) * MAX_DISTANCE,
        decreases n - k,
    {
        let prev = traversal[k - 1];
        let cur = traversal[k];
        proof {
            assert(adj_matrix.at(prev as int, cur as int) <= MAX_DISTANCE);
            assert(t.take(k + 1).drop_last() =~= t.take(k as int));
        }
        s = s + adj_matrix.d[prev][cur];
        k = k + 1;
    }
    proof {
        assert(t.take(n as int) =~= t);
    }
    s
}

/// An MST-derived seed tour: Prim's parent array, linearized depth-first.
pub fn mst_seed_tour(adj_matrix: &DistanceMatrix) -> (r: Vec<usize>)
    requires
        adj_matrix.wf(),
        adj_matrix.n() >= 1,
    ensures
        valid_tour(r@, adj_matrix.n()),
{
    let n = adj_matrix.len();
    let parent = prim(adj_matrix, n);
    let mst = parent_to_adj_list(&parent);
    dfs(&mst)
}

} // verus!
