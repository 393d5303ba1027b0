use vstd::assert_by_contradiction;
use vstd::prelude::*;
use vstd::set_lib::{lemma_int_range, lemma_len_subset, lemma_subset_equality, set_int_range};

verus! {

/// The settlements connected after the first `k` edges: settlement 0 and the
/// far end of each edge.
pub open spec fn reached(edges: Seq<(u32, u32)>, k: nat) -> Set<int>
    decreases k,
{
    if k == 0 {
        set![0int]
    } else {
        reached(edges, (k - 1) as nat).insert(edges[k - 1].1 as int)
    }
}

/// Distance key between settlements `i` and `j`.
pub open spec fn dkey(dist: Seq<Vec<u32>>, i: int, j: int) -> u32 {
    dist[i]@[j]
}

/// The pair `(a, b)` is at most as far apart as `(i, j)`, and comes first in
/// scan order (by `a`, then by `b`) where the two are equally far.
pub open spec fn first_shortest(dist: Seq<Vec<u32>>, a: int, b: int, i: int, j: int) -> bool {
    dkey(dist, a, b) < dkey(dist, i, j) || (dkey(dist, a, b) == dkey(dist, i, j) && (a < i || (a
        == i && b <= j)))
}

/// Edge `k` joins a connected settlement to an unconnected one, and is the
/// first shortest such pair.
pub open spec fn is_greedy_edge(dist: Seq<Vec<u32>>, edges: Seq<(u32, u32)>, k: int) -> bool {
    let s = reached(edges, k as nat);
    let a = edges[k].0 as int;
    let b = edges[k].1 as int;
    &&& 0 <= a < dist.len()
    &&& 0 <= b < dist.len()
    &&& s.contains(a)
    &&& !s.contains(b)
    &&& forall|i: int, j: int|
        0 <= i < dist.len() && 0 <= j < dist.len() && s.contains(i) && !s.contains(j)
            ==> #[trigger] first_shortest(dist, a, b, i, j)
}

/// Each edge joins a settlement already reached to one not yet reached, both
/// among the first `n`.
pub open spec fn grows_tree(edges: Seq<(u32, u32)>, n: int) -> bool {
    forall|k: int|
        0 <= k < edges.len() ==> {
            let s = reached(edges, k as nat);
            &&& 0 <= #[trigger] edges[k].0 < n
            &&& 0 <= edges[k].1 < n
            &&& s.contains(edges[k].0 as int)
            &&& !s.contains(edges[k].1 as int)
        }
}

proof fn lemma_reached_root(edges: Seq<(u32, u32)>, k: nat)
    ensures
        reached(edges, k).contains(0),
    decreases k,
{
    if k > 0 {
        lemma_reached_root(edges, (k - 1) as nat);
    }
}

proof fn lemma_reached_push(edges: Seq<(u32, u32)>, e: (u32, u32), k: nat)
    requires
        k <= edges.len(),
    ensures
        reached(edges.push(e), k) == reached(edges, k),
    decreases k,
{
    if k > 0 {
        lemma_reached_push(edges, e, (k - 1) as nat);
    }
}

/// Edges that grow a tree from settlement 0 reach one new settlement each:
/// after `k` of them exactly `k + 1` settlements are connected, so the edges
/// hold no cycle, and `n - 1` of them connect all `n` settlements.
pub proof fn lemma_tree_spans(edges: Seq<(u32, u32)>, n: int)
    requires
        n >= 1,
        edges.len() == n - 1,
        grows_tree(edges, n),
    ensures
        forall|k: nat|
            k <= edges.len() ==> (#[trigger] reached(edges, k)).finite() && reached(edges, k).len()
                == k + 1 && reached(edges, k).subset_of(set_int_range(0, n)),
        reached(edges, edges.len() as nat) == set_int_range(0, n),
{
    assert forall|k: nat| k <= edges.len() implies (#[trigger] reached(edges, k)).finite()
        && reached(edges, k).len() == k + 1 && reached(edges, k).subset_of(
        set_int_range(0, n),
    ) by {
        lemma_reached_count(edges, n, k);
    }
    lemma_int_range(0, n);
    lemma_subset_equality(reached(edges, edges.len() as nat), set_int_range(0, n));
}

proof fn lemma_reached_count(edges: Seq<(u32, u32)>, n: int, k: nat)
    requires
        n >= 1,
        k <= edges.len(),
        grows_tree(edges, n),
    ensures
        reached(edges, k).finite(),
        reached(edges, k).len() == k + 1,
        reached(edges, k).subset_of(set_int_range(0, n)),
    decreases k,
{
    if k > 0 {
        lemma_reached_count(edges, n, (k - 1) as nat);
        assert(edges[k - 1].0 < n);
    }
}

/// Builds the road network over `n` settlements, where `dist[i][j]` orders
/// the distance between settlements `i` and `j`: starting from settlement 0,
/// repeatedly adds the first shortest edge from a connected settlement to an
/// unconnected one, until all are connected.
pub fn build_roads(dist: &Vec<Vec<u32>>) -> (r: Vec<(u32, u32)>)
    requires
        dist@.len() <= u32::MAX,
        forall|i: int| 0 <= i < dist@.len() ==> (#[trigger] dist@[i])@.len() == dist@.len(),
    ensures
        dist@.len() < 2 ==> r@.len() == 0,
        dist@.len() >= 2 ==> r@.len() == dist@.len() - 1,
        forall|k: int| 0 <= k < r@.len() ==> #[trigger] is_greedy_edge(dist@, r@, k),
        grows_tree(r@, dist@.len() as int),
        dist@.len() >= 1 ==> reached(r@, r@.len() as nat) == set_int_range(0, dist@.len() as int),
{
    let n = dist.len();
    let mut edges: Vec<(u32, u32)> = Vec::new();
    if n < 2 {
        proof {
            if n == 1 {
                assert(reached(edges@, 0) =~= set_int_range(0, 1));
            }
        }
        return edges;
    }
    let mut connected: Vec<bool> = Vec::new();
    let mut v: usize = 0;
    while v < n
        invariant
            v <= n,
            connected@.len() == v,
            forall|u: int| 0 <= u < v ==> (#[trigger] connected@[u]) == (u == 0),
        decreases n - v,
    {
        connected.push(v == 0);
        v = v + 1;
    }
    proof {
        lemma_int_range(0, n as int);
    }
    while edges.len() < n - 1
        invariant
            n == dist@.len(),
            2 <= n <= u32::MAX,
            forall|i: int| 0 <= i < n ==> (#[trigger] dist@[i])@.len() == n,
            connected@.len() == n,
            edges@.len() <= n - 1,
            forall|u: int| 0 <= u < n ==> (#[trigger] connected@[u]) == reached(edges@, edges@.len() as nat).contains(u),
            reached(edges@, edges@.len() as nat).finite(),
            reached(edges@, edges@.len() as nat).len() == edges@.len() + 1,
            reached(edges@, edges@.len() as nat).subset_of(set_int_range(0, n as int)),
            set_int_range(0, n as int).finite(),
            set_int_range(0, n as int).len() == n,
            forall|k: int| 0 <= k < edges@.len() ==> #[trigger] is_greedy_edge(dist@, edges@, k),
        decreases n - 1 - edges@.len(),
    {
        let ghost s = reached(edges@, edges@.len() as nat);
        proof {
            lemma_reached_root(edges@, edges@.len() as nat);
            assert(connected@[0]);
            assert_by_contradiction!(exists|u: int| 0 <= u < n && !#[trigger] connected@[u], {
                assert forall|u: int| #[trigger] set_int_range(0, n as int).contains(u) implies s.contains(u) by {
                    assert(connected@[u]);
                }
                lemma_len_subset(set_int_range(0, n as int), s);
            });
        }
        let (a, b) = closest_pair(dist, &connected);
        proof {
            let e = (a as u32, b as u32);
            lemma_reached_push(edges@, e, edges@.len() as nat);
            assert forall|k: int| 0 <= k < edges@.len() + 1 implies #[trigger] is_greedy_edge(
                dist@,
                edges@.push(e),
                k,
            ) by {
                lemma_reached_push(edges@, e, k as nat);
                if k < edges@.len() {
                    assert(is_greedy_edge(dist@, edges@, k));
                }
            }
        }
        edges.push((a as u32, b as u32));
        connected.set(b, true);
    }
    proof {
        assert forall|k: int| 0 <= k < edges@.len() implies {
            let s = reached(edges@, k as nat);
            &&& 0 <= #[trigger] edges@[k].0 < n
            &&& 0 <= edges@[k].1 < n
            &&& s.contains(edges@[k].0 as int)
            &&& !s.contains(edges@[k].1 as int)
        } by {
            assert(is_greedy_edge(dist@, edges@, k));
        }
        lemma_tree_spans(edges@, n as int);
    }
    edges
}

/// The first shortest pair from a connected settlement to an unconnected
/// one, scanning connected settlements by index, then unconnected ones.
fn closest_pair(dist: &Vec<Vec<u32>>, connected: &Vec<bool>) -> (r: (usize, usize))
    requires
        connected@.len() == dist@.len(),
        forall|i: int| 0 <= i < dist@.len() ==> (#[trigger] dist@[i])@.len() == dist@.len(),
        exists|u: int| 0 <= u < dist@.len() && #[trigger] connected@[u],
        exists|u: int| 0 <= u < dist@.len() && !#[trigger] connected@[u],
    ensures
        r.0 < dist@.len(),
        r.1 < dist@.len(),
        connected@[r.0 as int],
        !connected@[r.1 as int],
        forall|i: int, j: int|
            0 <= i < dist@.len() && 0 <= j < dist@.len() && connected@[i] && !connected@[j]
                ==> #[trigger] first_shortest(dist@, r.0 as int, r.1 as int, i, j),
{
    let n = dist.len();
    let mut found = false;
    let mut ba: usize = 0;
    let mut bb: usize = 0;
    let mut i: usize = 0;
    while i < n
        invariant
            n == dist@.len(),
            connected@.len() == n,
            forall|i: int| 0 <= i < n ==> (#[trigger] dist@[i])@.len() == n,
            i <= n,
            !found ==> forall|p: int, q: int|
                0 <= p < i && 0 <= q < n ==> !(connected@[p] && !connected@[q]),
            found ==> ba < i && bb < n && connected@[ba as int] && !connected@[bb as int],
            found ==> forall|p: int, q: int|
                0 <= p < i && 0 <= q < n && connected@[p] && !connected@[q]
                    ==> #[trigger] first_shortest(dist@, ba as int, bb as int, p, q),
        decreases n - i,
    {
        if connected[i] {
            let mut j: usize = 0;
            while j < n
                invariant
                    n == dist@.len(),
                    connected@.len() == n,
                    forall|i: int| 0 <= i < n ==> (#[trigger] dist@[i])@.len() == n,
                    i < n,
                    connected@[i as int],
                    j <= n,
                    !found ==> forall|p: int, q: int|
                        (0 <= p < i && 0 <= q < n) || (p == i && 0 <= q < j) ==> !(connected@[p]
                            && !connected@[q]),
                    found ==> ba < n && bb < n && connected@[ba as int] && !connected@[bb as int],
                    found ==> (ba < i || (ba == i && bb < j)),
                    found ==> forall|p: int, q: int|
                        ((0 <= p < i && 0 <= q < n) || (p == i && 0 <= q < j)) && connected@[p]
                            && !connected@[q] ==> #[trigger] first_shortest(
                            dist@,
                            ba as int,
                            bb as int,
                            p,
                            q,
                        ),
                decreases n - j,
            {
                let ghost prev_found = found;
                let ghost prev_a = ba as int;
                let ghost prev_b = bb as int;
                if !connected[j] {
                    if !found || dist[i][j] < dist[ba][bb] {
                        found = true;
                        ba = i;
                        bb = j;
                    }
                }
                proof {
                    assert forall|p: int, q: int|
                        ((0 <= p < i && 0 <= q < n) || (p == i && 0 <= q < j + 1)) && connected@[p]
                            && !connected@[q] implies #[trigger] first_shortest(
                        dist@,
                        ba as int,
                        bb as int,
                        p,
                        q,
                    ) by {
                        if !(p == i && q == j) {
                            assert(prev_found);
                            assert(first_shortest(dist@, prev_a, prev_b, p, q));
                        }
                    }
                }
                j = j + 1;
            }
        }
        i = i + 1;
    }
    (ba, bb)
}

} // verus!
