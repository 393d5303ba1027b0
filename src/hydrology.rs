use crate::grid::{cell_index, lemma_coords_round_trip, lemma_index_round_trip, neighbor, neighbor_at};
use vstd::prelude::*;

verus! {

/// The neighbour of `(x, y)` in direction `e` is outside the grid or has a key
/// of at least `k`.
pub open spec fn neighbor_not_below(
    keys: Seq<u32>,
    x: int,
    y: int,
    e: int,
    w: int,
    h: int,
    k: u32,
) -> bool {
    match neighbor_at(x, y, e, w, h) {
        Some(u) => k <= keys[u],
        None => true,
    }
}

/// The neighbour of `(x, y)` in direction `e` is outside the grid or has a key
/// above `k`.
pub open spec fn neighbor_above(
    keys: Seq<u32>,
    x: int,
    y: int,
    e: int,
    w: int,
    h: int,
    k: u32,
) -> bool {
    match neighbor_at(x, y, e, w, h) {
        Some(u) => k < keys[u],
        None => true,
    }
}

/// `target` is the downslope pointer of cell `i`: `None` where no neighbour is
/// strictly lower than the cell, else the lowest neighbour, the first one in
/// scan order among equally low ones.
pub open spec fn is_downslope(keys: Seq<u32>, w: int, h: int, i: int, target: Option<usize>) -> bool {
    let x = i % w;
    let y = i / w;
    match target {
        None => forall|e: int| 0 <= e < 8 ==> #[trigger] neighbor_not_below(keys, x, y, e, w, h, keys[i]),
        Some(t) => exists|d: int|
            0 <= d < 8 && #[trigger] neighbor_at(x, y, d, w, h) == Some(t as int) && keys[t as int]
                < keys[i] && (forall|e: int|
                0 <= e < 8 ==> #[trigger] neighbor_not_below(keys, x, y, e, w, h, keys[t as int]))
                && (forall|e: int|
                0 <= e < d ==> #[trigger] neighbor_above(keys, x, y, e, w, h, keys[t as int])),
    }
}

/// The downslope pointer of every cell, in row-major order. `keys` orders the
/// cells by elevation.
pub fn downslope_targets(keys: &Vec<u32>, width: usize, height: usize) -> (r: Vec<Option<usize>>)
    requires
        keys@.len() == width * height,
    ensures
        r@.len() == keys@.len(),
        forall|i: int|
            0 <= i < r@.len() ==> #[trigger] is_downslope(keys@, width as int, height as int, i, r@[i]),
{
    let mut r: Vec<Option<usize>> = Vec::new();
    let mut y: usize = 0;
    while y < height
        invariant
            keys@.len() == width * height,
            y <= height,
            r@.len() == y * width,
            forall|i: int|
                0 <= i < r@.len() ==> #[trigger] is_downslope(keys@, width as int, height as int, i, r@[i]),
        decreases height - y,
    {
        let mut x: usize = 0;
        while x < width
            invariant
                keys@.len() == width * height,
                y < height,
                x <= width,
                r@.len() == y * width + x,
                forall|i: int|
                    0 <= i < r@.len() ==> #[trigger] is_downslope(keys@, width as int, height as int, i, r@[i]),
            decreases width - x,
        {
            proof {
                lemma_index_round_trip(x as int, y as int, width as int, height as int);
            }
            let t = lowest_neighbor(keys, x, y, width, height);
            r.push(t);
            x = x + 1;
        }
        assert((y + 1) * width == y * width + width) by (nonlinear_arith);
        y = y + 1;
    }
    assert(height * width == width * height) by (nonlinear_arith);
    r
}

/// The downslope pointer of the single cell `(x, y)`.
fn lowest_neighbor(keys: &Vec<u32>, x: usize, y: usize, width: usize, height: usize) -> (r: Option<usize>)
    requires
        keys@.len() == width * height,
        x < width,
        y < height,
    ensures
        is_downslope(keys@, width as int, height as int, cell_index(x as int, y as int, width as int), r),
{
    proof {
        lemma_index_round_trip(x as int, y as int, width as int, height as int);
    }
    let cells = keys.len();
    proof {
        assert(keys@.len() <= usize::MAX);
    }
    let ghost w = width as int;
    let ghost h = height as int;
    let ghost xi = x as int;
    let ghost yi = y as int;
    let index = y * width + x;
    let current = keys[index];
    let mut lowest = current;
    let mut lowest_index: Option<usize> = None;
    let ghost mut best_d: int = 0;
    let mut d: usize = 0;
    while d < 8
        invariant
            keys@.len() == width * height,
            x < width,
            y < height,
            index == cell_index(xi, yi, w),
            xi == x,
            yi == y,
            width * height <= usize::MAX,
            w == width,
            h == height,
            current == keys@[index as int],
            d <= 8,
            lowest_index.is_none() ==> lowest == current && forall|e: int|
                0 <= e < d ==> #[trigger] neighbor_not_below(keys@, xi, yi, e, w, h, current),
            lowest_index.is_some() ==> {
                let t = lowest_index.unwrap() as int;
                &&& 0 <= best_d < d
                &&& 0 <= t < keys@.len()
                &&& lowest == keys@[t]
                &&& neighbor_at(xi, yi, best_d, w, h) == Some(t)
                &&& keys@[t] < current
                &&& forall|e: int|
                    0 <= e < d ==> #[trigger] neighbor_not_below(keys@, xi, yi, e, w, h, lowest)
                &&& forall|e: int|
                    0 <= e < best_d ==> #[trigger] neighbor_above(keys@, xi, yi, e, w, h, lowest)
            },
        decreases 8 - d,
    {
        match neighbor(x, y, d, width, height) {
            Some(n) => {
                if keys[n] < lowest {
                    let ghost prev = lowest;
                    lowest = keys[n];
                    lowest_index = Some(n);
                    proof {
                        best_d = d as int;
                        assert forall|e: int| 0 <= e < best_d implies #[trigger] neighbor_above(
                            keys@,
                            xi,
                            yi,
                            e,
                            w,
                            h,
                            lowest,
                        ) by {
                            assert(neighbor_not_below(keys@, xi, yi, e, w, h, prev));
                        }
                        assert forall|e: int| 0 <= e < d + 1 implies #[trigger] neighbor_not_below(
                            keys@,
                            xi,
                            yi,
                            e,
                            w,
                            h,
                            lowest,
                        ) by {
                            if e < d {
                                assert(neighbor_not_below(keys@, xi, yi, e, w, h, prev));
                            }
                        }
                    }
                }
            },
            None => {},
        }
        d = d + 1;
    }
    proof {
        let i = cell_index(xi, yi, w);
        assert(i % w == xi && i / w == yi);
        if lowest_index.is_some() {
            let t = lowest_index.unwrap();
            assert(neighbor_at(xi, yi, best_d, w, h) == Some(t as int));
        }
    }
    lowest_index
}

/// `order` lists every cell exactly once, highest key first, and cells with
/// equal keys by ascending index.
pub open spec fn is_descending_order(keys: Seq<u32>, order: Seq<usize>) -> bool {
    &&& order.len() == keys.len()
    &&& forall|k: int| 0 <= k < order.len() ==> #[trigger] order[k] < keys.len()
    &&& forall|i: usize| i < keys.len() ==> #[trigger] order.contains(i)
    &&& forall|a: int, b: int|
        0 <= a < b < order.len() ==> keys[#[trigger] order[a] as int] > keys[#[trigger] order[b] as int] || (
        keys[order[a] as int] == keys[order[b] as int] && order[a] < order[b])
}

/// Sort key of cell `i` with order key `key`: ascending sort keys mean
/// descending order keys, then ascending indices.
pub open spec fn rank(key: u32, i: int) -> int {
    (0xFFFF_FFFFint - key) * 0x1_0000_0000int + i
}

proof fn lemma_rank_index(key: u32, i: int)
    requires
        0 <= i < 0x1_0000_0000,
    ensures
        rank(key, i) % 0x1_0000_0000 == i,
        0 <= rank(key, i) <= u64::MAX,
{
    vstd::arithmetic::div_mod::lemma_fundamental_div_mod_converse(
        rank(key, i),
        0x1_0000_0000,
        0xFFFF_FFFFint - key,
        i,
    );
}

proof fn lemma_rank_order(ka: u32, ia: int, kb: u32, ib: int)
    requires
        0 <= ia < 0x1_0000_0000,
        0 <= ib < 0x1_0000_0000,
        rank(ka, ia) < rank(kb, ib),
    ensures
        ka > kb || (ka == kb && ia < ib),
{
}

/// Relies on slice::sort_unstable: afterwards the vector holds the same
/// elements as before, in ascending order.
#[verifier::external_body]
fn sort_ascending(v: &mut Vec<u64>)
    ensures
        final(v)@.to_multiset() == old(v)@.to_multiset(),
        forall|a: int, b: int| 0 <= a < b < final(v)@.len() ==> final(v)@[a] <= final(v)@[b],
{
    v.sort_unstable();
}

/// The cells ordered from the highest key to the lowest; equal keys keep
/// ascending index order.
pub fn descending_order(keys: &Vec<u32>) -> (r: Vec<usize>)
    requires
        keys@.len() <= 0x1_0000_0000,
    ensures
        is_descending_order(keys@, r@),
{
    let n = keys.len();
    let mut ranks: Vec<u64> = Vec::new();
    let mut i: usize = 0;
    while i < n
        invariant
            n == keys@.len(),
            n <= 0x1_0000_0000,
            i <= n,
            ranks@.len() == i,
            forall|j: int| 0 <= j < i ==> ranks@[j] as int == #[trigger] rank(keys@[j], j),
        decreases n - i,
    {
        proof {
            lemma_rank_index(keys@[i as int], i as int);
        }
        let r: u64 = (0xFFFF_FFFFu64 - keys[i] as u64) * 0x1_0000_0000u64 + i as u64;
        ranks.push(r);
        i = i + 1;
    }
    let ghost unsorted = ranks@;
    proof {
        assert forall|a: int, b: int|
            0 <= a < unsorted.len() && 0 <= b < unsorted.len() && a != b implies unsorted[a]
            != unsorted[b] by {
            lemma_rank_index(keys@[a], a);
            lemma_rank_index(keys@[b], b);
            assert(rank(keys@[a], a) == unsorted[a]);
            assert(rank(keys@[b], b) == unsorted[b]);
        }
        assert(unsorted.no_duplicates());
        unsorted.lemma_multiset_has_no_duplicates();
    }
    sort_ascending(&mut ranks);
    proof {
        let s = ranks@;
        unsorted.to_multiset_ensures();
        s.to_multiset_ensures();
        s.lemma_multiset_has_no_duplicates_conv();
        assert forall|v: u64| s.contains(v) <==> unsorted.contains(v) by {
            assert(s.to_multiset().count(v) == unsorted.to_multiset().count(v));
        }
    }
    let mut order: Vec<usize> = Vec::new();
    let mut k: usize = 0;
    while k < n
        invariant
            n == keys@.len(),
            n <= 0x1_0000_0000,
            ranks@.len() == n,
            unsorted.len() == n,
            k <= n,
            order@.len() == k,
            forall|j: int| 0 <= j < n ==> unsorted[j] as int == #[trigger] rank(keys@[j], j),
            forall|v: u64| ranks@.contains(v) <==> unsorted.contains(v),
            forall|j: int|
                0 <= j < k ==> #[trigger] order@[j] < n && ranks@[j] as int == rank(
                    keys@[order@[j] as int],
                    order@[j] as int,
                ),
        decreases n - k,
    {
        let v = ranks[k];
        assert(ranks@.contains(v)) by {
            assert(ranks@[k as int] == v);
        }
        assert(unsorted.contains(v));
        let ghost j = choose|j: int| 0 <= j < unsorted.len() && unsorted[j] == v;
        proof {
            lemma_rank_index(keys@[j], j);
        }
        order.push((v % 0x1_0000_0000u64) as usize);
        k = k + 1;
    }
    proof {
        assert forall|i: usize| i < n implies #[trigger] order@.contains(i) by {
            let ii = i as int;
            assert(unsorted.contains(unsorted[ii]));
            assert(ranks@.contains(unsorted[ii]));
            let k = choose|k: int| 0 <= k < n && ranks@[k] == unsorted[ii];
            lemma_rank_index(keys@[ii], ii);
            lemma_rank_index(keys@[order@[k] as int], order@[k] as int);
            assert(order@[k] == i);
        }
        assert forall|a: int, b: int| 0 <= a < b < order@.len() implies keys@[
            #[trigger] order@[a] as int] > keys@[#[trigger] order@[b] as int] || (keys@[
            order@[a] as int] == keys@[order@[b] as int] && order@[a] < order@[b]) by {
            assert(ranks@[a] != ranks@[b]);
            lemma_rank_order(keys@[order@[a] as int], order@[a] as int, keys@[order@[b] as int], order@[b] as int);
        }
    }
    order
}

/// Every downslope pointer names a cell of the grid with a lower key.
pub open spec fn targets_lower(keys: Seq<u32>, down: Seq<Option<usize>>) -> bool {
    &&& down.len() == keys.len()
    &&& forall|i: int|
        0 <= i < down.len() && (#[trigger] down[i]).is_some() ==> down[i].unwrap() < keys.len()
            && keys[down[i].unwrap() as int] < keys[i]
}

/// The flow of every cell after the first `k` cells of `order` have each
/// added their current flow into their downslope target. Every cell starts
/// with a flow of one.
pub open spec fn flow_after(down: Seq<Option<usize>>, order: Seq<usize>, k: nat) -> Seq<int>
    decreases k,
{
    if k == 0 {
        Seq::new(down.len(), |i: int| 1int)
    } else {
        let f = flow_after(down, order, (k - 1) as nat);
        let c = order[k - 1] as int;
        match down[c] {
            Some(t) => f.update(t as int, f[t as int] + f[c]),
            None => f,
        }
    }
}

/// Sum of the flows of the cells below `m` that have not yet pushed theirs.
spec fn pending_sum(f: Seq<int>, done: Seq<bool>, m: nat) -> int
    decreases m,
{
    if m == 0 {
        0
    } else {
        pending_sum(f, done, (m - 1) as nat) + if done[m - 1] {
            0
        } else {
            f[m - 1]
        }
    }
}

proof fn lemma_pending_all_ones(f: Seq<int>, done: Seq<bool>, m: nat)
    requires
        m <= f.len(),
        m <= done.len(),
        forall|i: int| 0 <= i < m ==> f[i] == 1 && !done[i],
    ensures
        pending_sum(f, done, m) == m,
    decreases m,
{
    if m > 0 {
        lemma_pending_all_ones(f, done, (m - 1) as nat);
    }
}

proof fn lemma_pending_update(f: Seq<int>, done: Seq<bool>, m: nat, t: int, v: int)
    requires
        0 <= t < f.len(),
        m <= f.len(),
        m <= done.len(),
        !done[t],
    ensures
        pending_sum(f.update(t, v), done, m) == pending_sum(f, done, m) + if t < m {
            v - f[t]
        } else {
            0
        },
    decreases m,
{
    if m > 0 {
        lemma_pending_update(f, done, (m - 1) as nat, t, v);
    }
}

proof fn lemma_pending_mark(f: Seq<int>, done: Seq<bool>, m: nat, c: int)
    requires
        0 <= c < done.len(),
        m <= f.len(),
        m <= done.len(),
        !done[c],
    ensures
        pending_sum(f, done.update(c, true), m) == pending_sum(f, done, m) - if c < m {
            f[c]
        } else {
            0
        },
    decreases m,
{
    if m > 0 {
        lemma_pending_mark(f, done, (m - 1) as nat, c);
    }
}

proof fn lemma_pending_bounds(f: Seq<int>, done: Seq<bool>, m: nat, c: int, t: int)
    requires
        m <= f.len(),
        m <= done.len(),
        0 <= c < m,
        0 <= t < m,
        !done[c],
        !done[t],
        forall|i: int| 0 <= i < m ==> f[i] >= 0,
    ensures
        f[c] <= pending_sum(f, done, m),
        c != t ==> f[c] + f[t] <= pending_sum(f, done, m),
        pending_sum(f, done, m) >= 0,
    decreases m,
{
    if m > 0 {
        let last = (m - 1) as nat;
        lemma_pending_nonneg(f, done, last);
        if c < last && t < last {
            lemma_pending_bounds(f, done, last, c, t);
        } else if c < last {
            lemma_pending_bounds(f, done, last, c, c);
        } else if t < last {
            lemma_pending_bounds(f, done, last, t, t);
        }
    }
}

proof fn lemma_pending_nonneg(f: Seq<int>, done: Seq<bool>, m: nat)
    requires
        m <= f.len(),
        m <= done.len(),
        forall|i: int| 0 <= i < m ==> f[i] >= 0,
    ensures
        pending_sum(f, done, m) >= 0,
    decreases m,
{
    if m > 0 {
        lemma_pending_nonneg(f, done, (m - 1) as nat);
    }
}

/// Accumulates flow by visiting the cells in `order` and adding each cell's
/// flow into its downslope target. Every cell's flow is at least one and at
/// most the number of cells.
pub fn accumulate_flow(keys: &Vec<u32>, down: &Vec<Option<usize>>, order: &Vec<usize>) -> (r: Vec<u32>)
    requires
        keys@.len() <= u32::MAX,
        targets_lower(keys@, down@),
        is_descending_order(keys@, order@),
    ensures
        r@.len() == keys@.len(),
        forall|i: int|
            0 <= i < r@.len() ==> r@[i] as int == #[trigger] flow_after(
                down@,
                order@,
                order@.len() as nat,
            )[i],
        forall|i: int| 0 <= i < r@.len() ==> 1 <= #[trigger] r@[i] <= keys@.len(),
{
    let n = keys.len();
    let mut flow: Vec<u32> = Vec::new();
    let mut i: usize = 0;
    while i < n
        invariant
            i <= n,
            flow@.len() == i,
            forall|j: int| 0 <= j < i ==> #[trigger] flow@[j] == 1,
        decreases n - i,
    {
        flow.push(1);
        i = i + 1;
    }
    let ghost mut done: Seq<bool> = Seq::new(n as nat, |j: int| false);
    proof {
        lemma_pending_all_ones(flow_after(down@, order@, 0), done, n as nat);
    }
    let mut k: usize = 0;
    while k < n
        invariant
            n == keys@.len(),
            n <= u32::MAX,
            targets_lower(keys@, down@),
            is_descending_order(keys@, order@),
            k <= n,
            flow@.len() == n,
            done.len() == n,
            flow_after(down@, order@, k as nat).len() == n,
            forall|j: int|
                0 <= j < n ==> #[trigger] flow@[j] as int == flow_after(down@, order@, k as nat)[j],
            forall|j: int| 0 <= j < n ==> 1 <= #[trigger] flow@[j] <= n,
            forall|j: int| 0 <= j < n ==> (#[trigger] done[order@[j] as int] <==> j < k),
            pending_sum(flow_after(down@, order@, k as nat), done, n as nat) <= n,
        decreases n - k,
    {
        let ghost f = flow_after(down@, order@, k as nat);
        let c = order[k];
        proof {
            if done[c as int] {
                assert(order@.contains(c));
                let j = choose|j: int| 0 <= j < n && order@[j] == c;
                if j != k as int {
                    assert(keys@[order@[j] as int] > keys@[order@[k as int] as int] || keys@[order@[k as int] as int] > keys@[order@[j] as int] || order@[j] != order@[k as int]);
                }
            }
            assert(!done[c as int]);
        }
        match down[c] {
            Some(t) => {
                proof {
                    assert(down@[c as int].is_some());
                    assert(order@.contains(t));
                    let p = choose|p: int| 0 <= p < n && order@[p] == t;
                    if p <= k {
                        if p < k {
                            assert(keys@[order@[p] as int] >= keys@[order@[k as int] as int]);
                        }
                    }
                    assert(p > k);
                    assert(!done[t as int]);
                    assert forall|j: int| 0 <= j < n implies f[j] >= 0 by {
                        assert(flow@[j] >= 1);
                    }
                    lemma_pending_bounds(f, done, n as nat, c as int, t as int);
                }
                let sum = flow[t] + flow[c];
                proof {
                    let f2 = f.update(t as int, f[t as int] + f[c as int]);
                    lemma_pending_update(f, done, n as nat, t as int, f[t as int] + f[c as int]);
                    lemma_pending_mark(f2, done, n as nat, c as int);
                    assert(flow_after(down@, order@, (k + 1) as nat) == f2);
                    assert(t != c);
                    assert(f2[c as int] == f[c as int]);
                    done = done.update(c as int, true);
                    assert forall|j: int| 0 <= j < n implies (#[trigger] done[order@[j] as int] <==> j < k + 1) by {
                        if j != k as int {
                            assert(order@[j] != order@[k as int]);
                        }
                    }
                }
                flow.set(t, sum);
            },
            None => {
                proof {
                    lemma_pending_mark(f, done, n as nat, c as int);
                    assert(flow_after(down@, order@, (k + 1) as nat) == f);
                    assert(flow@[c as int] >= 1);
                    done = done.update(c as int, true);
                    assert forall|j: int| 0 <= j < n implies (#[trigger] done[order@[j] as int] <==> j < k + 1) by {
                        if j != k as int {
                            assert(order@[j] != order@[k as int]);
                        }
                    }
                }
            },
        }
        k = k + 1;
    }
    flow
}

/// The largest flow of the grid, or 0 for an empty grid.
pub fn max_flow(flow: &Vec<u32>) -> (r: u32)
    ensures
        forall|i: int| 0 <= i < flow@.len() ==> #[trigger] flow@[i] <= r,
        flow@.len() == 0 ==> r == 0,
        flow@.len() > 0 ==> exists|i: int| 0 <= i < flow@.len() && #[trigger] flow@[i] == r,
{
    let mut best: u32 = 0;
    let mut i: usize = 0;
    while i < flow.len()
        invariant
            i <= flow@.len(),
            forall|j: int| 0 <= j < i ==> #[trigger] flow@[j] <= best,
            i == 0 ==> best == 0,
            i > 0 ==> exists|j: int| 0 <= j < i && #[trigger] flow@[j] == best,
        decreases flow@.len() - i,
    {
        if i == 0 || flow[i] > best {
            best = flow[i];
        }
        i = i + 1;
    }
    best
}

/// Order key of 0.3, the runoff a river channel must exceed.
pub const K_CHANNEL: u32 = 0xBE99_999A;

/// What a cell holds of water.
#[derive(PartialEq, Eq, Structural, Clone, Copy, Debug)]
pub enum Water {
    /// At or below sea level: fully water.
    Submerged,
    /// Above sea level with enough runoff to carry a channel, whose strength
    /// is the runoff itself.
    Channel,
    /// Dry land.
    Dry,
}

/// The water of a cell from the order keys of its elevation, the sea level
/// and its runoff.
pub open spec fn water_of(elev: u32, sea: u32, runoff: u32) -> Water {
    if elev <= sea {
        Water::Submerged
    } else if runoff > K_CHANNEL {
        Water::Channel
    } else {
        Water::Dry
    }
}

/// The water of every cell. A cell at or below sea level is always
/// submerged, whatever its runoff.
pub fn water_classes(elevation: &Vec<u32>, sea: u32, runoff: &Vec<u32>) -> (r: Vec<Water>)
    requires
        runoff@.len() == elevation@.len(),
    ensures
        r@.len() == elevation@.len(),
        forall|i: int|
            0 <= i < r@.len() ==> #[trigger] r@[i] == water_of(elevation@[i], sea, runoff@[i]),
        forall|i: int| 0 <= i < r@.len() && elevation@[i] <= sea ==> #[trigger] r@[i] == Water::Submerged,
{
    let mut r: Vec<Water> = Vec::new();
    let mut i: usize = 0;
    while i < elevation.len()
        invariant
            runoff@.len() == elevation@.len(),
            i <= elevation@.len(),
            r@.len() == i,
            forall|j: int| 0 <= j < i ==> #[trigger] r@[j] == water_of(elevation@[j], sea, runoff@[j]),
        decreases elevation@.len() - i,
    {
        let w = if elevation[i] <= sea {
            Water::Submerged
        } else if runoff[i] > K_CHANNEL {
            Water::Channel
        } else {
            Water::Dry
        };
        r.push(w);
        i = i + 1;
    }
    r
}

/// The routing and accumulated flow of a grid.
pub struct FlowMap {
    /// The downslope pointer of each cell.
    pub downslope: Vec<Option<usize>>,
    /// The cells from the highest to the lowest, the order in which they
    /// pushed their flow.
    pub order: Vec<usize>,
    /// The accumulated flow of each cell.
    pub flow: Vec<u32>,
}

/// Routes every cell of a `width` by `height` grid to its lowest lower
/// neighbour and accumulates flow from the highest cell to the lowest.
pub fn build_flow(keys: &Vec<u32>, width: usize, height: usize) -> (r: FlowMap)
    requires
        keys@.len() == width * height,
        keys@.len() <= u32::MAX,
    ensures
        r.downslope@.len() == keys@.len(),
        forall|i: int|
            0 <= i < keys@.len() ==> #[trigger] is_downslope(
                keys@,
                width as int,
                height as int,
                i,
                r.downslope@[i],
            ),
        is_descending_order(keys@, r.order@),
        r.flow@.len() == keys@.len(),
        forall|i: int|
            0 <= i < r.flow@.len() ==> r.flow@[i] as int == #[trigger] flow_after(
                r.downslope@,
                r.order@,
                keys@.len() as nat,
            )[i],
        forall|i: int| 0 <= i < r.flow@.len() ==> 1 <= #[trigger] r.flow@[i] <= keys@.len(),
{
    let downslope = downslope_targets(keys, width, height);
    let order = descending_order(keys);
    proof {
        let w = width as int;
        let h = height as int;
        assert forall|i: int| 0 <= i < downslope@.len() && (#[trigger] downslope@[i]).is_some() implies downslope@[i].unwrap()
            < keys@.len() && keys@[downslope@[i].unwrap() as int] < keys@[i] by {
            assert(is_downslope(keys@, w, h, i, downslope@[i]));
            let t = downslope@[i].unwrap();
            let d = choose|d: int|
                0 <= d < 8 && #[trigger] neighbor_at(i % w, i / w, d, w, h) == Some(t as int)
                    && keys@[t as int] < keys@[i] && (forall|e: int|
                    0 <= e < 8 ==> #[trigger] neighbor_not_below(keys@, i % w, i / w, e, w, h, keys@[t as int]))
                    && (forall|e: int|
                    0 <= e < d ==> #[trigger] neighbor_above(keys@, i % w, i / w, e, w, h, keys@[t as int]));
            lemma_coords_round_trip(i, w, h);
            let nx = i % w + crate::grid::dir_dx(d);
            let ny = i / w + crate::grid::dir_dy(d);
            lemma_index_round_trip(nx, ny, w, h);
        }
    }
    let flow = accumulate_flow(keys, &downslope, &order);
    FlowMap { downslope, order, flow }
}

} // verus!
