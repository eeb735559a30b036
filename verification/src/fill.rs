//! Priority-flood depression filling (Barnes et al. 2014), exact variant.
//!
//! Elevations are handled as order keys: any integer encoding that
//! orders cells as their elevations do (the fill only compares
//! elevations and copies them, never does arithmetic on them). Every
//! valid cell connected to the grid edge is raised to its *spill
//! level*: the lowest level `h` such that some path of valid cells
//! from it to the edge stays at or below `h`. Cells cut off from the
//! edge by `NoData` keep their elevation.

use vstd::prelude::*;
use vstd::multiset::Multiset;
use crate::grid::{
    adjacent, d8_neighbour, direction_between, grid_ok, in_grid, lemma_adjacent_neighbour,
    lemma_adjacent_symmetric, lemma_neighbour_adjacent, neighbour, on_boundary,
};
use crate::heap::{pair_le, MinHeap};

verus! {

broadcast use vstd::multiset::group_multiset_axioms;

/// `p` is a path of valid (non-`NoData`) cells, each adjacent to the
/// next, ending on the grid edge.
pub open spec fn drain_path(rows: int, cols: int, solid: Seq<bool>, p: Seq<int>) -> bool {
    &&& p.len() > 0
    &&& forall|t: int| 0 <= t < p.len() ==> in_grid(rows, cols, #[trigger] p[t]) && !solid[p[t]]
    &&& forall|t: int| 0 <= t < p.len() - 1 ==> adjacent(rows, cols, #[trigger] p[t], p[t + 1])
    &&& on_boundary(rows, cols, p.last())
}

/// Every cell of `p` has elevation key at most `h`.
pub open spec fn below(keys: Seq<u32>, p: Seq<int>, h: int) -> bool {
    forall|t: int| 0 <= t < p.len() ==> keys[#[trigger] p[t]] <= h
}

/// Cell `i` has a drain path.
pub open spec fn drains(rows: int, cols: int, solid: Seq<bool>, i: int) -> bool {
    exists|p: Seq<int>| #[trigger] drain_path(rows, cols, solid, p) && p[0] == i
}

/// `filled` is the spill-level fill of `keys`: raised, never lowered;
/// each drainable cell sits exactly at its spill level (some drain
/// path stays at or below it, and none stays strictly below it);
/// `NoData` and enclosed cells are unchanged.
pub open spec fn is_spill_fill(rows: int, cols: int, solid: Seq<bool>, keys: Seq<u32>, filled: Seq<u32>) -> bool {
    &&& filled.len() == keys.len()
    &&& forall|i: int| 0 <= i < keys.len() ==> #[trigger] filled[i] >= keys[i]
    &&& forall|i: int| 0 <= i < keys.len() && solid[i] ==> #[trigger] filled[i] == keys[i]
    &&& forall|i: int| 0 <= i < keys.len() && !drains(rows, cols, solid, i) ==> #[trigger] filled[i] == keys[i]
    &&& forall|i: int|
        0 <= i < keys.len() && #[trigger] drains(rows, cols, solid, i) ==> exists|p: Seq<int>|
            #[trigger] drain_path(rows, cols, solid, p) && p[0] == i && below(keys, p, filled[i] as int)
    &&& forall|p: Seq<int>, h: int|
        #![trigger drain_path(rows, cols, solid, p), below(keys, p, h)]
        drain_path(rows, cols, solid, p) && below(keys, p, h) ==> filled[p[0]] <= h
}

#[verifier::opaque]
spec fn min_ok(rows: int, cols: int, solid: Seq<bool>, keys: Seq<u32>, filled: Seq<u32>, vis: Seq<bool>) -> bool {
    forall|p: Seq<int>, h: int|
        #![trigger drain_path(rows, cols, solid, p), below(keys, p, h)]
        drain_path(rows, cols, solid, p) && vis[p[0]] && below(keys, p, h) ==> filled[p[0]] <= h
}

#[verifier::opaque]
spec fn ach_ok(rows: int, cols: int, solid: Seq<bool>, keys: Seq<u32>, filled: Seq<u32>, vis: Seq<bool>) -> bool {
    forall|v: int|
        0 <= v < vis.len() && #[trigger] vis[v] ==> exists|p: Seq<int>|
            #[trigger] drain_path(rows, cols, solid, p) && p[0] == v && below(keys, p, filled[v] as int)
}

#[verifier::opaque]
spec fn closed_except(rows: int, cols: int, solid: Seq<bool>, vis: Seq<bool>, popped: Seq<bool>, y: int) -> bool {
    forall|b: int, a: int|
        #![trigger popped[b], adjacent(rows, cols, b, a)]
        0 <= b < popped.len() && popped[b] && b != y && adjacent(rows, cols, b, a) && !solid[a] ==> vis[a]
}

#[verifier::opaque]
spec fn seeds_ok(rows: int, cols: int, solid: Seq<bool>, vis: Seq<bool>) -> bool {
    forall|i: int|
        0 <= i < vis.len() && #[trigger] on_boundary(rows, cols, i) && !solid[i] ==> vis[i]
}

#[verifier::opaque]
spec fn basic_ok(n: int, solid: Seq<bool>, keys: Seq<u32>, filled: Seq<u32>, vis: Seq<bool>, popped: Seq<bool>) -> bool {
    &&& forall|j: int| 0 <= j < n && solid[j] ==> !vis[j]
    &&& forall|j: int| 0 <= j < n ==> #[trigger] filled[j] >= keys[j]
    &&& forall|j: int| 0 <= j < n && !vis[j] ==> #[trigger] filled[j] == keys[j]
    &&& forall|j: int| 0 <= j < n && #[trigger] popped[j] ==> vis[j]
}

/// The queue holds exactly the visited, not yet popped cells, each at
/// its current level.
#[verifier::opaque]
spec fn heap_ok(n: int, filled: Seq<u32>, vis: Seq<bool>, popped: Seq<bool>, contents: Multiset<(u32, usize)>) -> bool {
    forall|x: (u32, usize)|
        #[trigger] contents.count(x) == if x.1 < n && vis[x.1 as int] && !popped[x.1 as int] && x.0
            == filled[x.1 as int] {
            1nat
        } else {
            0nat
        }
}

/// Every queued cell is at level `spill` or above.
#[verifier::opaque]
spec fn lower_ok(n: int, filled: Seq<u32>, vis: Seq<bool>, popped: Seq<bool>, spill: u32) -> bool {
    forall|b: int| 0 <= b < n && vis[b] && !popped[b] ==> #[trigger] filled[b] >= spill
}

/// The first `k` neighbours of `y` are settled.
#[verifier::opaque]
spec fn progress_ok(rows: int, cols: int, solid: Seq<bool>, vis: Seq<bool>, y: int, k: int) -> bool {
    forall|kk: int| 0 <= kk < k ==> match #[trigger] neighbour(rows, cols, y, kk) {
        Some(a) => solid[a] || vis[a],
        None => true,
    }
}

/// Number of unvisited cells.
spec fn count_false(s: Seq<bool>) -> nat
    decreases s.len(),
{
    if s.len() == 0 {
        0
    } else {
        count_false(s.drop_last()) + if s.last() {
            0nat
        } else {
            1nat
        }
    }
}

proof fn lemma_count_false_update(s: Seq<bool>, i: int)
    requires
        0 <= i < s.len(),
        !s[i],
    ensures
        count_false(s) >= 1,
        count_false(s.update(i, true)) == count_false(s) - 1,
    decreases s.len(),
{
    let u = s.update(i, true);
    if i == s.len() - 1 {
        assert(u.drop_last() =~= s.drop_last());
    } else {
        lemma_count_false_update(s.drop_last(), i);
        assert(u.drop_last() =~= s.drop_last().update(i, true));
    }
}

/// Along a path from an unvisited cell to a visited one there is a step
/// from an unvisited cell onto a visited cell.
proof fn lemma_first_visited(p: Seq<int>, vis: Seq<bool>, i: int) -> (t: int)
    requires
        0 <= i < p.len(),
        !vis[p[i]],
        vis[p.last()],
    ensures
        i < t < p.len(),
        !vis[p[t - 1]],
        vis[p[t]],
    decreases p.len() - i,
{
    if vis[p[i + 1]] {
        i + 1
    } else {
        lemma_first_visited(p, vis, i + 1)
    }
}

proof fn lemma_suffix_drain(rows: int, cols: int, solid: Seq<bool>, keys: Seq<u32>, p: Seq<int>, t: int, h: int)
    requires
        drain_path(rows, cols, solid, p),
        below(keys, p, h),
        0 <= t < p.len(),
    ensures
        drain_path(rows, cols, solid, p.subrange(t, p.len() as int)),
        below(keys, p.subrange(t, p.len() as int), h),
        p.subrange(t, p.len() as int)[0] == p[t],
{
    let q = p.subrange(t, p.len() as int);
    assert forall|s: int| 0 <= s < q.len() - 1 implies adjacent(rows, cols, #[trigger] q[s], q[s + 1]) by {
        assert(q[s] == p[t + s]);
        assert(q[s + 1] == p[t + s + 1]);
    }
    assert forall|s: int| 0 <= s < q.len() implies in_grid(rows, cols, #[trigger] q[s]) && !solid[q[s]] by {
        assert(q[s] == p[t + s]);
    }
    assert forall|s: int| 0 <= s < q.len() implies keys[#[trigger] q[s]] <= h by {
        assert(q[s] == p[t + s]);
    }
}

proof fn lemma_prepend_drain(rows: int, cols: int, solid: Seq<bool>, keys: Seq<u32>, x: int, p: Seq<int>, h: int)
    requires
        drain_path(rows, cols, solid, p),
        below(keys, p, h),
        in_grid(rows, cols, x),
        !solid[x],
        keys[x] <= h,
        adjacent(rows, cols, x, p[0]),
    ensures
        drain_path(rows, cols, solid, seq![x] + p),
        below(keys, seq![x] + p, h),
        (seq![x] + p)[0] == x,
{
    let q = seq![x] + p;
    assert forall|s: int| 0 <= s < q.len() - 1 implies adjacent(rows, cols, #[trigger] q[s], q[s + 1]) by {
        if s > 0 {
            assert(q[s] == p[s - 1]);
            assert(q[s + 1] == p[s]);
        }
    }
    assert forall|s: int| 0 <= s < q.len() implies in_grid(rows, cols, #[trigger] q[s]) && !solid[q[s]] by {
        if s > 0 {
            assert(q[s] == p[s - 1]);
        }
    }
    assert forall|s: int| 0 <= s < q.len() implies keys[#[trigger] q[s]] <= h by {
        if s > 0 {
            assert(q[s] == p[s - 1]);
        }
    }
    assert(q.last() == p.last());
}

/// A cell newly reached from the popped cell `y` at level `spill`: no
/// drain path from it stays below `spill`.
proof fn lemma_spill_bound(
    rows: int,
    cols: int,
    solid: Seq<bool>,
    keys: Seq<u32>,
    filled: Seq<u32>,
    vis: Seq<bool>,
    popped: Seq<bool>,
    y: int,
    spill: u32,
    x: int,
    p: Seq<int>,
    h: int,
)
    requires
        grid_ok(rows, cols),
        solid.len() == rows * cols,
        vis.len() == rows * cols,
        popped.len() == rows * cols,
        min_ok(rows, cols, solid, keys, filled, vis),
        closed_except(rows, cols, solid, vis, popped, y),
        seeds_ok(rows, cols, solid, vis),
        lower_ok(rows * cols, filled, vis, popped, spill),
        0 <= y < vis.len(),
        vis[y],
        filled[y] == spill,
        !vis[x],
        drain_path(rows, cols, solid, p),
        below(keys, p, h),
        p[0] == x,
    ensures
        spill <= h,
{
    reveal(seeds_ok);
    reveal(min_ok);
    reveal(closed_except);
    reveal(lower_ok);
    let last = p.last();
    assert(in_grid(rows, cols, last) && !solid[last]);
    assert(vis[last]);
    let t = lemma_first_visited(p, vis, 0);
    let b = p[t];
    let a = p[t - 1];
    lemma_suffix_drain(rows, cols, solid, keys, p, t, h);
    let q = p.subrange(t, p.len() as int);
    assert(filled[b] <= h) by {
        assert(drain_path(rows, cols, solid, q) && vis[q[0]] && below(keys, q, h));
    }
    if b != y && popped[b] {
        assert(adjacent(rows, cols, a, b));
        lemma_adjacent_symmetric(rows, cols, a, b);
        assert(popped[b] && adjacent(rows, cols, b, a));
        assert(!solid[a]);
        assert(vis[a]);
        assert(false);
    }
    if b != y {
        assert(vis[b] && !popped[b]);
    }
}

proof fn lemma_visit_min_ok(
    rows: int,
    cols: int,
    solid: Seq<bool>,
    keys: Seq<u32>,
    f0: Seq<u32>,
    v0: Seq<bool>,
    xn: int,
    level: u32,
)
    requires
        min_ok(rows, cols, solid, keys, f0, v0),
        0 <= xn < v0.len(),
        v0.len() == f0.len(),
        v0.len() == rows * cols,
        forall|p: Seq<int>, h: int|
            #![trigger drain_path(rows, cols, solid, p), below(keys, p, h)]
            drain_path(rows, cols, solid, p) && below(keys, p, h) && p[0] == xn ==> level <= h,
    ensures
        min_ok(rows, cols, solid, keys, f0.update(xn, level), v0.update(xn, true)),
{
    reveal(min_ok);
    let f1 = f0.update(xn, level);
    let v1 = v0.update(xn, true);
    assert forall|p: Seq<int>, h: int|
        #![trigger drain_path(rows, cols, solid, p), below(keys, p, h)]
        drain_path(rows, cols, solid, p) && v1[p[0]] && below(keys, p, h) implies f1[p[0]] <= h by {
        if p[0] != xn {
            assert(v0[p[0]]);
        }
    }
}

proof fn lemma_visit_ach_ok(
    rows: int,
    cols: int,
    solid: Seq<bool>,
    keys: Seq<u32>,
    f0: Seq<u32>,
    v0: Seq<bool>,
    y: int,
    xn: int,
    level: u32,
)
    requires
        ach_ok(rows, cols, solid, keys, f0, v0),
        0 <= xn < v0.len(),
        0 <= y < v0.len(),
        v0.len() == f0.len(),
        v0[y],
        f0[y] <= level,
        in_grid(rows, cols, xn),
        !solid[xn],
        keys[xn] <= level,
        adjacent(rows, cols, xn, y),
    ensures
        ach_ok(rows, cols, solid, keys, f0.update(xn, level), v0.update(xn, true)),
{
    reveal(ach_ok);
    let f1 = f0.update(xn, level);
    let v1 = v0.update(xn, true);
    let py = choose|p: Seq<int>|
        #[trigger] drain_path(rows, cols, solid, p) && p[0] == y && below(keys, p, f0[y] as int);
    assert(below(keys, py, level as int));
    lemma_prepend_drain(rows, cols, solid, keys, xn, py, level as int);
    let pn = seq![xn] + py;
    assert forall|v: int| 0 <= v < v1.len() && #[trigger] v1[v] implies exists|p: Seq<int>|
        #[trigger] drain_path(rows, cols, solid, p) && p[0] == v && below(keys, p, f1[v] as int) by {
        if v == xn {
            assert(drain_path(rows, cols, solid, pn) && pn[0] == v && below(keys, pn, f1[v] as int));
        } else {
            assert(v0[v]);
        }
    }
}

proof fn lemma_visit_rest(
    rows: int,
    cols: int,
    solid: Seq<bool>,
    keys: Seq<u32>,
    f0: Seq<u32>,
    v0: Seq<bool>,
    pop: Seq<bool>,
    h0: Multiset<(u32, usize)>,
    y: int,
    spill: u32,
    k: int,
    xn: int,
    level: u32,
)
    requires
        grid_ok(rows, cols),
        solid.len() == rows * cols,
        keys.len() == rows * cols,
        f0.len() == rows * cols,
        v0.len() == rows * cols,
        pop.len() == rows * cols,
        0 <= xn < rows * cols,
        0 <= y < rows * cols,
        0 <= k < 8,
        !v0[xn],
        !solid[xn],
        level >= spill,
        level >= keys[xn],
        neighbour(rows, cols, y, k) == Some(xn),
        basic_ok(rows * cols, solid, keys, f0, v0, pop),
        heap_ok(rows * cols, f0, v0, pop, h0),
        seeds_ok(rows, cols, solid, v0),
        lower_ok(rows * cols, f0, v0, pop, spill),
        closed_except(rows, cols, solid, v0, pop, y),
        progress_ok(rows, cols, solid, v0, y, k),
    ensures
        basic_ok(rows * cols, solid, keys, f0.update(xn, level), v0.update(xn, true), pop),
        heap_ok(rows * cols, f0.update(xn, level), v0.update(xn, true), pop, h0.insert((level, xn as usize))),
        seeds_ok(rows, cols, solid, v0.update(xn, true)),
        lower_ok(rows * cols, f0.update(xn, level), v0.update(xn, true), pop, spill),
        closed_except(rows, cols, solid, v0.update(xn, true), pop, y),
        progress_ok(rows, cols, solid, v0.update(xn, true), y, k + 1),
{
    let n = rows * cols;
    let f1 = f0.update(xn, level);
    let v1 = v0.update(xn, true);
    reveal(basic_ok);
    reveal(heap_ok);
    reveal(seeds_ok);
    reveal(lower_ok);
    reveal(closed_except);
    reveal(progress_ok);
    assert(!pop[xn]);
    assert forall|x: (u32, usize)|
        #[trigger] h0.insert((level, xn as usize)).count(x) == if x.1 < n && v1[x.1 as int] && !pop[x.1 as int]
            && x.0 == f1[x.1 as int] {
            1nat
        } else {
            0nat
        } by {
        assert(h0.count(x) == if x.1 < n && v0[x.1 as int] && !pop[x.1 as int] && x.0 == f0[x.1 as int] {
            1nat
        } else {
            0nat
        });
    }
    assert forall|kk: int| 0 <= kk < k + 1 implies match #[trigger] neighbour(rows, cols, y, kk) {
        Some(a) => solid[a] || v1[a],
        None => true,
    } by {
        if kk < k {
            match neighbour(rows, cols, y, kk) {
                Some(a) => {
                    lemma_neighbour_adjacent(rows, cols, y, kk);
                    assert(solid[a] || v0[a]);
                },
                None => {},
            }
        }
    }
    assert forall|b: int, a: int|
        #![trigger pop[b], adjacent(rows, cols, b, a)]
        0 <= b < pop.len() && pop[b] && b != y && adjacent(rows, cols, b, a) && !solid[a] implies v1[a] by {
        assert(v0[a]);
    }
    assert forall|i: int| 0 <= i < v1.len() && #[trigger] on_boundary(rows, cols, i) && !solid[i] implies v1[i] by {
        assert(v0[i]);
    }
    assert forall|j: int| 0 <= j < n && !v1[j] implies #[trigger] f1[j] == keys[j] by {
        assert(!v0[j]);
    }
    assert forall|b: int| 0 <= b < n && v1[b] && !pop[b] implies #[trigger] f1[b] >= spill by {
        if b != xn {
            assert(v0[b]);
        }
    }
}

/// After popping `entry` = `(spill, y)`: the expansion state for `y`.
proof fn lemma_pop_step(
    rows: int,
    cols: int,
    solid: Seq<bool>,
    keys: Seq<u32>,
    f: Seq<u32>,
    v: Seq<bool>,
    pop0: Seq<bool>,
    h0: Multiset<(u32, usize)>,
    entry: (u32, usize),
)
    requires
        grid_ok(rows, cols),
        f.len() == rows * cols,
        v.len() == rows * cols,
        pop0.len() == rows * cols,
        basic_ok(rows * cols, solid, keys, f, v, pop0),
        heap_ok(rows * cols, f, v, pop0, h0),
        closed_except(rows, cols, solid, v, pop0, -1),
        h0.contains(entry),
        forall|x: (u32, usize)| #[trigger] h0.contains(x) ==> pair_le(entry, x),
    ensures
        entry.1 < rows * cols,
        v[entry.1 as int],
        !pop0[entry.1 as int],
        f[entry.1 as int] == entry.0,
        basic_ok(rows * cols, solid, keys, f, v, pop0.update(entry.1 as int, true)),
        heap_ok(rows * cols, f, v, pop0.update(entry.1 as int, true), h0.remove(entry)),
        lower_ok(rows * cols, f, v, pop0.update(entry.1 as int, true), entry.0),
        closed_except(rows, cols, solid, v, pop0.update(entry.1 as int, true), entry.1 as int),
        progress_ok(rows, cols, solid, v, entry.1 as int, 0),
{
    let n = rows * cols;
    let y = entry.1 as int;
    let pop1 = pop0.update(y, true);
    reveal(basic_ok);
    reveal(heap_ok);
    reveal(lower_ok);
    reveal(closed_except);
    reveal(progress_ok);
    assert(h0.count(entry) > 0);
    assert forall|b: int| 0 <= b < n && v[b] && !pop1[b] implies #[trigger] f[b] >= entry.0 by {
        let x = (f[b], b as usize);
        assert(h0.count(x) == 1);
        assert(h0.contains(x));
        assert(pair_le(entry, x));
    }
    assert forall|x: (u32, usize)|
        #[trigger] h0.remove(entry).count(x) == if x.1 < n && v[x.1 as int] && !pop1[x.1 as int] && x.0
            == f[x.1 as int] {
            1nat
        } else {
            0nat
        } by {
        assert(h0.count(x) == if x.1 < n && v[x.1 as int] && !pop0[x.1 as int] && x.0 == f[x.1 as int] {
            1nat
        } else {
            0nat
        });
    }
    assert forall|b: int, a: int|
        #![trigger pop1[b], adjacent(rows, cols, b, a)]
        0 <= b < pop1.len() && pop1[b] && b != y && adjacent(rows, cols, b, a) && !solid[a] implies v[a] by {
        assert(pop0[b]);
    }
}

/// Once all neighbours of `y` are settled, `y` is closed too.
proof fn lemma_close(rows: int, cols: int, solid: Seq<bool>, v: Seq<bool>, pop: Seq<bool>, y: int)
    requires
        grid_ok(rows, cols),
        pop.len() == rows * cols,
        closed_except(rows, cols, solid, v, pop, y),
        progress_ok(rows, cols, solid, v, y, 8),
    ensures
        closed_except(rows, cols, solid, v, pop, -1),
{
    reveal(closed_except);
    reveal(progress_ok);
    assert forall|b: int, a: int|
        #![trigger pop[b], adjacent(rows, cols, b, a)]
        0 <= b < pop.len() && pop[b] && b != -1 && adjacent(rows, cols, b, a) && !solid[a] implies v[a] by {
        if b == y {
            lemma_adjacent_neighbour(rows, cols, b, a);
            let kk = direction_between(cols, b, a);
            assert(neighbour(rows, cols, y, kk) == Some(a));
        }
    }
}

/// Working state of the flood: current levels, visited marks, the
/// queue, and (ghost) which cells have left the queue.
struct Flood {
    filled: Vec<u32>,
    visited: Vec<bool>,
    heap: MinHeap,
    popped: Ghost<Seq<bool>>,
}

impl Flood {
    spec fn measure(&self) -> nat {
        self.heap.contents().len() + 2 * count_false(self.visited@)
    }

    spec fn base_inv(&self, r: int, c: int, solid: Seq<bool>, keys: Seq<u32>) -> bool {
        let n = r * c;
        &&& grid_ok(r, c)
        &&& keys.len() == n
        &&& solid.len() == n
        &&& self.filled@.len() == n
        &&& self.visited@.len() == n
        &&& self.popped@.len() == n
        &&& self.heap.wf()
        &&& basic_ok(n, solid, keys, self.filled@, self.visited@, self.popped@)
        &&& heap_ok(n, self.filled@, self.visited@, self.popped@, self.heap.contents())
        &&& seeds_ok(r, c, solid, self.visited@)
        &&& min_ok(r, c, solid, keys, self.filled@, self.visited@)
        &&& ach_ok(r, c, solid, keys, self.filled@, self.visited@)
    }

    spec fn inv(&self, r: int, c: int, solid: Seq<bool>, keys: Seq<u32>) -> bool {
        &&& self.base_inv(r, c, solid, keys)
        &&& closed_except(r, c, solid, self.visited@, self.popped@, -1)
    }

    /// State while the neighbours of the popped cell `y` are expanded,
    /// the first `k` directions being done.
    spec fn expand_inv(&self, r: int, c: int, solid: Seq<bool>, keys: Seq<u32>, y: int, spill: u32, k: int) -> bool {
        &&& self.base_inv(r, c, solid, keys)
        &&& 0 <= y < r * c
        &&& self.popped@[y]
        &&& self.visited@[y]
        &&& self.filled@[y] == spill
        &&& lower_ok(r * c, self.filled@, self.visited@, self.popped@, spill)
        &&& closed_except(r, c, solid, self.visited@, self.popped@, y)
        &&& progress_ok(r, c, solid, self.visited@, y, k)
    }

    /// Raise the unvisited valid neighbour `xn` of `y` to at least
    /// `spill` and queue it.
    fn visit(&mut self, rows: usize, cols: usize, solid: &Vec<bool>, keys: &Vec<u32>, y: usize, spill: u32, k: usize, xn: usize)
        requires
            old(self).expand_inv(rows as int, cols as int, solid@, keys@, y as int, spill, k as int),
            k < 8,
            neighbour(rows as int, cols as int, y as int, k as int) == Some(xn as int),
            !old(self).visited@[xn as int],
            !solid@[xn as int],
        ensures
            final(self).expand_inv(rows as int, cols as int, solid@, keys@, y as int, spill, k as int + 1),
            final(self).measure() < old(self).measure(),
    {
        let ghost r = rows as int;
        let ghost c = cols as int;
        let ghost f0 = self.filled@;
        let ghost v0 = self.visited@;
        let ghost h0 = self.heap.contents();
        let ghost pop = self.popped@;
        proof {
            lemma_neighbour_adjacent(r, c, y as int, k as int);
            lemma_adjacent_symmetric(r, c, y as int, xn as int);
            lemma_count_false_update(v0, xn as int);
            reveal(basic_ok);
        }
        let level = if self.filled[xn] < spill { spill } else { self.filled[xn] };
        proof {
            assert forall|p: Seq<int>, h: int|
                #![trigger drain_path(r, c, solid@, p), below(keys@, p, h)]
                drain_path(r, c, solid@, p) && below(keys@, p, h) && p[0] == xn as int implies level <= h by {
                lemma_spill_bound(r, c, solid@, keys@, f0, v0, pop, y as int, spill, xn as int, p, h);
                assert(keys@[p[0]] <= h);
            }
            lemma_visit_min_ok(r, c, solid@, keys@, f0, v0, xn as int, level);
            lemma_visit_ach_ok(r, c, solid@, keys@, f0, v0, y as int, xn as int, level);
            lemma_visit_rest(r, c, solid@, keys@, f0, v0, pop, h0, y as int, spill, k as int, xn as int, level);
        }
        self.filled.set(xn, level);
        self.visited.set(xn, true);
        self.heap.push((level, xn));
    }

    /// Expand all neighbours of the popped cell `y`.
    fn expand(&mut self, rows: usize, cols: usize, solid: &Vec<bool>, keys: &Vec<u32>, y: usize, spill: u32)
        requires
            old(self).expand_inv(rows as int, cols as int, solid@, keys@, y as int, spill, 0),
        ensures
            final(self).inv(rows as int, cols as int, solid@, keys@),
            final(self).measure() <= old(self).measure(),
    {
        let ghost r = rows as int;
        let ghost c = cols as int;
        let ghost m0 = self.measure();
        let mut k: usize = 0;
        while k < 8
            invariant
                k <= 8,
                self.expand_inv(r, c, solid@, keys@, y as int, spill, k as int),
                self.measure() <= m0,
                r == rows,
                c == cols,
            decreases 8 - k,
        {
            let nb = d8_neighbour(rows, cols, y, k);
            match nb {
                Some(xn) => {
                    proof {
                        lemma_neighbour_adjacent(r, c, y as int, k as int);
                    }
                    if !self.visited[xn] && !solid[xn] {
                        self.visit(rows, cols, solid, keys, y, spill, k, xn);
                    } else {
                        proof {
                            reveal(progress_ok);
                        }
                    }
                },
                None => {
                    proof {
                        reveal(progress_ok);
                    }
                },
            }
            k += 1;
        }
        proof {
            lemma_close(r, c, solid@, self.visited@, self.popped@, y as int);
        }
    }
}

/// Priority-flood fill of elevation keys.
///
/// Seeds every valid edge cell, then repeatedly takes the lowest
/// `(level, cell)` pair from the queue and raises each unvisited valid
/// neighbour to at least that level before queueing it.
pub fn priority_fill(keys: &Vec<u32>, solid: &Vec<bool>, rows: usize, cols: usize) -> (filled: Vec<u32>)
    requires
        grid_ok(rows as int, cols as int),
        keys@.len() == rows * cols,
        solid@.len() == rows * cols,
    ensures
        is_spill_fill(rows as int, cols as int, solid@, keys@, filled@),
{
    let n = rows * cols;
    let ghost r = rows as int;
    let ghost c = cols as int;
    let mut st = seed(keys, solid, rows, cols);
    loop
        invariant
            st.inv(r, c, solid@, keys@),
            r == rows,
            c == cols,
            n == rows * cols,
        ensures
            st.inv(r, c, solid@, keys@),
            forall|j: int| 0 <= j < n && #[trigger] st.visited@[j] ==> st.popped@[j],
        decreases st.measure(),
    {
        let ghost contents0 = st.heap.contents();
        let ghost m0 = st.measure();
        let top = st.heap.pop();
        match top {
            None => {
                proof {
                    reveal(heap_ok);
                    assert forall|j: int| 0 <= j < n && #[trigger] st.visited@[j] implies st.popped@[j] by {
                        let x = (st.filled@[j], j as usize);
                        if !st.popped@[j] {
                            assert(contents0.count(x) == 1);
                        }
                    }
                }
                break;
            },
            Some(entry) => {
                let spill = entry.0;
                let y = entry.1;
                let ghost pop0 = st.popped@;
                proof {
                    lemma_pop_step(r, c, solid@, keys@, st.filled@, st.visited@, pop0, contents0, entry);
                }
                st.popped = Ghost(pop0.update(y as int, true));
                proof {
                    reveal(basic_ok);
                    assert(st.expand_inv(r, c, solid@, keys@, y as int, spill, 0));
                }
                st.expand(rows, cols, solid, keys, y, spill);
            },
        }
    }
    proof {
        lemma_flood_result(r, c, solid@, keys@, st.filled@, st.visited@, st.popped@);
    }
    st.filled
}

proof fn lemma_flood_result(r: int, c: int, solid: Seq<bool>, keys: Seq<u32>, filled: Seq<u32>, vis: Seq<bool>, pop: Seq<bool>)
    requires
        grid_ok(r, c),
        keys.len() == r * c,
        solid.len() == r * c,
        filled.len() == r * c,
        vis.len() == r * c,
        pop.len() == r * c,
        basic_ok(r * c, solid, keys, filled, vis, pop),
        seeds_ok(r, c, solid, vis),
        min_ok(r, c, solid, keys, filled, vis),
        ach_ok(r, c, solid, keys, filled, vis),
        closed_except(r, c, solid, vis, pop, -1),
        forall|j: int| 0 <= j < r * c && #[trigger] vis[j] ==> pop[j],
    ensures
        is_spill_fill(r, c, solid, keys, filled),
{
    let n = r * c;
    reveal(basic_ok);
    reveal(min_ok);
    reveal(ach_ok);
    assert forall|p: Seq<int>| #[trigger] drain_path(r, c, solid, p) implies vis[p[0]] by {
        lemma_drain_visited(r, c, solid, vis, pop, p, 0);
    }
    assert forall|i: int| 0 <= i < n && !drains(r, c, solid, i) implies #[trigger] filled[i] == keys[i] by {
        if vis[i] {
            let p = choose|p: Seq<int>| #[trigger] drain_path(r, c, solid, p) && p[0] == i && below(keys, p, filled[i] as int);
            assert(drain_path(r, c, solid, p) && p[0] == i);
        }
    }
    assert forall|i: int| 0 <= i < n && #[trigger] drains(r, c, solid, i) implies exists|p: Seq<int>|
        #[trigger] drain_path(r, c, solid, p) && p[0] == i && below(keys, p, filled[i] as int) by {
        let p0 = choose|p: Seq<int>| #[trigger] drain_path(r, c, solid, p) && p[0] == i;
        assert(vis[p0[0]]);
    }
    assert forall|p: Seq<int>, h: int|
        #![trigger drain_path(r, c, solid, p), below(keys, p, h)]
        drain_path(r, c, solid, p) && below(keys, p, h) implies filled[p[0]] <= h by {
        assert(vis[p[0]]);
    }
    assert forall|i: int| 0 <= i < n && solid[i] implies #[trigger] filled[i] == keys[i] by {
        assert(!vis[i]);
    }
}

/// Initial flood state: levels equal to the keys, every valid edge cell
/// visited and queued at its own level.
fn seed(keys: &Vec<u32>, solid: &Vec<bool>, rows: usize, cols: usize) -> (st: Flood)
    requires
        grid_ok(rows as int, cols as int),
        keys@.len() == rows * cols,
        solid@.len() == rows * cols,
    ensures
        st.inv(rows as int, cols as int, solid@, keys@),
{
    let n = rows * cols;
    let ghost r = rows as int;
    let ghost c = cols as int;
    let mut filled: Vec<u32> = Vec::new();
    let mut visited: Vec<bool> = Vec::new();
    let mut i: usize = 0;
    while i < n
        invariant
            i <= n,
            n == rows * cols,
            keys@.len() == n,
            filled@ == keys@.subrange(0, i as int),
            visited@ == Seq::new(i as nat, |j: int| false),
        decreases n - i,
    {
        filled.push(keys[i]);
        visited.push(false);
        i += 1;
    }
    proof {
        assert(filled@ =~= keys@);
    }
    let mut heap = MinHeap::new();
    let ghost popped: Seq<bool> = Seq::new(n as nat, |j: int| false);
    proof {
        reveal(heap_ok);
        assert forall|x: (u32, usize)|
            #[trigger] heap.contents().count(x) == if x.1 < n && visited@[x.1 as int] && !popped[x.1 as int]
                && x.0 == filled@[x.1 as int] {
                1nat
            } else {
                0nat
            } by {}
    }
    let mut idx: usize = 0;
    while idx < n
        invariant
            grid_ok(r, c),
            r == rows,
            c == cols,
            n == rows * cols,
            idx <= n,
            keys@.len() == n,
            solid@.len() == n,
            filled@ == keys@,
            visited@.len() == n,
            popped == Seq::new(n as nat, |j: int| false),
            heap.wf(),
            forall|j: int| 0 <= j < n && solid@[j] ==> !visited@[j],
            forall|j: int| idx <= j < n ==> !visited@[j],
            forall|j: int| 0 <= j < idx && #[trigger] on_boundary(r, c, j) && !solid@[j] ==> visited@[j],
            forall|j: int| 0 <= j < n && #[trigger] visited@[j] ==> on_boundary(r, c, j),
            heap_ok(n as int, filled@, visited@, popped, heap.contents()),
        decreases n - idx,
    {
        let row = idx / cols;
        let col = idx % cols;
        if !solid[idx] && (row == 0 || row == rows - 1 || col == 0 || col == cols - 1) {
            let ghost h0 = heap.contents();
            let ghost v0 = visited@;
            visited.set(idx, true);
            heap.push((filled[idx], idx));
            proof {
                reveal(heap_ok);
                assert forall|x: (u32, usize)|
                    #[trigger] heap.contents().count(x) == if x.1 < n && visited@[x.1 as int] && !popped[x.1 as int]
                        && x.0 == filled@[x.1 as int] {
                        1nat
                    } else {
                        0nat
                    } by {
                    assert(h0.count(x) == if x.1 < n && v0[x.1 as int] && !popped[x.1 as int] && x.0 == filled@[x.1 as int] {
                        1nat
                    } else {
                        0nat
                    });
                }
            }
        }
        idx += 1;
    }
    let st = Flood { filled, visited, heap, popped: Ghost(popped) };
    proof {
        reveal(min_ok);
        reveal(ach_ok);
        reveal(basic_ok);
        reveal(seeds_ok);
        reveal(closed_except);
        assert forall|p: Seq<int>, h: int|
            #![trigger drain_path(r, c, solid@, p), below(keys@, p, h)]
            drain_path(r, c, solid@, p) && st.visited@[p[0]] && below(keys@, p, h) implies st.filled@[p[0]] <= h by {
            assert(keys@[p[0]] <= h);
        }
        assert forall|v: int| 0 <= v < st.visited@.len() && #[trigger] st.visited@[v] implies exists|p: Seq<int>|
            #[trigger] drain_path(r, c, solid@, p) && p[0] == v && below(keys@, p, st.filled@[v] as int) by {
            let p = seq![v];
            assert(p.last() == v);
            assert(drain_path(r, c, solid@, p));
            assert(below(keys@, p, st.filled@[v] as int));
        }
    }
    st
}

/// With every visited cell closed under adjacency and the edge seeded,
/// every cell of a drain path is visited.
proof fn lemma_drain_visited(rows: int, cols: int, solid: Seq<bool>, vis: Seq<bool>, popped: Seq<bool>, p: Seq<int>, t: int)
    requires
        grid_ok(rows, cols),
        vis.len() == rows * cols,
        popped.len() == rows * cols,
        solid.len() == rows * cols,
        drain_path(rows, cols, solid, p),
        0 <= t < p.len(),
        seeds_ok(rows, cols, solid, vis),
        closed_except(rows, cols, solid, vis, popped, -1),
        forall|j: int| 0 <= j < rows * cols && #[trigger] vis[j] ==> popped[j],
    ensures
        vis[p[t]],
    decreases p.len() - t,
{
    reveal(seeds_ok);
    reveal(closed_except);
    assert(in_grid(rows, cols, p[t]) && !solid[p[t]]);
    if t == p.len() - 1 {
        assert(on_boundary(rows, cols, p[t]));
    } else {
        lemma_drain_visited(rows, cols, solid, vis, popped, p, t + 1);
        assert(adjacent(rows, cols, p[t], p[t + 1]));
        lemma_adjacent_symmetric(rows, cols, p[t], p[t + 1]);
        assert(popped[p[t + 1]]);
        assert(adjacent(rows, cols, p[t + 1], p[t]));
    }
}


/// Filling leaves dry terrain alone: a cell with a drain path that never
/// rises above it keeps its elevation.
pub proof fn lemma_fill_keeps_dry(rows: int, cols: int, solid: Seq<bool>, keys: Seq<u32>, filled: Seq<u32>, p: Seq<int>)
    requires
        is_spill_fill(rows, cols, solid, keys, filled),
        drain_path(rows, cols, solid, p),
        0 <= p[0] < keys.len(),
        below(keys, p, keys[p[0]] as int),
    ensures
        filled[p[0]] == keys[p[0]],
{
    assert(filled[p[0]] <= keys[p[0]]);
    assert(filled[p[0]] >= keys[p[0]]);
}


/// The tail of a drain path is a drain path.
pub proof fn lemma_drain_tail(rows: int, cols: int, solid: Seq<bool>, p: Seq<int>, t: int)
    requires
        drain_path(rows, cols, solid, p),
        0 <= t < p.len(),
    ensures
        drain_path(rows, cols, solid, p.skip(t)),
        p.skip(t)[0] == p[t],
{
    let q = p.skip(t);
    assert forall|s: int| 0 <= s < q.len() implies in_grid(rows, cols, #[trigger] q[s]) && !solid[q[s]] by {
        assert(q[s] == p[s + t]);
    }
    assert forall|s: int| 0 <= s < q.len() - 1 implies adjacent(rows, cols, #[trigger] q[s], q[s + 1]) by {
        assert(q[s] == p[s + t] && q[s + 1] == p[s + t + 1]);
    }
    assert(q.last() == p.last());
}

/// Filling is idempotent: the spill-level fill of a filled grid is the
/// grid itself.
pub proof fn lemma_fill_idempotent(rows: int, cols: int, solid: Seq<bool>, keys: Seq<u32>, filled: Seq<u32>, again: Seq<u32>)
    requires
        is_spill_fill(rows, cols, solid, keys, filled),
        is_spill_fill(rows, cols, solid, filled, again),
    ensures
        again == filled,
{
    assert forall|i: int| 0 <= i < filled.len() implies again[i] == filled[i] by {
        if drains(rows, cols, solid, i) {
            let p = choose|p: Seq<int>| #[trigger] drain_path(rows, cols, solid, p) && p[0] == i && below(keys, p, filled[i] as int);
            assert forall|t: int| 0 <= t < p.len() implies filled[#[trigger] p[t]] <= filled[i] by {
                lemma_drain_tail(rows, cols, solid, p, t);
                let q = p.skip(t);
                assert forall|s: int| 0 <= s < q.len() implies keys[#[trigger] q[s]] <= filled[i] as int by {
                    assert(q[s] == p[s + t]);
                }
                assert(below(keys, q, filled[i] as int));
            }
            assert(below(filled, p, filled[i] as int));
        }
    }
    assert(again =~= filled);
}

} // verus!
