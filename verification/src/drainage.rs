//! Drainage of filled surfaces: once depressions are filled to their
//! spill level and flats are resolved, a cell that can reach the grid
//! edge is never left in an interior pit.

use vstd::prelude::*;
use crate::grid::{adjacent, grid_ok, lemma_adjacent_neighbour, lemma_adjacent_symmetric, neighbour, on_boundary};
use crate::fill::{below, drain_path, drains, is_spill_fill, lemma_drain_tail};
use crate::flats::{
    lemma_in_flat_valid,
    bfs_field, flat_candidate, flat_edge, flat_marks, flat_path, flat_step, flats_ok, has_lower, in_flat, low_seeds, lower_at,
    needs_drain, pred_at, UNSET,
};
use crate::network::{downhill, ds_of, flow_dir_ok, Network};
use crate::graph::{lemma_walk_range, lemma_walk_step, walk, PIT};

verus! {

/// On a filled surface, a drain path from a cell that realises its
/// spill level never rises above that level.
proof fn lemma_path_at_level(rows: int, cols: int, solid: Seq<bool>, keys: Seq<u32>, filled: Seq<u32>, p: Seq<int>)
    requires
        is_spill_fill(rows, cols, solid, keys, filled),
        drain_path(rows, cols, solid, p),
        0 <= p[0] < keys.len(),
        below(keys, p, filled[p[0]] as int),
    ensures
        below(filled, p, filled[p[0]] as int),
{
    let h = filled[p[0]] as int;
    assert forall|t: int| 0 <= t < p.len() implies filled[#[trigger] p[t]] <= h by {
        lemma_drain_tail(rows, cols, solid, p, t);
        let q = p.skip(t);
        assert forall|s: int| 0 <= s < q.len() implies keys[#[trigger] q[s]] <= h by {
            assert(q[s] == p[s + t]);
        }
        assert(below(keys, q, h));
    }
}

/// A prefix of a flat path is a flat path.
proof fn lemma_flat_prefix(rows: int, cols: int, keys: Seq<u32>, solid: Seq<bool>, p: Seq<int>, m: int)
    requires
        flat_path(rows, cols, keys, solid, p),
        0 < m <= p.len(),
    ensures
        flat_path(rows, cols, keys, solid, p.take(m)),
{
    let q = p.take(m);
    assert forall|t: int| 0 <= t < q.len() implies grid_in(rows, cols, q, t) by {
        assert(q[t] == p[t]);
    }
    assert forall|t: int| 0 <= t < q.len() - 1 implies flat_step(rows, cols, keys, solid, #[trigger] q[t], q[t + 1]) by {
        assert(q[t] == p[t] && q[t + 1] == p[t + 1]);
    }
}

spec fn grid_in(rows: int, cols: int, q: Seq<int>, t: int) -> bool {
    0 <= q[t] < rows * cols
}

/// Walking a level drain path from a cell that needs draining, the
/// cells stay at the same level, and in the same flat, until one has a
/// lower neighbour or lies on the edge.
proof fn lemma_reach_outlet(rows: int, cols: int, solid: Seq<bool>, f: Seq<u32>, p: Seq<int>, t: int) -> (m: int)
    requires
        grid_ok(rows, cols),
        f.len() == rows * cols,
        solid.len() == rows * cols,
        drain_path(rows, cols, solid, p),
        below(f, p, f[p[0]] as int),
        needs_drain(rows, cols, f, solid, p[0]),
        0 <= t < p.len(),
        f[p[t]] == f[p[0]],
        flat_path(rows, cols, f, solid, p.take(t + 1)),
    ensures
        t <= m < p.len(),
        flat_path(rows, cols, f, solid, p.take(m + 1)),
        has_lower(rows, cols, f, solid, p[m]) || on_boundary(rows, cols, p[m]),
    decreases p.len() - t,
{
    if has_lower(rows, cols, f, solid, p[t]) || on_boundary(rows, cols, p[t]) {
        t
    } else {
        assert(t < p.len() - 1);
        let a = p[t];
        let b = p[t + 1];
        assert(adjacent(rows, cols, a, b));
        lemma_adjacent_neighbour(rows, cols, a, b);
        let k = crate::grid::direction_between(cols, a, b);
        assert(!lower_at(rows, cols, f, solid, a, k));
        assert(f[b] <= f[p[0]]);
        assert(f[b] == f[a]);
        let q = p.take(t + 2);
        assert(q.take(t + 1) =~= p.take(t + 1));
        assert forall|s: int| 0 <= s < q.len() implies grid_in(rows, cols, q, s) && !solid[#[trigger] q[s]] by {
            assert(q[s] == p[s]);
        }
        assert forall|s: int| 0 <= s < q.len() - 1 implies flat_step(rows, cols, f, solid, #[trigger] q[s], q[s + 1]) by {
            if s < t {
                assert(p.take(t + 1)[s] == q[s] && p.take(t + 1)[s + 1] == q[s + 1]);
            } else {
                assert(q[s] == a && q[s + 1] == b);
            }
        }
        lemma_reach_outlet(rows, cols, solid, f, p, t + 1)
    }
}

/// Every cell on a flat path from a cell that needs draining is in its
/// flat.
proof fn lemma_on_flat(rows: int, cols: int, f: Seq<u32>, solid: Seq<bool>, p: Seq<int>, s: int)
    requires
        flat_path(rows, cols, f, solid, p),
        needs_drain(rows, cols, f, solid, p[0]),
        0 <= s < p.len(),
    ensures
        in_flat(rows, cols, f, solid, p[s]),
{
    lemma_flat_prefix(rows, cols, f, solid, p, s + 1);
    assert(p.take(s + 1)[0] == p[0]);
    assert(p.take(s + 1).last() == p[s]);
}

/// Back along a flat path from an outlet, every cell is reached by the
/// breadth-first search from the outlets.
proof fn lemma_reached_back(rows: int, cols: int, f: Seq<u32>, solid: Seq<bool>, tl: Seq<u32>, p: Seq<int>, m: int, s: int)
    requires
        grid_ok(rows, cols),
        f.len() == rows * cols,
        solid.len() == rows * cols,
        bfs_field(rows, cols, f, flat_marks(rows, cols, f, solid), low_seeds(rows, cols, f, solid), tl),
        flat_path(rows, cols, f, solid, p),
        needs_drain(rows, cols, f, solid, p[0]),
        m == p.len() - 1,
        has_lower(rows, cols, f, solid, p[m]) || on_boundary(rows, cols, p[m]),
        0 <= s <= m,
    ensures
        tl[p[s]] != UNSET,
    decreases m - s,
{
    let fl = flat_marks(rows, cols, f, solid);
    lemma_on_flat(rows, cols, f, solid, p, s);
    if s == m {
        assert(low_seeds(rows, cols, f, solid)[p[m]]);
        assert(tl[p[m]] == 0);
    } else {
        lemma_reached_back(rows, cols, f, solid, tl, p, m, s + 1);
        lemma_on_flat(rows, cols, f, solid, p, s + 1);
        assert(flat_step(rows, cols, f, solid, p[s], p[s + 1]));
        lemma_adjacent_symmetric(rows, cols, p[s], p[s + 1]);
        assert(fl[p[s]] && fl[p[s + 1]]);
        assert(flat_edge(rows, cols, f, fl, p[s + 1], p[s]));
    }
}

/// Law: a filled surface drains off the grid. On the D8 network of a
/// spill-level fill, with steepest-descent directions that lead downhill
/// wherever a lower neighbour exists and flats drained by their outlet
/// fields, a cell joined to the grid edge by valid cells is a pit only
/// if it lies on the edge itself.
pub proof fn lemma_filled_pits_on_edge(
    rows: int,
    cols: int,
    solid: Seq<bool>,
    keys: Seq<u32>,
    filled: Seq<u32>,
    steepest: Seq<u8>,
    fv: Option<(Seq<u32>, Seq<u32>)>,
    dir: Seq<u8>,
    i: int,
)
    requires
        grid_ok(rows, cols),
        keys.len() == rows * cols,
        solid.len() == rows * cols,
        steepest.len() == rows * cols,
        dir.len() == rows * cols,
        is_spill_fill(rows, cols, solid, keys, filled),
        forall|j: int|
            0 <= j < rows * cols && !solid[j] && #[trigger] has_lower(rows, cols, filled, solid, j) ==> downhill(
                rows,
                cols,
                filled,
                solid,
                j,
                steepest[j] as int,
            ),
        flats_ok(rows, cols, filled, solid, fv),
        forall|j: int| 0 <= j < rows * cols ==> #[trigger] flow_dir_ok(rows, cols, filled, solid, steepest, fv, j, dir[j] as int),
        0 <= i < rows * cols,
        !solid[i],
        drains(rows, cols, solid, i),
        dir[i] == 0,
    ensures
        on_boundary(rows, cols, i),
{
    let n = rows * cols;
    assert(flow_dir_ok(rows, cols, filled, solid, steepest, fv, i, 0));
    assert(!has_lower(rows, cols, filled, solid, i));
    assert(needs_drain(rows, cols, filled, solid, i));
    let p = choose|p: Seq<int>| #[trigger] drain_path(rows, cols, solid, p) && p[0] == i && below(keys, p, filled[i] as int);
    lemma_path_at_level(rows, cols, solid, keys, filled, p);
    assert(p.take(1)[0] == i);
    let m = lemma_reach_outlet(rows, cols, solid, filled, p, 0);
    let q = p.take(m + 1);
    assert(q[0] == i && q.last() == p[m]);
    match fv {
        None => {
            assert(!needs_drain(rows, cols, filled, solid, i));
        },
        Some(ff) => {
            let tl = ff.0;
            assert(bfs_field(rows, cols, filled, flat_marks(rows, cols, filled, solid), low_seeds(rows, cols, filled, solid), tl));
            lemma_reached_back(rows, cols, filled, solid, tl, q, m, 0);
            assert(tl[i] != UNSET);
            if tl[i] != 0 {
                let k = choose|k: int| 0 <= k < 8 && #[trigger] pred_at(rows, cols, filled, flat_marks(rows, cols, filled, solid), tl, i, k);
                let j = neighbour(rows, cols, i, k)->0;
                crate::grid::lemma_neighbour_adjacent(rows, cols, i, k);
                assert(flat_marks(rows, cols, filled, solid)[j]);
                lemma_in_flat_valid(rows, cols, filled, solid, j);
                assert(flat_candidate(rows, cols, filled, solid, tl, i, k));
            } else {
                assert(low_seeds(rows, cols, filled, solid)[i]);
            }
        },
    }
}

/// A valid cell next to a cell joined to the grid edge is joined to it
/// too.
proof fn lemma_drains_next(rows: int, cols: int, solid: Seq<bool>, x: int, y: int)
    requires
        drains(rows, cols, solid, x),
        adjacent(rows, cols, y, x),
        !solid[y],
    ensures
        drains(rows, cols, solid, y),
{
    let p = choose|p: Seq<int>| #[trigger] drain_path(rows, cols, solid, p) && p[0] == x;
    let q = seq![y] + p;
    assert forall|t: int| 0 <= t < q.len() implies crate::grid::in_grid(rows, cols, #[trigger] q[t]) && !solid[q[t]] by {
        if t > 0 {
            assert(q[t] == p[t - 1]);
        }
    }
    assert forall|t: int| 0 <= t < q.len() - 1 implies adjacent(rows, cols, #[trigger] q[t], q[t + 1]) by {
        if t > 0 {
            assert(q[t] == p[t - 1] && q[t + 1] == p[t]);
        }
    }
    assert(q.last() == p.last());
    assert(drain_path(rows, cols, solid, q) && q[0] == y);
}

/// Law: on a filled DEM every drop of water that can reach the grid
/// edge does: the downstream walk from a valid cell joined to the edge
/// by valid cells ends at a pit on the edge.
pub proof fn lemma_filled_drains_to_edge(
    net: Network,
    keys: Seq<u32>,
    filled: Seq<u32>,
    steepest: Seq<u8>,
    fv: Option<(Seq<u32>, Seq<u32>)>,
    i: int,
    k: nat,
)
    requires
        net.wf(),
        keys.len() == net.n(),
        steepest.len() == net.n(),
        is_spill_fill(net.rows_view(), net.cols_view(), net.solid_view(), keys, filled),
        forall|j: int|
            0 <= j < net.n() && !net.solid_view()[j] && #[trigger] has_lower(net.rows_view(), net.cols_view(), filled, net.solid_view(), j)
                ==> downhill(net.rows_view(), net.cols_view(), filled, net.solid_view(), j, steepest[j] as int),
        flats_ok(net.rows_view(), net.cols_view(), filled, net.solid_view(), fv),
        forall|j: int|
            0 <= j < net.n() ==> #[trigger] flow_dir_ok(
                net.rows_view(),
                net.cols_view(),
                filled,
                net.solid_view(),
                steepest,
                fv,
                j,
                net.dir_view()[j] as int,
            ),
        0 <= i < net.n(),
        !net.solid_view()[i],
        drains(net.rows_view(), net.cols_view(), net.solid_view(), i),
        walk(net.ds_view(), i, k) != PIT,
        walk(net.ds_view(), i, k + 1) == PIT,
    ensures
        on_boundary(net.rows_view(), net.cols_view(), walk(net.ds_view(), i, k)),
{
    let (rows, cols, solid, ds) = (net.rows_view(), net.cols_view(), net.solid_view(), net.ds_view());
    lemma_walk_cells_drain(net, i, k);
    let x = walk(ds, i, k);
    lemma_walk_step(ds, i, k);
    assert(ds[x] == PIT);
    assert(ds[x] == ds_of(rows, cols, net.dir_view(), x));
    assert(flow_dir_ok(rows, cols, filled, solid, steepest, fv, x, net.dir_view()[x] as int));
    if net.dir_view()[x] != 0 {
        let d = net.dir_view()[x] as int;
        if downhill(rows, cols, filled, solid, x, steepest[x] as int) {
            assert(neighbour(rows, cols, x, d - 1) is Some);
        } else {
            let ff = fv->0;
            assert(flat_candidate(rows, cols, filled, solid, ff.0, x, d - 1));
        }
        crate::grid::lemma_neighbour_adjacent(rows, cols, x, d - 1);
        assert(false);
    }
    lemma_filled_pits_on_edge(rows, cols, solid, keys, filled, steepest, fv, net.dir_view(), x);
}

/// Every cell of the downstream walk from a cell joined to the edge is
/// a valid cell joined to the edge.
proof fn lemma_walk_cells_drain(net: Network, i: int, k: nat)
    requires
        net.wf(),
        0 <= i < net.n(),
        !net.solid_view()[i],
        drains(net.rows_view(), net.cols_view(), net.solid_view(), i),
        walk(net.ds_view(), i, k) != PIT,
    ensures
        0 <= walk(net.ds_view(), i, k) < net.n(),
        !net.solid_view()[walk(net.ds_view(), i, k)],
        drains(net.rows_view(), net.cols_view(), net.solid_view(), walk(net.ds_view(), i, k)),
    decreases k,
{
    let (rows, cols, solid, ds) = (net.rows_view(), net.cols_view(), net.solid_view(), net.ds_view());
    lemma_walk_range(ds, i, k);
    if k > 0 {
        let km = (k - 1) as nat;
        lemma_walk_step(ds, i, km);
        let x = walk(ds, i, km);
        assert(x != PIT);
        lemma_walk_cells_drain(net, i, km);
        let y = ds[x] as int;
        let d = net.dir_view()[x];
        assert(ds[x] == ds_of(rows, cols, net.dir_view(), x));
        assert(1 <= d <= 8);
        assert(neighbour(rows, cols, x, d - 1) is Some);
        crate::grid::lemma_neighbour_adjacent(rows, cols, x, d - 1);
        assert(neighbour(rows, cols, x, d - 1) == Some(y));
        lemma_adjacent_symmetric(rows, cols, x, y);
        lemma_drains_next(rows, cols, solid, x, y);
    }
}

} // verus!
