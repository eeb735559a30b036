//! The D8 flow network: flow directions, downstream and upstream links,
//! and flow accumulation.
//!
//! Direction codes follow the convention counter-clockwise from East:
//! 1=E, 2=NE, 3=N, 4=NW, 5=W, 6=SW, 7=S, 8=SE; 0 is a pit.

use vstd::prelude::*;
use crate::grid::{d8_neighbour, grid_ok, lemma_neighbour_adjacent, neighbour};
use crate::flats::{flat_better, flat_candidate, flat_views, flats_ok, FlatOffsets, UNSET};
use crate::channel::{entry_of, entry_order_ok, trace_to_targets, ChannelPaths};
use crate::graph::{
    lemma_no_cycle, lemma_unmarked_mark, lemma_walk_ends, lemma_walk_shift, lemma_walk_pit_absorbs, lemma_walk_step, links_ok, ranked,
    unmarked, walk, PIT,
};

verus! {

/// Direction code `d` from cell `i` leads to a strictly lower valid cell.
pub open spec fn downhill(rows: int, cols: int, keys: Seq<u32>, solid: Seq<bool>, i: int, d: int) -> bool {
    1 <= d <= 8 && match neighbour(rows, cols, i, d - 1) {
        Some(j) => !solid[j] && keys[j] < keys[i],
        None => false,
    }
}

/// `d` is the flat drainage of `idx` (0 for none), as chosen by
/// [`FlatOffsets::direction`].
pub open spec fn flat_dir_ok(rows: int, cols: int, keys: Seq<u32>, solid: Seq<bool>, tl: Seq<u32>, fh: Seq<u32>, idx: int, d: int) -> bool {
    if d == 0 {
        ||| tl[idx] == UNSET
        ||| tl[idx] == 0
        ||| forall|k: int| 0 <= k < 8 ==> !#[trigger] flat_candidate(rows, cols, keys, solid, tl, idx, k)
    } else {
        &&& 1 <= d <= 8
        &&& tl[idx] != UNSET
        &&& tl[idx] != 0
        &&& flat_candidate(rows, cols, keys, solid, tl, idx, d - 1)
        &&& forall|k: int|
            0 <= k < 8 && k != d - 1 && #[trigger] flat_candidate(rows, cols, keys, solid, tl, idx, k) ==> flat_better(
                rows,
                cols,
                tl,
                fh,
                idx,
                d - 1,
                k,
            )
    }
}

/// The flow direction of cell `i`: 0 on `NoData`; the given steepest
/// descent direction when it leads downhill; otherwise the flat
/// drainage (0 when there is none).
pub open spec fn flow_dir_ok(
    rows: int,
    cols: int,
    keys: Seq<u32>,
    solid: Seq<bool>,
    steepest: Seq<u8>,
    flats: Option<(Seq<u32>, Seq<u32>)>,
    i: int,
    d: int,
) -> bool {
    if solid[i] {
        d == 0
    } else if downhill(rows, cols, keys, solid, i, steepest[i] as int) {
        d == steepest[i]
    } else {
        match flats {
            None => d == 0,
            Some(f) => flat_dir_ok(rows, cols, keys, solid, f.0, f.1, i, d),
        }
    }
}

/// Distance-to-outlet field of the flats (all zero without flats).
pub open spec fn outlet_field(n: int, flats: Option<(Seq<u32>, Seq<u32>)>) -> Seq<u32> {
    match flats {
        Some(f) => f.0,
        None => Seq::new(n as nat, |i: int| 0u32),
    }
}

/// Drainage potential: elevation first, then distance to the flat's
/// outlet. Every flow direction strictly lowers it.
pub open spec fn flow_rank(keys: Seq<u32>, tl: Seq<u32>, i: int) -> int {
    keys[i] as int * 0x1_0000_0000int + tl[i] as int
}

/// Downstream cell of `i` under direction grid `dir`, or `PIT`.
pub open spec fn ds_of(rows: int, cols: int, dir: Seq<u8>, i: int) -> usize {
    if 1 <= dir[i] <= 8 {
        match neighbour(rows, cols, i, dir[i] - 1) {
            Some(j) => j as usize,
            None => PIT,
        }
    } else {
        PIT
    }
}

/// Combine steepest-descent directions with flat drainage.
///
/// `steepest[i]` is the direction of steepest descent of cell `i` (0 when
/// no neighbour is lower); it is used when it leads to a strictly lower
/// valid cell. Cells without such a direction drain across their flat.
pub fn resolve_flow_dir(
    keys: &Vec<u32>,
    solid: &Vec<bool>,
    rows: usize,
    cols: usize,
    steepest: &Vec<u8>,
    flats: &Option<FlatOffsets>,
) -> (dir: Vec<u8>)
    requires
        grid_ok(rows as int, cols as int),
        keys@.len() == rows * cols,
        solid@.len() == rows * cols,
        steepest@.len() == rows * cols,
        match flats {
            Some(f) => f.rows_view() == rows && f.cols_view() == cols && f.to_lower_view().len() == rows * cols
                && f.from_higher_view().len() == rows * cols,
            None => true,
        },
    ensures
        dir@.len() == rows * cols,
        forall|i: int| 0 <= i < rows * cols ==> #[trigger] flow_dir_ok(rows as int, cols as int, keys@, solid@, steepest@, flat_views(*flats), i, dir@[i] as int),
        forall|i: int| 0 <= i < rows * cols && #[trigger] dir@[i] != 0 ==> {
            let j = neighbour(rows as int, cols as int, i, dir@[i] - 1);
            &&& 1 <= dir@[i] <= 8
            &&& j is Some
            &&& !solid@[j->0]
            &&& flow_rank(keys@, outlet_field(rows * cols, flat_views(*flats)), j->0)
                < flow_rank(keys@, outlet_field(rows * cols, flat_views(*flats)), i)
        },
{
    let n = rows * cols;
    let ghost r = rows as int;
    let ghost c = cols as int;
    let ghost fv = flat_views(*flats);
    let ghost tl = outlet_field(n as int, fv);
    let mut dir: Vec<u8> = Vec::new();
    let mut i: usize = 0;
    while i < n
        invariant
            grid_ok(r, c),
            r == rows,
            c == cols,
            n == rows * cols,
            i <= n,
            keys@.len() == n,
            solid@.len() == n,
            steepest@.len() == n,
            fv == flat_views(*flats),
            tl == outlet_field(n as int, fv),
            match flats {
                Some(f) => f.rows_view() == rows && f.cols_view() == cols && f.to_lower_view().len() == rows * cols
                    && f.from_higher_view().len() == rows * cols,
                None => true,
            },
            dir@.len() == i,
            forall|j: int| 0 <= j < i ==> #[trigger] flow_dir_ok(r, c, keys@, solid@, steepest@, fv, j, dir@[j] as int),
            forall|j: int| 0 <= j < i && #[trigger] dir@[j] != 0 ==> {
                let t = neighbour(r, c, j, dir@[j] - 1);
                &&& 1 <= dir@[j] <= 8
                &&& t is Some
                &&& !solid@[t->0]
                &&& flow_rank(keys@, tl, t->0) < flow_rank(keys@, tl, j)
            },
        decreases n - i,
    {
        let mut d: u8 = 0;
        if !solid[i] {
            let s = steepest[i];
            let mut ok = false;
            if s >= 1 && s <= 8 {
                match d8_neighbour(rows, cols, i, (s - 1) as usize) {
                    Some(j) => {
                        proof {
                            lemma_neighbour_adjacent(r, c, i as int, (s - 1) as int);
                        }
                        ok = !solid[j] && keys[j] < keys[i];
                    },
                    None => {},
                }
            }
            proof {
                assert(ok == downhill(r, c, keys@, solid@, i as int, s as int));
            }
            if ok {
                d = s;
                proof {
                    let t = neighbour(r, c, i as int, s - 1)->0;
                    lemma_neighbour_adjacent(r, c, i as int, (s - 1) as int);
                    assert(keys@[t] < keys@[i as int]);
                    assert(tl[t] < 0x1_0000_0000int && tl[i as int] >= 0);
                }
            } else {
                match flats {
                    Some(f) => {
                        let fd = f.direction(i, keys, solid);
                        match fd {
                            Some(x) => {
                                d = x;
                                proof {
                                    let t = neighbour(r, c, i as int, x - 1)->0;
                                    lemma_neighbour_adjacent(r, c, i as int, (x - 1) as int);
                                    assert(flat_candidate(r, c, keys@, solid@, tl, i as int, x - 1));
                                }
                            },
                            None => {},
                        }
                    },
                    None => {},
                }
            }
        }
        dir.push(d);
        proof {
            assert(dir@[i as int] == d);
        }
        i += 1;
    }
    dir
}

/// Downstream index of every cell from its direction code.
pub fn compute_downstream(flow_dir: &Vec<u8>, rows: usize, cols: usize) -> (ds: Vec<usize>)
    requires
        grid_ok(rows as int, cols as int),
        flow_dir@.len() == rows * cols,
    ensures
        ds@.len() == rows * cols,
        forall|i: int| 0 <= i < rows * cols ==> #[trigger] ds@[i] == ds_of(rows as int, cols as int, flow_dir@, i),
        links_ok(ds@),
{
    let n = rows * cols;
    let ghost r = rows as int;
    let ghost c = cols as int;
    let mut ds: Vec<usize> = Vec::new();
    let mut i: usize = 0;
    while i < n
        invariant
            grid_ok(r, c),
            r == rows,
            c == cols,
            n == rows * cols,
            i <= n,
            flow_dir@.len() == n,
            ds@.len() == i,
            forall|j: int| 0 <= j < i ==> #[trigger] ds@[j] == ds_of(r, c, flow_dir@, j),
            forall|j: int| 0 <= j < i ==> #[trigger] ds@[j] == PIT || ds@[j] < n,
        decreases n - i,
    {
        let d = flow_dir[i];
        let mut t: usize = PIT;
        if d != 0 && d <= 8 {
            match d8_neighbour(rows, cols, i, (d - 1) as usize) {
                Some(j) => {
                    proof {
                        lemma_neighbour_adjacent(r, c, i as int, (d - 1) as int);
                    }
                    t = j;
                },
                None => {},
            }
        }
        ds.push(t);
        i += 1;
    }
    ds
}

/// `up[i]` lists, in increasing order, the cells whose downstream cell
/// is `i`.
pub open spec fn upstream_ok(ds: Seq<usize>, up: Seq<Vec<usize>>) -> bool {
    &&& up.len() == ds.len()
    &&& forall|i: int, t: int| 0 <= i < ds.len() && 0 <= t < up[i]@.len() ==> #[trigger] up[i]@[t] < ds.len() && ds[up[i]@[t] as int] == i
    &&& forall|i: int, s: int, t: int| 0 <= i < ds.len() && 0 <= s < t < up[i]@.len() ==> #[trigger] up[i]@[s] < #[trigger] up[i]@[t]
    &&& forall|j: int| 0 <= j < ds.len() && #[trigger] ds[j] != PIT ==> up[ds[j] as int]@.contains(j as usize)
}

/// Upstream lists from downstream indices.
pub fn compute_upstream(downstream: &Vec<usize>, n: usize) -> (up: Vec<Vec<usize>>)
    requires
        downstream@.len() == n,
        links_ok(downstream@),
    ensures
        upstream_ok(downstream@, up@),
{
    let mut up: Vec<Vec<usize>> = Vec::new();
    let mut i: usize = 0;
    while i < n
        invariant
            i <= n,
            up@.len() == i,
            forall|j: int| 0 <= j < i ==> (#[trigger] up@[j])@.len() == 0,
        decreases n - i,
    {
        up.push(Vec::new());
        i += 1;
    }
    let mut idx: usize = 0;
    while idx < n
        invariant
            idx <= n,
            downstream@.len() == n,
            links_ok(downstream@),
            up@.len() == n,
            forall|i: int, t: int| 0 <= i < n && 0 <= t < up@[i]@.len() ==> #[trigger] up@[i]@[t] < idx && downstream@[up@[i]@[t] as int] == i,
            forall|i: int, s: int, t: int| 0 <= i < n && 0 <= s < t < up@[i]@.len() ==> #[trigger] up@[i]@[s] < #[trigger] up@[i]@[t],
            forall|j: int| 0 <= j < idx && #[trigger] downstream@[j] != PIT ==> up@[downstream@[j] as int]@.contains(j as usize),
        decreases n - idx,
    {
        let d = downstream[idx];
        if d != PIT {
            let ghost u0 = up@;
            up[d].push(idx);
            proof {
                assert forall|j: int| 0 <= j < idx + 1 && #[trigger] downstream@[j] != PIT implies up@[downstream@[j] as int]@.contains(j as usize) by {
                    if j < idx {
                        let t = choose|t: int| 0 <= t < u0[downstream@[j] as int]@.len() && u0[downstream@[j] as int]@[t] == j as usize;
                        assert(up@[downstream@[j] as int]@[t] == j as usize);
                    } else {
                        assert(up@[d as int]@[up@[d as int]@.len() - 1] == idx);
                    }
                }
                assert forall|i: int, t: int| 0 <= i < n && 0 <= t < up@[i]@.len() implies #[trigger] up@[i]@[t] < idx + 1 && downstream@[up@[i]@[t] as int] == i by {
                    if i != d as int || t < u0[i]@.len() {
                        assert(up@[i]@[t] == u0[i]@[t]);
                    }
                }
                assert forall|i: int, s: int, t: int| 0 <= i < n && 0 <= s < t < up@[i]@.len() implies #[trigger] up@[i]@[s] < #[trigger] up@[i]@[t] by {
                    assert(up@[i]@[s] == u0[i]@[s]);
                    if i != d as int || t < u0[i]@.len() {
                        assert(up@[i]@[t] == u0[i]@[t]);
                    }
                }
            }
        }
        idx += 1;
    }
    up
}

/// Sum of `acc[j]` over the cells `j < m` draining into `i`.
pub open spec fn up_sum(ds: Seq<usize>, acc: Seq<u64>, i: int, m: int) -> int
    decreases m,
{
    if m <= 0 {
        0
    } else {
        up_sum(ds, acc, i, m - 1) + if ds[m - 1] as int == i {
            acc[m - 1] as int
        } else {
            0
        }
    }
}

/// Flow accumulation: each cell counts itself plus the accumulation of
/// every cell draining into it.
pub open spec fn acc_ok(ds: Seq<usize>, acc: Seq<u64>) -> bool {
    &&& acc.len() == ds.len()
    &&& forall|i: int| 0 <= i < ds.len() ==> #[trigger] acc[i] == 1 + up_sum(ds, acc, i, ds.len() as int)
}

/// `order` lists every valid cell once, each after all cells draining
/// into it.
pub open spec fn topo_ok(ds: Seq<usize>, solid: Seq<bool>, order: Seq<usize>) -> bool {
    &&& order.no_duplicates()
    &&& forall|t: int| 0 <= t < order.len() ==> #[trigger] order[t] < ds.len() && !solid[order[t] as int]
    &&& forall|i: int| 0 <= i < ds.len() && !solid[i] ==> #[trigger] order.contains(i as usize)
    &&& forall|s: int, t: int|
        0 <= s < order.len() && 0 <= t < order.len() && #[trigger] ds[order[s] as int] == #[trigger] order[t] ==> s < t
}

/// Valid cells drain only into valid cells; `NoData` cells are pits.
pub open spec fn solid_isolated(ds: Seq<usize>, solid: Seq<bool>) -> bool {
    &&& solid.len() == ds.len()
    &&& forall|i: int| 0 <= i < ds.len() && #[trigger] solid[i] ==> ds[i] == PIT
    &&& forall|i: int| 0 <= i < ds.len() && #[trigger] ds[i] != PIT ==> !solid[ds[i] as int]
}

/// Ranks bounded so that they can drive an induction.
pub open spec fn rank_bounded(rank: Seq<int>) -> bool {
    forall|i: int| 0 <= i < rank.len() ==> 0 <= #[trigger] rank[i] < 0x1_0000_0000_0000_0000int
}

/// Sum over processed cells `j < m` draining into `i`.
spec fn psum(ds: Seq<usize>, acc: Seq<u64>, p: Seq<bool>, i: int, m: int) -> int
    decreases m,
{
    if m <= 0 {
        0
    } else {
        psum(ds, acc, p, i, m - 1) + if p[m - 1] && ds[m - 1] as int == i {
            acc[m - 1] as int
        } else {
            0
        }
    }
}

/// Number of unprocessed valid cells `j < m` draining into `i`.
spec fn cnt(ds: Seq<usize>, solid: Seq<bool>, p: Seq<bool>, i: int, m: int) -> nat
    decreases m,
{
    if m <= 0 {
        0
    } else {
        cnt(ds, solid, p, i, m - 1) + if !p[m - 1] && !solid[m - 1] && ds[m - 1] as int == i {
            1nat
        } else {
            0nat
        }
    }
}

/// Sum of accumulations of unprocessed cells `j < m`.
spec fn usum(acc: Seq<u64>, p: Seq<bool>, m: int) -> int
    decreases m,
{
    if m <= 0 {
        0
    } else {
        usum(acc, p, m - 1) + if !p[m - 1] {
            acc[m - 1] as int
        } else {
            0
        }
    }
}

proof fn lemma_psum_step(ds: Seq<usize>, acc: Seq<u64>, p: Seq<bool>, idx: int, d: int, w: u64, i: int, m: int)
    requires
        0 <= idx < p.len(),
        0 <= d < p.len(),
        p.len() == acc.len(),
        p.len() == ds.len(),
        !p[d],
        !p[idx],
        idx != d,
        0 <= m <= p.len(),
    ensures
        psum(ds, acc.update(d, w), p.update(idx, true), i, m) == psum(ds, acc, p, i, m) + if idx < m && ds[idx] as int == i {
            acc[idx] as int
        } else {
            0
        },
    decreases m,
{
    if m > 0 {
        lemma_psum_step(ds, acc, p, idx, d, w, i, m - 1);
    }
}

proof fn lemma_psum_mark(ds: Seq<usize>, acc: Seq<u64>, p: Seq<bool>, idx: int, i: int, m: int)
    requires
        0 <= idx < p.len(),
        p.len() == acc.len(),
        p.len() == ds.len(),
        !p[idx],
        0 <= m <= p.len(),
    ensures
        psum(ds, acc, p.update(idx, true), i, m) == psum(ds, acc, p, i, m) + if idx < m && ds[idx] as int == i {
            acc[idx] as int
        } else {
            0
        },
    decreases m,
{
    if m > 0 {
        lemma_psum_mark(ds, acc, p, idx, i, m - 1);
    }
}

proof fn lemma_cnt_mark(ds: Seq<usize>, solid: Seq<bool>, p: Seq<bool>, idx: int, i: int, m: int)
    requires
        0 <= idx < p.len(),
        p.len() == ds.len(),
        solid.len() == ds.len(),
        !p[idx],
        0 <= m <= p.len(),
    ensures
        cnt(ds, solid, p.update(idx, true), i, m) + (if idx < m && !solid[idx] && ds[idx] as int == i {
            1int
        } else {
            0int
        }) == cnt(ds, solid, p, i, m),
    decreases m,
{
    if m > 0 {
        lemma_cnt_mark(ds, solid, p, idx, i, m - 1);
    }
}

proof fn lemma_usum_acc(acc: Seq<u64>, p: Seq<bool>, d: int, w: u64, m: int)
    requires
        0 <= d < p.len(),
        p.len() == acc.len(),
        !p[d],
        0 <= m <= p.len(),
    ensures
        usum(acc.update(d, w), p, m) == usum(acc, p, m) + if d < m {
            w - acc[d]
        } else {
            0
        },
    decreases m,
{
    if m > 0 {
        lemma_usum_acc(acc, p, d, w, m - 1);
    }
}

proof fn lemma_usum_mark(acc: Seq<u64>, p: Seq<bool>, idx: int, m: int)
    requires
        0 <= idx < p.len(),
        p.len() == acc.len(),
        !p[idx],
        0 <= m <= p.len(),
    ensures
        usum(acc, p.update(idx, true), m) == usum(acc, p, m) - if idx < m {
            acc[idx] as int
        } else {
            0
        },
    decreases m,
{
    if m > 0 {
        lemma_usum_mark(acc, p, idx, m - 1);
    }
}

/// Two distinct unprocessed cells weigh at most the unprocessed total.
proof fn lemma_usum_two(acc: Seq<u64>, p: Seq<bool>, a: int, b: int, m: int)
    requires
        p.len() == acc.len(),
        0 <= m <= p.len(),
        0 <= a < m,
        0 <= b < m,
        a != b,
        !p[a],
        !p[b],
    ensures
        acc[a] + acc[b] <= usum(acc, p, m),
    decreases m,
{
    lemma_usum_nonneg(acc, p, m - 1);
    if a < m - 1 && b < m - 1 {
        lemma_usum_two(acc, p, a, b, m - 1);
    } else if a == m - 1 {
        lemma_usum_one(acc, p, b, m - 1);
    } else {
        lemma_usum_one(acc, p, a, m - 1);
    }
}

proof fn lemma_usum_one(acc: Seq<u64>, p: Seq<bool>, a: int, m: int)
    requires
        p.len() == acc.len(),
        0 <= m <= p.len(),
        0 <= a < m,
        !p[a],
    ensures
        acc[a] <= usum(acc, p, m),
    decreases m,
{
    lemma_usum_nonneg(acc, p, m - 1);
    if a < m - 1 {
        lemma_usum_one(acc, p, a, m - 1);
    }
}

proof fn lemma_usum_nonneg(acc: Seq<u64>, p: Seq<bool>, m: int)
    requires
        p.len() == acc.len(),
        m <= p.len(),
    ensures
        usum(acc, p, m) >= 0,
    decreases m,
{
    if m > 0 {
        lemma_usum_nonneg(acc, p, m - 1);
    }
}

proof fn lemma_usum_all(acc: Seq<u64>, p: Seq<bool>, m: int)
    requires
        p.len() == acc.len(),
        0 <= m <= p.len(),
        forall|j: int| 0 <= j < m ==> !p[j] && acc[j] == 1,
    ensures
        usum(acc, p, m) == m,
    decreases m,
{
    if m > 0 {
        lemma_usum_all(acc, p, m - 1);
    }
}

proof fn lemma_cnt_witness(ds: Seq<usize>, solid: Seq<bool>, p: Seq<bool>, i: int, m: int) -> (j: int)
    requires
        0 <= m <= ds.len(),
        cnt(ds, solid, p, i, m) > 0,
    ensures
        0 <= j < m,
        !p[j],
        !solid[j],
        ds[j] as int == i,
    decreases m,
{
    if !p[m - 1] && !solid[m - 1] && ds[m - 1] as int == i {
        m - 1
    } else {
        lemma_cnt_witness(ds, solid, p, i, m - 1)
    }
}

proof fn lemma_cnt_zero_all(ds: Seq<usize>, solid: Seq<bool>, p: Seq<bool>, i: int, m: int)
    requires
        0 <= m <= ds.len(),
        forall|j: int| 0 <= j < m ==> p[j] || solid[j] || ds[j] as int != i,
    ensures
        cnt(ds, solid, p, i, m) == 0,
    decreases m,
{
    if m > 0 {
        lemma_cnt_zero_all(ds, solid, p, i, m - 1);
    }
}

proof fn lemma_psum_full(ds: Seq<usize>, solid: Seq<bool>, acc: Seq<u64>, p: Seq<bool>, i: int, m: int)
    requires
        0 <= m <= ds.len(),
        forall|j: int| 0 <= j < m && ds[j] as int == i ==> p[j],
    ensures
        psum(ds, acc, p, i, m) == up_sum(ds, acc, i, m),
    decreases m,
{
    if m > 0 {
        lemma_psum_full(ds, solid, acc, p, i, m - 1);
    }
}

/// An unprocessed valid cell leads upstream to an unprocessed valid cell
/// with nothing unprocessed draining into it.
proof fn lemma_ready(ds: Seq<usize>, solid: Seq<bool>, rank: Seq<int>, p: Seq<bool>, i: int) -> (j: int)
    requires
        ranked(ds, rank),
        rank_bounded(rank),
        ds.len() < PIT,
        p.len() == ds.len(),
        solid.len() == ds.len(),
        0 <= i < ds.len(),
        !p[i],
        !solid[i],
    ensures
        0 <= j < ds.len(),
        !p[j],
        !solid[j],
        cnt(ds, solid, p, j, ds.len() as int) == 0,
    decreases 0x1_0000_0000_0000_0000int - rank[i],
{
    if cnt(ds, solid, p, i, ds.len() as int) == 0 {
        i
    } else {
        let u = lemma_cnt_witness(ds, solid, p, i, ds.len() as int);
        assert(ds[u] != PIT);
        assert(rank[i] < rank[u]);
        lemma_ready(ds, solid, rank, p, u)
    }
}


proof fn lemma_psum_zero(ds: Seq<usize>, acc: Seq<u64>, p: Seq<bool>, i: int, m: int)
    requires
        0 <= m <= p.len(),
        forall|j: int| 0 <= j < m ==> !p[j],
    ensures
        psum(ds, acc, p, i, m) == 0,
    decreases m,
{
    if m > 0 {
        lemma_psum_zero(ds, acc, p, i, m - 1);
    }
}

proof fn lemma_cnt_positive(ds: Seq<usize>, solid: Seq<bool>, p: Seq<bool>, i: int, j: int, m: int)
    requires
        0 <= j < m,
        !p[j],
        !solid[j],
        ds[j] as int == i,
    ensures
        cnt(ds, solid, p, i, m) > 0,
    decreases m,
{
    if j < m - 1 {
        lemma_cnt_positive(ds, solid, p, i, j, m - 1);
    }
}

/// Flow accumulation by Kahn's algorithm from the headwaters, with the
/// order in which cells were finalised.
pub(crate) fn compute_flow_acc(downstream: &Vec<usize>, solid: &Vec<bool>, Ghost(rank): Ghost<Seq<int>>) -> (res: (Vec<u64>, Vec<usize>))
    requires
        downstream@.len() < PIT,
        ranked(downstream@, rank),
        rank_bounded(rank),
        solid_isolated(downstream@, solid@),
    ensures
        acc_ok(downstream@, res.0@),
        topo_ok(downstream@, solid@, res.1@),
        forall|i: int| 0 <= i < downstream@.len() ==> 1 <= #[trigger] res.0@[i] <= downstream@.len(),
{
    let n = downstream.len();
    let ghost ds = downstream@;
    let mut acc: Vec<u64> = Vec::new();
    let mut pending: Vec<usize> = Vec::new();
    let mut i: usize = 0;
    while i < n
        invariant
            i <= n,
            acc@.len() == i,
            pending@.len() == i,
            forall|j: int| 0 <= j < i ==> #[trigger] acc@[j] == 1 && pending@[j] == 0,
        decreases n - i,
    {
        acc.push(1);
        pending.push(0);
        i += 1;
    }
    let ghost p0: Seq<bool> = Seq::new(n as nat, |j: int| false);
    proof {
        assert forall|j: int| 0 <= j < n implies #[trigger] pending@[j] == cnt(ds, solid@, p0, j, 0) by {
            assert(acc@[j] == 1);
        }
    }
    // count valid upstream cells of each cell
    let mut idx: usize = 0;
    while idx < n
        invariant
            idx <= n,
            n == ds.len(),
            n < PIT,
            ds == downstream@,
            links_ok(ds),
            p0 == Seq::new(n as nat, |j: int| false),
            solid_isolated(ds, solid@),
            pending@.len() == n,
            forall|j: int| 0 <= j < n ==> #[trigger] pending@[j] == cnt(ds, solid@, p0, j, idx as int),
            forall|j: int| 0 <= j < n ==> #[trigger] pending@[j] <= idx,
        decreases n - idx,
    {
        let ghost pend0 = pending@;
        if !solid[idx] {
            let d = downstream[idx];
            if d != PIT {
                pending.set(d, pending[d] + 1);
            }
        }
        proof {
            assert forall|j: int| 0 <= j < n implies #[trigger] pending@[j] == cnt(ds, solid@, p0, j, idx + 1) by {
                assert(cnt(ds, solid@, p0, j, idx + 1) == cnt(ds, solid@, p0, j, idx as int) + if !p0[idx as int]
                    && !solid@[idx as int] && ds[idx as int] as int == j {
                    1nat
                } else {
                    0nat
                });
                assert(pend0[j] == cnt(ds, solid@, p0, j, idx as int));
            }
        }
        idx += 1;
    }
    let mut queue: Vec<usize> = Vec::new();
    let mut idx: usize = 0;
    while idx < n
        invariant
            idx <= n,
            n == ds.len(),
            pending@.len() == n,
            solid@.len() == n,
            queue@.no_duplicates(),
            forall|t: int| 0 <= t < queue@.len() ==> #[trigger] queue@[t] < idx && !solid@[queue@[t] as int] && pending@[queue@[t] as int] == 0,
            forall|j: int| 0 <= j < idx && !solid@[j] && #[trigger] pending@[j] == 0 ==> queue@.contains(j as usize),
        decreases n - idx,
    {
        if !solid[idx] && pending[idx] == 0 {
            let ghost q0 = queue@;
            queue.push(idx);
            proof {
                assert forall|a: int, b: int| 0 <= a < queue@.len() && 0 <= b < queue@.len() && a != b implies queue@[a] != queue@[b] by {
                    if a < q0.len() && b < q0.len() {
                    } else if a < q0.len() {
                        assert(q0[a] < idx);
                    } else {
                        assert(q0[b] < idx);
                    }
                }
                assert forall|j: int| 0 <= j < idx + 1 && !solid@[j] && #[trigger] pending@[j] == 0 implies queue@.contains(j as usize) by {
                    if j < idx {
                        let t = choose|t: int| 0 <= t < q0.len() && q0[t] == j as usize;
                        assert(queue@[t] == j as usize);
                    } else {
                        assert(queue@[queue@.len() - 1] == idx);
                    }
                }
            }
        }
        idx += 1;
    }
    let mut order: Vec<usize> = Vec::new();
    let ghost mut p = p0;
    proof {
        lemma_usum_all(acc@, p, n as int);
        assert forall|j: int| 0 <= j < n implies 1 <= #[trigger] acc@[j] <= n by {
            assert(p0.len() == n && 0 <= j < n);
        }
        assert forall|j: int| 0 <= j < n implies #[trigger] acc@[j] == 1 + psum(ds, acc@, p, j, n as int) by {
            lemma_psum_zero(ds, acc@, p, j, n as int);
        }
    }
    while queue.len() > 0
        invariant
            n == ds.len(),
            n < PIT,
            ds == downstream@,
            ranked(ds, rank),
            rank_bounded(rank),
            solid_isolated(ds, solid@),
            acc@.len() == n,
            pending@.len() == n,
            p.len() == n,
            forall|j: int| 0 <= j < n ==> #[trigger] acc@[j] == 1 + psum(ds, acc@, p, j, n as int),
            forall|j: int| 0 <= j < n ==> #[trigger] pending@[j] == cnt(ds, solid@, p, j, n as int),
            forall|j: int| 0 <= j < n ==> 1 <= #[trigger] acc@[j] <= n,
            usum(acc@, p, n as int) <= n,
            forall|j: int| 0 <= j < n && #[trigger] p[j] ==> !solid@[j] && pending@[j] == 0,
            queue@.no_duplicates(),
            forall|t: int| 0 <= t < queue@.len() ==> #[trigger] queue@[t] < n && !solid@[queue@[t] as int] && pending@[queue@[t] as int] == 0 && !p[queue@[t] as int],
            forall|j: int| 0 <= j < n && !solid@[j] && !p[j] && #[trigger] pending@[j] == 0 ==> queue@.contains(j as usize),
            order@.no_duplicates(),
            forall|j: int| 0 <= j < n ==> (#[trigger] p[j] <==> order@.contains(j as usize)),
            forall|t: int| 0 <= t < order@.len() ==> #[trigger] order@[t] < n,
            forall|s: int, t: int|
                0 <= s < order@.len() && 0 <= t < order@.len() && #[trigger] ds[order@[s] as int] == #[trigger] order@[t] ==> s < t,
        decreases unmarked(p),
    {
        let ghost qfull = queue@;
        let idx = queue.pop().unwrap();
        let ghost pa = p;
        let ghost acc0 = acc@;
        let ghost pend0 = pending@;
        let ghost q1 = queue@;
        let ghost ord0 = order@;
        proof {
            assert(!pa[idx as int]);
            lemma_unmarked_mark(pa, idx as int);
        }
        let d = downstream[idx];
        if d != PIT {
            proof {
                lemma_cnt_mark(ds, solid@, pa, idx as int, d as int, n as int);
                assert(pending@[d as int] >= 1);
                assert(!pa[d as int]) by {
                    if pa[d as int] {
                        assert(pending@[d as int] == 0);
                    }
                }
                assert(d != idx) by {
                    assert(rank[d as int] < rank[idx as int]);
                }
                lemma_usum_two(acc@, pa, idx as int, d as int, n as int);
            }
            let newv = acc[d] + acc[idx];
            acc.set(d, newv);
            pending.set(d, pending[d] - 1);
            proof {
                p = pa.update(idx as int, true);
                assert forall|j: int| 0 <= j < n implies #[trigger] acc@[j] == 1 + psum(ds, acc@, p, j, n as int) by {
                    lemma_psum_step(ds, acc0, pa, idx as int, d as int, newv, j, n as int);
                }
                lemma_usum_acc(acc0, pa, d as int, newv, n as int);
                lemma_usum_mark(acc@, pa, idx as int, n as int);
                assert(acc@[idx as int] == acc0[idx as int]);
                assert forall|j: int| 0 <= j < n implies #[trigger] pending@[j] == cnt(ds, solid@, p, j, n as int) by {
                    lemma_cnt_mark(ds, solid@, pa, idx as int, j, n as int);
                }
            }
            if pending[d] == 0 {
                queue.push(d);
                proof {
                    assert(!q1.contains(d)) by {
                        if q1.contains(d) {
                            let t = choose|t: int| 0 <= t < q1.len() && q1[t] == d;
                            assert(pend0[d as int] == 0);
                        }
                    }
                }
            }
        } else {
            proof {
                p = pa.update(idx as int, true);
                assert forall|j: int| 0 <= j < n implies #[trigger] acc@[j] == 1 + psum(ds, acc@, p, j, n as int) by {
                    lemma_psum_mark(ds, acc@, pa, idx as int, j, n as int);
                }
                lemma_usum_mark(acc@, pa, idx as int, n as int);
                assert forall|j: int| 0 <= j < n implies #[trigger] pending@[j] == cnt(ds, solid@, p, j, n as int) by {
                    lemma_cnt_mark(ds, solid@, pa, idx as int, j, n as int);
                }
            }
        }
        order.push(idx);
        proof {
            assert forall|j: int| 0 <= j < n implies (#[trigger] p[j] <==> order@.contains(j as usize)) by {
                if j == idx as int {
                    assert(order@[order@.len() - 1] == idx);
                } else if pa[j] {
                    let t = choose|t: int| 0 <= t < ord0.len() && ord0[t] == j as usize;
                    assert(order@[t] == j as usize);
                } else {
                    if order@.contains(j as usize) {
                        let t = choose|t: int| 0 <= t < order@.len() && order@[t] == j as usize;
                        if t < ord0.len() {
                            assert(ord0[t] == j as usize);
                        }
                    }
                }
            }
            assert(!ord0.contains(idx)) by {
                assert(!pa[idx as int]);
            }
            assert forall|a: int, b: int| 0 <= a < order@.len() && 0 <= b < order@.len() && a != b implies order@[a] != order@[b] by {
                if a < ord0.len() && b < ord0.len() {
                } else if a < ord0.len() {
                    assert(ord0.contains(order@[a]));
                } else {
                    assert(ord0.contains(order@[b]));
                }
            }
            assert forall|s: int, t: int|
                0 <= s < order@.len() && 0 <= t < order@.len() && #[trigger] ds[order@[s] as int] == #[trigger] order@[t] implies s < t by {
                if s < ord0.len() && t < ord0.len() {
                } else if t == ord0.len() {
                    // order[t] == idx: every cell draining into idx was already processed
                    if s == t {
                        assert(rank[idx as int] < rank[idx as int]);
                    }
                } else {
                    // s is idx; its downstream cell is not yet processed
                    let o = order@[t];
                    assert(ord0[t] == o);
                    assert(pa[o as int]);
                    assert(pend0[o as int] == 0);
                    assert(cnt(ds, solid@, pa, o as int, n as int) == 0);
                    lemma_cnt_positive(ds, solid@, pa, o as int, idx as int, n as int);
                }
            }
            assert forall|t: int| 0 <= t < queue@.len() implies #[trigger] queue@[t] < n && !solid@[queue@[t] as int] && pending@[queue@[t] as int] == 0 && !p[queue@[t] as int] by {
                if t < q1.len() {
                    assert(queue@[t] == q1[t]);
                    assert(q1[t] != idx) by {
                        assert(queue@.len() >= q1.len());
                    }
                }
            }
            assert forall|j: int| 0 <= j < n && !solid@[j] && !p[j] && #[trigger] pending@[j] == 0 implies queue@.contains(j as usize) by {
                assert(j != idx as int);
                if pend0[j] == 0 {
                    assert(qfull.contains(j as usize));
                    let t = choose|t: int| 0 <= t < qfull.len() && qfull[t] == j as usize;
                    assert(qfull[qfull.len() - 1] == idx);
                    assert(t < q1.len());
                    assert(q1[t] == j as usize);
                    assert(queue@[t] == j as usize);
                } else {
                    assert(queue@[queue@.len() - 1] == j as usize);
                }
            }
        }
    }
    proof {
        assert forall|i: int| 0 <= i < n && !solid@[i] implies #[trigger] p[i] by {
            if !p[i] {
                let j = lemma_ready(ds, solid@, rank, p, i);
                assert(pending@[j] == 0);
                assert(queue@.contains(j as usize));
            }
        }
        assert forall|i: int| 0 <= i < n implies #[trigger] acc@[i] == 1 + up_sum(ds, acc@, i, n as int) by {
            assert forall|j: int| 0 <= j < n && ds[j] as int == i implies p[j] by {
                if solid@[j] {
                    assert(ds[j] == PIT);
                }
            }
            lemma_psum_full(ds, solid@, acc@, p, i, n as int);
        }
        assert forall|i: int| 0 <= i < n && !solid@[i] implies #[trigger] order@.contains(i as usize) by {
            assert(p[i]);
        }
        assert forall|t: int| 0 <= t < order@.len() implies #[trigger] order@[t] < ds.len() && !solid@[order@[t] as int] by {
            assert(order@.contains(order@[t]));
            assert(p[order@[t] as int]);
        }
    }
    (acc, order)
}

/// A D8 flow network over a row-major grid.
///
/// Holds the flow direction of every cell, its downstream cell (or
/// `PIT`), the cells draining into it, its flow accumulation (cell count
/// including itself), and the order in which accumulation finalised the
/// cells. The network is acyclic: a drainage potential strictly
/// decreases along every downstream step.
pub struct Network {
    rows: usize,
    cols: usize,
    flow_dir: Vec<u8>,
    flow_acc: Vec<u64>,
    downstream: Vec<usize>,
    upstream: Vec<Vec<usize>>,
    solid: Vec<bool>,
    order: Vec<usize>,
    rank: Ghost<Seq<int>>,
}

impl Network {
    pub closed spec fn rows_view(&self) -> int {
        self.rows as int
    }

    pub closed spec fn cols_view(&self) -> int {
        self.cols as int
    }

    /// Flow direction codes.
    pub closed spec fn dir_view(&self) -> Seq<u8> {
        self.flow_dir@
    }

    /// Flow accumulation per cell.
    pub closed spec fn acc_view(&self) -> Seq<u64> {
        self.flow_acc@
    }

    /// Downstream cell per cell (`PIT` for pits).
    pub closed spec fn ds_view(&self) -> Seq<usize> {
        self.downstream@
    }

    /// Cells draining into each cell, in increasing order.
    pub closed spec fn up_view(&self) -> Seq<Vec<usize>> {
        self.upstream@
    }

    /// `NoData` mask.
    pub closed spec fn solid_view(&self) -> Seq<bool> {
        self.solid@
    }

    /// The order in which flow accumulation finalised the valid cells.
    pub closed spec fn order_view(&self) -> Seq<usize> {
        self.order@
    }

    /// A drainage potential that every downstream step lowers.
    pub closed spec fn rank_view(&self) -> Seq<int> {
        self.rank@
    }

    /// Number of cells.
    pub open spec fn n(&self) -> int {
        self.rows_view() * self.cols_view()
    }

    /// The network's structural invariant.
    pub open spec fn wf(&self) -> bool {
        let n = self.n();
        &&& grid_ok(self.rows_view(), self.cols_view())
        &&& n < PIT
        &&& self.dir_view().len() == n
        &&& self.ds_view().len() == n
        &&& self.solid_view().len() == n
        &&& forall|i: int| 0 <= i < n ==> #[trigger] self.dir_view()[i] <= 8
        &&& forall|i: int| 0 <= i < n ==> #[trigger] self.ds_view()[i] == ds_of(self.rows_view(), self.cols_view(), self.dir_view(), i)
        &&& forall|i: int| 0 <= i < n && #[trigger] self.dir_view()[i] != 0 ==> self.ds_view()[i] != PIT
        &&& solid_isolated(self.ds_view(), self.solid_view())
        &&& ranked(self.ds_view(), self.rank_view())
        &&& rank_bounded(self.rank_view())
        &&& upstream_ok(self.ds_view(), self.up_view())
        &&& acc_ok(self.ds_view(), self.acc_view())
        &&& forall|i: int| 0 <= i < n ==> 1 <= #[trigger] self.acc_view()[i] <= n
        &&& topo_ok(self.ds_view(), self.solid_view(), self.order_view())
    }

    /// Build the network of a filled elevation-key grid.
    ///
    /// `keys` orders the (filled) elevations, `solid` marks `NoData`, and
    /// `steepest[i]` is the steepest-descent direction code of cell `i`
    /// (0 when no neighbour is lower). Flats are drained by
    /// [`FlatOffsets`].
    pub fn from_filled(keys: &Vec<u32>, solid: Vec<bool>, rows: usize, cols: usize, steepest: &Vec<u8>) -> (net: Network)
        requires
            grid_ok(rows as int, cols as int),
            rows * cols <= u32::MAX,
            rows * cols < PIT,
            keys@.len() == rows * cols,
            solid@.len() == rows * cols,
            steepest@.len() == rows * cols,
        ensures
            net.wf(),
            net.rows_view() == rows,
            net.cols_view() == cols,
            net.solid_view() == solid@,
            exists|fv: Option<(Seq<u32>, Seq<u32>)>| #[trigger] flats_ok(rows as int, cols as int, keys@, solid@, fv)
                && forall|i: int| 0 <= i < rows * cols ==> #[trigger] flow_dir_ok(rows as int, cols as int, keys@, solid@, steepest@, fv, i, net.dir_view()[i] as int),
    {
        let n = rows * cols;
        let ghost r = rows as int;
        let ghost c = cols as int;
        let flats = FlatOffsets::compute(keys, &solid, rows, cols);
        let ghost fv = flat_views(flats);
        let flow_dir = resolve_flow_dir(keys, &solid, rows, cols, steepest, &flats);
        let downstream = compute_downstream(&flow_dir, rows, cols);
        let ghost tl = outlet_field(n as int, fv);
        let ghost rank = Seq::new(n as nat, |i: int| flow_rank(keys@, tl, i));
        proof {
            assert forall|i: int| 0 <= i < n && #[trigger] downstream@[i] != PIT implies rank[downstream@[i] as int] < rank[i] && !solid@[downstream@[i] as int] by {
                assert(flow_dir@[i] != 0);
                let j = neighbour(r, c, i, flow_dir@[i] - 1);
                assert(j is Some);
                lemma_neighbour_adjacent(r, c, i, flow_dir@[i] - 1);
                assert(downstream@[i] as int == j->0);
                assert(flow_rank(keys@, tl, j->0) < flow_rank(keys@, tl, i));
            }
            assert forall|i: int| 0 <= i < n && #[trigger] solid@[i] implies downstream@[i] == PIT by {
                assert(flow_dir_ok(r, c, keys@, solid@, steepest@, fv, i, flow_dir@[i] as int));
            }
            assert forall|i: int| 0 <= i < rank.len() implies 0 <= #[trigger] rank[i] < 0x1_0000_0000_0000_0000int by {
                assert(keys@[i] < 0x1_0000_0000int);
                match fv {
                    Some(f) => {
                        assert(tl == f.0);
                    },
                    None => {},
                }
                assert(tl[i] < 0x1_0000_0000int);
            }
            assert forall|i: int| 0 <= i < n implies #[trigger] flow_dir@[i] <= 8 by {
                if flow_dir@[i] != 0 {
                }
            }
            assert forall|i: int| 0 <= i < n && #[trigger] flow_dir@[i] != 0 implies downstream@[i] != PIT by {
                lemma_neighbour_adjacent(r, c, i, flow_dir@[i] - 1);
            }
        }
        let upstream = compute_upstream(&downstream, n);
        let res = compute_flow_acc(&downstream, &solid, Ghost(rank));
        let net = Network {
            rows,
            cols,
            flow_dir,
            flow_acc: res.0,
            downstream,
            upstream,
            solid,
            order: res.1,
            rank: Ghost(rank),
        };
        proof {
            assert(flats_ok(r, c, keys@, net.solid@, fv));
        }
        net
    }
}

/// Label of cell `i` as a pour point: one plus the last position of `i`
/// in `pp` (later pour points win), or 0.
pub open spec fn pour_label(pp: Seq<usize>, i: int) -> int
    decreases pp.len(),
{
    if pp.len() == 0 {
        0
    } else if pp.last() as int == i {
        pp.len() as int
    } else {
        pour_label(pp.drop_last(), i)
    }
}

/// The label of the first pour point met walking downstream from `i`
/// (within `fuel` cells), or 0 when a pit comes first.
pub open spec fn first_pour(ds: Seq<usize>, pp: Seq<usize>, i: int, fuel: nat) -> int
    decreases fuel,
{
    if fuel == 0 || !(0 <= i < ds.len()) {
        0
    } else if pour_label(pp, i) > 0 {
        pour_label(pp, i)
    } else if ds[i] == PIT {
        0
    } else {
        first_pour(ds, pp, ds[i] as int, (fuel - 1) as nat)
    }
}

/// Basin label of cell `i`: 0 on `NoData`, else the label of the
/// nearest pour point downstream (the cell itself included).
pub open spec fn basin_label(ds: Seq<usize>, solid: Seq<bool>, pp: Seq<usize>, i: int) -> int {
    if solid[i] {
        0
    } else {
        first_pour(ds, pp, i, ds.len())
    }
}

proof fn lemma_pour_label_range(pp: Seq<usize>, i: int)
    ensures
        0 <= pour_label(pp, i) <= pp.len(),
        pour_label(pp, i) > 0 ==> pp[pour_label(pp, i) - 1] as int == i,
    decreases pp.len(),
{
    if pp.len() > 0 && pp.last() as int != i {
        lemma_pour_label_range(pp.drop_last(), i);
    }
}

/// Once the walk from `i` has reached a pit, more fuel changes nothing.
proof fn lemma_first_pour_stable(ds: Seq<usize>, pp: Seq<usize>, i: int, f: nat, x: nat)
    requires
        links_ok(ds),
        ds.len() < PIT,
        walk(ds, i, f) == PIT,
    ensures
        first_pour(ds, pp, i, f + x) == first_pour(ds, pp, i, f),
    decreases f,
{
    if f > 0 && 0 <= i < ds.len() && pour_label(pp, i) == 0 && ds[i] != PIT {
        lemma_walk_shift(ds, i, (f - 1) as nat);
        lemma_first_pour_stable(ds, pp, ds[i] as int, (f - 1) as nat, x);
        assert((f - 1) as nat + x == (f + x - 1) as nat);
        assert(first_pour(ds, pp, i, f + x) == first_pour(ds, pp, ds[i] as int, (f + x - 1) as nat));
        assert(first_pour(ds, pp, i, f) == first_pour(ds, pp, ds[i] as int, (f - 1) as nat));
    } else if f == 0 {
        assert(walk(ds, i, 0) == i);
        assert(i == PIT);
        assert(!(0 <= i < ds.len()));
        if f + x > 0 {
            assert(first_pour(ds, pp, i, f + x) == 0);
        }
    } else {
        lemma_pour_label_range(pp, i);
        let g: nat = f + x;
        assert(g > 0);
        if !(0 <= i < ds.len()) {
            assert(first_pour(ds, pp, i, g) == 0);
            assert(first_pour(ds, pp, i, f) == 0);
        } else if pour_label(pp, i) > 0 {
            assert(first_pour(ds, pp, i, g) == pour_label(pp, i));
            assert(first_pour(ds, pp, i, f) == pour_label(pp, i));
        } else {
            assert(ds[i] == PIT);
            assert(first_pour(ds, pp, i, g) == 0);
            assert(first_pour(ds, pp, i, f) == 0);
        }
    }
}

/// On a ranked graph the basin label of a cell that is no pour point is
/// that of its downstream cell.
proof fn lemma_first_pour_step(ds: Seq<usize>, rank: Seq<int>, pp: Seq<usize>, i: int)
    requires
        ranked(ds, rank),
        ds.len() < PIT,
        0 <= i < ds.len(),
        pour_label(pp, i) == 0,
        ds[i] != PIT,
    ensures
        first_pour(ds, pp, i, ds.len()) == first_pour(ds, pp, ds[i] as int, ds.len()),
{
    let n = ds.len();
    let d = ds[i] as int;
    lemma_walk_ends(ds, rank, d);
    lemma_first_pour_stable(ds, pp, d, n, 1);
    assert(first_pour(ds, pp, i, n + 1) == first_pour(ds, pp, d, n));
    lemma_walk_ends(ds, rank, i);
    lemma_first_pour_stable(ds, pp, i, n, 1);
}

impl Network {
    /// Number of rows.
    pub fn rows(&self) -> (r: usize)
        ensures
            r == self.rows_view(),
    {
        self.rows
    }

    /// Number of columns.
    pub fn cols(&self) -> (c: usize)
        ensures
            c == self.cols_view(),
    {
        self.cols
    }

    /// Total number of cells.
    pub fn len(&self) -> (n: usize)
        requires
            self.wf(),
        ensures
            n == self.n(),
    {
        self.rows * self.cols
    }

    /// `true` if the grid holds no cells (never, for a built network).
    pub fn is_empty(&self) -> (b: bool)
        requires
            self.wf(),
        ensures
            b == (self.n() == 0),
    {
        self.rows * self.cols == 0
    }

    /// Flow direction code at (row, col): 0 = pit, 1–8 = D8 direction.
    pub fn flow_dir(&self, row: usize, col: usize) -> (d: u8)
        requires
            self.wf(),
            row < self.rows_view(),
            col < self.cols_view(),
        ensures
            d == self.dir_view()[row * self.cols_view() + col],
    {
        let i = crate::grid::cell_index(self.rows, self.cols, row, col);
        self.flow_dir[i]
    }

    /// Flow accumulation (cells draining through, itself included) at
    /// (row, col).
    pub fn flow_acc(&self, row: usize, col: usize) -> (a: u64)
        requires
            self.wf(),
            row < self.rows_view(),
            col < self.cols_view(),
        ensures
            a == self.acc_view()[row * self.cols_view() + col],
    {
        let i = crate::grid::cell_index(self.rows, self.cols, row, col);
        self.flow_acc[i]
    }

    /// `true` if the cell at (row, col) is `NoData`.
    pub fn is_solid(&self, row: usize, col: usize) -> (b: bool)
        requires
            self.wf(),
            row < self.rows_view(),
            col < self.cols_view(),
        ensures
            b == self.solid_view()[row * self.cols_view() + col],
    {
        let i = crate::grid::cell_index(self.rows, self.cols, row, col);
        self.solid[i]
    }

    /// Downstream cell of `idx`, or `PIT`.
    pub fn downstream(&self, idx: usize) -> (d: usize)
        requires
            self.wf(),
            idx < self.n(),
        ensures
            d == self.ds_view()[idx as int],
    {
        self.downstream[idx]
    }

    /// Cells draining into `idx`, in increasing order.
    pub fn upstream(&self, idx: usize) -> (u: &[usize])
        requires
            self.wf(),
            idx < self.n(),
        ensures
            u@ == self.up_view()[idx as int]@,
    {
        self.upstream[idx].as_slice()
    }

    /// The flow direction grid.
    pub fn flow_dir_slice(&self) -> (s: &[u8])
        ensures
            s@ == self.dir_view(),
    {
        self.flow_dir.as_slice()
    }

    /// The flow accumulation grid.
    pub fn flow_acc_slice(&self) -> (s: &[u64])
        ensures
            s@ == self.acc_view(),
    {
        self.flow_acc.as_slice()
    }

    /// The `NoData` mask.
    pub fn solid_slice(&self) -> (s: &[bool])
        ensures
            s@ == self.solid_view(),
    {
        self.solid.as_slice()
    }

    /// The order in which accumulation finalised the valid cells: each
    /// cell comes after every cell draining into it.
    pub fn accumulation_order(&self) -> (s: &[usize])
        ensures
            s@ == self.order_view(),
    {
        self.order.as_slice()
    }

    /// Trace the downstream flow path from `start`: the cells after it,
    /// up to and including the pit that ends it.
    pub fn trace_downstream(&self, start: usize) -> (path: Vec<usize>)
        requires
            self.wf(),
            start < self.n(),
        ensures
            forall|t: int| 0 <= t < path@.len() ==> #[trigger] path@[t] as int == walk(self.ds_view(), start as int, (t + 1) as nat),
            walk(self.ds_view(), start as int, (path@.len() + 1) as nat) == PIT,
            path@.len() < self.n(),
    {
        let ghost ds = self.downstream@;
        let ghost n = self.n();
        proof {
            lemma_walk_ends(ds, self.rank@, start as int);
        }
        let mut path: Vec<usize> = Vec::new();
        let mut cur = start;
        let max_steps = self.rows * self.cols;
        let mut steps: usize = 0;
        loop
            invariant
                self.wf(),
                ds == self.ds_view(),
                n == self.n(),
                max_steps == n,
                start < n,
                walk(ds, start as int, n as nat) == PIT,
                steps == path@.len(),
                cur as int == walk(ds, start as int, steps as nat),
                cur < n,
                steps < n,
                forall|t: int| 0 <= t < path@.len() ==> #[trigger] path@[t] as int == walk(ds, start as int, (t + 1) as nat),
            ensures
                forall|t: int| 0 <= t < path@.len() ==> #[trigger] path@[t] as int == walk(ds, start as int, (t + 1) as nat),
                walk(ds, start as int, (path@.len() + 1) as nat) == PIT,
                path@.len() < n,
            decreases n - steps,
        {
            let d = self.downstream[cur];
            proof {
                lemma_walk_step(ds, start as int, steps as nat);
            }
            if d == PIT {
                break;
            }
            path.push(d);
            cur = d;
            steps += 1;
            proof {
                if steps >= n {
                    lemma_walk_pit_absorbs(ds, start as int, n as nat, steps as nat);
                }
            }
            if steps > max_steps {
                break;
            }
        }
        path
    }

    /// Trace the downstream path from `start` to the nearest stream cell
    /// (accumulation at least `threshold`): the cells after `start`, up
    /// to and including that stream cell, or up to the pit when none is
    /// met.
    pub fn trace_to_stream(&self, start: usize, threshold: u64) -> (path: Vec<usize>)
        requires
            self.wf(),
            start < self.n(),
        ensures
            forall|t: int| 0 <= t < path@.len() ==> #[trigger] path@[t] as int == walk(self.ds_view(), start as int, (t + 1) as nat),
            forall|t: int| 0 <= t < path@.len() - 1 ==> self.acc_view()[#[trigger] path@[t] as int] < threshold,
            (path@.len() > 0 && self.acc_view()[path@.last() as int] >= threshold)
                || walk(self.ds_view(), start as int, (path@.len() + 1) as nat) == PIT,
            path@.len() < self.n(),
    {
        let ghost ds = self.downstream@;
        let ghost n = self.n();
        proof {
            lemma_walk_ends(ds, self.rank@, start as int);
        }
        let mut path: Vec<usize> = Vec::new();
        let mut cur = start;
        let max_steps = self.rows * self.cols;
        let mut steps: usize = 0;
        loop
            invariant
                self.wf(),
                ds == self.ds_view(),
                n == self.n(),
                max_steps == n,
                start < n,
                walk(ds, start as int, n as nat) == PIT,
                steps == path@.len(),
                cur as int == walk(ds, start as int, steps as nat),
                cur < n,
                steps < n,
                steps > 0 ==> cur == path@.last(),
                forall|t: int| 0 <= t < path@.len() ==> #[trigger] path@[t] as int == walk(ds, start as int, (t + 1) as nat),
                forall|t: int| 0 <= t < path@.len() - 1 ==> self.acc_view()[#[trigger] path@[t] as int] < threshold,
            ensures
                forall|t: int| 0 <= t < path@.len() ==> #[trigger] path@[t] as int == walk(ds, start as int, (t + 1) as nat),
                forall|t: int| 0 <= t < path@.len() - 1 ==> self.acc_view()[#[trigger] path@[t] as int] < threshold,
                (path@.len() > 0 && self.acc_view()[path@.last() as int] >= threshold)
                    || walk(ds, start as int, (path@.len() + 1) as nat) == PIT,
                path@.len() < n,
            decreases n - steps,
        {
            if self.flow_acc[cur] >= threshold && cur != start {
                proof {
                    assert(steps > 0) by {
                        if steps == 0 {
                            assert(cur == start);
                        }
                    }
                }
                break;
            }
            let d = self.downstream[cur];
            proof {
                lemma_walk_step(ds, start as int, steps as nat);
            }
            if d == PIT {
                break;
            }
            let ghost p0 = path@;
            path.push(d);
            proof {
                assert forall|t: int| 0 <= t < path@.len() - 1 implies self.acc_view()[#[trigger] path@[t] as int] < threshold by {
                    if t < p0.len() - 1 {
                        assert(path@[t] == p0[t]);
                    } else {
                        assert(path@[t] == cur);
                        assert(cur != start) by {
                            assert(steps > 0);
                            assert(walk(ds, start as int, steps as nat) == cur);
                            lemma_no_cycle(ds, self.rank@, start as int, steps as nat);
                        }
                    }
                }
            }
            cur = d;
            steps += 1;
            proof {
                if steps >= n {
                    lemma_walk_pit_absorbs(ds, start as int, n as nat, steps as nat);
                }
            }
            if steps > max_steps {
                break;
            }
        }
        path
    }
}

/// Cell `i` lies within Chebyshev distance `radius` of (row, col).
pub open spec fn in_window(cols: int, row: int, col: int, radius: int, i: int) -> bool {
    -radius <= crate::grid::row_of(cols, i) - row <= radius && -radius <= crate::grid::col_of(cols, i) - col <= radius
}

impl Network {
    /// Delineate watersheds for a set of pour points (flat cell indices).
    ///
    /// Each cell gets `k + 1` when it drains through `pour_points[k]` (the
    /// nearest pour point downstream wins for nested basins; a pour point
    /// belongs to its own basin; a cell listed twice keeps its later
    /// position), and 0 when it drains elsewhere or is `NoData`.
    pub fn watersheds(&self, pour_points: &Vec<usize>) -> (label: Vec<u32>)
        requires
            self.wf(),
            pour_points@.len() < u32::MAX,
        ensures
            label@.len() == self.n(),
            forall|i: int| 0 <= i < self.n() ==> #[trigger] label@[i] as int == basin_label(self.ds_view(), self.solid_view(), pour_points@, i),
    {
        let n = self.rows * self.cols;
        let ghost ds = self.downstream@;
        let ghost solid = self.solid@;
        let ghost pp = pour_points@;
        let ghost rank = self.rank@;
        let unresolved: u32 = 0xFFFF_FFFFu32;
        let mut label: Vec<u32> = Vec::new();
        let mut i: usize = 0;
        while i < n
            invariant
                i <= n,
                label@.len() == i,
                forall|j: int| 0 <= j < i ==> #[trigger] label@[j] == unresolved,
            decreases n - i,
        {
            label.push(unresolved);
            i += 1;
        }
        let mut k: usize = 0;
        while k < pour_points.len()
            invariant
                k <= pp.len(),
                pp == pour_points@,
                pp.len() < u32::MAX,
                unresolved == u32::MAX,
                label@.len() == n,
                forall|j: int| 0 <= j < n ==> #[trigger] label@[j] as int == if pour_label(pp.take(k as int), j) > 0 {
                    pour_label(pp.take(k as int), j)
                } else {
                    unresolved as int
                },
            decreases pp.len() - k,
        {
            let p = pour_points[k];
            if p < n {
                label.set(p, (k + 1) as u32);
            }
            proof {
                assert forall|j: int| 0 <= j < n implies #[trigger] label@[j] as int == if pour_label(pp.take(k + 1), j) > 0 {
                    pour_label(pp.take(k + 1), j)
                } else {
                    unresolved as int
                } by {
                    assert(pp.take(k + 1).drop_last() =~= pp.take(k as int));
                    assert(pp.take(k + 1).last() == p);
                    lemma_pour_label_range(pp.take(k as int), j);
                }
            }
            k += 1;
        }
        proof {
            assert(pp.take(pp.len() as int) =~= pp);
            assert forall|j: int| 0 <= j < n && !solid[j] && pour_label(pp, j) > 0 implies #[trigger] label@[j] as int == basin_label(ds, solid, pp, j) by {
                assert(ds.len() == n);
            }
        }
        let mut start: usize = 0;
        while start < n
            invariant
                self.wf(),
                ds == self.ds_view(),
                solid == self.solid_view(),
                rank == self.rank_view(),
                n == self.n(),
                start <= n,
                label@.len() == n,
                pp.len() < u32::MAX,
                unresolved == u32::MAX,
                forall|j: int| 0 <= j < n ==> #[trigger] label@[j] as int == if pour_label(pp, j) > 0 {
                    pour_label(pp, j)
                } else {
                    unresolved as int
                } || label@[j] as int == basin_label(ds, solid, pp, j),
                forall|j: int| 0 <= j < n && !solid[j] && pour_label(pp, j) > 0 ==> #[trigger] label@[j] as int == basin_label(ds, solid, pp, j),
                forall|j: int| 0 <= j < n && !solid[j] && #[trigger] label@[j] != unresolved ==> label@[j] as int == basin_label(ds, solid, pp, j),
                forall|j: int| 0 <= j < start ==> #[trigger] label@[j] as int == basin_label(ds, solid, pp, j),
            decreases n - start,
        {
            if self.solid[start] {
                label.set(start, 0);
            } else if label[start] == unresolved {
                let mut path: Vec<usize> = Vec::new();
                path.push(start);
                let mut cur = start;
                let mut resolved: u32 = 0;
                loop
                    invariant
                        self.wf(),
                        ds == self.ds_view(),
                        solid == self.solid_view(),
                        rank == self.rank_view(),
                        n == self.n(),
                        label@.len() == n,
                        cur < n,
                        !solid[cur as int],
                        path@.len() > 0,
                        path@[0] == start,
                        pp.len() < u32::MAX,
                        unresolved == u32::MAX,
                        forall|m: int| 0 <= m < path@.len() ==> #[trigger] path@[m] < n && !solid[path@[m] as int] && label@[path@[m] as int] == unresolved,
                        forall|m: int| 0 <= m < path@.len() ==> basin_label(ds, solid, pp, #[trigger] path@[m] as int) == basin_label(ds, solid, pp, cur as int),
                        label@[cur as int] == unresolved,
                        forall|j: int| 0 <= j < n && !solid[j] && #[trigger] label@[j] != unresolved ==> label@[j] as int == basin_label(ds, solid, pp, j),
                        forall|j: int| 0 <= j < n && !solid[j] && pour_label(pp, j) > 0 ==> #[trigger] label@[j] as int == basin_label(ds, solid, pp, j),
                    ensures
                        forall|m: int| 0 <= m < path@.len() ==> #[trigger] path@[m] < n && !solid[path@[m] as int],
                        forall|m: int| 0 <= m < path@.len() ==> basin_label(ds, solid, pp, #[trigger] path@[m] as int) == resolved as int,
                    decreases rank[cur as int],
                {
                    proof {
                        lemma_pour_label_range(pp, cur as int);
                        assert(pour_label(pp, cur as int) == 0) by {
                            if pour_label(pp, cur as int) > 0 {
                                assert(label@[cur as int] as int == basin_label(ds, solid, pp, cur as int));
                                lemma_pour_basin(ds, solid, pp, cur as int);
                            }
                        }
                    }
                    let d = self.downstream[cur];
                    if d == PIT {
                        resolved = 0;
                        proof {
                            assert(basin_label(ds, solid, pp, cur as int) == 0) by {
                                assert(ds.len() > 0);
                            }
                        }
                        break;
                    }
                    proof {
                        lemma_first_pour_step(ds, rank, pp, cur as int);
                        assert(!solid[d as int]);
                        assert(rank[d as int] < rank[cur as int]);
                    }
                    if label[d] != unresolved {
                        resolved = label[d];
                        break;
                    }
                    path.push(d);
                    cur = d;
                }
                let mut m: usize = 0;
                while m < path.len()
                    invariant
                        m <= path@.len(),
                        label@.len() == n,
                        path@.len() > 0,
                        path@[0] == start,
                        forall|t: int| 0 <= t < path@.len() ==> #[trigger] path@[t] < n && !solid[path@[t] as int],
                        forall|t: int| 0 <= t < path@.len() ==> basin_label(ds, solid, pp, #[trigger] path@[t] as int) == resolved as int,
                        forall|t: int| 0 <= t < m ==> #[trigger] label@[path@[t] as int] == resolved,
                        forall|j: int| 0 <= j < n && !solid[j] && #[trigger] label@[j] != unresolved ==> label@[j] as int == basin_label(ds, solid, pp, j),
                        forall|j: int| 0 <= j < n && !solid[j] && pour_label(pp, j) > 0 ==> #[trigger] label@[j] as int == basin_label(ds, solid, pp, j),
                        forall|j: int| 0 <= j < start ==> #[trigger] label@[j] as int == basin_label(ds, solid, pp, j),
                        forall|j: int| 0 <= j < n ==> #[trigger] label@[j] as int == if pour_label(pp, j) > 0 {
                            pour_label(pp, j)
                        } else {
                            unresolved as int
                        } || label@[j] as int == basin_label(ds, solid, pp, j),
                    decreases path@.len() - m,
                {
                    label.set(path[m], resolved);
                    m += 1;
                }
                proof {
                    assert(path@[0] == start);
                    assert(label@[path@[0] as int] == resolved);
                }
            }
            proof {
                if !solid[start as int] {
                    assert(label@[start as int] != unresolved || label@[start as int] as int == basin_label(ds, solid, pp, start as int));
                } else {
                    assert(basin_label(ds, solid, pp, start as int) == 0);
                }
            }
            start += 1;
        }
        label
    }

    /// A valid cell within Chebyshev distance `radius` of (row, col).
    pub open spec fn snap_candidate(&self, row: int, col: int, radius: int, j: int) -> bool {
        0 <= j < self.n() && !self.solid_view()[j] && in_window(self.cols_view(), row, col, radius, j)
    }

    /// Snap a pour point to the valid cell of highest accumulation
    /// within Chebyshev distance `radius` of (row, col); among equals the
    /// first in row-major order. Returns the flat index of (row, col)
    /// when the window holds no valid cell.
    pub fn snap_to_stream(&self, row: usize, col: usize, radius: usize) -> (best: usize)
        requires
            self.wf(),
            row * self.cols_view() + col <= usize::MAX,
            row + radius <= isize::MAX,
            col + radius <= isize::MAX,
        ensures
            (exists|j: int| #[trigger] self.snap_candidate(row as int, col as int, radius as int, j)) ==> {
                &&& self.snap_candidate(row as int, col as int, radius as int, best as int)
                &&& forall|j: int| #[trigger] self.snap_candidate(row as int, col as int, radius as int, j)
                    ==> self.acc_view()[j] <= self.acc_view()[best as int] && (j < best ==> self.acc_view()[j] < self.acc_view()[best as int])
            },
            !(exists|j: int| #[trigger] self.snap_candidate(row as int, col as int, radius as int, j)) ==> best == row * self.cols_view() + col,
    {
        let rows = self.rows;
        let cols = self.cols;
        let ghost r = rows as int;
        let ghost c = cols as int;
        let ghost n = self.n();
        let ghost acc = self.flow_acc@;
        let ghost solid = self.solid@;
        let ghost (grow, gcol, grad) = (row as int, col as int, radius as int);
        let mut best = row * cols + col;
        let mut best_acc: u64 = 0;
        let mut found = false;
        let r_lo = if row >= radius { row - radius } else { 0 };
        let r_hi = if row < rows && radius < rows - row { row + radius } else { rows - 1 };
        let c_lo = if col >= radius { col - radius } else { 0 };
        let c_hi = if col < cols && radius < cols - col { col + radius } else { cols - 1 };
        proof {
            assert(r_lo == clip_lo(grow, grad));
            assert(r_hi == clip_hi(grow, grad, r));
            assert(c_lo == clip_lo(gcol, grad));
            assert(c_hi == clip_hi(gcol, grad, c));
        }
        if r_lo <= r_hi && c_lo <= c_hi {
            let mut rr = r_lo;
            while rr <= r_hi
                invariant
                    self.wf(),
                    rows == r,
                    cols == c,
                    r == self.rows_view(),
                    n == r * c,
                    n == self.n(),
                    acc == self.acc_view(),
                    solid == self.solid_view(),
                    c == self.cols_view(),
                    r_lo == clip_lo(grow, grad),
                    r_hi == clip_hi(grow, grad, r),
                    c_lo == clip_lo(gcol, grad),
                    c_hi == clip_hi(gcol, grad, c),
                    r_lo <= rr <= r_hi + 1,
                    c_lo <= c_hi,
                    r_hi < rows,
                    c_hi < cols,
                    found ==> self.snap_candidate(grow, gcol, grad, best as int) && best_acc == acc[best as int]
                        && crate::grid::row_of(c, best as int) < rr,
                    !found ==> best == grow * c + gcol,
                    forall|j: int| #[trigger] self.snap_candidate(grow, gcol, grad, j) && crate::grid::row_of(c, j) < rr
                        ==> found && acc[j] <= best_acc && (j < best ==> acc[j] < best_acc),
                decreases r_hi + 1 - rr,
            {
                proof {
                    assert forall|j: int| #[trigger] self.snap_candidate(grow, gcol, grad, j) implies
                        (crate::grid::row_of(c, j) < rr <==> j < rr * c + c_lo) by {
                        lemma_window_cell(r, c, grow, gcol, grad, j);
                        lemma_index_order(c, crate::grid::row_of(c, j), crate::grid::col_of(c, j), rr as int, c_lo as int);
                    }
                }
                let mut cc = c_lo;
                while cc <= c_hi
                    invariant
                        self.wf(),
                        rows == r,
                        cols == c,
                        r == self.rows_view(),
                        n == r * c,
                        n == self.n(),
                        acc == self.acc_view(),
                        solid == self.solid_view(),
                        c == self.cols_view(),
                        r_lo == clip_lo(grow, grad),
                        r_hi == clip_hi(grow, grad, r),
                        c_lo == clip_lo(gcol, grad),
                        c_hi == clip_hi(gcol, grad, c),
                        r_lo <= rr <= r_hi,
                        r_hi < rows,
                        c_hi < cols,
                        c_lo <= cc <= c_hi + 1,
                        found ==> self.snap_candidate(grow, gcol, grad, best as int) && best_acc == acc[best as int]
                            && best < rr * c + cc,
                        !found ==> best == grow * c + gcol,
                        forall|j: int| #[trigger] self.snap_candidate(grow, gcol, grad, j) && j < rr * c + cc
                            ==> found && acc[j] <= best_acc && (j < best ==> acc[j] < best_acc),
                    decreases c_hi + 1 - cc,
                {
                    let idx = crate::grid::cell_index(rows, cols, rr, cc);
                    if !self.solid[idx] && (!found || self.flow_acc[idx] > best_acc) {
                        best = idx;
                        best_acc = self.flow_acc[idx];
                        found = true;
                    }
                    cc += 1;
                }
                proof {
                    assert forall|j: int| #[trigger] self.snap_candidate(grow, gcol, grad, j) implies
                        (crate::grid::row_of(c, j) < rr + 1 <==> j < rr * c + c_hi + 1) by {
                        lemma_window_cell(r, c, grow, gcol, grad, j);
                        lemma_index_order(c, crate::grid::row_of(c, j), crate::grid::col_of(c, j), rr as int, c_hi + 1);
                    }
                    if found {
                        assert(self.snap_candidate(grow, gcol, grad, best as int));
                    }
                }
                rr += 1;
            }
        } else {
            proof {
                assert forall|j: int| !#[trigger] self.snap_candidate(grow, gcol, grad, j) by {
                    if self.snap_candidate(grow, gcol, grad, j) {
                        lemma_window_cell(r, c, grow, gcol, grad, j);
                    }
                }
            }
        }
        proof {
            assert forall|j: int| #[trigger] self.snap_candidate(grow, gcol, grad, j) implies
                found && acc[j] <= best_acc && (j < best ==> acc[j] < best_acc) by {
                lemma_window_cell(r, c, grow, gcol, grad, j);
            }
        }
        best
    }
}

/// Lower end of the window `x - radius`, clipped at 0.
pub open spec fn clip_lo(x: int, radius: int) -> int {
    if x >= radius { x - radius } else { 0 }
}

/// Upper end of the window `x + radius`, clipped at `m - 1`.
pub open spec fn clip_hi(x: int, radius: int, m: int) -> int {
    if x + radius < m { x + radius } else { m - 1 }
}

/// A window cell lies inside the clipped window bounds.
proof fn lemma_window_cell(r: int, c: int, row: int, col: int, radius: int, j: int)
    requires
        r > 0,
        c > 0,
        0 <= j < r * c,
        in_window(c, row, col, radius, j),
    ensures
        clip_lo(row, radius) <= crate::grid::row_of(c, j) <= clip_hi(row, radius, r),
        clip_lo(col, radius) <= crate::grid::col_of(c, j) <= clip_hi(col, radius, c),
        j == crate::grid::row_of(c, j) * c + crate::grid::col_of(c, j),
{
    crate::grid::lemma_cell_coords(r, c, j);
}

/// Row-major order of cells: `(r1, c1)` comes before `(r2, c2)`.
proof fn lemma_index_order(c: int, r1: int, c1: int, r2: int, c2: int)
    requires
        c > 0,
        0 <= c1 < c,
        0 <= c2 <= c,
    ensures
        (r1 * c + c1 < r2 * c + c2) <==> (r1 < r2 || (r1 == r2 && c1 < c2)),
{
    if r1 < r2 {
        assert((r2 - r1) * c >= c) by (nonlinear_arith)
            requires
                r2 - r1 >= 1,
                c > 0,
        ;
        assert(r2 * c - r1 * c == (r2 - r1) * c) by (nonlinear_arith);
    } else if r1 > r2 {
        assert((r1 - r2) * c >= c) by (nonlinear_arith)
            requires
                r1 - r2 >= 1,
                c > 0,
        ;
        assert(r1 * c - r2 * c == (r1 - r2) * c) by (nonlinear_arith);
    }
}

/// A pour point's own label is its basin label.
proof fn lemma_pour_basin(ds: Seq<usize>, solid: Seq<bool>, pp: Seq<usize>, i: int)
    requires
        0 <= i < ds.len(),
        !solid[i],
        pour_label(pp, i) > 0,
    ensures
        basin_label(ds, solid, pp, i) == pour_label(pp, i),
{
}


impl Network {
    /// Trace every cell's D8 flow path to the `target` cells (the stream
    /// network, or any target mask): where it enters them, and an order
    /// in which path sums can be accumulated from the targets upstream.
    pub fn channel_paths(&self, target: &Vec<bool>) -> (paths: ChannelPaths)
        requires
            self.wf(),
            target@.len() == self.n(),
        ensures
            paths.entry@.len() == self.n(),
            forall|i: int| 0 <= i < self.n() ==> #[trigger] paths.entry@[i] as int == entry_of(self.ds_view(), target@, self.solid_view(), i),
            entry_order_ok(self.ds_view(), target@, paths.entry@, paths.order@),
    {
        trace_to_targets(&self.downstream, target, &self.solid)
    }
}


/// Sum of `acc` over the cells below `k`.
pub open spec fn acc_total(acc: Seq<u64>, k: int) -> int
    decreases k,
{
    if k <= 0 {
        0
    } else {
        acc_total(acc, k - 1) + acc[k - 1] as int
    }
}

/// Sum of `acc` over the pits below `k`: the flow leaving the grid.
pub open spec fn outlet_total(ds: Seq<usize>, acc: Seq<u64>, k: int) -> int
    decreases k,
{
    if k <= 0 {
        0
    } else {
        outlet_total(ds, acc, k - 1) + if ds[k - 1] == PIT {
            acc[k - 1] as int
        } else {
            0
        }
    }
}

/// Sum of `acc` over the cells below `k` that drain into another cell.
spec fn inflow_total(ds: Seq<usize>, acc: Seq<u64>, k: int) -> int
    decreases k,
{
    if k <= 0 {
        0
    } else {
        inflow_total(ds, acc, k - 1) + if ds[k - 1] != PIT {
            acc[k - 1] as int
        } else {
            0
        }
    }
}

/// Sum over the cells `i < k` of what drains into `i` from cells below `m`.
spec fn up_total(ds: Seq<usize>, acc: Seq<u64>, k: int, m: int) -> int
    decreases k,
{
    if k <= 0 {
        0
    } else {
        up_total(ds, acc, k - 1, m) + up_sum(ds, acc, k - 1, m)
    }
}

proof fn lemma_acc_total(ds: Seq<usize>, acc: Seq<u64>, k: int)
    requires
        acc_ok(ds, acc),
        0 <= k <= ds.len(),
    ensures
        acc_total(acc, k) == k + up_total(ds, acc, k, ds.len() as int),
    decreases k,
{
    if k > 0 {
        lemma_acc_total(ds, acc, k - 1);
    }
}

/// Adding cell `m`'s contribution to every partial sum adds it once.
proof fn lemma_up_total_step(ds: Seq<usize>, acc: Seq<u64>, k: int, m: int)
    requires
        0 <= k,
        0 <= m,
    ensures
        up_total(ds, acc, k, m + 1) == up_total(ds, acc, k, m) + if 0 <= ds[m] < k {
            acc[m] as int
        } else {
            0
        },
    decreases k,
{
    if k > 0 {
        lemma_up_total_step(ds, acc, k - 1, m);
        assert(up_sum(ds, acc, k - 1, m + 1) == up_sum(ds, acc, k - 1, m) + if ds[m] as int == k - 1 {
            acc[m] as int
        } else {
            0
        });
    }
}

proof fn lemma_up_total_inflow(ds: Seq<usize>, acc: Seq<u64>, m: int)
    requires
        links_ok(ds),
        ds.len() < PIT,
        0 <= m <= ds.len(),
    ensures
        up_total(ds, acc, ds.len() as int, m) == inflow_total(ds, acc, m),
    decreases m,
{
    let n = ds.len() as int;
    if m == 0 {
        lemma_up_total_zero(ds, acc, n);
    } else {
        lemma_up_total_inflow(ds, acc, m - 1);
        lemma_up_total_step(ds, acc, n, m - 1);
        assert(ds[m - 1] == PIT || ds[m - 1] < n);
    }
}

proof fn lemma_up_total_zero(ds: Seq<usize>, acc: Seq<u64>, k: int)
    requires
        0 <= k,
    ensures
        up_total(ds, acc, k, 0) == 0,
    decreases k,
{
    if k > 0 {
        lemma_up_total_zero(ds, acc, k - 1);
    }
}

proof fn lemma_split_total(ds: Seq<usize>, acc: Seq<u64>, k: int)
    requires
        0 <= k <= ds.len(),
    ensures
        acc_total(acc, k) == outlet_total(ds, acc, k) + inflow_total(ds, acc, k),
    decreases k,
{
    if k > 0 {
        lemma_split_total(ds, acc, k - 1);
    }
}

/// Conservation of flow: every cell is counted exactly once, at the pit
/// that ends its flow path, so the accumulations of the pits sum to the
/// number of cells.
pub proof fn lemma_outlets_count_all(net: Network)
    requires
        net.wf(),
    ensures
        outlet_total(net.ds_view(), net.acc_view(), net.n()) == net.n(),
{
    let ds = net.ds_view();
    let acc = net.acc_view();
    let n = net.n();
    lemma_acc_total(ds, acc, n);
    lemma_up_total_inflow(ds, acc, n);
    lemma_split_total(ds, acc, n);
}


/// A valid cell that is no pour point belongs to the basin of the cell
/// it drains into.
pub proof fn lemma_basin_follows_flow(net: Network, pp: Seq<usize>, i: int)
    requires
        net.wf(),
        0 <= i < net.n(),
        !net.solid_view()[i],
        pour_label(pp, i) == 0,
        net.ds_view()[i] != PIT,
    ensures
        basin_label(net.ds_view(), net.solid_view(), pp, i) == basin_label(net.ds_view(), net.solid_view(), pp, net.ds_view()[i] as int),
{
    lemma_first_pour_step(net.ds_view(), net.rank_view(), pp, i);
    assert(!net.solid_view()[net.ds_view()[i] as int]);
}

/// A pour point that is a valid cell heads its own basin.
pub proof fn lemma_pour_point_basin(net: Network, pp: Seq<usize>, k: int)
    requires
        net.wf(),
        0 <= k < pp.len(),
        pp[k] < net.n(),
        !net.solid_view()[pp[k] as int],
        forall|m: int| k < m < pp.len() ==> pp[m] != pp[k],
    ensures
        basin_label(net.ds_view(), net.solid_view(), pp, pp[k] as int) == k + 1,
{
    lemma_pour_label_last(pp, k);
    lemma_pour_basin(net.ds_view(), net.solid_view(), pp, pp[k] as int);
}

/// The label of a pour point is one plus its last position.
proof fn lemma_pour_label_last(pp: Seq<usize>, k: int)
    requires
        0 <= k < pp.len(),
        forall|m: int| k < m < pp.len() ==> pp[m] != pp[k],
    ensures
        pour_label(pp, pp[k] as int) == k + 1,
    decreases pp.len(),
{
    if k < pp.len() - 1 {
        let rest = pp.drop_last();
        assert(pp.last() != pp[k]);
        assert(rest[k] == pp[k]);
        assert forall|m: int| k < m < rest.len() implies rest[m] != rest[k] by {
            assert(rest[m] == pp[m]);
        }
        lemma_pour_label_last(rest, k);
    }
}

/// Sum of the accumulations of the cells of `cells`.
pub open spec fn acc_sum(acc: Seq<u64>, cells: Seq<usize>) -> int
    decreases cells.len(),
{
    if cells.len() == 0 {
        0
    } else {
        acc_sum(acc, cells.drop_last()) + acc[cells.last() as int] as int
    }
}

proof fn lemma_up_sum_gap(ds: Seq<usize>, acc: Seq<u64>, i: int, a: int, b: int)
    requires
        0 <= a <= b,
        forall|j: int| a <= j < b ==> ds[j] as int != i,
    ensures
        up_sum(ds, acc, i, b) == up_sum(ds, acc, i, a),
    decreases b - a,
{
    if a < b {
        lemma_up_sum_gap(ds, acc, i, a, b - 1);
    }
}

/// The upstream list, summed up to any bound between its `q`-th and
/// `q+1`-th cell, gives the accumulation draining into `i` below it.
proof fn lemma_list_up_sum(net: Network, i: int, q: int, b: int)
    requires
        net.wf(),
        0 <= i < net.n(),
        0 <= q <= net.up_view()[i]@.len(),
        q == 0 ==> 0 <= b,
        q > 0 ==> net.up_view()[i]@[q - 1] < b,
        q < net.up_view()[i]@.len() ==> b <= net.up_view()[i]@[q],
        q == net.up_view()[i]@.len() ==> b <= net.n(),
    ensures
        acc_sum(net.acc_view(), net.up_view()[i]@.take(q)) == up_sum(net.ds_view(), net.acc_view(), i, b),
    decreases q,
{
    let ds = net.ds_view();
    let acc = net.acc_view();
    let l = net.up_view()[i]@;
    let n = net.n();
    let a = if q == 0 { 0 } else { l[q - 1] + 1 };
    assert forall|j: int| a <= j < b implies ds[j] as int != i by {
        if ds[j] as int == i {
            assert(j < n);
            assert(ds[j] != PIT);
            assert(l.contains(j as usize));
            let t = choose|t: int| 0 <= t < l.len() && l[t] == j as usize;
            if t < q {
                if t < q - 1 {
                    assert(l[t] < l[q - 1]);
                }
            } else if t > q {
                assert(l[q] < l[t]);
            }
        }
    }
    lemma_up_sum_gap(ds, acc, i, a, b);
    if q == 0 {
        assert(l.take(0).len() == 0);
    } else {
        let e = l[q - 1] as int;
        assert(e < n && ds[e] as int == i);
        if q > 1 {
            assert(l[q - 2] < l[q - 1]);
        }
        lemma_list_up_sum(net, i, q - 1, e);
        assert(l.take(q).drop_last() =~= l.take(q - 1));
        assert(up_sum(ds, acc, i, e + 1) == up_sum(ds, acc, i, e) + acc[e]);
    }
}

/// Law: the links of a network. A cell's direction code is 0 exactly
/// when it is a pit; a non-zero code leads to the in-grid, valid
/// neighbour in that direction, its downstream cell; its upstream list
/// holds exactly the cells draining into it; and its accumulation is one
/// plus the accumulations of that list.
pub proof fn lemma_network_links(net: Network, i: int)
    requires
        net.wf(),
        0 <= i < net.n(),
    ensures
        (net.ds_view()[i] == PIT) <==> (net.dir_view()[i] == 0),
        net.dir_view()[i] != 0 ==> {
            &&& neighbour(net.rows_view(), net.cols_view(), i, net.dir_view()[i] - 1) == Some(net.ds_view()[i] as int)
            &&& 0 <= net.ds_view()[i] < net.n()
            &&& !net.solid_view()[net.ds_view()[i] as int]
        },
        forall|j: int| 0 <= j < net.n() ==> (#[trigger] net.up_view()[i]@.contains(j as usize) <==> net.ds_view()[j] as int == i),
        net.acc_view()[i] == 1 + acc_sum(net.acc_view(), net.up_view()[i]@),
{
    let ds = net.ds_view();
    let l = net.up_view()[i]@;
    let n = net.n();
    assert(ds[i] == ds_of(net.rows_view(), net.cols_view(), net.dir_view(), i));
    if net.dir_view()[i] != 0 {
        let d = net.dir_view()[i];
        assert(ds[i] != PIT);
        assert(1 <= d <= 8);
        assert(neighbour(net.rows_view(), net.cols_view(), i, d - 1) is Some);
        lemma_neighbour_adjacent(net.rows_view(), net.cols_view(), i, d - 1);
        assert(!net.solid_view()[ds[i] as int]);
    }
    assert forall|j: int| 0 <= j < n implies (#[trigger] l.contains(j as usize) <==> ds[j] as int == i) by {
        if l.contains(j as usize) {
            let t = choose|t: int| 0 <= t < l.len() && l[t] == j as usize;
        }
        if ds[j] as int == i {
            assert(ds[j] != PIT);
        }
    }
    if l.len() > 0 {
        assert(l[l.len() - 1] < n);
    }
    lemma_list_up_sum(net, i, l.len() as int, n);
    assert(l.take(l.len() as int) =~= l);
}

/// Law: on the D8 network, a flat cell (no strictly lower valid
/// neighbour) that drains does so toward the flat's outlet and away from
/// higher terrain: its downstream cell is a valid cell of the same
/// elevation one hop closer to the outlets, and no other equal neighbour
/// closer to the outlets lies farther from higher terrain.
pub proof fn lemma_flat_flow_away_from_higher(
    rows: int,
    cols: int,
    keys: Seq<u32>,
    solid: Seq<bool>,
    steepest: Seq<u8>,
    fv: Option<(Seq<u32>, Seq<u32>)>,
    dir: Seq<u8>,
    i: int,
)
    requires
        grid_ok(rows, cols),
        keys.len() == rows * cols,
        solid.len() == rows * cols,
        steepest.len() == rows * cols,
        dir.len() == rows * cols,
        flats_ok(rows, cols, keys, solid, fv),
        forall|j: int| 0 <= j < rows * cols ==> #[trigger] flow_dir_ok(rows, cols, keys, solid, steepest, fv, j, dir[j] as int),
        0 <= i < rows * cols,
        !solid[i],
        !crate::flats::has_lower(rows, cols, keys, solid, i),
        dir[i] != 0,
    ensures
        fv is Some,
        neighbour(rows, cols, i, dir[i] - 1) is Some,
        ({
            let tl = (fv->0).0;
            let fh = (fv->0).1;
            let c = neighbour(rows, cols, i, dir[i] - 1)->0;
            &&& !solid[c]
            &&& keys[c] == keys[i]
            &&& tl[c] != UNSET
            &&& tl[c] + 1 == tl[i]
            &&& forall|k: int|
                0 <= k < 8 && (#[trigger] neighbour(rows, cols, i, k)) is Some && !solid[neighbour(rows, cols, i, k)->0]
                    && keys[neighbour(rows, cols, i, k)->0] == keys[i] && tl[neighbour(rows, cols, i, k)->0] != UNSET
                    && tl[neighbour(rows, cols, i, k)->0] < tl[i] ==> tl[neighbour(rows, cols, i, k)->0] == tl[c]
                    && crate::flats::fh_key(fh[c]) >= crate::flats::fh_key(fh[neighbour(rows, cols, i, k)->0])
        }),
{
    assert(flow_dir_ok(rows, cols, keys, solid, steepest, fv, i, dir[i] as int));
    if downhill(rows, cols, keys, solid, i, steepest[i] as int) {
        let k = steepest[i] - 1;
        assert(crate::flats::lower_at(rows, cols, keys, solid, i, k));
    }
    match fv {
        None => {
            assert(crate::flats::needs_drain(rows, cols, keys, solid, i));
        },
        Some(f) => {
            crate::flats::lemma_flat_direction_farthest_from_higher(rows, cols, keys, solid, f.0, f.1, i, dir[i] as int);
        },
    }
}

} // verus!
