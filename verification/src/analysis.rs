//! Stream network analysis on a D8 network: topological order, Strahler
//! order and stream magnitude of the stream cells, and flow paths for
//! longitudinal profiles.
//!
//! Stream cells are the valid cells whose flow accumulation reaches the
//! threshold.

use vstd::prelude::*;
use vstd::arithmetic::power2::{lemma2_to64_rest, lemma_pow2_strictly_increases, lemma_pow2_unfold, pow2};
use vstd::set_lib::{lemma_int_range, lemma_len_subset, lemma_set_disjoint_lens, set_int_range};
use crate::graph::{
    lemma_unmarked_all, lemma_unmarked_mark, lemma_unmarked_none, lemma_walk_range, lemma_walk_rank, lemma_walk_step, ranked, unmarked, walk, PIT,
};
use crate::network::{up_sum, upstream_ok, Network};
use crate::streams::{count_stream, lemma_count_stream_nonneg, lemma_count_stream_witness, link_start, stream_inflows};

verus! {

/// `order` lists every cell once, each after its downstream cell.
pub open spec fn downstream_first(ds: Seq<usize>, order: Seq<usize>) -> bool {
    &&& order.len() == ds.len()
    &&& order.no_duplicates()
    &&& forall|t: int| 0 <= t < order.len() ==> #[trigger] order[t] < ds.len()
    &&& forall|i: int| 0 <= i < ds.len() ==> #[trigger] order.contains(i as usize)
    &&& forall|s: int, t: int|
        0 <= s < order.len() && 0 <= t < order.len() && #[trigger] ds[order[t] as int] == #[trigger] order[s] ==> s < t
}

/// Stream cell mask: valid cells with accumulation at least `threshold`.
pub open spec fn stream_mask(solid: Seq<bool>, acc: Seq<u64>, threshold: u64) -> Seq<bool> {
    Seq::new(solid.len(), |i: int| !solid[i] && acc[i] >= threshold)
}

/// Highest value among the stream cells of `cells` (0 if none).
pub open spec fn top_value(vals: Seq<u8>, mask: Seq<bool>, cells: Seq<usize>) -> int
    decreases cells.len(),
{
    if cells.len() == 0 {
        0
    } else {
        let rest = top_value(vals, mask, cells.drop_last());
        let c = cells.last() as int;
        if mask[c] && vals[c] > rest {
            vals[c] as int
        } else {
            rest
        }
    }
}

/// Number of stream cells of `cells` whose value is `m`.
pub open spec fn count_value(vals: Seq<u8>, mask: Seq<bool>, cells: Seq<usize>, m: int) -> int
    decreases cells.len(),
{
    if cells.len() == 0 {
        0
    } else {
        count_value(vals, mask, cells.drop_last(), m) + if mask[cells.last() as int] && vals[cells.last() as int] == m {
            1int
        } else {
            0int
        }
    }
}

/// Strahler's rule: 1 at a source; the highest upstream order when it
/// is carried by one tributary; one more when two or more carry it.
pub open spec fn strahler_rule(top: int, count: int) -> int {
    if top == 0 {
        1
    } else if count >= 2 {
        top + 1
    } else {
        top
    }
}

/// `vals` is a Strahler ordering of the stream cells of the network
/// with downstream links `ds` and upstream lists `up`.
pub open spec fn strahler_ok(up: Seq<Vec<usize>>, mask: Seq<bool>, vals: Seq<u8>) -> bool {
    &&& vals.len() == mask.len()
    &&& forall|i: int| 0 <= i < mask.len() ==> #[trigger] vals[i] as int == if mask[i] {
        strahler_rule(top_value(vals, mask, up[i]@), count_value(vals, mask, up[i]@, top_value(vals, mask, up[i]@)))
    } else {
        0
    }
}

/// Sum of the values of the stream cells of `cells`.
pub open spec fn stream_sum(vals: Seq<u64>, mask: Seq<bool>, cells: Seq<usize>) -> int
    decreases cells.len(),
{
    if cells.len() == 0 {
        0
    } else {
        stream_sum(vals, mask, cells.drop_last()) + if mask[cells.last() as int] {
            vals[cells.last() as int] as int
        } else {
            0int
        }
    }
}

/// Magnitude rule: a cell where a stream link starts (a head, with no
/// stream tributary, or a confluence of two or more) counts one for
/// itself on top of the sum of its tributaries' magnitudes; a cell with a
/// single stream tributary carries that magnitude on.
///
/// So a head has magnitude 1 and the confluence of two single-source
/// channels has 1 + 1 + 1 = 3: the magnitude of a cell is the number of
/// stream links that drain through it, its own included.
pub open spec fn magnitude_rule(sum: int, tributaries: int) -> int {
    if tributaries == 1 {
        sum
    } else {
        1 + sum
    }
}

/// `vals` is the stream magnitude of the stream cells (0 elsewhere).
pub open spec fn magnitude_ok(up: Seq<Vec<usize>>, mask: Seq<bool>, vals: Seq<u64>) -> bool {
    &&& vals.len() == mask.len()
    &&& forall|i: int| 0 <= i < mask.len() ==> #[trigger] vals[i] as int == if mask[i] {
        magnitude_rule(stream_sum(vals, mask, up[i]@), count_stream(mask, up[i]@))
    } else {
        0
    }
}

/// Strahler stream order of every cell.
pub struct StrahlerOrder {
    /// Order per cell (0 for non-stream cells).
    pub values: Vec<u8>,
    /// Maximum order in the network.
    pub max_order: u8,
}

/// Stream magnitude of every cell: the number of stream links draining
/// through it, its own included (see [`magnitude_rule`]).
pub struct StreamMagnitude {
    /// Magnitude per cell (0 for non-stream cells).
    pub values: Vec<u64>,
    /// Maximum magnitude in the network.
    pub max_magnitude: u64,
}

/// Network analysis: Strahler ordering, magnitude and flow paths.
pub struct NetworkAnalysis<'a> {
    net: &'a Network,
}

impl<'a> NetworkAnalysis<'a> {
    /// The analysed network.
    pub closed spec fn network(&self) -> Network {
        *self.net
    }

    /// Create an analysis handle.
    pub fn new(net: &'a Network) -> (a: Self)
        ensures
            a.network() == *net,
    {
        NetworkAnalysis { net }
    }
}


/// After the topological sweep, every cell has been output: pits were
/// seeded, and each cell was queued once its downstream cell was output.
proof fn lemma_all_output(ds: Seq<usize>, rank: Seq<int>, seen: Seq<bool>, pos: Seq<int>, i: int)
    requires
        ranked(ds, rank),
        forall|k: int| 0 <= k < rank.len() ==> 0 <= #[trigger] rank[k],
        seen.len() == ds.len(),
        pos.len() == ds.len(),
        forall|j: int| 0 <= j < ds.len() ==> (#[trigger] seen[j] <==> (ds[j] == PIT || pos[ds[j] as int] >= 0)),
        forall|j: int| 0 <= j < ds.len() && #[trigger] seen[j] ==> pos[j] >= 0,
        0 <= i < ds.len(),
    ensures
        pos[i] >= 0,
    decreases rank[i],
{
    if ds[i] != PIT {
        lemma_all_output(ds, rank, seen, pos, ds[i] as int);
    }
    assert(seen[i]);
}

impl<'a> NetworkAnalysis<'a> {
    /// Topological order of all cells, downstream cells first (Kahn's
    /// algorithm from the pits, walking upstream).
    pub fn topological_order(&self) -> (order: Vec<usize>)
        requires
            self.network().wf(),
        ensures
            downstream_first(self.network().ds_view(), order@),
    {
        let net = self.net;
        let n = net.len();
        let ghost ds = net.ds_view();
        let ghost up = net.up_view();
        let mut queue: Vec<usize> = Vec::new();
        let ghost mut seen: Seq<bool> = Seq::new(n as nat, |j: int| false);
        proof {
            lemma_unmarked_none(seen);
        }
        let mut i: usize = 0;
        while i < n
            invariant
                net.wf(),
                ds == net.ds_view(),
                n == net.n(),
                i <= n,
                seen.len() == n,
                queue@.no_duplicates(),
                forall|t: int| 0 <= t < queue@.len() ==> #[trigger] queue@[t] < i && seen[queue@[t] as int],
                forall|j: int| 0 <= j < n ==> (#[trigger] seen[j] <==> (j < i && ds[j] == PIT)),
                forall|j: int| 0 <= j < n && #[trigger] seen[j] ==> queue@.contains(j as usize),
                queue@.len() == n - unmarked(seen),
            decreases n - i,
        {
            if net.downstream(i) == PIT {
                let ghost q0 = queue@;
                proof {
                    lemma_unmarked_mark(seen, i as int);
                    seen = seen.update(i as int, true);
                }
                queue.push(i);
                proof {
                    assert forall|a: int, b: int| 0 <= a < queue@.len() && 0 <= b < queue@.len() && a != b implies queue@[a] != queue@[b] by {
                        if a < q0.len() && b < q0.len() {
                        } else if a < q0.len() {
                            assert(q0[a] < i);
                        } else {
                            assert(q0[b] < i);
                        }
                    }
                    assert forall|j: int| 0 <= j < n && #[trigger] seen[j] implies queue@.contains(j as usize) by {
                        if j == i as int {
                            assert(queue@[queue@.len() - 1] == i);
                        } else {
                            let t = choose|t: int| 0 <= t < q0.len() && q0[t] == j as usize;
                            assert(queue@[t] == j as usize);
                        }
                    }
                }
            }
            i += 1;
        }
        let mut order: Vec<usize> = Vec::new();
        let ghost mut pos: Seq<int> = Seq::new(n as nat, |j: int| -1int);
        proof {
            assert forall|j: int| 0 <= j < n && #[trigger] seen[j] && pos[j] < 0 implies queue@.contains(j as usize) by {
                assert(ds[j] == PIT);
            }
        }
        while queue.len() > 0
            invariant
                net.wf(),
                ds == net.ds_view(),
                up == net.up_view(),
                n == net.n(),
                seen.len() == n,
                pos.len() == n,
                queue@.no_duplicates(),
                forall|t: int| 0 <= t < queue@.len() ==> #[trigger] queue@[t] < n && seen[queue@[t] as int] && pos[queue@[t] as int] < 0,
                forall|j: int| 0 <= j < n && #[trigger] seen[j] && pos[j] < 0 ==> queue@.contains(j as usize),
                forall|j: int| 0 <= j < n ==> (#[trigger] seen[j] <==> (ds[j] == PIT || pos[ds[j] as int] >= 0)),
                forall|j: int| 0 <= j < n && #[trigger] pos[j] >= 0 ==> seen[j] && pos[j] < order@.len() && order@[pos[j]] == j,
                forall|t: int| 0 <= t < order@.len() ==> #[trigger] order@[t] < n && pos[order@[t] as int] == t,
                forall|t: int| 0 <= t < order@.len() ==> #[trigger] ds[order@[t] as int] == PIT || (0 <= pos[ds[order@[t] as int] as int] < t),
                queue@.len() + order@.len() == n - unmarked(seen),
            decreases 2 * unmarked(seen) + queue@.len(),
        {
            let ghost qfull = queue@;
            let idx = queue.pop().unwrap();
            let ghost q1 = queue@;
            let ghost pos0 = pos;
            let ghost seen0 = seen;
            let ghost ord0 = order@;
            proof {
                assert(qfull[qfull.len() - 1] == idx);
                assert(!q1.contains(idx)) by {
                    if q1.contains(idx) {
                        let t = choose|t: int| 0 <= t < q1.len() && q1[t] == idx;
                        assert(qfull[t] == idx);
                    }
                }
            }
            order.push(idx);
            proof {
                pos = pos.update(idx as int, ord0.len() as int);
                assert forall|j: int| 0 <= j < n && #[trigger] seen[j] && pos[j] < 0 implies queue@.contains(j as usize) by {
                    assert(j != idx as int);
                    assert(qfull.contains(j as usize));
                    let t = choose|t: int| 0 <= t < qfull.len() && qfull[t] == j as usize;
                    assert(t < q1.len());
                    assert(q1[t] == j as usize);
                }
            }
            let ups = net.upstream(idx);
            let mut k: usize = 0;
            while k < ups.len()
                invariant
                    net.wf(),
                    ds == net.ds_view(),
                    up == net.up_view(),
                    n == net.n(),
                    idx < n,
                    ups@ == up[idx as int]@,
                    k <= ups@.len(),
                    seen.len() == n,
                    pos.len() == n,
                    pos == pos0.update(idx as int, ord0.len() as int),
                    pos0[idx as int] < 0,
                    order@ == ord0.push(idx),
                    queue@.no_duplicates(),
                    !queue@.contains(idx),
                    forall|t: int| 0 <= t < queue@.len() ==> #[trigger] queue@[t] < n && seen[queue@[t] as int] && pos[queue@[t] as int] < 0,
                    forall|j: int| 0 <= j < n && #[trigger] seen[j] && pos[j] < 0 ==> queue@.contains(j as usize),
                    forall|j: int| 0 <= j < n && ds[j] as int != idx ==> (#[trigger] seen[j] <==> (ds[j] == PIT || pos[ds[j] as int] >= 0)),
                    forall|t: int| 0 <= t < k ==> #[trigger] seen[ups@[t] as int],
                    forall|t: int| k <= t < ups@.len() ==> !#[trigger] seen[ups@[t] as int],
                    forall|j: int| 0 <= j < n && #[trigger] pos[j] >= 0 ==> seen[j] && pos[j] < order@.len() && order@[pos[j]] == j,
                    queue@.len() + order@.len() == n - unmarked(seen),
                    2 * unmarked(seen) + queue@.len() + k == 2 * unmarked(seen0) + q1.len(),
                decreases ups@.len() - k,
            {
                let u = ups[k];
                let ghost qk = queue@;
                proof {
                    assert(u < n && ds[u as int] == idx);
                    assert(!seen[u as int]);
                    lemma_unmarked_mark(seen, u as int);
                    seen = seen.update(u as int, true);
                    assert(pos[u as int] < 0) by {
                        if pos[u as int] >= 0 {
                            assert(seen.update(u as int, false)[u as int] == false);
                        }
                    }
                    assert(!qk.contains(u)) by {
                        if qk.contains(u) {
                            let t = choose|t: int| 0 <= t < qk.len() && qk[t] == u;
                        }
                    }
                }
                queue.push(u);
                proof {
                    assert forall|a: int, b: int| 0 <= a < queue@.len() && 0 <= b < queue@.len() && a != b implies queue@[a] != queue@[b] by {
                        if a < qk.len() && b < qk.len() {
                        } else if a < qk.len() {
                            assert(qk.contains(queue@[a]));
                        } else {
                            assert(qk.contains(queue@[b]));
                        }
                    }
                    assert(!queue@.contains(idx)) by {
                        if queue@.contains(idx) {
                            let t = choose|t: int| 0 <= t < queue@.len() && queue@[t] == idx;
                            if t < qk.len() {
                                assert(qk[t] == idx);
                            }
                        }
                    }
                    assert forall|j: int| 0 <= j < n && #[trigger] seen[j] && pos[j] < 0 implies queue@.contains(j as usize) by {
                        if j == u as int {
                            assert(queue@[queue@.len() - 1] == u);
                        } else {
                            let t = choose|t: int| 0 <= t < qk.len() && qk[t] == j as usize;
                            assert(queue@[t] == j as usize);
                        }
                    }
                    assert forall|t: int| k + 1 <= t < ups@.len() implies !#[trigger] seen[ups@[t] as int] by {
                        assert(ups@[k as int] < ups@[t]);
                    }
                    assert forall|t: int| 0 <= t < k + 1 implies #[trigger] seen[ups@[t] as int] by {
                    }
                }
                k += 1;
            }
            proof {
                assert forall|j: int| 0 <= j < n implies (#[trigger] seen[j] <==> (ds[j] == PIT || pos[ds[j] as int] >= 0)) by {
                    if ds[j] as int == idx {
                        assert(up[idx as int]@.contains(j as usize));
                        let t = choose|t: int| 0 <= t < up[idx as int]@.len() && up[idx as int]@[t] == j as usize;
                        assert(seen[ups@[t] as int]);
                    }
                }
                assert forall|t: int| 0 <= t < order@.len() implies #[trigger] order@[t] < n && pos[order@[t] as int] == t by {
                    if t < ord0.len() {
                        assert(order@[t] == ord0[t]);
                        assert(ord0[t] != idx);
                    }
                }
                assert forall|t: int| 0 <= t < order@.len() implies #[trigger] ds[order@[t] as int] == PIT || (0 <= pos[ds[order@[t] as int] as int] < t) by {
                    if t < ord0.len() {
                        assert(order@[t] == ord0[t]);
                        let d = ds[ord0[t] as int];
                        if d != PIT {
                            assert(pos0[d as int] >= 0);
                            assert(d != idx);
                        }
                    } else {
                        assert(seen0[idx as int]);
                        let d = ds[idx as int];
                        if d != PIT {
                            assert(pos0[d as int] >= 0);
                            assert(d != idx);
                            assert(pos0[d as int] < ord0.len());
                        }
                    }
                }
            }
        }
        proof {
            assert forall|j: int| 0 <= j < n && #[trigger] seen[j] implies pos[j] >= 0 by {
                if pos[j] < 0 {
                    assert(queue@.contains(j as usize));
                    let t = choose|t: int| 0 <= t < queue@.len() && queue@[t] == j as usize;
                }
            }
            let rank = net.rank_view();
            assert forall|j: int| 0 <= j < n implies #[trigger] pos[j] >= 0 by {
                lemma_all_output(ds, rank, seen, pos, j);
            }
            assert forall|j: int| 0 <= j < n implies #[trigger] seen[j] by {
                assert(pos[j] >= 0);
            }
            lemma_unmarked_all(seen);
            assert forall|j: int| 0 <= j < n implies #[trigger] order@.contains(j as usize) by {
                assert(order@[pos[j]] == j as usize);
            }
            assert forall|a: int, b: int| 0 <= a < order@.len() && 0 <= b < order@.len() && a != b implies order@[a] != order@[b] by {
                assert(pos[order@[a] as int] == a);
                assert(pos[order@[b] as int] == b);
            }
            assert forall|s: int, t: int|
                0 <= s < order@.len() && 0 <= t < order@.len() && #[trigger] ds[order@[t] as int] == #[trigger] order@[s] implies s < t by {
                assert(pos[order@[s] as int] == s);
            }
        }
        order
    }
}


/// Partial sums of upstream accumulation grow with the range.
proof fn lemma_up_sum_mono(ds: Seq<usize>, acc: Seq<u64>, i: int, a: int, b: int)
    requires
        0 <= a <= b,
    ensures
        up_sum(ds, acc, i, a) <= up_sum(ds, acc, i, b),
    decreases b - a,
{
    if a < b {
        lemma_up_sum_mono(ds, acc, i, a, b - 1);
    }
}

/// A cell draining into `i` contributes its whole accumulation.
proof fn lemma_up_sum_one(ds: Seq<usize>, acc: Seq<u64>, i: int, j: int, m: int)
    requires
        0 <= j < m,
        ds[j] as int == i,
    ensures
        up_sum(ds, acc, i, m) >= up_sum(ds, acc, i, j) + acc[j],
{
    assert(up_sum(ds, acc, i, j + 1) == up_sum(ds, acc, i, j) + acc[j]);
    lemma_up_sum_mono(ds, acc, i, j + 1, m);
}

/// Two distinct cells draining into `i` contribute both accumulations.
proof fn lemma_up_sum_two(ds: Seq<usize>, acc: Seq<u64>, i: int, j1: int, j2: int, m: int)
    requires
        0 <= j1 < j2 < m,
        ds[j1] as int == i,
        ds[j2] as int == i,
    ensures
        up_sum(ds, acc, i, m) >= acc[j1] + acc[j2],
{
    lemma_up_sum_one(ds, acc, i, j2, m);
    lemma_up_sum_one(ds, acc, i, j1, j2);
    lemma_up_sum_mono(ds, acc, i, 0, j1);
}

/// The top value bounds every stream value of the list and is carried
/// by one of them when positive.
proof fn lemma_top_value(vals: Seq<u8>, mask: Seq<bool>, cells: Seq<usize>)
    ensures
        0 <= top_value(vals, mask, cells),
        forall|t: int| 0 <= t < cells.len() && mask[cells[t] as int] ==> vals[#[trigger] cells[t] as int] <= top_value(vals, mask, cells),
        top_value(vals, mask, cells) > 0 ==> exists|t: int| 0 <= t < cells.len() && mask[cells[t] as int]
            && vals[#[trigger] cells[t] as int] == top_value(vals, mask, cells),
    decreases cells.len(),
{
    if cells.len() > 0 {
        let rest = cells.drop_last();
        lemma_top_value(vals, mask, rest);
        assert forall|t: int| 0 <= t < cells.len() && mask[cells[t] as int] implies vals[#[trigger] cells[t] as int] <= top_value(vals, mask, cells) by {
            if t < rest.len() {
                assert(rest[t] == cells[t]);
            }
        }
        if top_value(vals, mask, cells) > 0 {
            if top_value(vals, mask, cells) == top_value(vals, mask, rest) {
                let t = choose|t: int| 0 <= t < rest.len() && mask[rest[t] as int] && vals[#[trigger] rest[t] as int] == top_value(vals, mask, rest);
                assert(cells[t] == rest[t]);
            } else {
                assert(cells[cells.len() - 1] == cells.last());
            }
        }
    }
}

/// No stream value of the list exceeds the top: none counts above it.
proof fn lemma_count_above_top(vals: Seq<u8>, mask: Seq<bool>, cells: Seq<usize>, m: int)
    requires
        m > top_value(vals, mask, cells),
    ensures
        count_value(vals, mask, cells, m) == 0,
    decreases cells.len(),
{
    if cells.len() > 0 {
        lemma_top_value(vals, mask, cells.drop_last());
        lemma_count_above_top(vals, mask, cells.drop_last(), m);
    }
}

/// A count of two or more has two witnesses at distinct positions.
proof fn lemma_count_two(vals: Seq<u8>, mask: Seq<bool>, cells: Seq<usize>, m: int) -> (w: (int, int))
    requires
        count_value(vals, mask, cells, m) >= 2,
    ensures
        0 <= w.0 < w.1 < cells.len(),
        mask[cells[w.0] as int] && vals[cells[w.0] as int] == m,
        mask[cells[w.1] as int] && vals[cells[w.1] as int] == m,
    decreases cells.len(),
{
    let rest = cells.drop_last();
    if count_value(vals, mask, rest, m) >= 2 {
        let w = lemma_count_two(vals, mask, rest, m);
        assert(cells[w.0] == rest[w.0] && cells[w.1] == rest[w.1]);
        w
    } else {
        let t = lemma_count_one(vals, mask, rest, m);
        assert(cells[t] == rest[t]);
        (t, cells.len() - 1)
    }
}

/// A positive count has a witness.
proof fn lemma_count_one(vals: Seq<u8>, mask: Seq<bool>, cells: Seq<usize>, m: int) -> (t: int)
    requires
        count_value(vals, mask, cells, m) >= 1,
    ensures
        0 <= t < cells.len(),
        mask[cells[t] as int] && vals[cells[t] as int] == m,
    decreases cells.len(),
{
    let rest = cells.drop_last();
    if count_value(vals, mask, rest, m) >= 1 {
        let t = lemma_count_one(vals, mask, rest, m);
        assert(cells[t] == rest[t]);
        t
    } else {
        cells.len() - 1
    }
}

/// Top and count read only the values of the listed cells.
proof fn lemma_top_count_frame(vals: Seq<u8>, c: int, v: u8, mask: Seq<bool>, cells: Seq<usize>, m: int)
    requires
        0 <= c < vals.len(),
        forall|t: int| 0 <= t < cells.len() ==> #[trigger] cells[t] as int != c && cells[t] < vals.len(),
    ensures
        top_value(vals.update(c, v), mask, cells) == top_value(vals, mask, cells),
        count_value(vals.update(c, v), mask, cells, m) == count_value(vals, mask, cells, m),
    decreases cells.len(),
{
    if cells.len() > 0 {
        let rest = cells.drop_last();
        assert forall|t: int| 0 <= t < rest.len() implies #[trigger] rest[t] as int != c && rest[t] < vals.len() by {
            assert(rest[t] == cells[t]);
        }
        lemma_top_count_frame(vals, c, v, mask, rest, m);
        assert(cells.last() == cells[cells.len() - 1]);
        assert(cells[cells.len() - 1] as int != c);
    }
}

impl<'a> NetworkAnalysis<'a> {
    /// The stream mask at `threshold` as a vector.
    pub fn stream_cells(&self, threshold: u64) -> (is_stream: Vec<bool>)
        requires
            self.network().wf(),
        ensures
            is_stream@ == stream_mask(self.network().solid_view(), self.network().acc_view(), threshold),
    {
        let net = self.net;
        let n = net.len();
        let solid = net.solid_slice();
        let acc = net.flow_acc_slice();
        let mut is_stream: Vec<bool> = Vec::new();
        let mut i: usize = 0;
        while i < n
            invariant
                net.wf(),
                n == net.n(),
                solid@ == net.solid_view(),
                acc@ == net.acc_view(),
                i <= n,
                is_stream@.len() == i,
                forall|j: int| 0 <= j < i ==> #[trigger] is_stream@[j] == (!solid@[j] && acc@[j] >= threshold),
            decreases n - i,
        {
            is_stream.push(!solid[i] && acc[i] >= threshold);
            i += 1;
        }
        proof {
            assert(is_stream@ =~= stream_mask(net.solid_view(), net.acc_view(), threshold));
        }
        is_stream
    }

    /// Strahler stream order of the stream cells (accumulation at least
    /// `threshold`): 1 at a source; the highest upstream order when one
    /// tributary carries it; one more when two or more do.
    #[verifier::rlimit(60)]
    pub fn strahler_order(&self, threshold: u64) -> (so: StrahlerOrder)
        requires
            self.network().wf(),
        ensures
            strahler_ok(self.network().up_view(), stream_mask(self.network().solid_view(), self.network().acc_view(), threshold), so.values@),
            forall|i: int| 0 <= i < so.values@.len() ==> #[trigger] so.values@[i] <= so.max_order,
            exists|i: int| 0 <= i < so.values@.len() && #[trigger] so.values@[i] == so.max_order,
    {
        let net = self.net;
        let n = net.len();
        let ghost ds = net.ds_view();
        let ghost up = net.up_view();
        let ghost accv = net.acc_view();
        let ghost mask = stream_mask(net.solid_view(), net.acc_view(), threshold);
        let is_stream = self.stream_cells(threshold);
        let mut order: Vec<u8> = Vec::new();
        let mut i: usize = 0;
        while i < n
            invariant
                i <= n,
                order@.len() == i,
                forall|j: int| 0 <= j < i ==> #[trigger] order@[j] == 0,
            decreases n - i,
        {
            order.push(0);
            i += 1;
        }
        let topo = self.topological_order();
        let ghost mut done: Seq<bool> = Seq::new(n as nat, |j: int| false);
        let mut k: usize = n;
        proof {
            assert forall|t: int| 0 <= t < n implies (t >= k <==> #[trigger] done[topo@[t] as int]) by {
                assert(topo@[t] < n);
            }
        }
        while k > 0
            invariant
                net.wf(),
                n == net.n(),
                ds == net.ds_view(),
                up == net.up_view(),
                accv == net.acc_view(),
                mask == stream_mask(net.solid_view(), net.acc_view(), threshold),
                is_stream@ == mask,
                downstream_first(ds, topo@),
                k <= n,
                order@.len() == n,
                done.len() == n,
                forall|t: int| 0 <= t < n ==> (t >= k <==> #[trigger] done[topo@[t] as int]),
                forall|j: int| 0 <= j < n && !#[trigger] done[j] ==> order@[j] == 0,
                forall|j: int| 0 <= j < n && #[trigger] done[j] ==> order@[j] as int == if mask[j] {
                    strahler_rule(top_value(order@, mask, up[j]@), count_value(order@, mask, up[j]@, top_value(order@, mask, up[j]@)))
                } else {
                    0
                },
                forall|j: int| 0 <= j < n && #[trigger] done[j] && mask[j] ==> 1 <= order@[j] && pow2((order@[j] - 1) as nat) <= accv[j],
            decreases k,
        {
            k -= 1;
            let idx = topo[k];
            let ghost ord0 = order@;
            let ghost ups_s = up[idx as int]@;
            proof {
                assert(topo@.len() == n);
                assert(!done[idx as int]);
                // every upstream cell of idx comes later in the order: already done
                assert forall|t: int| 0 <= t < ups_s.len() implies #[trigger] done[ups_s[t] as int] && ups_s[t] as int != idx as int by {
                    let u = ups_s[t];
                    assert(u < n && ds[u as int] == idx);
                    assert(topo@.contains(u));
                    let s = choose|s: int| 0 <= s < topo@.len() && topo@[s] == u;
                    assert(ds[topo@[s] as int] == topo@[k as int]);
                }
            }
            if is_stream[idx] {
                let ups = net.upstream(idx);
                let mut max_up: u8 = 0;
                let mut count_max: usize = 0;
                let mut j: usize = 0;
                while j < ups.len()
                    invariant
                        net.wf(),
                        n == net.n(),
                        idx < n,
                        ds == net.ds_view(),
                        up == net.up_view(),
                        ups@ == ups_s,
                        ups_s == up[idx as int]@,
                        is_stream@ == mask,
                        mask.len() == n,
                        order@ == ord0,
                        ord0.len() == n,
                        j <= ups@.len(),
                        max_up as int == top_value(ord0, mask, ups_s.take(j as int)),
                        count_max as int == count_value(ord0, mask, ups_s.take(j as int), max_up as int),
                        count_max <= j,
                    decreases ups@.len() - j,
                {
                    let u = ups[j];
                    proof {
                        assert(ups_s.take(j + 1).drop_last() =~= ups_s.take(j as int));
                        assert(ups_s.take(j + 1).last() == u);
                        assert(u < n);
                    }
                    if is_stream[u] {
                        let up_order = order[u];
                        if up_order > max_up {
                            proof {
                                lemma_count_above_top(ord0, mask, ups_s.take(j as int), up_order as int);
                            }
                            max_up = up_order;
                            count_max = 1;
                        } else if up_order == max_up {
                            count_max += 1;
                        }
                    }
                    j += 1;
                }
                proof {
                    assert(ups_s.take(ups_s.len() as int) =~= ups_s);
                    lemma_top_value(ord0, mask, ups_s);
                }
                let v: u8 = if max_up == 0 {
                    1
                } else if count_max >= 2 {
                    proof {
                        let w = lemma_count_two(ord0, mask, ups_s, max_up as int);
                        let j1 = ups_s[w.0] as int;
                        let j2 = ups_s[w.1] as int;
                        assert(j1 < j2);
                        assert(done[j1] && done[j2]);
                        lemma_up_sum_two(ds, accv, idx as int, j1, j2, n as int);
                        assert(accv[idx as int] == 1 + up_sum(ds, accv, idx as int, n as int));
                        assert(accv[idx as int] <= n);
                        lemma_pow2_unfold(max_up as nat);
                        lemma2_to64_rest();
                        if max_up >= 64 {
                            if max_up > 64 {
                                lemma_pow2_strictly_increases(64, max_up as nat);
                            }
                        }
                    }
                    max_up + 1
                } else {
                    max_up
                };
                order.set(idx, v);
                proof {
                    // the new value obeys the growth bound
                    if max_up == 0 {
                        assert(pow2(0) == 1) by {
                            lemma2_to64_rest();
                            vstd::arithmetic::power2::lemma2_to64();
                        }
                    } else if count_max >= 2 {
                        let w = lemma_count_two(ord0, mask, ups_s, max_up as int);
                        let j1 = ups_s[w.0] as int;
                        let j2 = ups_s[w.1] as int;
                        lemma_up_sum_two(ds, accv, idx as int, j1, j2, n as int);
                        lemma_pow2_unfold(max_up as nat);
                    } else {
                        let t = choose|t: int| 0 <= t < ups_s.len() && mask[ups_s[t] as int]
                            && ord0[#[trigger] ups_s[t] as int] == top_value(ord0, mask, ups_s);
                        let jj = ups_s[t] as int;
                        assert(done[jj]);
                        lemma_up_sum_one(ds, accv, idx as int, jj, n as int);
                        lemma_up_sum_mono(ds, accv, idx as int, 0, jj);
                    }
                }
            }
            proof {
                done = done.update(idx as int, true);
                assert forall|j: int| 0 <= j < n && #[trigger] done[j] implies order@[j] as int == if mask[j] {
                    strahler_rule(top_value(order@, mask, up[j]@), count_value(order@, mask, up[j]@, top_value(order@, mask, up[j]@)))
                } else {
                    0
                } by {
                    let cells = up[j]@;
                    if j == idx as int {
                        if mask[j] {
                            assert forall|t: int| 0 <= t < cells.len() implies #[trigger] cells[t] as int != idx as int && cells[t] < ord0.len() by {
                                assert(done.update(idx as int, false)[cells[t] as int]);
                            }
                            lemma_top_count_frame(ord0, idx as int, order@[idx as int], mask, cells, top_value(ord0, mask, cells));
                            assert(order@ =~= ord0.update(idx as int, order@[idx as int]));
                        }
                    } else {
                        assert forall|t: int| 0 <= t < cells.len() implies #[trigger] cells[t] as int != idx as int && cells[t] < ord0.len() by {
                            let u = cells[t];
                            assert(ds[u as int] == j);
                            if u == idx {
                                assert(topo@.contains(j as usize));
                                let s = choose|s: int| 0 <= s < topo@.len() && topo@[s] == j as usize;
                                assert(ds[topo@[k as int] as int] == topo@[s]);
                            }
                        }
                        lemma_top_count_frame(ord0, idx as int, order@[idx as int], mask, cells, top_value(ord0, mask, cells));
                        assert(order@ =~= ord0.update(idx as int, order@[idx as int]));
                    }
                }
                assert forall|t: int| 0 <= t < n implies (t >= k <==> #[trigger] done[topo@[t] as int]) by {
                    if t != k as int {
                        assert(topo@[t] != topo@[k as int]);
                    }
                }
            }
        }
        proof {
            assert forall|j: int| 0 <= j < n implies #[trigger] done[j] by {
                assert(topo@.contains(j as usize));
                let t = choose|t: int| 0 <= t < topo@.len() && topo@[t] == j as usize;
            }
        }
        proof {
            vstd::arithmetic::mul::lemma_mul_strictly_positive(net.rows_view(), net.cols_view());
            assert(strahler_ok(up, mask, order@)) by {
                assert forall|j: int| 0 <= j < mask.len() implies #[trigger] order@[j] as int == if mask[j] {
                    strahler_rule(top_value(order@, mask, up[j]@), count_value(order@, mask, up[j]@, top_value(order@, mask, up[j]@)))
                } else {
                    0
                } by {
                    assert(done[j]);
                }
            }
        }
        let mut max_order: u8 = order[0];
        let mut m: usize = 1;
        while m < n
            invariant
                order@.len() == n,
                1 <= m <= n,
                forall|j: int| 0 <= j < m ==> #[trigger] order@[j] <= max_order,
                exists|j: int| 0 <= j < m && #[trigger] order@[j] == max_order,
            decreases n - m,
        {
            if order[m] > max_order {
                max_order = order[m];
            }
            m += 1;
        }
        let ghost w = choose|j: int| 0 <= j < m && #[trigger] order@[j] == max_order;
        let so = StrahlerOrder { values: order, max_order };
        proof {
            assert(0 <= w < so.values@.len() && so.values@[w] == so.max_order);
        }
        so
    }
}


/// Magnitudes bounded by accumulation sum to at most the accumulation
/// draining into `i`.
proof fn lemma_stream_sum_bound(ds: Seq<usize>, acc: Seq<u64>, vals: Seq<u64>, mask: Seq<bool>, cells: Seq<usize>, i: int, m: int)
    requires
        0 <= m,
        forall|t: int| 0 <= t < cells.len() ==> 0 <= #[trigger] cells[t] < m && ds[cells[t] as int] as int == i,
        forall|s: int, t: int| 0 <= s < t < cells.len() ==> #[trigger] cells[s] < #[trigger] cells[t],
        forall|t: int| 0 <= t < cells.len() && mask[cells[t] as int] ==> vals[#[trigger] cells[t] as int] <= acc[cells[t] as int],
    ensures
        0 <= stream_sum(vals, mask, cells) <= up_sum(ds, acc, i, m),
    decreases cells.len(),
{
    if cells.len() > 0 {
        let rest = cells.drop_last();
        let e = cells.last() as int;
        assert(cells[cells.len() - 1] as int == e);
        assert forall|t: int| 0 <= t < rest.len() implies 0 <= #[trigger] rest[t] < e && ds[rest[t] as int] as int == i by {
            assert(rest[t] == cells[t]);
        }
        assert forall|a: int, b: int| 0 <= a < b < rest.len() implies #[trigger] rest[a] < #[trigger] rest[b] by {
            assert(rest[a] == cells[a] && rest[b] == cells[b]);
        }
        assert forall|t: int| 0 <= t < rest.len() && mask[rest[t] as int] implies vals[#[trigger] rest[t] as int] <= acc[rest[t] as int] by {
            assert(rest[t] == cells[t]);
        }
        lemma_stream_sum_bound(ds, acc, vals, mask, rest, i, e);
        lemma_up_sum_one(ds, acc, i, e, m);
    } else {
        lemma_up_sum_mono(ds, acc, i, 0, m);
    }
}

/// The sum reads only the values of the listed cells.
proof fn lemma_stream_sum_frame(vals: Seq<u64>, c: int, v: u64, mask: Seq<bool>, cells: Seq<usize>)
    requires
        0 <= c < vals.len(),
        forall|t: int| 0 <= t < cells.len() ==> #[trigger] cells[t] as int != c && cells[t] < vals.len(),
    ensures
        stream_sum(vals.update(c, v), mask, cells) == stream_sum(vals, mask, cells),
    decreases cells.len(),
{
    if cells.len() > 0 {
        let rest = cells.drop_last();
        assert forall|t: int| 0 <= t < rest.len() implies #[trigger] rest[t] as int != c && rest[t] < vals.len() by {
            assert(rest[t] == cells[t]);
        }
        lemma_stream_sum_frame(vals, c, v, mask, rest);
        assert(cells.last() == cells[cells.len() - 1]);
        assert(cells[cells.len() - 1] as int != c);
    }
}

impl<'a> NetworkAnalysis<'a> {
    /// Stream magnitude of the stream cells (accumulation at least
    /// `threshold`): 1 + the sum of the tributaries' magnitudes where a
    /// link starts (a head or a confluence), the single tributary's
    /// magnitude elsewhere.
    #[verifier::rlimit(60)]
    pub fn stream_magnitude(&self, threshold: u64) -> (sm: StreamMagnitude)
        requires
            self.network().wf(),
        ensures
            magnitude_ok(self.network().up_view(), stream_mask(self.network().solid_view(), self.network().acc_view(), threshold), sm.values@),
            forall|i: int| 0 <= i < sm.values@.len() ==> #[trigger] sm.values@[i] <= sm.max_magnitude,
            exists|i: int| 0 <= i < sm.values@.len() && #[trigger] sm.values@[i] == sm.max_magnitude,
    {
        let net = self.net;
        let n = net.len();
        let ghost ds = net.ds_view();
        let ghost up = net.up_view();
        let ghost accv = net.acc_view();
        let ghost mask = stream_mask(net.solid_view(), net.acc_view(), threshold);
        let is_stream = self.stream_cells(threshold);
        let mut mag: Vec<u64> = Vec::new();
        let mut i: usize = 0;
        while i < n
            invariant
                i <= n,
                mag@.len() == i,
                forall|j: int| 0 <= j < i ==> #[trigger] mag@[j] == 0,
            decreases n - i,
        {
            mag.push(0);
            i += 1;
        }
        let topo = self.topological_order();
        let ghost mut done: Seq<bool> = Seq::new(n as nat, |j: int| false);
        let mut k: usize = n;
        proof {
            assert forall|t: int| 0 <= t < n implies (t >= k <==> #[trigger] done[topo@[t] as int]) by {
                assert(topo@[t] < n);
            }
        }
        while k > 0
            invariant
                net.wf(),
                n == net.n(),
                ds == net.ds_view(),
                up == net.up_view(),
                accv == net.acc_view(),
                mask == stream_mask(net.solid_view(), net.acc_view(), threshold),
                is_stream@ == mask,
                downstream_first(ds, topo@),
                k <= n,
                mag@.len() == n,
                done.len() == n,
                forall|t: int| 0 <= t < n ==> (t >= k <==> #[trigger] done[topo@[t] as int]),
                forall|j: int| 0 <= j < n && !#[trigger] done[j] ==> mag@[j] == 0,
                forall|j: int| 0 <= j < n && #[trigger] done[j] ==> mag@[j] as int == if mask[j] {
                    magnitude_rule(stream_sum(mag@, mask, up[j]@), count_stream(mask, up[j]@))
                } else {
                    0
                },
                forall|j: int| 0 <= j < n && #[trigger] done[j] && mask[j] ==> 1 <= mag@[j] <= accv[j],
            decreases k,
        {
            k -= 1;
            let idx = topo[k];
            let ghost mag0 = mag@;
            let ghost ups_s = up[idx as int]@;
            proof {
                assert(topo@.len() == n);
                assert(!done[idx as int]);
                assert forall|t: int| 0 <= t < ups_s.len() implies #[trigger] done[ups_s[t] as int] && ups_s[t] as int != idx as int by {
                    let u = ups_s[t];
                    assert(u < n && ds[u as int] == idx);
                    assert(topo@.contains(u));
                    let s = choose|s: int| 0 <= s < topo@.len() && topo@[s] == u;
                    assert(ds[topo@[s] as int] == topo@[k as int]);
                }
                assert forall|t: int| 0 <= t < ups_s.len() && mask[ups_s[t] as int] implies mag0[#[trigger] ups_s[t] as int] <= accv[ups_s[t] as int] by {
                    assert(done[ups_s[t] as int]);
                }
                lemma_stream_sum_bound(ds, accv, mag0, mask, ups_s, idx as int, n as int);
                assert(accv[idx as int] == 1 + up_sum(ds, accv, idx as int, n as int));
            }
            if is_stream[idx] {
                let ups = net.upstream(idx);
                let mut sum: u64 = 0;
                let mut cnt: usize = 0;
                let mut j: usize = 0;
                while j < ups.len()
                    invariant
                        net.wf(),
                        n == net.n(),
                        idx < n,
                        ds == net.ds_view(),
                        up == net.up_view(),
                        accv == net.acc_view(),
                        ups@ == ups_s,
                        ups_s == up[idx as int]@,
                        is_stream@ == mask,
                        mask.len() == n,
                        mag@ == mag0,
                        mag0.len() == n,
                        forall|t: int| 0 <= t < ups_s.len() && mask[ups_s[t] as int] ==> mag0[#[trigger] ups_s[t] as int] <= accv[ups_s[t] as int],
                        j <= ups@.len(),
                        sum as int == stream_sum(mag0, mask, ups_s.take(j as int)),
                        cnt as int == count_stream(mask, ups_s.take(j as int)),
                        cnt <= j,
                    decreases ups@.len() - j,
                {
                    let u = ups[j];
                    proof {
                        let pre = ups_s.take(j + 1);
                        assert(pre.drop_last() =~= ups_s.take(j as int));
                        assert(pre.last() == u);
                        assert(u < n);
                        assert forall|t: int| 0 <= t < pre.len() implies 0 <= #[trigger] pre[t] < n && ds[pre[t] as int] as int == idx as int by {
                            assert(pre[t] == ups_s[t]);
                        }
                        assert forall|a: int, b: int| 0 <= a < b < pre.len() implies #[trigger] pre[a] < #[trigger] pre[b] by {
                            assert(pre[a] == ups_s[a] && pre[b] == ups_s[b]);
                        }
                        assert forall|t: int| 0 <= t < pre.len() && mask[pre[t] as int] implies mag0[#[trigger] pre[t] as int] <= accv[pre[t] as int] by {
                            assert(pre[t] == ups_s[t]);
                        }
                        lemma_stream_sum_bound(ds, accv, mag0, mask, pre, idx as int, n as int);
                        assert(accv[idx as int] == 1 + up_sum(ds, accv, idx as int, n as int));
                    }
                    if is_stream[u] {
                        sum = sum + mag[u];
                        cnt = cnt + 1;
                    }
                    j += 1;
                }
                proof {
                    assert(ups_s.take(ups_s.len() as int) =~= ups_s);
                    lemma_stream_sum_bound(ds, accv, mag0, mask, ups_s, idx as int, n as int);
                    if cnt == 1 {
                        let t = lemma_count_stream_witness(mask, ups_s);
                        assert(done[ups_s[t] as int]);
                        lemma_stream_sum_member(mag0, mask, ups_s, t);
                    }
                }
                let v: u64 = if cnt == 1 { sum } else { sum + 1 };
                mag.set(idx, v);
            }
            proof {
                done = done.update(idx as int, true);
                assert forall|j: int| 0 <= j < n && #[trigger] done[j] implies mag@[j] as int == if mask[j] {
                    magnitude_rule(stream_sum(mag@, mask, up[j]@), count_stream(mask, up[j]@))
                } else {
                    0
                } by {
                    let cells = up[j]@;
                    if j == idx as int {
                        if mask[j] {
                            assert forall|t: int| 0 <= t < cells.len() implies #[trigger] cells[t] as int != idx as int && cells[t] < mag0.len() by {
                                assert(done.update(idx as int, false)[cells[t] as int]);
                            }
                            lemma_stream_sum_frame(mag0, idx as int, mag@[idx as int], mask, cells);
                            assert(mag@ =~= mag0.update(idx as int, mag@[idx as int]));
                        }
                    } else {
                        assert forall|t: int| 0 <= t < cells.len() implies #[trigger] cells[t] as int != idx as int && cells[t] < mag0.len() by {
                            let u = cells[t];
                            assert(ds[u as int] == j);
                            if u == idx {
                                assert(topo@.contains(j as usize));
                                let s = choose|s: int| 0 <= s < topo@.len() && topo@[s] == j as usize;
                                assert(ds[topo@[k as int] as int] == topo@[s]);
                            }
                        }
                        lemma_stream_sum_frame(mag0, idx as int, mag@[idx as int], mask, cells);
                        assert(mag@ =~= mag0.update(idx as int, mag@[idx as int]));
                    }
                }
                assert forall|t: int| 0 <= t < n implies (t >= k <==> #[trigger] done[topo@[t] as int]) by {
                    if t != k as int {
                        assert(topo@[t] != topo@[k as int]);
                    }
                }
            }
        }
        proof {
            assert forall|j: int| 0 <= j < n implies #[trigger] done[j] by {
                assert(topo@.contains(j as usize));
                let t = choose|t: int| 0 <= t < topo@.len() && topo@[t] == j as usize;
            }
            vstd::arithmetic::mul::lemma_mul_strictly_positive(net.rows_view(), net.cols_view());
            assert(magnitude_ok(up, mask, mag@)) by {
                assert forall|j: int| 0 <= j < mask.len() implies #[trigger] mag@[j] as int == if mask[j] {
                    magnitude_rule(stream_sum(mag@, mask, up[j]@), count_stream(mask, up[j]@))
                } else {
                    0
                } by {
                    assert(done[j]);
                }
            }
        }
        let mut max_magnitude: u64 = mag[0];
        let mut m: usize = 1;
        while m < n
            invariant
                mag@.len() == n,
                1 <= m <= n,
                forall|j: int| 0 <= j < m ==> #[trigger] mag@[j] <= max_magnitude,
                exists|j: int| 0 <= j < m && #[trigger] mag@[j] == max_magnitude,
            decreases n - m,
        {
            if mag[m] > max_magnitude {
                max_magnitude = mag[m];
            }
            m += 1;
        }
        let ghost w = choose|j: int| 0 <= j < m && #[trigger] mag@[j] == max_magnitude;
        let sm = StreamMagnitude { values: mag, max_magnitude };
        proof {
            assert(0 <= w < sm.values@.len() && sm.values@[w] == sm.max_magnitude);
        }
        sm
    }
}


/// Top and count agree on value sequences that agree on the listed cells.
proof fn lemma_top_count_agree(v1: Seq<u8>, v2: Seq<u8>, mask: Seq<bool>, cells: Seq<usize>, m: int)
    requires
        forall|t: int| 0 <= t < cells.len() ==> v1[#[trigger] cells[t] as int] == v2[cells[t] as int],
    ensures
        top_value(v1, mask, cells) == top_value(v2, mask, cells),
        count_value(v1, mask, cells, m) == count_value(v2, mask, cells, m),
    decreases cells.len(),
{
    if cells.len() > 0 {
        let rest = cells.drop_last();
        assert forall|t: int| 0 <= t < rest.len() implies v1[#[trigger] rest[t] as int] == v2[rest[t] as int] by {
            assert(rest[t] == cells[t]);
        }
        lemma_top_count_agree(v1, v2, mask, rest, m);
        assert(cells.last() == cells[cells.len() - 1]);
    }
}

/// Sums agree on value sequences that agree on the listed cells.
proof fn lemma_stream_sum_agree(v1: Seq<u64>, v2: Seq<u64>, mask: Seq<bool>, cells: Seq<usize>)
    requires
        forall|t: int| 0 <= t < cells.len() ==> v1[#[trigger] cells[t] as int] == v2[cells[t] as int],
    ensures
        stream_sum(v1, mask, cells) == stream_sum(v2, mask, cells),
    decreases cells.len(),
{
    if cells.len() > 0 {
        let rest = cells.drop_last();
        assert forall|t: int| 0 <= t < rest.len() implies v1[#[trigger] rest[t] as int] == v2[rest[t] as int] by {
            assert(rest[t] == cells[t]);
        }
        lemma_stream_sum_agree(v1, v2, mask, rest);
        assert(cells.last() == cells[cells.len() - 1]);
    }
}

/// A stream value of the list is at most the sum.
proof fn lemma_stream_sum_member(vals: Seq<u64>, mask: Seq<bool>, cells: Seq<usize>, t: int)
    requires
        0 <= t < cells.len(),
        mask[cells[t] as int],
    ensures
        stream_sum(vals, mask, cells) >= vals[cells[t] as int],
    decreases cells.len(),
{
    let rest = cells.drop_last();
    if t < cells.len() - 1 {
        assert(rest[t] == cells[t]);
        lemma_stream_sum_member(vals, mask, rest, t);
    } else {
        lemma_stream_sum_nonneg(vals, mask, rest);
    }
}

proof fn lemma_stream_sum_nonneg(vals: Seq<u64>, mask: Seq<bool>, cells: Seq<usize>)
    ensures
        stream_sum(vals, mask, cells) >= 0,
    decreases cells.len(),
{
    if cells.len() > 0 {
        lemma_stream_sum_nonneg(vals, mask, cells.drop_last());
    }
}

proof fn lemma_strahler_unique_at(ds: Seq<usize>, up: Seq<Vec<usize>>, rank: Seq<int>, mask: Seq<bool>, v1: Seq<u8>, v2: Seq<u8>, i: int)
    requires
        ranked(ds, rank),
        ds.len() < PIT,
        forall|k: int| 0 <= k < rank.len() ==> 0 <= #[trigger] rank[k] < 0x1_0000_0000_0000_0000int,
        upstream_ok(ds, up),
        mask.len() == ds.len(),
        strahler_ok(up, mask, v1),
        strahler_ok(up, mask, v2),
        0 <= i < ds.len(),
    ensures
        v1[i] == v2[i],
    decreases 0x1_0000_0000_0000_0000int - rank[i],
{
    let cells = up[i]@;
    assert forall|t: int| 0 <= t < cells.len() implies v1[#[trigger] cells[t] as int] == v2[cells[t] as int] by {
        assert(cells[t] < ds.len() && ds[cells[t] as int] == i);
        assert(ds[cells[t] as int] != PIT);
        assert(rank[i] < rank[cells[t] as int]);
        lemma_strahler_unique_at(ds, up, rank, mask, v1, v2, cells[t] as int);
    }
    lemma_top_count_agree(v1, v2, mask, cells, top_value(v1, mask, cells));
}

proof fn lemma_magnitude_unique_at(ds: Seq<usize>, up: Seq<Vec<usize>>, rank: Seq<int>, mask: Seq<bool>, v1: Seq<u64>, v2: Seq<u64>, i: int)
    requires
        ranked(ds, rank),
        ds.len() < PIT,
        forall|k: int| 0 <= k < rank.len() ==> 0 <= #[trigger] rank[k] < 0x1_0000_0000_0000_0000int,
        upstream_ok(ds, up),
        mask.len() == ds.len(),
        magnitude_ok(up, mask, v1),
        magnitude_ok(up, mask, v2),
        0 <= i < ds.len(),
    ensures
        v1[i] == v2[i],
    decreases 0x1_0000_0000_0000_0000int - rank[i],
{
    let cells = up[i]@;
    assert forall|t: int| 0 <= t < cells.len() implies v1[#[trigger] cells[t] as int] == v2[cells[t] as int] by {
        assert(cells[t] < ds.len() && ds[cells[t] as int] == i);
        assert(ds[cells[t] as int] != PIT);
        assert(rank[i] < rank[cells[t] as int]);
        lemma_magnitude_unique_at(ds, up, rank, mask, v1, v2, cells[t] as int);
    }
    lemma_stream_sum_agree(v1, v2, mask, cells);
}

/// Strahler's rule determines the ordering: on a network, at most one
/// assignment of orders obeys it at every cell.
pub proof fn lemma_strahler_unique(net: Network, threshold: u64, v1: Seq<u8>, v2: Seq<u8>)
    requires
        net.wf(),
        strahler_ok(net.up_view(), stream_mask(net.solid_view(), net.acc_view(), threshold), v1),
        strahler_ok(net.up_view(), stream_mask(net.solid_view(), net.acc_view(), threshold), v2),
    ensures
        v1 == v2,
{
    let mask = stream_mask(net.solid_view(), net.acc_view(), threshold);
    assert forall|i: int| 0 <= i < v1.len() implies v1[i] == v2[i] by {
        lemma_strahler_unique_at(net.ds_view(), net.up_view(), net.rank_view(), mask, v1, v2, i);
    }
    assert(v1 =~= v2);
}

/// The magnitude rule determines the magnitudes: at most one assignment obeys
/// it at every cell.
pub proof fn lemma_magnitude_unique(net: Network, threshold: u64, v1: Seq<u64>, v2: Seq<u64>)
    requires
        net.wf(),
        magnitude_ok(net.up_view(), stream_mask(net.solid_view(), net.acc_view(), threshold), v1),
        magnitude_ok(net.up_view(), stream_mask(net.solid_view(), net.acc_view(), threshold), v2),
    ensures
        v1 == v2,
{
    let mask = stream_mask(net.solid_view(), net.acc_view(), threshold);
    assert forall|i: int| 0 <= i < v1.len() implies v1[i] == v2[i] by {
        lemma_magnitude_unique_at(net.ds_view(), net.up_view(), net.rank_view(), mask, v1, v2, i);
    }
    assert(v1 =~= v2);
}

/// Strahler order never decreases downstream along the stream network.
pub proof fn lemma_strahler_monotone(net: Network, threshold: u64, vals: Seq<u8>, i: int)
    requires
        net.wf(),
        strahler_ok(net.up_view(), stream_mask(net.solid_view(), net.acc_view(), threshold), vals),
        0 <= i < net.n(),
        stream_mask(net.solid_view(), net.acc_view(), threshold)[i],
        net.ds_view()[i] != PIT,
        stream_mask(net.solid_view(), net.acc_view(), threshold)[net.ds_view()[i] as int],
    ensures
        vals[i] <= vals[net.ds_view()[i] as int],
{
    let mask = stream_mask(net.solid_view(), net.acc_view(), threshold);
    let d = net.ds_view()[i] as int;
    let cells = net.up_view()[d]@;
    assert(cells.contains(i as usize));
    let t = choose|t: int| 0 <= t < cells.len() && cells[t] == i as usize;
    lemma_top_value(vals, mask, cells);
    assert(vals[cells[t] as int] <= top_value(vals, mask, cells));
}

/// Stream magnitude never decreases downstream along the stream network.
pub proof fn lemma_magnitude_monotone(net: Network, threshold: u64, vals: Seq<u64>, i: int)
    requires
        net.wf(),
        magnitude_ok(net.up_view(), stream_mask(net.solid_view(), net.acc_view(), threshold), vals),
        0 <= i < net.n(),
        stream_mask(net.solid_view(), net.acc_view(), threshold)[i],
        net.ds_view()[i] != PIT,
        stream_mask(net.solid_view(), net.acc_view(), threshold)[net.ds_view()[i] as int],
    ensures
        vals[i] <= vals[net.ds_view()[i] as int],
{
    let mask = stream_mask(net.solid_view(), net.acc_view(), threshold);
    let d = net.ds_view()[i] as int;
    let cells = net.up_view()[d]@;
    assert(cells.contains(i as usize));
    let t = choose|t: int| 0 <= t < cells.len() && cells[t] == i as usize;
    lemma_stream_sum_member(vals, mask, cells, t);
}


impl<'a> NetworkAnalysis<'a> {
    /// The cells of the longitudinal profile from `start`: the start
    /// cell, then each cell downstream, to the pit that ends the path.
    pub fn profile_cells(&self, start: usize) -> (cells: Vec<usize>)
        requires
            self.network().wf(),
            start < self.network().n(),
        ensures
            1 <= cells@.len() <= self.network().n(),
            forall|t: int| 0 <= t < cells@.len() ==> #[trigger] cells@[t] as int == walk(self.network().ds_view(), start as int, t as nat),
            walk(self.network().ds_view(), start as int, cells@.len()) == PIT,
    {
        let net = self.net;
        let path = net.trace_downstream(start);
        let mut cells: Vec<usize> = Vec::new();
        cells.push(start);
        let mut t: usize = 0;
        while t < path.len()
            invariant
                t <= path@.len(),
                path@.len() < net.n(),
                cells@.len() == t + 1,
                cells@[0] == start,
                forall|s: int| 0 <= s < path@.len() ==> #[trigger] path@[s] as int == walk(net.ds_view(), start as int, (s + 1) as nat),
                forall|s: int| 1 <= s < cells@.len() ==> #[trigger] cells@[s] == path@[s - 1],
            decreases path@.len() - t,
        {
            cells.push(path[t]);
            t += 1;
        }
        proof {
            assert forall|s: int| 0 <= s < cells@.len() implies #[trigger] cells@[s] as int == walk(net.ds_view(), start as int, s as nat) by {
                if s == 0 {
                    assert(walk(net.ds_view(), start as int, 0) == start);
                } else {
                    assert(cells@[s] == path@[s - 1]);
                }
            }
        }
        cells
    }
}


/// The top value is never negative.
pub proof fn lemma_top_value_nonneg(vals: Seq<u8>, mask: Seq<bool>, cells: Seq<usize>)
    ensures
        top_value(vals, mask, cells) >= 0,
{
    lemma_top_value(vals, mask, cells);
}


/// Strahler order grows only at confluences: a stream cell of order `k`
/// drains at least `2^(k-1)` cells.
pub proof fn lemma_strahler_growth(net: Network, threshold: u64, vals: Seq<u8>, i: int)
    requires
        net.wf(),
        strahler_ok(net.up_view(), stream_mask(net.solid_view(), net.acc_view(), threshold), vals),
        0 <= i < net.n(),
        stream_mask(net.solid_view(), net.acc_view(), threshold)[i],
    ensures
        vals[i] >= 1,
        pow2((vals[i] - 1) as nat) <= net.acc_view()[i],
    decreases 0x1_0000_0000_0000_0000int - net.rank_view()[i],
{
    let ds = net.ds_view();
    let up = net.up_view();
    let acc = net.acc_view();
    let rank = net.rank_view();
    let n = net.n();
    let mask = stream_mask(net.solid_view(), net.acc_view(), threshold);
    let cells = up[i]@;
    let top = top_value(vals, mask, cells);
    lemma_top_value(vals, mask, cells);
    assert(vals[i] as int == strahler_rule(top, count_value(vals, mask, cells, top)));
    assert(acc[i] == 1 + up_sum(ds, acc, i, n));
    if top == 0 {
        lemma2_to64_rest();
        vstd::arithmetic::power2::lemma2_to64();
    } else {
        let t = choose|t: int| 0 <= t < cells.len() && mask[cells[t] as int] && vals[#[trigger] cells[t] as int] == top;
        let j = cells[t] as int;
        assert(0 <= j < n && ds[j] as int == i);
        assert(ds[j] != PIT);
        assert(rank[i] < rank[j]);
        lemma_strahler_growth(net, threshold, vals, j);
        if count_value(vals, mask, cells, top) >= 2 {
            let w = lemma_count_two(vals, mask, cells, top);
            let j1 = cells[w.0] as int;
            let j2 = cells[w.1] as int;
            assert(j1 < j2);
            assert(ds[j1] as int == i && ds[j2] as int == i);
            assert(ds[j1] != PIT && ds[j2] != PIT);
            assert(rank[i] < rank[j1] && rank[i] < rank[j2]);
            lemma_strahler_growth(net, threshold, vals, j1);
            lemma_strahler_growth(net, threshold, vals, j2);
            lemma_up_sum_two(ds, acc, i, j1, j2, n);
            lemma_pow2_unfold(top as nat);
        } else {
            lemma_up_sum_one(ds, acc, i, j, n);
            lemma_up_sum_mono(ds, acc, i, 0, j);
        }
    }
}

/// Flow from cell `s` passes through cell `i`.
pub open spec fn reaches(ds: Seq<usize>, s: int, i: int) -> bool {
    exists|k: nat| #[trigger] walk(ds, s, k) == i
}

/// The cells whose flow passes through `i` and where a stream link
/// starts (heads and confluences): one per link draining through `i`.
pub open spec fn starts_through(ds: Seq<usize>, up: Seq<Vec<usize>>, mask: Seq<bool>, i: int) -> Set<int> {
    Set::new(|s: int| 0 <= s < ds.len() && link_start(up, mask, s) && reaches(ds, s, i))
}

/// Downstream of a stream cell every cell is a stream cell.
proof fn lemma_walk_stays_stream(net: Network, threshold: u64, s: int, k: nat)
    requires
        net.wf(),
        0 <= s < net.n(),
        stream_mask(net.solid_view(), net.acc_view(), threshold)[s],
        walk(net.ds_view(), s, k) != PIT,
    ensures
        0 <= walk(net.ds_view(), s, k) < net.n(),
        stream_mask(net.solid_view(), net.acc_view(), threshold)[walk(net.ds_view(), s, k)],
        net.acc_view()[walk(net.ds_view(), s, k)] >= net.acc_view()[s],
    decreases k,
{
    let ds = net.ds_view();
    let acc = net.acc_view();
    let n = net.n();
    lemma_walk_range(ds, s, k);
    if k > 0 {
        let km = (k - 1) as nat;
        lemma_walk_step(ds, s, km);
        let x = walk(ds, s, km);
        lemma_walk_range(ds, s, km);
        assert(x != PIT);
        lemma_walk_stays_stream(net, threshold, s, km);
        let y = ds[x] as int;
        assert(ds[x] != PIT);
        assert(acc[y] == 1 + up_sum(ds, acc, y, n));
        lemma_up_sum_one(ds, acc, y, x, n);
        lemma_up_sum_mono(ds, acc, y, 0, x);
        assert(!net.solid_view()[y]);
    }
}

/// The cell a walk passes just before reaching `i` drains into `i`.
pub(crate) proof fn lemma_walk_pred(net: Network, s: int, k: nat, i: int)
    requires
        net.wf(),
        0 <= s < net.n(),
        k > 0,
        walk(net.ds_view(), s, k) == i,
        0 <= i < net.n(),
    ensures
        0 <= walk(net.ds_view(), s, (k - 1) as nat) < net.n(),
        net.ds_view()[walk(net.ds_view(), s, (k - 1) as nat)] == i,
        net.up_view()[i]@.contains(walk(net.ds_view(), s, (k - 1) as nat) as usize),
{
    let ds = net.ds_view();
    let km = (k - 1) as nat;
    lemma_walk_step(ds, s, km);
    lemma_walk_range(ds, s, km);
    let x = walk(ds, s, km);
    assert(x != PIT);
    assert(ds[x] != PIT);
}

/// Flow from one cell reaches at most one of the cells draining into
/// `i`.
pub(crate) proof fn lemma_one_tributary(net: Network, s: int, u1: int, u2: int, k1: nat, k2: nat, i: int)
    requires
        net.wf(),
        0 <= s < net.n(),
        0 <= u1 < net.n(),
        0 <= u2 < net.n(),
        walk(net.ds_view(), s, k1) == u1,
        walk(net.ds_view(), s, k2) == u2,
        k1 <= k2,
        net.ds_view()[u1] as int == i,
        net.ds_view()[u2] as int == i,
        0 <= i < net.n(),
    ensures
        u1 == u2,
{
    let ds = net.ds_view();
    let rank = net.rank_view();
    if k1 < k2 {
        lemma_walk_step(ds, s, k1);
        assert(walk(ds, s, k1 + 1) == i);
        assert(ds[u2] != PIT);
        assert(rank[i] < rank[u2]);
        if k2 == k1 + 1 {
            assert(u2 == i);
        } else {
            lemma_walk_rank(ds, rank, s, k1 + 1, k2);
        }
    }
}

/// The set of link starts through a cell is finite.
proof fn lemma_starts_finite(ds: Seq<usize>, up: Seq<Vec<usize>>, mask: Seq<bool>, i: int)
    ensures
        starts_through(ds, up, mask, i).finite(),
{
    lemma_int_range(0, ds.len() as int);
    lemma_len_subset(starts_through(ds, up, mask, i), set_int_range(0, ds.len() as int));
}

/// The link starts through the stream cells among the first `m` cells
/// draining into `i`.
spec fn starts_via(ds: Seq<usize>, up: Seq<Vec<usize>>, mask: Seq<bool>, i: int, m: int) -> Set<int> {
    Set::new(
        |s: int|
            exists|t: int|
                0 <= t < m && mask[up[i]@[t] as int] && #[trigger] starts_through(ds, up, mask, up[i]@[t] as int).contains(s),
    )
}

/// Summing magnitudes over the first `m` tributaries counts the link
/// starts through them.
proof fn lemma_sum_counts(net: Network, threshold: u64, vals: Seq<u64>, i: int, m: int)
    requires
        net.wf(),
        0 <= i < net.n(),
        0 <= m <= net.up_view()[i]@.len(),
        vals.len() == net.n(),
        forall|t: int|
            0 <= t < net.up_view()[i]@.len() && stream_mask(net.solid_view(), net.acc_view(), threshold)[#[trigger] net.up_view()[i]@[t] as int]
                ==> vals[net.up_view()[i]@[t] as int] == starts_through(
                net.ds_view(),
                net.up_view(),
                stream_mask(net.solid_view(), net.acc_view(), threshold),
                net.up_view()[i]@[t] as int,
            ).len(),
    ensures
        starts_via(net.ds_view(), net.up_view(), stream_mask(net.solid_view(), net.acc_view(), threshold), i, m).finite(),
        stream_sum(vals, stream_mask(net.solid_view(), net.acc_view(), threshold), net.up_view()[i]@.take(m))
            == starts_via(net.ds_view(), net.up_view(), stream_mask(net.solid_view(), net.acc_view(), threshold), i, m).len(),
    decreases m,
{
    let ds = net.ds_view();
    let up = net.up_view();
    let mask = stream_mask(net.solid_view(), net.acc_view(), threshold);
    let n = net.n();
    let cells = up[i]@;
    let here = starts_via(ds, up, mask, i, m);
    lemma_int_range(0, n);
    lemma_len_subset(here, set_int_range(0, n));
    if m == 0 {
        assert(here =~= Set::<int>::empty());
        assert(cells.take(0).len() == 0);
    } else {
        lemma_sum_counts(net, threshold, vals, i, m - 1);
        let prev = starts_via(ds, up, mask, i, m - 1);
        let u = cells[m - 1] as int;
        assert(cells.take(m).drop_last() =~= cells.take(m - 1));
        assert(cells.take(m).last() == cells[m - 1]);
        assert(0 <= u < n && ds[u] as int == i);
        if mask[u] {
            let su = starts_through(ds, up, mask, u);
            lemma_starts_finite(ds, up, mask, u);
            assert(here =~= prev + su) by {
                assert forall|s: int| here.contains(s) implies (prev + su).contains(s) by {
                    let t = choose|t: int|
                        0 <= t < m && mask[cells[t] as int] && #[trigger] starts_through(ds, up, mask, cells[t] as int).contains(s);
                    if t < m - 1 {
                        assert(prev.contains(s));
                    }
                }
                assert forall|s: int| (prev + su).contains(s) implies here.contains(s) by {
                    if su.contains(s) {
                        assert(starts_through(ds, up, mask, cells[m - 1] as int).contains(s));
                    } else {
                        let t = choose|t: int|
                            0 <= t < m - 1 && mask[cells[t] as int] && #[trigger] starts_through(ds, up, mask, cells[t] as int).contains(s);
                        assert(starts_through(ds, up, mask, cells[t] as int).contains(s));
                    }
                }
            }
            assert(prev.disjoint(su)) by {
                assert forall|s: int| prev.contains(s) implies !su.contains(s) by {
                    let t = choose|t: int|
                        0 <= t < m - 1 && mask[cells[t] as int] && #[trigger] starts_through(ds, up, mask, cells[t] as int).contains(s);
                    let w = cells[t] as int;
                    assert(0 <= w < n && ds[w] as int == i);
                    assert(w < u);
                    if su.contains(s) {
                        let k1 = choose|k: nat| #[trigger] walk(ds, s, k) == w;
                        let k2 = choose|k: nat| #[trigger] walk(ds, s, k) == u;
                        if k1 <= k2 {
                            lemma_one_tributary(net, s, w, u, k1, k2, i);
                        } else {
                            lemma_one_tributary(net, s, u, w, k2, k1, i);
                        }
                    }
                }
            }
            lemma_set_disjoint_lens(prev, su);
        } else {
            assert(here =~= prev) by {
                assert forall|s: int| here.contains(s) implies prev.contains(s) by {
                    let t = choose|t: int|
                        0 <= t < m && mask[cells[t] as int] && #[trigger] starts_through(ds, up, mask, cells[t] as int).contains(s);
                    assert(t != m - 1);
                }
            }
        }
    }
}

/// Law: the magnitude of a stream cell is the number of stream links
/// draining through it, its own included: the number of heads and
/// confluences whose flow passes through it.
pub proof fn lemma_magnitude_counts_links(net: Network, threshold: u64, vals: Seq<u64>, i: int)
    requires
        net.wf(),
        magnitude_ok(net.up_view(), stream_mask(net.solid_view(), net.acc_view(), threshold), vals),
        0 <= i < net.n(),
        stream_mask(net.solid_view(), net.acc_view(), threshold)[i],
    ensures
        vals[i] == starts_through(net.ds_view(), net.up_view(), stream_mask(net.solid_view(), net.acc_view(), threshold), i).len(),
    decreases 0x1_0000_0000_0000_0000int - net.rank_view()[i],
{
    let ds = net.ds_view();
    let up = net.up_view();
    let rank = net.rank_view();
    let mask = stream_mask(net.solid_view(), net.acc_view(), threshold);
    let n = net.n();
    let cells = up[i]@;
    let here = starts_through(ds, up, mask, i);
    assert forall|t: int| 0 <= t < cells.len() && mask[#[trigger] cells[t] as int] implies vals[cells[t] as int] == starts_through(
        ds,
        up,
        mask,
        cells[t] as int,
    ).len() by {
        let j = cells[t] as int;
        assert(0 <= j < n && ds[j] as int == i);
        assert(ds[j] != PIT);
        assert(rank[i] < rank[j]);
        lemma_magnitude_counts_links(net, threshold, vals, j);
    }
    lemma_sum_counts(net, threshold, vals, i, cells.len() as int);
    assert(cells.take(cells.len() as int) =~= cells);
    let via = starts_via(ds, up, mask, i, cells.len() as int);
    assert(walk(ds, i, 0) == i);
    let own = if link_start(up, mask, i) { set![i] } else { Set::<int>::empty() };
    assert(here =~= via + own) by {
        assert forall|s: int| here.contains(s) implies (via + own).contains(s) by {
            if s != i {
                let k = choose|k: nat| #[trigger] walk(ds, s, k) == i;
                assert(k > 0);
                lemma_walk_pred(net, s, k, i);
                let x = walk(ds, s, (k - 1) as nat);
                lemma_walk_stays_stream(net, threshold, s, (k - 1) as nat);
                let t = choose|t: int| 0 <= t < cells.len() && cells[t] == x as usize;
                assert(starts_through(ds, up, mask, cells[t] as int).contains(s));
            }
        }
        assert forall|s: int| (via + own).contains(s) implies here.contains(s) by {
            if via.contains(s) {
                let t = choose|t: int|
                    0 <= t < cells.len() && mask[cells[t] as int] && #[trigger] starts_through(ds, up, mask, cells[t] as int).contains(s);
                let u = cells[t] as int;
                let k = choose|k: nat| #[trigger] walk(ds, s, k) == u;
                lemma_walk_step(ds, s, k);
                assert(0 <= u < n && ds[u] as int == i);
                assert(walk(ds, s, k + 1) == i);
            }
        }
    }
    assert(!via.contains(i)) by {
        if via.contains(i) {
            let t = choose|t: int|
                0 <= t < cells.len() && mask[cells[t] as int] && #[trigger] starts_through(ds, up, mask, cells[t] as int).contains(i);
            let j = cells[t] as int;
            let k = choose|k: nat| #[trigger] walk(ds, i, k) == j;
            assert(0 <= j < n && ds[j] as int == i);
            assert(ds[j] != PIT);
            assert(rank[i] < rank[j]);
            if k == 0 {
                assert(j == i);
            } else {
                crate::graph::lemma_walk_rank(ds, rank, i, 0, k);
            }
        }
    }
    lemma_starts_finite(ds, up, mask, i);
    lemma_set_disjoint_lens(via, own);
    lemma_count_stream_nonneg(mask, cells);
    assert(vals[i] as int == magnitude_rule(stream_sum(vals, mask, cells), count_stream(mask, cells)));
    assert(stream_inflows(up, mask, i) == count_stream(mask, cells));
}

} // verus!
