//! Multiple-receiver flow graphs (D-infinity, MFD): each cell passes its
//! flow to a list of receiver cells. Fractional accumulation settles the
//! cells in a topological order found by Kahn's algorithm, starting from
//! the cells that receive nothing; cells fed, directly or not, by a cycle
//! are never settled.

use vstd::prelude::*;
use crate::graph::{lemma_unmarked_mark, lemma_unmarked_none, unmarked};
use crate::grid::{d8_neighbour, grid_ok, lemma_neighbour_adjacent, neighbour};
use crate::flats::{flat_candidate, flat_views, lower_at, FlatOffsets};
use crate::network::{flat_dir_ok, flow_rank, outlet_field};

verus! {

/// Receiver lists in compressed form: cell `u` sends flow along the
/// edges `offsets[u]..offsets[u + 1]`, edge `e` to cell `targets[e]`.
pub open spec fn csr_ok(offsets: Seq<usize>, targets: Seq<usize>, n: int) -> bool {
    &&& offsets.len() == n + 1
    &&& offsets[0] == 0
    &&& forall|u: int, v: int| 0 <= u <= v <= n ==> #[trigger] offsets[u] <= #[trigger] offsets[v]
    &&& offsets[n] == targets.len()
    &&& forall|e: int| 0 <= e < targets.len() ==> #[trigger] targets[e] < n
}

/// Edge `e` leaves cell `u`.
pub open spec fn edge_of(offsets: Seq<usize>, u: int, e: int) -> bool {
    offsets[u] <= e < offsets[u + 1]
}

/// `NoData` cells neither send nor receive flow.
pub open spec fn solid_apart(offsets: Seq<usize>, targets: Seq<usize>, solid: Seq<bool>) -> bool {
    &&& forall|u: int| 0 <= u < solid.len() && #[trigger] solid[u] ==> offsets[u] == offsets[u + 1]
    &&& forall|e: int| 0 <= e < targets.len() ==> !#[trigger] solid[targets[e] as int]
}

/// `order` settles valid cells, each once and after every cell that
/// sends it flow; every valid cell left out receives flow from a cell
/// left out.
pub open spec fn settle_order_ok(offsets: Seq<usize>, targets: Seq<usize>, solid: Seq<bool>, order: Seq<usize>) -> bool {
    let n = solid.len() as int;
    &&& order.no_duplicates()
    &&& forall|s: int| 0 <= s < order.len() ==> #[trigger] order[s] < n && !solid[order[s] as int]
    &&& forall|s: int, u: int, e: int|
        #![trigger edge_of(offsets, u, e), order[s]]
        0 <= s < order.len() && 0 <= u < n && edge_of(offsets, u, e) && targets[e] == order[s] ==> exists|r: int|
            0 <= r < s && #[trigger] order[r] == u
    &&& forall|t: int| 0 <= t < n && !solid[t] && !order.contains(t as usize) ==> exists|u: int, e: int|
        #![trigger edge_of(offsets, u, e), targets[e]]
        0 <= u < n && edge_of(offsets, u, e) && targets[e] == t && !order.contains(u as usize)
}

/// Edges below `m` into `t` not yet passed.
pub open spec fn live_into(targets: Seq<usize>, done: Seq<bool>, t: int, m: int) -> nat
    decreases m,
{
    if m <= 0 {
        0
    } else {
        live_into(targets, done, t, m - 1) + if targets[m - 1] == t && !done[m - 1] {
            1nat
        } else {
            0nat
        }
    }
}

proof fn lemma_live_mark(targets: Seq<usize>, done: Seq<bool>, e: int, t: int, m: int)
    requires
        0 <= e < m <= done.len(),
        !done[e],
    ensures
        live_into(targets, done.update(e, true), t, m) == live_into(targets, done, t, m) - if targets[e] == t {
            1int
        } else {
            0int
        },
    decreases m,
{
    if m - 1 > e {
        lemma_live_mark(targets, done, e, t, m - 1);
    } else {
        assert forall|k: int| 0 <= k < e implies done.update(e, true)[k] == done[k] by {}
        lemma_live_frame(targets, done, done.update(e, true), t, e);
    }
}

proof fn lemma_live_frame(targets: Seq<usize>, a: Seq<bool>, b: Seq<bool>, t: int, m: int)
    requires
        0 <= m <= a.len(),
        m <= b.len(),
        forall|k: int| 0 <= k < m ==> a[k] == b[k],
    ensures
        live_into(targets, a, t, m) == live_into(targets, b, t, m),
    decreases m,
{
    if m > 0 {
        lemma_live_frame(targets, a, b, t, m - 1);
    }
}

/// No live edge into `t` below `m`: every such edge is passed.
proof fn lemma_live_zero(targets: Seq<usize>, done: Seq<bool>, t: int, m: int, e: int)
    requires
        live_into(targets, done, t, m) == 0,
        0 <= e < m,
        targets[e] == t,
    ensures
        done[e],
    decreases m,
{
    if e < m - 1 {
        lemma_live_zero(targets, done, t, m - 1, e);
    }
}

/// A live edge into `t` below `m`.
proof fn lemma_live_witness(targets: Seq<usize>, done: Seq<bool>, t: int, m: int) -> (e: int)
    requires
        live_into(targets, done, t, m) > 0,
    ensures
        0 <= e < m,
        targets[e] == t,
        !done[e],
    decreases m,
{
    if live_into(targets, done, t, m - 1) > 0 {
        lemma_live_witness(targets, done, t, m - 1)
    } else {
        m - 1
    }
}

proof fn lemma_live_none(targets: Seq<usize>, done: Seq<bool>, t: int, m: int)
    requires
        0 <= m <= targets.len(),
        forall|k: int| 0 <= k < m ==> targets[k] != t,
    ensures
        live_into(targets, done, t, m) == 0,
    decreases m,
{
    if m > 0 {
        lemma_live_none(targets, done, t, m - 1);
    }
}

proof fn lemma_live_bound(targets: Seq<usize>, done: Seq<bool>, t: int, m: int)
    requires
        0 <= m,
    ensures
        live_into(targets, done, t, m) <= m,
    decreases m,
{
    if m > 0 {
        lemma_live_bound(targets, done, t, m - 1);
    }
}

/// Every edge leaves exactly one cell.
proof fn lemma_edge_source(offsets: Seq<usize>, targets: Seq<usize>, n: int, e: int) -> (u: int)
    requires
        csr_ok(offsets, targets, n),
        0 <= e < targets.len(),
    ensures
        0 <= u < n,
        edge_of(offsets, u, e),
{
    assert(n > 0) by {
        assert(targets[e] < n);
    }
    lemma_edge_source_from(offsets, targets, n, e, 0)
}

proof fn lemma_edge_source_from(offsets: Seq<usize>, targets: Seq<usize>, n: int, e: int, u: int) -> (w: int)
    requires
        csr_ok(offsets, targets, n),
        0 <= e < targets.len(),
        0 <= u < n,
        offsets[u] <= e,
    ensures
        u <= w < n,
        edge_of(offsets, w, e),
    decreases n - u,
{
    if e < offsets[u + 1] {
        u
    } else {
        if u + 1 == n {
            assert(offsets[n] == targets.len());
            assert(false);
        }
        lemma_edge_source_from(offsets, targets, n, e, u + 1)
    }
}


/// A ranking of the cells below `n` that drops along every edge: the
/// graph has no cycle.
pub open spec fn ranks_drop(offsets: Seq<usize>, targets: Seq<usize>, rank: Seq<int>, n: int) -> bool {
    &&& rank.len() == n
    &&& forall|u: int, e: int|
        #![trigger edge_of(offsets, u, e)]
        0 <= u < n && edge_of(offsets, u, e) ==> rank[targets[e] as int] < rank[u]
}

/// The largest value of `s` (0 when empty).
pub open spec fn seq_top(s: Seq<int>) -> int
    decreases s.len(),
{
    if s.len() == 0 {
        0
    } else {
        let t = seq_top(s.drop_last());
        if s.last() > t {
            s.last()
        } else {
            t
        }
    }
}

proof fn lemma_seq_top(s: Seq<int>, i: int)
    requires
        0 <= i < s.len(),
    ensures
        s[i] <= seq_top(s),
    decreases s.len(),
{
    if i < s.len() - 1 {
        lemma_seq_top(s.drop_last(), i);
    }
}

/// Law: on a graph without cycles, a settle order holds every valid
/// cell, so fractional accumulation passes all of the flow on.
pub proof fn lemma_settle_complete(
    offsets: Seq<usize>,
    targets: Seq<usize>,
    solid: Seq<bool>,
    order: Seq<usize>,
    rank: Seq<int>,
    t: int,
)
    requires
        csr_ok(offsets, targets, solid.len() as int),
        solid_apart(offsets, targets, solid),
        settle_order_ok(offsets, targets, solid, order),
        ranks_drop(offsets, targets, rank, solid.len() as int),
        0 <= t < solid.len(),
        !solid[t],
    ensures
        order.contains(t as usize),
    decreases seq_top(rank) - rank[t],
{
    let n = solid.len() as int;
    lemma_seq_top(rank, t);
    if !order.contains(t as usize) {
        let (u, e) = choose|u: int, e: int|
            #![trigger edge_of(offsets, u, e), targets[e]]
            0 <= u < n && edge_of(offsets, u, e) && targets[e] == t && !order.contains(u as usize);
        assert(rank[t] < rank[u]);
        lemma_seq_top(rank, u);
        assert(!solid[u]) by {
            if solid[u] {
                assert(offsets[u] == offsets[u + 1]);
            }
        }
        lemma_settle_complete(offsets, targets, solid, order, rank, u);
    }
}

/// The order in which fractional accumulation settles the cells of a
/// multiple-receiver flow graph: Kahn's algorithm, seeded with the valid
/// cells that receive no flow, taking the most recently queued cell
/// first and queueing a receiver once all its inflows have passed.
#[verifier::rlimit(60)]
pub fn settle_order(offsets: &Vec<usize>, targets: &Vec<usize>, solid: &Vec<bool>) -> (order: Vec<usize>)
    requires
        csr_ok(offsets@, targets@, solid@.len() as int),
        solid_apart(offsets@, targets@, solid@),
    ensures
        settle_order_ok(offsets@, targets@, solid@, order@),
{
    let n = solid.len();
    let m = targets.len();
    let ghost off = offsets@;
    let ghost tg = targets@;
    let ghost sd = solid@;
    let ghost mut done: Seq<bool> = Seq::new(m as nat, |e: int| false);
    let mut pending: Vec<usize> = Vec::new();
    let mut i: usize = 0;
    while i < n
        invariant
            i <= n,
            pending@.len() == i,
            forall|t: int| 0 <= t < i ==> #[trigger] pending@[t] == 0,
        decreases n - i,
    {
        pending.push(0);
        i += 1;
    }
    let mut e: usize = 0;
    while e < m
        invariant
            n == sd.len(),
            m == tg.len(),
            tg == targets@,
            csr_ok(off, tg, n as int),
            done == Seq::new(m as nat, |x: int| false),
            e <= m,
            pending@.len() == n,
            forall|t: int| 0 <= t < n ==> #[trigger] pending@[t] == live_into(tg, done, t, e as int),
        decreases m - e,
    {
        let t = targets[e];
        proof {
            lemma_live_bound(tg, done, t as int, e as int);
            assert forall|x: int| 0 <= x < n implies #[trigger] live_into(tg, done, x, e + 1) == live_into(tg, done, x, e as int) + if tg[e as int] == x {
                1nat
            } else {
                0nat
            } by {}
        }
        pending.set(t, pending[t] + 1);
        e += 1;
    }
    let mut queue: Vec<usize> = Vec::new();
    let ghost mut queued: Seq<bool> = Seq::new(n as nat, |t: int| false);
    proof {
        lemma_unmarked_none(queued);
    }
    let mut i: usize = 0;
    while i < n
        invariant
            n == sd.len(),
            sd == solid@,
            i <= n,
            pending@.len() == n,
            queued.len() == n,
            queue@.no_duplicates(),
            forall|q: int| 0 <= q < queue@.len() ==> #[trigger] queue@[q] < i && queued[queue@[q] as int],
            forall|t: int| 0 <= t < n ==> (#[trigger] queued[t] <==> (t < i && !sd[t] && pending@[t] == 0)),
            forall|t: int| 0 <= t < n && #[trigger] queued[t] ==> queue@.contains(t as usize),
        decreases n - i,
    {
        if !solid[i] && pending[i] == 0 {
            let ghost q0 = queue@;
            proof {
                lemma_unmarked_mark(queued, i as int);
                queued = queued.update(i as int, true);
            }
            queue.push(i);
            proof {
                assert forall|a: int, b: int| 0 <= a < queue@.len() && 0 <= b < queue@.len() && a != b implies queue@[a] != queue@[b] by {
                    if a < q0.len() && b < q0.len() {
                    } else if a < q0.len() {
                        assert(q0[a] < i);
                    } else {
                        assert(q0[b] < i);
                    }
                }
                assert forall|t: int| 0 <= t < n && #[trigger] queued[t] implies queue@.contains(t as usize) by {
                    if t == i as int {
                        assert(queue@[queue@.len() - 1] == i);
                    } else {
                        let q = choose|q: int| 0 <= q < q0.len() && q0[q] == t as usize;
                        assert(queue@[q] == t as usize);
                    }
                }
            }
        }
        i += 1;
    }
    let mut order: Vec<usize> = Vec::new();
    let ghost mut popped: Seq<bool> = Seq::new(n as nat, |t: int| false);
    let ghost mut pos: Seq<int> = Seq::new(n as nat, |t: int| -1int);
    proof {
        lemma_unmarked_none(popped);
    }
    while queue.len() > 0
        invariant
            n == sd.len(),
            m == tg.len(),
            sd == solid@,
            tg == targets@,
            off == offsets@,
            csr_ok(off, tg, n as int),
            solid_apart(off, tg, sd),
            pending@.len() == n,
            done.len() == m,
            popped.len() == n,
            queued.len() == n,
            pos.len() == n,
            forall|t: int| 0 <= t < n ==> #[trigger] pending@[t] == live_into(tg, done, t, m as int),
            forall|u: int, x: int| 0 <= u < n && #[trigger] edge_of(off, u, x) ==> (done[x] == popped[u]),
            queue@.no_duplicates(),
            forall|q: int| 0 <= q < queue@.len() ==> #[trigger] queue@[q] < n && queued[queue@[q] as int] && !popped[queue@[q] as int],
            forall|t: int| 0 <= t < n && #[trigger] queued[t] && !popped[t] ==> queue@.contains(t as usize),
            forall|t: int| 0 <= t < n && #[trigger] queued[t] ==> pending@[t] == 0 && !sd[t],
            forall|t: int| 0 <= t < n && !sd[t] && #[trigger] pending@[t] == 0 ==> queued[t],
            forall|t: int| 0 <= t < n && #[trigger] popped[t] ==> queued[t],
            forall|t: int| 0 <= t < n ==> (#[trigger] pos[t] >= 0 <==> popped[t]),
            forall|t: int| 0 <= t < n && #[trigger] popped[t] ==> pos[t] < order@.len() && order@[pos[t]] == t,
            forall|s: int| 0 <= s < order@.len() ==> #[trigger] order@[s] < n && pos[order@[s] as int] == s,
            forall|s: int, u: int, x: int|
                #![trigger edge_of(off, u, x), order@[s]]
                0 <= s < order@.len() && 0 <= u < n && edge_of(off, u, x) && tg[x] == order@[s] ==> popped[u] && pos[u] < s,
        decreases unmarked(queued) + unmarked(popped),
    {
        let ghost qfull = queue@;
        let u = queue.pop().unwrap();
        let ghost q1 = queue@;
        let ghost measure0 = unmarked(queued) + unmarked(popped);
        let ghost ord0 = order@;
        proof {
            assert(qfull[qfull.len() - 1] == u);
            assert(!q1.contains(u)) by {
                if q1.contains(u) {
                    let q = choose|q: int| 0 <= q < q1.len() && q1[q] == u;
                    assert(qfull[q] == u);
                }
            }
            // every inflow of u has passed: its senders come first
            assert forall|w: int, x: int| 0 <= w < n && #[trigger] edge_of(off, w, x) && tg[x] == u implies popped[w] && pos[w] < ord0.len() by {
                assert(pending@[u as int] == 0);
                lemma_live_zero(tg, done, u as int, m as int, x);
            }
            assert forall|y: int| off[u as int] <= y < off[u + 1] implies !#[trigger] done[y] by {
                assert(edge_of(off, u as int, y));
            }
            lemma_unmarked_mark(popped, u as int);
            popped = popped.update(u as int, true);
            pos = pos.update(u as int, ord0.len() as int);
        }
        order.push(u);
        proof {
            assert forall|s: int, w: int, x: int|
                #![trigger edge_of(off, w, x), order@[s]]
                0 <= s < order@.len() && 0 <= w < n && edge_of(off, w, x) && tg[x] == order@[s] implies popped[w] && pos[w] < s by {
                if s < ord0.len() {
                    assert(order@[s] == ord0[s]);
                } else {
                    assert(order@[s] == u);
                }
            }
            assert forall|t: int| 0 <= t < n && #[trigger] queued[t] && !popped[t] implies queue@.contains(t as usize) by {
                assert(qfull.contains(t as usize));
                let q = choose|q: int| 0 <= q < qfull.len() && qfull[q] == t as usize;
                assert(q < q1.len());
                assert(queue@[q] == t as usize);
            }
            assert forall|s: int| 0 <= s < order@.len() implies #[trigger] order@[s] < n && pos[order@[s] as int] == s by {
                if s < ord0.len() {
                    assert(order@[s] == ord0[s]);
                    assert(ord0[s] != u) by {
                        assert(popped.update(u as int, false)[ord0[s] as int] || pos[ord0[s] as int] >= 0);
                    }
                }
            }
        }
        let lo = offsets[u];
        let hi = offsets[u + 1];
        let mut x = lo;
        while x < hi
            invariant
                n == sd.len(),
                m == tg.len(),
                sd == solid@,
                tg == targets@,
                off == offsets@,
                csr_ok(off, tg, n as int),
                solid_apart(off, tg, sd),
                u < n,
                lo == off[u as int],
                hi == off[u + 1],
                lo <= x <= hi,
                hi <= m,
                pending@.len() == n,
                done.len() == m,
                popped.len() == n,
                queued.len() == n,
                pos.len() == n,
                popped[u as int],
                forall|t: int| 0 <= t < n ==> #[trigger] pending@[t] == live_into(tg, done, t, m as int),
                forall|w: int, y: int| 0 <= w < n && w != u && #[trigger] edge_of(off, w, y) ==> (done[y] == popped[w]),
                forall|y: int| lo <= y < hi ==> (#[trigger] done[y] <==> y < x),
                queue@.no_duplicates(),
                forall|q: int| 0 <= q < queue@.len() ==> #[trigger] queue@[q] < n && queued[queue@[q] as int] && !popped[queue@[q] as int],
                forall|t: int| 0 <= t < n && #[trigger] queued[t] && !popped[t] ==> queue@.contains(t as usize),
                forall|t: int| 0 <= t < n && #[trigger] queued[t] ==> pending@[t] == 0 && !sd[t],
                forall|t: int| 0 <= t < n && !sd[t] && #[trigger] pending@[t] == 0 ==> queued[t],
                forall|t: int| 0 <= t < n && #[trigger] popped[t] ==> queued[t],
                unmarked(queued) + unmarked(popped) < measure0,
            decreases hi - x,
        {
            let t = targets[x];
            proof {
                assert(edge_of(off, u as int, x as int));
                assert(!done[x as int]);
                lemma_live_mark(tg, done, x as int, t as int, m as int);
                assert forall|z: int| 0 <= z < n && z != t as int implies live_into(tg, done.update(x as int, true), z, m as int) == live_into(tg, done, z, m as int) by {
                    lemma_live_mark(tg, done, x as int, z, m as int);
                }
            }
            let ghost done0 = done;
            let ghost pend0 = pending@;
            pending.set(t, pending[t] - 1);
            proof {
                done = done.update(x as int, true);
                assert forall|w: int, y: int| 0 <= w < n && w != u && #[trigger] edge_of(off, w, y) implies (done[y] == popped[w]) by {
                    assert(y != x as int) by {
                        assert(edge_of(off, u as int, x as int));
                        if u < w {
                            assert(off[u + 1] <= off[w]);
                        } else {
                            assert(off[w + 1] <= off[u as int]);
                        }
                    }
                }
            }
            if pending[t] == 0 {
                proof {
                    assert(!queued[t as int]) by {
                        if queued[t as int] {
                            assert(pend0[t as int] == 0);
                        }
                    }
                    assert(!sd[t as int]);
                    assert(!popped[t as int]);
                    lemma_unmarked_mark(queued, t as int);
                    queued = queued.update(t as int, true);
                }
                let ghost qk = queue@;
                queue.push(t);
                proof {
                    assert(!qk.contains(t)) by {
                        if qk.contains(t) {
                            let q = choose|q: int| 0 <= q < qk.len() && qk[q] == t;
                        }
                    }
                    assert forall|a: int, b: int| 0 <= a < queue@.len() && 0 <= b < queue@.len() && a != b implies queue@[a] != queue@[b] by {
                        if a < qk.len() && b < qk.len() {
                        } else if a < qk.len() {
                            assert(qk.contains(queue@[a]));
                        } else {
                            assert(qk.contains(queue@[b]));
                        }
                    }
                    assert forall|z: int| 0 <= z < n && #[trigger] queued[z] && !popped[z] implies queue@.contains(z as usize) by {
                        if z == t as int {
                            assert(queue@[queue@.len() - 1] == t);
                        } else {
                            let q = choose|q: int| 0 <= q < qk.len() && qk[q] == z as usize;
                            assert(queue@[q] == z as usize);
                        }
                    }
                }
            }
            x += 1;
        }
        proof {
            assert forall|w: int, y: int| 0 <= w < n && #[trigger] edge_of(off, w, y) implies (done[y] == popped[w]) by {
                if w == u as int {
                    assert(lo <= y < hi);
                }
            }
        }
    }
    proof {
        assert forall|a: int, b: int| 0 <= a < order@.len() && 0 <= b < order@.len() && a != b implies order@[a] != order@[b] by {
            assert(pos[order@[a] as int] == a);
            assert(pos[order@[b] as int] == b);
        }
        assert forall|s: int| 0 <= s < order@.len() implies #[trigger] order@[s] < n && !sd[order@[s] as int] by {
            assert(pos[order@[s] as int] == s);
            assert(popped[order@[s] as int]);
            assert(queued[order@[s] as int]);
        }
        assert forall|s: int, w: int, y: int|
            #![trigger edge_of(off, w, y), order@[s]]
            0 <= s < order@.len() && 0 <= w < n && edge_of(off, w, y) && tg[y] == order@[s] implies exists|r: int|
                0 <= r < s && #[trigger] order@[r] == w by {
            assert(popped[w] && pos[w] < s);
            assert(order@[pos[w]] == w);
        }
        assert forall|t: int| 0 <= t < n && !sd[t] && !order@.contains(t as usize) implies exists|w: int, y: int|
            #![trigger edge_of(off, w, y), tg[y]]
            0 <= w < n && edge_of(off, w, y) && tg[y] == t && !order@.contains(w as usize) by {
            assert(!popped[t]) by {
                if popped[t] {
                    assert(order@[pos[t]] == t as usize);
                }
            }
            assert(!queued[t]) by {
                if queued[t] {
                    assert(queue@.contains(t as usize));
                    let q = choose|q: int| 0 <= q < queue@.len() && queue@[q] == t as usize;
                }
            }
            assert(pending@[t] != 0);
            let y = lemma_live_witness(tg, done, t, m as int);
            let w = lemma_edge_source(off, tg, n as int, y);
            assert(!popped[w]);
            assert(!order@.contains(w as usize)) by {
                if order@.contains(w as usize) {
                    let s = choose|s: int| 0 <= s < order@.len() && order@[s] == w as usize;
                    assert(pos[w] == s);
                }
            }
        }
    }
    order
}

/// The valid neighbours of `i` strictly lower than it, in the first `k`
/// D8 directions, in direction order.
pub open spec fn lower_list(rows: int, cols: int, keys: Seq<u32>, solid: Seq<bool>, i: int, k: int) -> Seq<usize>
    decreases k,
{
    if k <= 0 {
        Seq::empty()
    } else {
        let prev = lower_list(rows, cols, keys, solid, i, k - 1);
        if lower_at(rows, cols, keys, solid, i, k - 1) {
            prev.push(neighbour(rows, cols, i, k - 1)->0 as usize)
        } else {
            prev
        }
    }
}

/// The cell that flat direction code `d` of `i` leads to (none for 0).
pub open spec fn flat_receiver(rows: int, cols: int, i: int, d: int) -> Seq<usize> {
    if d == 0 {
        Seq::empty()
    } else {
        seq![neighbour(rows, cols, i, d - 1)->0 as usize]
    }
}

/// `recv` is what the flat drainage of `i` leads to.
pub open spec fn flat_recv_ok(rows: int, cols: int, keys: Seq<u32>, solid: Seq<bool>, tl: Seq<u32>, fh: Seq<u32>, i: int, recv: Seq<usize>) -> bool {
    exists|d: int| #[trigger] flat_dir_ok(rows, cols, keys, solid, tl, fh, i, d) && recv == flat_receiver(rows, cols, i, d)
}

/// The MFD receivers of cell `i`: none on `NoData`; otherwise its
/// strictly lower valid neighbours in D8 order; failing those, the cell
/// its flat drains to, if any.
pub open spec fn mfd_receivers_ok(
    rows: int,
    cols: int,
    keys: Seq<u32>,
    solid: Seq<bool>,
    flats: Option<(Seq<u32>, Seq<u32>)>,
    i: int,
    recv: Seq<usize>,
) -> bool {
    if solid[i] {
        recv.len() == 0
    } else if lower_list(rows, cols, keys, solid, i, 8).len() > 0 {
        recv == lower_list(rows, cols, keys, solid, i, 8)
    } else {
        match flats {
            None => recv.len() == 0,
            Some(f) => flat_recv_ok(rows, cols, keys, solid, f.0, f.1, i, recv),
        }
    }
}

/// Every cell of a lower list is a lower neighbour.
proof fn lemma_lower_list(rows: int, cols: int, keys: Seq<u32>, solid: Seq<bool>, i: int, k: int, p: int)
    requires
        grid_ok(rows, cols),
        0 <= i < rows * cols,
        k <= 8,
        0 <= p < lower_list(rows, cols, keys, solid, i, k).len(),
    ensures
        exists|q: int| 0 <= q < k && #[trigger] lower_at(rows, cols, keys, solid, i, q)
            && neighbour(rows, cols, i, q) == Some(lower_list(rows, cols, keys, solid, i, k)[p] as int),
    decreases k,
{
    let prev = lower_list(rows, cols, keys, solid, i, k - 1);
    if p < prev.len() {
        lemma_lower_list(rows, cols, keys, solid, i, k - 1, p);
        let q = choose|q: int| 0 <= q < k - 1 && #[trigger] lower_at(rows, cols, keys, solid, i, q)
            && neighbour(rows, cols, i, q) == Some(prev[p] as int);
        assert(lower_list(rows, cols, keys, solid, i, k)[p] == prev[p]);
        assert(lower_at(rows, cols, keys, solid, i, q));
    } else {
        assert(lower_at(rows, cols, keys, solid, i, k - 1));
        lemma_neighbour_adjacent(rows, cols, i, k - 1);
        assert(lower_list(rows, cols, keys, solid, i, k)[p] == neighbour(rows, cols, i, k - 1)->0 as usize);
    }
}

/// The receivers of every cell of an MFD network, in compressed form:
/// cell `i` sends flow to `targets[offsets[i]..offsets[i + 1]]`.
///
/// `keys` are the elevation keys of the filled surface and `flats` its
/// flat fields.
pub fn mfd_receivers(keys: &Vec<u32>, solid: &Vec<bool>, rows: usize, cols: usize, flats: &Option<FlatOffsets>) -> (res: (
    Vec<usize>,
    Vec<usize>,
))
    requires
        grid_ok(rows as int, cols as int),
        keys@.len() == rows * cols,
        solid@.len() == rows * cols,
        match flats {
            Some(f) => f.rows_view() == rows && f.cols_view() == cols && f.to_lower_view().len() == rows * cols
                && f.from_higher_view().len() == rows * cols,
            None => true,
        },
    ensures
        csr_ok(res.0@, res.1@, rows * cols),
        solid_apart(res.0@, res.1@, solid@),
        forall|i: int|
            0 <= i < rows * cols ==> #[trigger] mfd_receivers_ok(
                rows as int,
                cols as int,
                keys@,
                solid@,
                flat_views(*flats),
                i,
                res.1@.subrange(res.0@[i] as int, res.0@[i + 1] as int),
            ),
{
    let n = rows * cols;
    let ghost r = rows as int;
    let ghost c = cols as int;
    let ghost fv = flat_views(*flats);
    let mut offsets: Vec<usize> = Vec::new();
    let mut targets: Vec<usize> = Vec::new();
    offsets.push(0);
    let mut i: usize = 0;
    while i < n
        invariant
            grid_ok(r, c),
            r == rows,
            c == cols,
            n == rows * cols,
            i <= n,
            keys@.len() == n,
            solid@.len() == n,
            fv == flat_views(*flats),
            match flats {
                Some(f) => f.rows_view() == rows && f.cols_view() == cols && f.to_lower_view().len() == rows * cols
                    && f.from_higher_view().len() == rows * cols,
                None => true,
            },
            offsets@.len() == i + 1,
            offsets@[0] == 0,
            forall|u: int, v: int| 0 <= u <= v <= i ==> #[trigger] offsets@[u] <= #[trigger] offsets@[v],
            offsets@[i as int] == targets@.len(),
            forall|e: int| 0 <= e < targets@.len() ==> #[trigger] targets@[e] < n && !solid@[targets@[e] as int],
            forall|u: int| 0 <= u < i && #[trigger] solid@[u] ==> offsets@[u] == offsets@[u + 1],
            forall|u: int|
                0 <= u < i ==> #[trigger] mfd_receivers_ok(r, c, keys@, solid@, fv, u, targets@.subrange(offsets@[u] as int, offsets@[u + 1] as int)),
        decreases n - i,
    {
        let ghost start = targets@;
        let ghost off0 = offsets@;
        if !solid[i] {
            let mut k: usize = 0;
            while k < 8
                invariant
                    grid_ok(r, c),
                    r == rows,
                    c == cols,
                    n == rows * cols,
                    i < n,
                    k <= 8,
                    keys@.len() == n,
                    solid@.len() == n,
                    targets@ == start + lower_list(r, c, keys@, solid@, i as int, k as int),
                    forall|e: int| 0 <= e < targets@.len() ==> #[trigger] targets@[e] < n && !solid@[targets@[e] as int],
                decreases 8 - k,
            {
                match d8_neighbour(rows, cols, i, k) {
                    Some(j) => {
                        proof {
                            lemma_neighbour_adjacent(r, c, i as int, k as int);
                        }
                        if !solid[j] && keys[j] < keys[i] {
                            targets.push(j);
                        }
                    },
                    None => {},
                }
                proof {
                    assert(targets@ =~= start + lower_list(r, c, keys@, solid@, i as int, k + 1));
                }
                k += 1;
            }
            if targets.len() == offsets[i] {
                match flats {
                    Some(f) => {
                        let fd = f.direction(i, keys, solid);
                        match fd {
                            Some(x) => {
                                proof {
                                    assert(flat_candidate(r, c, keys@, solid@, f.to_lower_view(), i as int, x - 1));
                                }
                                match d8_neighbour(rows, cols, i, (x - 1) as usize) {
                                    Some(j) => {
                                        proof {
                                            lemma_neighbour_adjacent(r, c, i as int, (x - 1) as int);
                                        }
                                        targets.push(j);
                                    },
                                    None => {},
                                }
                                proof {
                                    assert(targets@.subrange(start.len() as int, targets@.len() as int) =~= flat_receiver(r, c, i as int, x as int));
                                    assert(lower_list(r, c, keys@, solid@, i as int, 8).len() == 0);
                                    assert(fv == Some((f.to_lower_view(), f.from_higher_view())));
                                    assert(flat_recv_ok(r, c, keys@, solid@, f.to_lower_view(), f.from_higher_view(), i as int,
                                        targets@.subrange(start.len() as int, targets@.len() as int))) by {
                                        assert(flat_dir_ok(r, c, keys@, solid@, f.to_lower_view(), f.from_higher_view(), i as int, x as int));
                                    }
                                    assert(mfd_receivers_ok(r, c, keys@, solid@, fv, i as int, targets@.subrange(start.len() as int, targets@.len() as int)));
                                }
                            },
                            None => {
                                proof {
                                    assert(targets@.subrange(start.len() as int, targets@.len() as int) =~= flat_receiver(r, c, i as int, 0));
                                    assert(lower_list(r, c, keys@, solid@, i as int, 8).len() == 0);
                                    assert(fv == Some((f.to_lower_view(), f.from_higher_view())));
                                    assert(flat_recv_ok(r, c, keys@, solid@, f.to_lower_view(), f.from_higher_view(), i as int,
                                        targets@.subrange(start.len() as int, targets@.len() as int))) by {
                                        assert(flat_dir_ok(r, c, keys@, solid@, f.to_lower_view(), f.from_higher_view(), i as int, 0));
                                    }
                                    assert(mfd_receivers_ok(r, c, keys@, solid@, fv, i as int, targets@.subrange(start.len() as int, targets@.len() as int)));
                                }
                            },
                        }
                    },
                    None => {
                        proof {
                            assert(lower_list(r, c, keys@, solid@, i as int, 8).len() == 0);
                            assert(mfd_receivers_ok(r, c, keys@, solid@, fv, i as int, targets@.subrange(start.len() as int, targets@.len() as int)));
                        }
                    },
                }
            } else {
                proof {
                    assert(targets@.subrange(start.len() as int, targets@.len() as int) =~= lower_list(r, c, keys@, solid@, i as int, 8));
                    assert(mfd_receivers_ok(r, c, keys@, solid@, fv, i as int, targets@.subrange(start.len() as int, targets@.len() as int)));
                }
            }
        } else {
            proof {
                assert(targets@.subrange(start.len() as int, targets@.len() as int).len() == 0);
                assert(mfd_receivers_ok(r, c, keys@, solid@, fv, i as int, targets@.subrange(start.len() as int, targets@.len() as int)));
            }
        }
        offsets.push(targets.len());
        proof {
            assert forall|u: int| 0 <= u <= i implies #[trigger] mfd_receivers_ok(r, c, keys@, solid@, fv, u, targets@.subrange(offsets@[u] as int, offsets@[u + 1] as int)) by {
                if u < i {
                    assert(targets@.subrange(offsets@[u] as int, offsets@[u + 1] as int) =~= start.subrange(off0[u] as int, off0[u + 1] as int));
                } else {
                    assert(offsets@[u] == start.len());
                    assert(offsets@[u + 1] == targets@.len());
                    if solid@[u] {
                        assert(targets@.subrange(offsets@[u] as int, offsets@[u + 1] as int).len() == 0);
                    }
                }
            }
        }
        i += 1;
    }
    (offsets, targets)
}

/// Law: MFD accumulation passes all of the flow on. With the receivers
/// of a filled surface, every valid cell drains to cells of lower
/// elevation, or of equal elevation nearer the flat's outlet, so the
/// receiver graph has no cycle and the settle order holds every valid
/// cell.
pub proof fn lemma_mfd_settles_every_cell(
    rows: int,
    cols: int,
    keys: Seq<u32>,
    solid: Seq<bool>,
    flats: Option<(Seq<u32>, Seq<u32>)>,
    offsets: Seq<usize>,
    targets: Seq<usize>,
    order: Seq<usize>,
    t: int,
)
    requires
        grid_ok(rows, cols),
        keys.len() == rows * cols,
        solid.len() == rows * cols,
        csr_ok(offsets, targets, rows * cols),
        solid_apart(offsets, targets, solid),
        forall|i: int|
            0 <= i < rows * cols ==> #[trigger] mfd_receivers_ok(rows, cols, keys, solid, flats, i, targets.subrange(offsets[i] as int, offsets[i + 1] as int)),
        match flats {
            Some(f) => f.0.len() == rows * cols,
            None => true,
        },
        settle_order_ok(offsets, targets, solid, order),
        0 <= t < rows * cols,
        !solid[t],
    ensures
        order.contains(t as usize),
{
    let n = rows * cols;
    let tl = outlet_field(n, flats);
    let rank = Seq::new(n as nat, |i: int| flow_rank(keys, tl, i));
    assert forall|u: int, e: int| 0 <= u < n && #[trigger] edge_of(offsets, u, e) implies rank[targets[e] as int] < rank[u] by {
        let recv = targets.subrange(offsets[u] as int, offsets[u + 1] as int);
        assert(mfd_receivers_ok(rows, cols, keys, solid, flats, u, recv));
        assert(recv[e - offsets[u]] == targets[e]);
        let j = targets[e] as int;
        assert(!solid[u]) by {
            if solid[u] {
                assert(offsets[u] == offsets[u + 1]);
            }
        }
        if lower_list(rows, cols, keys, solid, u, 8).len() > 0 {
            lemma_lower_list(rows, cols, keys, solid, u, 8, e - offsets[u]);
            assert(keys[j] < keys[u]);
            assert(tl[j] < 0x1_0000_0000int && tl[u] >= 0);
            assert(flow_rank(keys, tl, j) < flow_rank(keys, tl, u));
            assert(rank[j] == flow_rank(keys, tl, j));
            assert(rank[u] == flow_rank(keys, tl, u));
        } else {
            match flats {
                None => {},
                Some(f) => {
                    assert(flat_recv_ok(rows, cols, keys, solid, f.0, f.1, u, recv));
                    let d = choose|d: int| #[trigger] flat_dir_ok(rows, cols, keys, solid, f.0, f.1, u, d) && recv == flat_receiver(rows, cols, u, d);
                    assert(recv.len() > 0);
                    assert(d != 0);
                    assert(flat_candidate(rows, cols, keys, solid, f.0, u, d - 1));
                    lemma_neighbour_adjacent(rows, cols, u, d - 1);
                    assert(tl == f.0);
                    assert(recv[0] == targets[e]);
                    assert(flow_rank(keys, tl, j) < flow_rank(keys, tl, u));
                },
            }
        }
    }
    lemma_settle_complete(offsets, targets, solid, order, rank, t);
}

} // verus!
