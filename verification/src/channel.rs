//! Flow paths to a set of target cells (the stream network, or any target
//! mask): the target cell where each cell's flow path first enters the
//! targets, and an order in which per-cell path sums (travel distance,
//! downslope impedance) can be accumulated from the targets upstream.
//!
//! The links may come from any single-path routing (D8 directions, or
//! the primary receiver of a D-infinity network); cycles are allowed, and
//! cells whose path never meets a target have no entry.

use vstd::prelude::*;
use crate::graph::{
    lemma_unmarked_mark, lemma_unmarked_none, lemma_walk_pit_absorbs, lemma_walk_shift,
    lemma_walk_step, links_ok, unmarked, walk, PIT,
};
use crate::network::{compute_upstream, solid_isolated, upstream_ok};

verus! {

/// The walk from `i` stands on a target cell after `k` steps.
pub open spec fn hits(next: Seq<usize>, target: Seq<bool>, i: int, k: nat) -> bool {
    0 <= walk(next, i, k) < next.len() && target[walk(next, i, k)]
}

/// `k` is the first step at which the walk from `i` stands on a target.
pub open spec fn first_hit(next: Seq<usize>, target: Seq<bool>, i: int, k: nat) -> bool {
    hits(next, target, i, k) && forall|m: nat| m < k ==> !#[trigger] hits(next, target, i, m)
}

/// The first target cell on the flow path from `i` (itself when it is a
/// target), or `PIT` when the path never meets one.
pub open spec fn path_entry(next: Seq<usize>, target: Seq<bool>, i: int) -> int {
    if exists|k: nat| #[trigger] first_hit(next, target, i, k) {
        walk(next, i, choose|k: nat| #[trigger] first_hit(next, target, i, k))
    } else {
        PIT as int
    }
}

/// Channel entry as reported: `NoData` cells that are no targets have
/// none.
pub open spec fn entry_of(next: Seq<usize>, target: Seq<bool>, solid: Seq<bool>, i: int) -> int {
    if !target[i] && solid[i] {
        PIT as int
    } else {
        path_entry(next, target, i)
    }
}

/// `order` lists each cell that reaches a target without being one, once,
/// after the cell it drains into unless that one is a target.
pub open spec fn entry_order_ok(next: Seq<usize>, target: Seq<bool>, entry: Seq<usize>, order: Seq<usize>) -> bool {
    &&& order.no_duplicates()
    &&& forall|t: int| 0 <= t < order.len() ==> {
        &&& #[trigger] order[t] < next.len()
        &&& !target[order[t] as int]
        &&& entry[order[t] as int] != PIT
        &&& next[order[t] as int] != PIT
        &&& (target[next[order[t] as int] as int] || exists|s: int| 0 <= s < t && #[trigger] order[s] == next[order[t] as int])
    }
    &&& forall|i: int| 0 <= i < next.len() && !target[i] && entry[i] != PIT ==> #[trigger] order.contains(i as usize)
}

/// Where each cell's flow path enters the targets, and a resolution order.
pub struct ChannelPaths {
    /// Entry (target) cell per cell; `PIT` when unreachable.
    pub entry: Vec<usize>,
    /// Reachable non-target cells, each after the cell it drains into.
    pub order: Vec<usize>,
}

/// The first hit is unique.
proof fn lemma_first_hit_unique(next: Seq<usize>, target: Seq<bool>, i: int, a: nat, b: nat)
    requires
        first_hit(next, target, i, a),
        first_hit(next, target, i, b),
    ensures
        a == b,
{
    if a < b {
        assert(!hits(next, target, i, a));
    } else if b < a {
        assert(!hits(next, target, i, b));
    }
}

/// A target is its own entry.
proof fn lemma_entry_target(next: Seq<usize>, target: Seq<bool>, i: int)
    requires
        0 <= i < next.len(),
        target[i],
    ensures
        path_entry(next, target, i) == i,
{
    assert(walk(next, i, 0) == i);
    assert(first_hit(next, target, i, 0));
    let k = choose|k: nat| #[trigger] first_hit(next, target, i, k);
    lemma_first_hit_unique(next, target, i, k, 0);
}

/// One step of the path: hitting after `m + 1` steps from `j` is hitting
/// after `m` steps from the cell `j` drains into.
proof fn lemma_hits_shift(next: Seq<usize>, target: Seq<bool>, j: int, m: nat)
    requires
        0 <= j < next.len(),
        next[j] != PIT,
    ensures
        hits(next, target, j, m + 1) == hits(next, target, next[j] as int, m),
{
    lemma_walk_shift(next, j, m);
}

/// A cell that is no target enters the targets where the cell it drains
/// into does.
proof fn lemma_entry_step(next: Seq<usize>, target: Seq<bool>, j: int)
    requires
        0 <= j < next.len(),
        next[j] != PIT,
        !target[j],
    ensures
        path_entry(next, target, j) == path_entry(next, target, next[j] as int),
{
    let c = next[j] as int;
    assert(walk(next, j, 0) == j);
    assert(!hits(next, target, j, 0));
    if exists|k: nat| #[trigger] first_hit(next, target, c, k) {
        let kc = choose|k: nat| #[trigger] first_hit(next, target, c, k);
        lemma_hits_shift(next, target, j, kc);
        assert forall|m: nat| m < kc + 1 implies !#[trigger] hits(next, target, j, m) by {
            if m > 0 {
                lemma_hits_shift(next, target, j, (m - 1) as nat);
                assert(!hits(next, target, c, (m - 1) as nat));
            }
        }
        assert(first_hit(next, target, j, kc + 1));
        let kj = choose|k: nat| #[trigger] first_hit(next, target, j, k);
        lemma_first_hit_unique(next, target, j, kj, kc + 1);
        lemma_walk_shift(next, j, kc);
    } else {
        if exists|k: nat| #[trigger] first_hit(next, target, j, k) {
            let kj = choose|k: nat| #[trigger] first_hit(next, target, j, k);
            assert(kj > 0);
            lemma_hits_shift(next, target, j, (kj - 1) as nat);
            assert forall|m: nat| m < (kj - 1) as nat implies !#[trigger] hits(next, target, c, m) by {
                lemma_hits_shift(next, target, j, m);
            }
            assert(first_hit(next, target, c, (kj - 1) as nat));
        }
    }
}

/// Once the sweep is over, every cell whose path meets a target has been
/// reached: induction on the first hit.
proof fn lemma_reached(
    next: Seq<usize>,
    target: Seq<bool>,
    up: Seq<Vec<usize>>,
    seen: Seq<bool>,
    popped: Seq<bool>,
    i: int,
    k: nat,
)
    requires
        links_ok(next),
        next.len() < PIT,
        upstream_ok(next, up),
        seen.len() == next.len(),
        popped.len() == next.len(),
        target.len() == next.len(),
        forall|c: int| 0 <= c < next.len() && #[trigger] target[c] ==> seen[c],
        forall|c: int| 0 <= c < next.len() && #[trigger] seen[c] ==> popped[c],
        forall|c: int, t: int|
            0 <= c < next.len() && popped[c] && 0 <= t < up[c]@.len() ==> target[#[trigger] up[c]@[t] as int] || seen[up[c]@[t] as int],
        0 <= i < next.len(),
        first_hit(next, target, i, k),
    ensures
        seen[i],
    decreases k,
{
    if k == 0 {
        assert(walk(next, i, 0) == i);
    } else {
        assert(walk(next, i, 0) == i);
        assert(!hits(next, target, i, 0));
        if next[i] == PIT {
            lemma_walk_step(next, i, 0);
            assert(walk(next, i, 1) == PIT);
            lemma_walk_pit_absorbs(next, i, 1, k);
            assert(false);
        }
        let c = next[i] as int;
        lemma_hits_shift(next, target, i, (k - 1) as nat);
        assert forall|m: nat| m < (k - 1) as nat implies !#[trigger] hits(next, target, c, m) by {
            lemma_hits_shift(next, target, i, m);
        }
        assert(first_hit(next, target, c, (k - 1) as nat));
        lemma_reached(next, target, up, seen, popped, c, (k - 1) as nat);
        assert(up[c]@.contains(i as usize));
        let t = choose|t: int| 0 <= t < up[c]@.len() && up[c]@[t] == i as usize;
        assert(target[up[c]@[t] as int] || seen[up[c]@[t] as int]);
    }
}


/// Sweep state of cell `j`: reached cells carry their entry.
spec fn cell_ok(nx: Seq<usize>, tg: Seq<bool>, solid: Seq<bool>, entry: Seq<usize>, seen: Seq<bool>, j: int) -> bool {
    &&& (seen[j] <==> entry[j] != PIT)
    &&& seen[j] ==> entry[j] as int == path_entry(nx, tg, j) && entry[j] < nx.len() && (tg[j] || !solid[j])
    &&& tg[j] ==> seen[j]
}

/// Position `t` of the resolution order is sound.
spec fn order_at(nx: Seq<usize>, tg: Seq<bool>, seen: Seq<bool>, pos: Seq<int>, order: Seq<usize>, t: int) -> bool {
    &&& order[t] < nx.len()
    &&& !tg[order[t] as int]
    &&& seen[order[t] as int]
    &&& pos[order[t] as int] == t
    &&& nx[order[t] as int] != PIT
    &&& (tg[nx[order[t] as int] as int] || 0 <= pos[nx[order[t] as int] as int] < t)
}

/// Trace every cell's flow path to the target cells.
///
/// `next[i]` is the cell `i` drains into (`PIT` for none); `target`
/// marks the destination cells (stream cells or an explicit mask);
/// `NoData` cells start no path. A target is its own entry; a cell whose
/// path ends in a pit, or circles without meeting a target, has none.
#[verifier::rlimit(40)]
pub fn trace_to_targets(next: &Vec<usize>, target: &Vec<bool>, solid: &Vec<bool>) -> (paths: ChannelPaths)
    requires
        next@.len() < PIT,
        target@.len() == next@.len(),
        links_ok(next@),
        solid_isolated(next@, solid@),
    ensures
        paths.entry@.len() == next@.len(),
        forall|i: int| 0 <= i < next@.len() ==> #[trigger] paths.entry@[i] as int == entry_of(next@, target@, solid@, i),
        entry_order_ok(next@, target@, paths.entry@, paths.order@),
{
    let n = next.len();
    let ghost nx = next@;
    let ghost tg = target@;
    let ghost sd = solid@;
    let up = compute_upstream(next, n);
    let mut entry: Vec<usize> = Vec::new();
    let mut queue: Vec<usize> = Vec::new();
    let ghost mut seen: Seq<bool> = Seq::new(n as nat, |j: int| false);
    proof {
        lemma_unmarked_none(seen);
    }
    let mut i: usize = 0;
    while i < n
        invariant
            n == nx.len(),
            nx == next@,
            tg == target@,
            tg.len() == n,
            i <= n,
            entry@.len() == i,
            seen.len() == n,
            forall|j: int| 0 <= j < i ==> (#[trigger] seen[j] <==> tg[j]),
            forall|j: int| i <= j < n ==> !#[trigger] seen[j],
            forall|j: int| 0 <= j < i ==> #[trigger] entry@[j] == if tg[j] { j as usize } else { PIT },
            forall|j: int| 0 <= j < n && #[trigger] seen[j] ==> queue@.contains(j as usize),
            forall|t: int| 0 <= t < queue@.len() ==> #[trigger] queue@[t] < i && seen[queue@[t] as int],
            queue@.len() == n - unmarked(seen),
        decreases n - i,
    {
        if target[i] {
            entry.push(i);
            let ghost q0 = queue@;
            proof {
                lemma_unmarked_mark(seen, i as int);
                seen = seen.update(i as int, true);
            }
            queue.push(i);
            proof {
                assert forall|j: int| 0 <= j < n && #[trigger] seen[j] implies queue@.contains(j as usize) by {
                    if j == i as int {
                        assert(queue@[queue@.len() - 1] == i);
                    } else {
                        let t = choose|t: int| 0 <= t < q0.len() && q0[t] == j as usize;
                        assert(queue@[t] == j as usize);
                    }
                }
            }
        } else {
            entry.push(PIT);
        }
        i += 1;
    }
    let mut order: Vec<usize> = Vec::new();
    let ghost mut popped: Seq<bool> = Seq::new(n as nat, |j: int| false);
    let ghost mut pos: Seq<int> = Seq::new(n as nat, |j: int| -1int);
    proof {
        assert forall|j: int| 0 <= j < n implies #[trigger] cell_ok(nx, tg, sd, entry@, seen, j) by {
            if tg[j] {
                lemma_entry_target(nx, tg, j);
            }
        }
    }
    while queue.len() > 0
        invariant
            n == nx.len(),
            n < PIT,
            nx == next@,
            tg == target@,
            sd == solid@,
            tg.len() == n,
            links_ok(nx),
            solid_isolated(nx, sd),
            upstream_ok(nx, up@),
            entry@.len() == n,
            seen.len() == n,
            popped.len() == n,
            pos.len() == n,
            forall|j: int| 0 <= j < n ==> #[trigger] cell_ok(nx, tg, sd, entry@, seen, j),
            forall|t: int| 0 <= t < queue@.len() ==> #[trigger] queue@[t] < n && seen[queue@[t] as int],
            forall|j: int| 0 <= j < n && #[trigger] seen[j] && !popped[j] ==> queue@.contains(j as usize),
            forall|j: int| 0 <= j < n && #[trigger] popped[j] ==> seen[j],
            forall|c: int, t: int|
                0 <= c < n && popped[c] && 0 <= t < up@[c]@.len() ==> tg[#[trigger] up@[c]@[t] as int] || seen[up@[c]@[t] as int],
            forall|t: int| 0 <= t < order@.len() ==> #[trigger] order_at(nx, tg, seen, pos, order@, t),
            forall|j: int| 0 <= j < n && #[trigger] pos[j] >= 0 ==> pos[j] < order@.len() && order@[pos[j]] == j,
            forall|j: int| 0 <= j < n && !tg[j] && #[trigger] seen[j] ==> pos[j] >= 0,
        decreases 2 * unmarked(seen) + queue@.len(),
    {
        let ghost qfull = queue@;
        let c = queue.pop().unwrap();
        let ghost q1 = queue@;
        let ghost u0 = unmarked(seen);
        proof {
            assert(qfull[qfull.len() - 1] == c);
            assert(cell_ok(nx, tg, sd, entry@, seen, c as int));
            popped = popped.update(c as int, true);
            assert forall|j: int| 0 <= j < n && #[trigger] seen[j] && !popped[j] implies queue@.contains(j as usize) by {
                assert(qfull.contains(j as usize));
                let t = choose|t: int| 0 <= t < qfull.len() && qfull[t] == j as usize;
                assert(t < q1.len());
                assert(q1[t] == j as usize);
            }
        }
        let e = entry[c];
        let ups = &up[c];
        let mut k: usize = 0;
        while k < ups.len()
            invariant
                n == nx.len(),
                n < PIT,
                nx == next@,
                tg == target@,
                sd == solid@,
                tg.len() == n,
                links_ok(nx),
                solid_isolated(nx, sd),
                upstream_ok(nx, up@),
                c < n,
                ups@ == up@[c as int]@,
                e == entry@[c as int],
                e as int == path_entry(nx, tg, c as int),
                e < n,
                seen[c as int],
                popped[c as int],
                k <= ups@.len(),
                entry@.len() == n,
                seen.len() == n,
                popped.len() == n,
                pos.len() == n,
                forall|j: int| 0 <= j < n ==> #[trigger] cell_ok(nx, tg, sd, entry@, seen, j),
                forall|t: int| 0 <= t < queue@.len() ==> #[trigger] queue@[t] < n && seen[queue@[t] as int],
                forall|j: int| 0 <= j < n && #[trigger] seen[j] && !popped[j] ==> queue@.contains(j as usize),
                forall|j: int| 0 <= j < n && #[trigger] popped[j] ==> seen[j],
                forall|cc: int, t: int|
                    0 <= cc < n && cc != c && popped[cc] && 0 <= t < up@[cc]@.len() ==> tg[#[trigger] up@[cc]@[t] as int] || seen[up@[cc]@[t] as int],
                forall|t: int| 0 <= t < k ==> tg[#[trigger] ups@[t] as int] || seen[ups@[t] as int],
                forall|t: int| 0 <= t < order@.len() ==> #[trigger] order_at(nx, tg, seen, pos, order@, t),
                forall|j: int| 0 <= j < n && #[trigger] pos[j] >= 0 ==> pos[j] < order@.len() && order@[pos[j]] == j,
                forall|j: int| 0 <= j < n && !tg[j] && #[trigger] seen[j] ==> pos[j] >= 0,
                2 * unmarked(seen) + queue@.len() < 2 * u0 + qfull.len(),
            decreases ups@.len() - k,
        {
            let j = ups[k];
            proof {
                assert(j < n && nx[j as int] == c);
                assert(cell_ok(nx, tg, sd, entry@, seen, j as int));
            }
            if !target[j] && entry[j] == PIT {
                proof {
                    lemma_entry_step(nx, tg, j as int);
                    lemma_unmarked_mark(seen, j as int);
                }
                let ghost qk = queue@;
                let ghost ok = order@;
                let ghost seen1 = seen;
                let ghost pos1 = pos;
                let ghost entry0 = entry@;
                entry.set(j, e);
                order.push(j);
                queue.push(j);
                proof {
                    seen = seen.update(j as int, true);
                    pos = pos.update(j as int, ok.len() as int);
                    assert(pos1[j as int] < 0) by {
                        if pos1[j as int] >= 0 {
                            let t = pos1[j as int];
                            assert(order_at(nx, tg, seen1, pos1, ok, t));
                            assert(ok[t] == j);
                        }
                    }
                    assert(!sd[j as int]);
                    assert(tg[c as int] || pos1[c as int] >= 0);
                    lemma_push_state(nx, tg, sd, entry0, entry@, seen1, seen, pos1, pos, ok, order@, j as int, c as int);
                    assert forall|jj: int| 0 <= jj < n && #[trigger] seen[jj] && !popped[jj] implies queue@.contains(jj as usize) by {
                        if jj == j as int {
                            assert(queue@[queue@.len() - 1] == j);
                        } else {
                            let t = choose|t: int| 0 <= t < qk.len() && qk[t] == jj as usize;
                            assert(queue@[t] == jj as usize);
                        }
                    }
                    assert forall|t: int| 0 <= t < queue@.len() implies #[trigger] queue@[t] < n && seen[queue@[t] as int] by {
                        if t < qk.len() {
                            assert(queue@[t] == qk[t]);
                        }
                    }
                }
            }
            k += 1;
        }
        proof {
            assert forall|cc: int, t: int|
                0 <= cc < n && popped[cc] && 0 <= t < up@[cc]@.len() implies tg[#[trigger] up@[cc]@[t] as int] || seen[up@[cc]@[t] as int] by {
                if cc == c as int {
                    assert(up@[cc]@[t] == ups@[t]);
                }
            }
        }
    }
    proof {
        assert forall|j: int| 0 <= j < n && #[trigger] seen[j] implies popped[j] by {
            if !popped[j] {
                assert(queue@.contains(j as usize));
                let t = choose|t: int| 0 <= t < queue@.len() && queue@[t] == j as usize;
            }
        }
        assert forall|j: int| 0 <= j < n && #[trigger] tg[j] implies seen[j] by {
            assert(cell_ok(nx, tg, sd, entry@, seen, j));
        }
        assert forall|j: int| 0 <= j < n implies #[trigger] entry@[j] as int == entry_of(nx, tg, sd, j) by {
            assert(cell_ok(nx, tg, sd, entry@, seen, j));
            if !seen[j] {
                assert(!tg[j]);
                if !sd[j] {
                    if exists|k: nat| #[trigger] first_hit(nx, tg, j, k) {
                        let k = choose|k: nat| #[trigger] first_hit(nx, tg, j, k);
                        lemma_reached(nx, tg, up@, seen, popped, j, k);
                    }
                }
            }
        }
        lemma_order_final(nx, tg, sd, entry@, seen, pos, order@);
    }
    ChannelPaths { entry, order }
}

/// Reaching cell `j` (draining into the already reached `c`) keeps the
/// sweep state sound.
proof fn lemma_push_state(
    nx: Seq<usize>,
    tg: Seq<bool>,
    sd: Seq<bool>,
    entry1: Seq<usize>,
    entry: Seq<usize>,
    seen1: Seq<bool>,
    seen: Seq<bool>,
    pos1: Seq<int>,
    pos: Seq<int>,
    ok: Seq<usize>,
    order: Seq<usize>,
    j: int,
    c: int,
)
    requires
        nx.len() < PIT,
        links_ok(nx),
        0 <= j < nx.len(),
        0 <= c < nx.len(),
        nx[j] as int == c,
        entry1.len() == nx.len(),
        entry == entry1.update(j, entry[j]),
        !tg[j],
        !sd[j],
        !seen1[j],
        seen1[c],
        pos1[j] < 0,
        seen1.len() == nx.len(),
        pos1.len() == nx.len(),
        entry.len() == nx.len(),
        seen == seen1.update(j, true),
        pos == pos1.update(j, ok.len() as int),
        order == ok.push(j as usize),
        entry[j] as int == path_entry(nx, tg, c),
        path_entry(nx, tg, j) == path_entry(nx, tg, c),
        entry[j] < nx.len(),
        tg[c] || pos1[c] >= 0,
        forall|i: int| 0 <= i < nx.len() ==> #[trigger] cell_ok(nx, tg, sd, entry1, seen1, i),
        forall|t: int| 0 <= t < ok.len() ==> #[trigger] order_at(nx, tg, seen1, pos1, ok, t),
        forall|i: int| 0 <= i < nx.len() && #[trigger] pos1[i] >= 0 ==> pos1[i] < ok.len() && ok[pos1[i]] == i,
        forall|i: int| 0 <= i < nx.len() && !tg[i] && #[trigger] seen1[i] ==> pos1[i] >= 0,
    ensures
        forall|i: int| 0 <= i < nx.len() ==> #[trigger] cell_ok(nx, tg, sd, entry, seen, i),
        forall|t: int| 0 <= t < order.len() ==> #[trigger] order_at(nx, tg, seen, pos, order, t),
        forall|i: int| 0 <= i < nx.len() && #[trigger] pos[i] >= 0 ==> pos[i] < order.len() && order[pos[i]] == i,
        forall|i: int| 0 <= i < nx.len() && !tg[i] && #[trigger] seen[i] ==> pos[i] >= 0,
{
    assert forall|i: int| 0 <= i < nx.len() implies #[trigger] cell_ok(nx, tg, sd, entry, seen, i) by {
        if i != j {
            assert(cell_ok(nx, tg, sd, entry1, seen1, i));
            assert(entry[i] == entry1[i]);
            assert(seen[i] == seen1[i]);
        } else {
            assert(seen[j]);
            assert(entry[j] != PIT);
        }
    }
    assert(!tg[c] ==> c != j && pos1[c] < ok.len() && pos[c] == pos1[c]);
    assert forall|t: int| 0 <= t < order.len() implies #[trigger] order_at(nx, tg, seen, pos, order, t) by {
        if t < ok.len() {
            assert(order_at(nx, tg, seen1, pos1, ok, t));
            assert(order[t] == ok[t]);
            assert(ok[t] as int != j);
            assert(seen[ok[t] as int]);
            assert(pos[ok[t] as int] == t);
            let d = nx[ok[t] as int] as int;
            assert(d < nx.len());
            if !tg[d] {
                assert(0 <= pos1[d] < t);
                assert(d != j);
                assert(pos[d] == pos1[d]);
            }
        } else {
            assert(order[t] == j as usize);
            if !tg[c] {
                assert(pos1[c] < ok.len());
                assert(c != j);
            }
        }
    }
    assert forall|i: int| 0 <= i < nx.len() && #[trigger] pos[i] >= 0 implies pos[i] < order.len() && order[pos[i]] == i by {
        if i != j {
            assert(pos1[i] >= 0);
            assert(order[pos1[i]] == ok[pos1[i]]);
        }
    }
}

/// The sweep's order is a sound resolution order.
proof fn lemma_order_final(nx: Seq<usize>, tg: Seq<bool>, sd: Seq<bool>, entry: Seq<usize>, seen: Seq<bool>, pos: Seq<int>, order: Seq<usize>)
    requires
        links_ok(nx),
        entry.len() == nx.len(),
        seen.len() == nx.len(),
        pos.len() == nx.len(),
        forall|j: int| 0 <= j < nx.len() ==> #[trigger] cell_ok(nx, tg, sd, entry, seen, j),
        forall|t: int| 0 <= t < order.len() ==> #[trigger] order_at(nx, tg, seen, pos, order, t),
        forall|j: int| 0 <= j < nx.len() && #[trigger] pos[j] >= 0 ==> pos[j] < order.len() && order[pos[j]] == j,
        forall|j: int| 0 <= j < nx.len() && !tg[j] && #[trigger] seen[j] ==> pos[j] >= 0,
    ensures
        entry_order_ok(nx, tg, entry, order),
{
    assert forall|a: int, b: int| 0 <= a < order.len() && 0 <= b < order.len() && a != b implies order[a] != order[b] by {
        assert(order_at(nx, tg, seen, pos, order, a));
        assert(order_at(nx, tg, seen, pos, order, b));
    }
    assert forall|t: int| 0 <= t < order.len() implies {
        &&& #[trigger] order[t] < nx.len()
        &&& !tg[order[t] as int]
        &&& entry[order[t] as int] != PIT
        &&& nx[order[t] as int] != PIT
        &&& (tg[nx[order[t] as int] as int] || exists|s: int| 0 <= s < t && #[trigger] order[s] == nx[order[t] as int])
    } by {
        assert(order_at(nx, tg, seen, pos, order, t));
        assert(cell_ok(nx, tg, sd, entry, seen, order[t] as int));
        let d = nx[order[t] as int] as int;
        assert(d < nx.len());
        if !tg[d] {
            let s = pos[d];
            assert(order[s] == d);
        }
    }
    assert forall|i: int| 0 <= i < nx.len() && !tg[i] && entry[i] != PIT implies #[trigger] order.contains(i as usize) by {
        assert(cell_ok(nx, tg, sd, entry, seen, i));
        assert(order[pos[i]] == i);
    }
}


/// A walk that stands on a target at some step has a first such step.
proof fn lemma_first_hit_exists(next: Seq<usize>, target: Seq<bool>, i: int, k: nat)
    requires
        hits(next, target, i, k),
    ensures
        exists|m: nat| m <= k && #[trigger] first_hit(next, target, i, m),
    decreases k,
{
    if exists|m: nat| m < k && #[trigger] hits(next, target, i, m) {
        let m = choose|m: nat| m < k && #[trigger] hits(next, target, i, m);
        lemma_first_hit_exists(next, target, i, m);
    } else {
        assert(first_hit(next, target, i, k));
    }
}

/// A cell has a channel entry exactly when its flow path meets a target,
/// and the entry is a target cell on that path.
pub proof fn lemma_entry_reaches(next: Seq<usize>, target: Seq<bool>, i: int)
    requires
        next.len() < PIT,
        target.len() == next.len(),
    ensures
        (path_entry(next, target, i) != PIT) <==> exists|k: nat| #[trigger] hits(next, target, i, k),
        path_entry(next, target, i) != PIT ==> {
            &&& 0 <= path_entry(next, target, i) < next.len()
            &&& target[path_entry(next, target, i)]
            &&& exists|k: nat| #[trigger] walk(next, i, k) == path_entry(next, target, i)
        },
{
    if exists|k: nat| #[trigger] hits(next, target, i, k) {
        let k = choose|k: nat| #[trigger] hits(next, target, i, k);
        lemma_first_hit_exists(next, target, i, k);
        let m = choose|m: nat| #[trigger] first_hit(next, target, i, m);
        assert(hits(next, target, i, m));
    }
    if path_entry(next, target, i) != PIT {
        let m = choose|m: nat| #[trigger] first_hit(next, target, i, m);
        assert(hits(next, target, i, m));
    }
}

/// Along the flow the entry does not change: a cell that is no target
/// enters the targets where its downstream cell does.
pub proof fn lemma_entry_follows_flow(next: Seq<usize>, target: Seq<bool>, j: int)
    requires
        0 <= j < next.len(),
        next[j] != PIT,
        !target[j],
    ensures
        path_entry(next, target, j) == path_entry(next, target, next[j] as int),
{
    lemma_entry_step(next, target, j);
}

} // verus!
