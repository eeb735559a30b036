//! Contributing areas: the flow accumulation of a cell counts the cells
//! whose flow passes through it, and the basin of a single pour point is
//! exactly that set of cells.

use vstd::prelude::*;
use vstd::set_lib::{lemma_int_range, lemma_len_subset, lemma_set_disjoint_lens, set_int_range};
use crate::analysis::{lemma_one_tributary, lemma_walk_pred, reaches};
use crate::graph::{lemma_walk_ends, lemma_walk_pit_absorbs, lemma_walk_range, lemma_walk_rank, lemma_walk_shift, lemma_walk_step, walk, PIT};
use crate::network::{basin_label, first_pour, pour_label, up_sum, Network};
use crate::setup::count_where;

verus! {

/// The cells whose flow passes through `i`, `i` itself included.
pub open spec fn contributing(ds: Seq<usize>, i: int) -> Set<int> {
    Set::new(|j: int| 0 <= j < ds.len() && reaches(ds, j, i))
}

/// The contributing areas of the cells below `m` that drain into `i`.
spec fn contributing_via(ds: Seq<usize>, i: int, m: int) -> Set<int> {
    Set::new(|s: int| exists|j: int| 0 <= j < m && ds[j] as int == i && #[trigger] contributing(ds, j).contains(s))
}

proof fn lemma_in_range_finite(s: Set<int>, n: int)
    requires
        0 <= n,
        forall|x: int| #[trigger] s.contains(x) ==> 0 <= x < n,
    ensures
        s.finite(),
{
    lemma_int_range(0, n);
    lemma_len_subset(s, set_int_range(0, n));
}

/// Summing accumulations over the cells below `m` that drain into `i`
/// counts their contributing areas.
proof fn lemma_up_sum_counts(net: Network, i: int, m: int)
    requires
        net.wf(),
        0 <= i < net.n(),
        0 <= m <= net.n(),
        forall|j: int|
            0 <= j < net.n() && net.ds_view()[j] as int == i ==> #[trigger] net.acc_view()[j] == contributing(net.ds_view(), j).len(),
    ensures
        contributing_via(net.ds_view(), i, m).finite(),
        up_sum(net.ds_view(), net.acc_view(), i, m) == contributing_via(net.ds_view(), i, m).len(),
    decreases m,
{
    let ds = net.ds_view();
    let n = net.n();
    let here = contributing_via(ds, i, m);
    lemma_in_range_finite(here, n);
    if m == 0 {
        assert(here =~= Set::<int>::empty());
    } else {
        lemma_up_sum_counts(net, i, m - 1);
        let prev = contributing_via(ds, i, m - 1);
        let u = m - 1;
        if ds[u] as int == i {
            let cu = contributing(ds, u);
            lemma_in_range_finite(cu, n);
            assert(here =~= prev + cu) by {
                assert forall|s: int| here.contains(s) implies (prev + cu).contains(s) by {
                    let j = choose|j: int| 0 <= j < m && ds[j] as int == i && #[trigger] contributing(ds, j).contains(s);
                    if j < m - 1 {
                        assert(prev.contains(s));
                    }
                }
                assert forall|s: int| (prev + cu).contains(s) implies here.contains(s) by {
                    if !cu.contains(s) {
                        let j = choose|j: int| 0 <= j < m - 1 && ds[j] as int == i && #[trigger] contributing(ds, j).contains(s);
                        assert(contributing(ds, j).contains(s));
                    }
                }
            }
            assert(prev.disjoint(cu)) by {
                assert forall|s: int| prev.contains(s) implies !cu.contains(s) by {
                    let j = choose|j: int| 0 <= j < m - 1 && ds[j] as int == i && #[trigger] contributing(ds, j).contains(s);
                    if cu.contains(s) {
                        let k1 = choose|k: nat| #[trigger] walk(ds, s, k) == j;
                        let k2 = choose|k: nat| #[trigger] walk(ds, s, k) == u;
                        if k1 <= k2 {
                            lemma_one_tributary(net, s, j, u, k1, k2, i);
                        } else {
                            lemma_one_tributary(net, s, u, j, k2, k1, i);
                        }
                    }
                }
            }
            lemma_set_disjoint_lens(prev, cu);
            assert(up_sum(ds, net.acc_view(), i, m) == up_sum(ds, net.acc_view(), i, m - 1) + net.acc_view()[u]);
        } else {
            assert(here =~= prev) by {
                assert forall|s: int| here.contains(s) implies prev.contains(s) by {
                    let j = choose|j: int| 0 <= j < m && ds[j] as int == i && #[trigger] contributing(ds, j).contains(s);
                    assert(j != m - 1);
                }
            }
        }
    }
}

/// Law: flow accumulation is the contributing area: the accumulation of
/// a cell is the number of cells whose flow passes through it, the cell
/// itself included.
pub proof fn lemma_acc_counts_contributing(net: Network, i: int)
    requires
        net.wf(),
        0 <= i < net.n(),
    ensures
        net.acc_view()[i] == contributing(net.ds_view(), i).len(),
    decreases 0x1_0000_0000_0000_0000int - net.rank_view()[i],
{
    let ds = net.ds_view();
    let rank = net.rank_view();
    let n = net.n();
    assert forall|j: int| 0 <= j < n && ds[j] as int == i implies #[trigger] net.acc_view()[j] == contributing(ds, j).len() by {
        assert(ds[j] != PIT);
        assert(rank[i] < rank[j]);
        lemma_acc_counts_contributing(net, j);
    }
    lemma_up_sum_counts(net, i, n);
    let via = contributing_via(ds, i, n);
    let here = contributing(ds, i);
    assert(walk(ds, i, 0) == i);
    assert(here =~= via.insert(i)) by {
        assert forall|s: int| here.contains(s) implies via.insert(i).contains(s) by {
            if s != i {
                let k = choose|k: nat| #[trigger] walk(ds, s, k) == i;
                assert(k > 0);
                lemma_walk_pred(net, s, k, i);
                let x = walk(ds, s, (k - 1) as nat);
                assert(contributing(ds, x).contains(s));
            }
        }
        assert forall|s: int| via.insert(i).contains(s) implies here.contains(s) by {
            if s != i {
                let j = choose|j: int| 0 <= j < n && ds[j] as int == i && #[trigger] contributing(ds, j).contains(s);
                let k = choose|k: nat| #[trigger] walk(ds, s, k) == j;
                lemma_walk_step(ds, s, k);
                assert(walk(ds, s, k + 1) == i);
            }
        }
    }
    assert(!via.contains(i)) by {
        if via.contains(i) {
            let j = choose|j: int| 0 <= j < n && ds[j] as int == i && #[trigger] contributing(ds, j).contains(i);
            let k = choose|k: nat| #[trigger] walk(ds, i, k) == j;
            assert(ds[j] != PIT);
            assert(rank[i] < rank[j]);
            if k == 0 {
                assert(j == i);
            } else {
                lemma_walk_rank(ds, rank, i, 0, k);
            }
        }
    }
    assert(net.acc_view()[i] == 1 + up_sum(ds, net.acc_view(), i, n));
}

/// `count_where` is the size of the set it counts.
proof fn lemma_count_where_len(m: int, p: spec_fn(int) -> bool)
    requires
        0 <= m,
    ensures
        Set::new(|i: int| 0 <= i < m && p(i)).finite(),
        count_where(m, p) == Set::new(|i: int| 0 <= i < m && p(i)).len(),
    decreases m,
{
    let here = Set::new(|i: int| 0 <= i < m && p(i));
    lemma_in_range_finite(here, m);
    if m == 0 {
        assert(here =~= Set::<int>::empty());
    } else {
        lemma_count_where_len(m - 1, p);
        let prev = Set::new(|i: int| 0 <= i < m - 1 && p(i));
        if p(m - 1) {
            assert(here =~= prev.insert(m - 1));
        } else {
            assert(here =~= prev);
        }
    }
}

/// The walk from `j` meets the pour point `c` before a pit exactly when
/// `c` lies on it.
proof fn lemma_first_pour_single(ds: Seq<usize>, c: int, j: int, f: nat)
    requires
        crate::graph::links_ok(ds),
        ds.len() < PIT,
        0 <= c < ds.len(),
        0 <= j < ds.len(),
    ensures
        first_pour(ds, seq![c as usize], j, f) == 1 <==> exists|k: nat| k < f && #[trigger] walk(ds, j, k) == c,
        first_pour(ds, seq![c as usize], j, f) == 0 || first_pour(ds, seq![c as usize], j, f) == 1,
    decreases f,
{
    let pp = seq![c as usize];
    assert(pp.drop_last() =~= Seq::<usize>::empty());
    assert(pour_label(pp.drop_last(), j) == 0);
    assert(pp.len() == 1 && pp.last() as int == c);
    assert(pour_label(pp, j) == if j == c { 1int } else { 0int });
    assert(walk(ds, j, 0) == j);
    if f == 0 {
    } else if j == c {
    } else if ds[j] == PIT {
        assert forall|k: nat| k < f implies #[trigger] walk(ds, j, k) != c by {
            if k > 0 {
                lemma_walk_step(ds, j, 0);
                lemma_walk_pit_absorbs(ds, j, 1, k);
            }
        }
    } else {
        let d = ds[j] as int;
        lemma_first_pour_single(ds, c, d, (f - 1) as nat);
        if exists|k: nat| k < f - 1 && #[trigger] walk(ds, d, k) == c {
            let k = choose|k: nat| k < f - 1 && #[trigger] walk(ds, d, k) == c;
            lemma_walk_shift(ds, j, k);
            assert(walk(ds, j, k + 1) == c);
        }
        if exists|k: nat| k < f && #[trigger] walk(ds, j, k) == c {
            let k = choose|k: nat| k < f && #[trigger] walk(ds, j, k) == c;
            assert(k > 0);
            lemma_walk_shift(ds, j, (k - 1) as nat);
            assert(walk(ds, d, (k - 1) as nat) == c);
        }
    }
}

/// Law: the basin of a single valid pour point has as many cells as the
/// pour point's flow accumulation.
pub proof fn lemma_basin_is_contributing_area(net: Network, inflow: int)
    requires
        net.wf(),
        0 <= inflow < net.n(),
        !net.solid_view()[inflow],
    ensures
        count_where(net.n(), |i: int| basin_label(net.ds_view(), net.solid_view(), seq![inflow as usize], i) == 1) == net.acc_view()[inflow],
{
    let ds = net.ds_view();
    let solid = net.solid_view();
    let n = net.n();
    let p = |i: int| basin_label(ds, solid, seq![inflow as usize], i) == 1;
    lemma_count_where_len(n, p);
    lemma_acc_counts_contributing(net, inflow);
    let basin = Set::new(|i: int| 0 <= i < n && p(i));
    assert(basin =~= contributing(ds, inflow)) by {
        assert forall|j: int| 0 <= j < n implies (#[trigger] p(j) <==> reaches(ds, j, inflow)) by {
            lemma_first_pour_single(ds, inflow, j, n as nat);
            if reaches(ds, j, inflow) {
                let k = choose|k: nat| #[trigger] walk(ds, j, k) == inflow;
                lemma_walk_ends(ds, net.rank_view(), j);
                if k >= n {
                    lemma_walk_pit_absorbs(ds, j, n as nat, k);
                }
                if solid[j] {
                    assert(ds[j] == PIT);
                    if k > 0 {
                        lemma_walk_step(ds, j, 0);
                        lemma_walk_pit_absorbs(ds, j, 1, k);
                    }
                }
            }
            if p(j) {
                assert(!solid[j]);
                let k = choose|k: nat| k < n && #[trigger] walk(ds, j, k) == inflow;
            }
        }
    }
}

} // verus!
