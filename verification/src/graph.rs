//! Single-successor flow graphs: each cell drains to one downstream
//! cell or is a pit.

use vstd::prelude::*;
use vstd::set_lib::{lemma_int_range, lemma_len_subset, set_int_range};

verus! {

/// Downstream index of a pit (no downstream cell).
pub const PIT: usize = usize::MAX;

/// The cell reached from `i` after `k` downstream steps; `PIT` once a
/// pit has been passed.
pub open spec fn walk(ds: Seq<usize>, i: int, k: nat) -> int
    decreases k,
{
    if k == 0 {
        i
    } else {
        let p = walk(ds, i, (k - 1) as nat);
        if 0 <= p < ds.len() && ds[p] != PIT {
            ds[p] as int
        } else {
            PIT as int
        }
    }
}

/// Every downstream index is a pit or a cell.
pub open spec fn links_ok(ds: Seq<usize>) -> bool {
    forall|i: int| 0 <= i < ds.len() ==> #[trigger] ds[i] == PIT || ds[i] < ds.len()
}

/// `rank` strictly decreases along every downstream step.
pub open spec fn ranked(ds: Seq<usize>, rank: Seq<int>) -> bool {
    &&& rank.len() == ds.len()
    &&& links_ok(ds)
    &&& forall|i: int| 0 <= i < ds.len() && #[trigger] ds[i] != PIT ==> rank[ds[i] as int] < rank[i]
}

pub proof fn lemma_walk_step(ds: Seq<usize>, i: int, k: nat)
    ensures
        walk(ds, i, k + 1) == (if 0 <= walk(ds, i, k) < ds.len() && ds[walk(ds, i, k)] != PIT {
            ds[walk(ds, i, k)] as int
        } else {
            PIT as int
        }),
{
    assert(walk(ds, i, k + 1) == {
        let p = walk(ds, i, k);
        if 0 <= p < ds.len() && ds[p] != PIT {
            ds[p] as int
        } else {
            PIT as int
        }
    });
}

/// A walk from a cell stays on cells until it reaches `PIT`, and stays
/// at `PIT` after that.
pub proof fn lemma_walk_range(ds: Seq<usize>, i: int, k: nat)
    requires
        links_ok(ds),
        0 <= i < ds.len(),
        ds.len() < PIT,
    ensures
        walk(ds, i, k) == PIT || 0 <= walk(ds, i, k) < ds.len(),
    decreases k,
{
    if k > 0 {
        lemma_walk_range(ds, i, (k - 1) as nat);
    }
}

pub proof fn lemma_walk_pit_absorbs(ds: Seq<usize>, i: int, a: nat, b: nat)
    requires
        links_ok(ds),
        ds.len() < PIT,
        a <= b,
        walk(ds, i, a) == PIT,
    ensures
        walk(ds, i, b) == PIT,
    decreases b - a,
{
    if b > a {
        lemma_walk_pit_absorbs(ds, i, a, (b - 1) as nat);
    }
}

/// Along a walk the rank strictly decreases.
pub proof fn lemma_walk_rank(ds: Seq<usize>, rank: Seq<int>, i: int, a: nat, b: nat)
    requires
        ranked(ds, rank),
        ds.len() < PIT,
        0 <= i < ds.len(),
        a < b,
        walk(ds, i, b) != PIT,
    ensures
        0 <= walk(ds, i, a) < ds.len(),
        0 <= walk(ds, i, b) < ds.len(),
        rank[walk(ds, i, b)] < rank[walk(ds, i, a)],
    decreases b - a,
{
    lemma_walk_range(ds, i, b);
    lemma_walk_range(ds, i, (b - 1) as nat);
    if walk(ds, i, (b - 1) as nat) == PIT {
        lemma_walk_pit_absorbs(ds, i, (b - 1) as nat, b);
    }
    let p = walk(ds, i, (b - 1) as nat);
    assert(0 <= p < ds.len() && ds[p] != PIT);
    if a < b - 1 {
        lemma_walk_rank(ds, rank, i, a, (b - 1) as nat);
    }
}

/// The flow graph has no cycle: no walk of one or more steps returns to
/// its start.
pub proof fn lemma_no_cycle(ds: Seq<usize>, rank: Seq<int>, i: int, k: nat)
    requires
        ranked(ds, rank),
        ds.len() < PIT,
        0 <= i < ds.len(),
        k >= 1,
    ensures
        walk(ds, i, k) != i,
{
    if walk(ds, i, k) != PIT {
        lemma_walk_rank(ds, rank, i, 0, k);
    }
}

/// Every walk reaches a pit within as many steps as there are cells.
pub proof fn lemma_walk_ends(ds: Seq<usize>, rank: Seq<int>, i: int)
    requires
        ranked(ds, rank),
        ds.len() < PIT,
        0 <= i < ds.len(),
    ensures
        walk(ds, i, ds.len()) == PIT,
{
    let n = ds.len();
    if walk(ds, i, n) != PIT {
        let s = Seq::new((n + 1) as nat, |t: int| walk(ds, i, t as nat));
        assert forall|t: int| 0 <= t <= n implies 0 <= #[trigger] walk(ds, i, t as nat) < n by {
            lemma_walk_range(ds, i, t as nat);
            if walk(ds, i, t as nat) == PIT {
                lemma_walk_pit_absorbs(ds, i, t as nat, n);
            }
        }
        assert forall|a: int, b: int| 0 <= a < s.len() && 0 <= b < s.len() && a != b implies s[a] != s[b] by {
            if a < b {
                lemma_walk_rank(ds, rank, i, a as nat, b as nat);
            } else {
                lemma_walk_rank(ds, rank, i, b as nat, a as nat);
            }
        }
        assert(s.no_duplicates());
        s.unique_seq_to_set();
        lemma_int_range(0, n as int);
        assert forall|x: int| s.to_set().contains(x) implies set_int_range(0, n as int).contains(x) by {
            let t = choose|t: int| 0 <= t < s.len() && s[t] == x;
            assert(s[t] == walk(ds, i, t as nat));
        }
        lemma_len_subset(s.to_set(), set_int_range(0, n as int));
        assert(false);
    }
}

/// Number of unmarked entries.
pub open spec fn unmarked(p: Seq<bool>) -> nat
    decreases p.len(),
{
    if p.len() == 0 {
        0
    } else {
        unmarked(p.drop_last()) + if p.last() {
            0nat
        } else {
            1nat
        }
    }
}

/// Marking an unmarked entry lowers the count by one.
pub proof fn lemma_unmarked_mark(p: Seq<bool>, i: int)
    requires
        0 <= i < p.len(),
        !p[i],
    ensures
        unmarked(p) >= 1,
        unmarked(p.update(i, true)) == unmarked(p) - 1,
    decreases p.len(),
{
    let u = p.update(i, true);
    if i == p.len() - 1 {
        assert(u.drop_last() =~= p.drop_last());
    } else {
        lemma_unmarked_mark(p.drop_last(), i);
        assert(u.drop_last() =~= p.drop_last().update(i, true));
    }
}

/// Nothing marked: every entry counts.
pub proof fn lemma_unmarked_none(p: Seq<bool>)
    requires
        forall|i: int| 0 <= i < p.len() ==> !#[trigger] p[i],
    ensures
        unmarked(p) == p.len(),
    decreases p.len(),
{
    if p.len() > 0 {
        lemma_unmarked_none(p.drop_last());
    }
}

/// Everything marked: nothing counts.
pub proof fn lemma_unmarked_all(p: Seq<bool>)
    requires
        forall|i: int| 0 <= i < p.len() ==> #[trigger] p[i],
    ensures
        unmarked(p) == 0,
    decreases p.len(),
{
    if p.len() > 0 {
        lemma_unmarked_all(p.drop_last());
    }
}

/// A walk of `k + 1` steps is one step followed by a walk of `k`.
pub proof fn lemma_walk_shift(ds: Seq<usize>, i: int, k: nat)
    requires
        0 <= i < ds.len(),
        ds[i] != PIT,
    ensures
        walk(ds, i, k + 1) == walk(ds, ds[i] as int, k),
    decreases k,
{
    lemma_walk_step(ds, i, k);
    if k > 0 {
        lemma_walk_shift(ds, i, (k - 1) as nat);
        lemma_walk_step(ds, ds[i] as int, (k - 1) as nat);
    } else {
        lemma_walk_step(ds, i, 0);
        assert(walk(ds, i, 0) == i);
        assert(walk(ds, ds[i] as int, 0) == ds[i] as int);
    }
}

} // verus!
