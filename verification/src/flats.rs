//! Drainage across flats (Garbrecht & Martz 1997; Barnes, Lehman &
//! Mulla 2014), on elevation order keys.
//!
//! A valid cell with no strictly lower valid neighbour *needs
//! resolution*. Flat regions grow from those cells across equal
//! elevations. Two breadth-first fields are computed over each flat:
//! the hop distance to the nearest outlet (a flat cell with a lower
//! neighbour or on the grid edge), and the hop distance from the
//! nearest cell next to higher terrain. A flat cell drains to an equal
//! neighbour strictly closer to an outlet, preferring the one farthest
//! from higher terrain.

use vstd::prelude::*;
use std::collections::VecDeque;
use crate::grid::{
    adjacent, d8_neighbour, direction_between, grid_ok, in_grid, lemma_adjacent_neighbour,
    lemma_adjacent_symmetric, lemma_cell_coords, lemma_neighbour_adjacent, neighbour, on_boundary,
};

use crate::network::flat_dir_ok;

verus! {

/// Field value of a cell the breadth-first search never reached.
pub const UNSET: u32 = 0xFFFF_FFFFu32;

/// The neighbour of `i` in direction `k` is valid and strictly lower.
pub open spec fn lower_at(rows: int, cols: int, keys: Seq<u32>, solid: Seq<bool>, i: int, k: int) -> bool {
    match neighbour(rows, cols, i, k) {
        Some(j) => !solid[j] && keys[j] < keys[i],
        None => false,
    }
}

/// The neighbour of `i` in direction `k` is valid and strictly higher.
pub open spec fn higher_at(rows: int, cols: int, keys: Seq<u32>, solid: Seq<bool>, i: int, k: int) -> bool {
    match neighbour(rows, cols, i, k) {
        Some(j) => !solid[j] && keys[j] > keys[i],
        None => false,
    }
}

pub open spec fn has_lower(rows: int, cols: int, keys: Seq<u32>, solid: Seq<bool>, i: int) -> bool {
    exists|k: int| 0 <= k < 8 && #[trigger] lower_at(rows, cols, keys, solid, i, k)
}

pub open spec fn has_higher(rows: int, cols: int, keys: Seq<u32>, solid: Seq<bool>, i: int) -> bool {
    exists|k: int| 0 <= k < 8 && #[trigger] higher_at(rows, cols, keys, solid, i, k)
}

/// A valid cell with no strictly lower valid neighbour.
pub open spec fn needs_drain(rows: int, cols: int, keys: Seq<u32>, solid: Seq<bool>, i: int) -> bool {
    !solid[i] && !has_lower(rows, cols, keys, solid, i)
}

/// A step between adjacent valid cells of equal elevation.
pub open spec fn flat_step(rows: int, cols: int, keys: Seq<u32>, solid: Seq<bool>, a: int, b: int) -> bool {
    adjacent(rows, cols, a, b) && !solid[a] && !solid[b] && keys[a] == keys[b]
}

/// A path of valid cells, each a flat step from the previous.
pub open spec fn flat_path(rows: int, cols: int, keys: Seq<u32>, solid: Seq<bool>, p: Seq<int>) -> bool {
    &&& p.len() > 0
    &&& forall|t: int| 0 <= t < p.len() ==> in_grid(rows, cols, #[trigger] p[t]) && !solid[p[t]]
    &&& forall|t: int| 0 <= t < p.len() - 1 ==> flat_step(rows, cols, keys, solid, #[trigger] p[t], p[t + 1])
}

/// Cell `i` belongs to a flat: an equal-elevation path joins it to a
/// cell that needs resolution.
pub open spec fn in_flat(rows: int, cols: int, keys: Seq<u32>, solid: Seq<bool>, i: int) -> bool {
    exists|p: Seq<int>|
        #[trigger] flat_path(rows, cols, keys, solid, p) && needs_drain(rows, cols, keys, solid, p[0]) && p.last() == i
}

/// An edge of the flat graph: a flat step between flat cells.
pub open spec fn flat_edge(rows: int, cols: int, keys: Seq<u32>, fl: Seq<bool>, a: int, b: int) -> bool {
    adjacent(rows, cols, a, b) && fl[a] && fl[b] && keys[a] == keys[b]
}

/// The flat neighbour of `i` in direction `k` is one hop closer to the
/// seeds.
pub open spec fn pred_at(rows: int, cols: int, keys: Seq<u32>, fl: Seq<bool>, f: Seq<u32>, i: int, k: int) -> bool {
    match neighbour(rows, cols, i, k) {
        Some(j) => fl[j] && keys[j] == keys[i] && f[j] != UNSET && f[j] + 1 == f[i],
        None => false,
    }
}

/// `f` is the breadth-first hop distance over the flat graph (cells
/// marked by `fl`) from the cells marked by `seed` (`UNSET` where no
/// seed is reachable): zero exactly on seeds, every other reached cell
/// one hop beyond some neighbour, and no edge spans more than one hop.
pub open spec fn bfs_field(rows: int, cols: int, keys: Seq<u32>, fl: Seq<bool>, seed: Seq<bool>, f: Seq<u32>) -> bool {
    let n = rows * cols;
    &&& f.len() == n
    &&& forall|i: int| 0 <= i < n ==> (#[trigger] f[i] == 0 <==> seed[i])
    &&& forall|i: int| 0 <= i < n && #[trigger] f[i] != UNSET ==> fl[i]
    &&& forall|i: int|
        0 <= i < n && #[trigger] f[i] != UNSET && f[i] > 0 ==> exists|k: int|
            0 <= k < 8 && #[trigger] pred_at(rows, cols, keys, fl, f, i, k)
    &&& forall|a: int, b: int|
        #[trigger] flat_edge(rows, cols, keys, fl, a, b) && f[a] != UNSET ==> f[b] != UNSET && f[b] <= f[a] + 1
}

/// Exec test of [`has_lower`] and [`has_higher`] for cell `i`.
fn lower_higher(keys: &Vec<u32>, solid: &Vec<bool>, rows: usize, cols: usize, i: usize) -> (res: (bool, bool))
    requires
        grid_ok(rows as int, cols as int),
        keys@.len() == rows * cols,
        solid@.len() == rows * cols,
        i < rows * cols,
    ensures
        res.0 == has_lower(rows as int, cols as int, keys@, solid@, i as int),
        res.1 == has_higher(rows as int, cols as int, keys@, solid@, i as int),
{
    let ghost r = rows as int;
    let ghost c = cols as int;
    let mut lo = false;
    let mut hi = false;
    let mut k: usize = 0;
    while k < 8
        invariant
            k <= 8,
            grid_ok(r, c),
            r == rows,
            c == cols,
            keys@.len() == rows * cols,
            solid@.len() == rows * cols,
            i < rows * cols,
            lo == exists|kk: int| 0 <= kk < k && #[trigger] lower_at(r, c, keys@, solid@, i as int, kk),
            hi == exists|kk: int| 0 <= kk < k && #[trigger] higher_at(r, c, keys@, solid@, i as int, kk),
        decreases 8 - k,
    {
        match d8_neighbour(rows, cols, i, k) {
            Some(j) => {
                proof {
                    lemma_neighbour_adjacent(r, c, i as int, k as int);
                }
                if !solid[j] && keys[j] < keys[i] {
                    lo = true;
                }
                if !solid[j] && keys[j] > keys[i] {
                    hi = true;
                }
            },
            None => {},
        }
        proof {
            if lo {
                if !(exists|kk: int| 0 <= kk < k && #[trigger] lower_at(r, c, keys@, solid@, i as int, kk)) {
                    assert(lower_at(r, c, keys@, solid@, i as int, k as int));
                }
            } else {
                assert(!lower_at(r, c, keys@, solid@, i as int, k as int));
            }
            if hi {
                if !(exists|kk: int| 0 <= kk < k && #[trigger] higher_at(r, c, keys@, solid@, i as int, kk)) {
                    assert(higher_at(r, c, keys@, solid@, i as int, k as int));
                }
            } else {
                assert(!higher_at(r, c, keys@, solid@, i as int, k as int));
            }
        }
        k += 1;
    }
    (lo, hi)
}

spec fn count_false(s: Seq<bool>) -> nat
    decreases s.len(),
{
    if s.len() == 0 {
        0
    } else {
        count_false(s.drop_last()) + if s.last() {
            0nat
        } else {
            1nat
        }
    }
}

proof fn lemma_count_false_update(s: Seq<bool>, i: int)
    requires
        0 <= i < s.len(),
        !s[i],
    ensures
        count_false(s) >= 1,
        count_false(s.update(i, true)) == count_false(s) - 1,
    decreases s.len(),
{
    let u = s.update(i, true);
    if i == s.len() - 1 {
        assert(u.drop_last() =~= s.drop_last());
    } else {
        lemma_count_false_update(s.drop_last(), i);
        assert(u.drop_last() =~= s.drop_last().update(i, true));
    }
}

/// Every marked cell is joined to a resolution-needing cell by a flat
/// path.
#[verifier::opaque]
spec fn marks_witnessed(rows: int, cols: int, keys: Seq<u32>, solid: Seq<bool>, fl: Seq<bool>) -> bool {
    forall|i: int| 0 <= i < fl.len() && #[trigger] fl[i] ==> in_flat(rows, cols, keys, solid, i)
}

/// Marked cells off the stack have all their flat-step neighbours
/// marked.
#[verifier::opaque]
spec fn marks_closed(rows: int, cols: int, keys: Seq<u32>, solid: Seq<bool>, fl: Seq<bool>, stack: Seq<usize>) -> bool {
    forall|j: int, k: int|
        #![trigger fl[j], neighbour(rows, cols, j, k)]
        0 <= j < fl.len() && fl[j] && !stack.contains(j as usize) && 0 <= k < 8 ==> match neighbour(rows, cols, j, k) {
            Some(i) => !flat_step(rows, cols, keys, solid, j, i) || fl[i],
            None => true,
        }
}

proof fn lemma_extend_flat_path(rows: int, cols: int, keys: Seq<u32>, solid: Seq<bool>, p: Seq<int>, x: int)
    requires
        flat_path(rows, cols, keys, solid, p),
        in_grid(rows, cols, x),
        !solid[x],
        flat_step(rows, cols, keys, solid, p.last(), x),
    ensures
        flat_path(rows, cols, keys, solid, p.push(x)),
        p.push(x)[0] == p[0],
        p.push(x).last() == x,
{
    let q = p.push(x);
    assert forall|t: int| 0 <= t < q.len() - 1 implies flat_step(rows, cols, keys, solid, #[trigger] q[t], q[t + 1]) by {
        if t < p.len() - 1 {
            assert(q[t] == p[t] && q[t + 1] == p[t + 1]);
        }
    }
    assert forall|t: int| 0 <= t < q.len() implies in_grid(rows, cols, #[trigger] q[t]) && !solid[q[t]] by {
        if t < p.len() {
            assert(q[t] == p[t]);
        }
    }
}

/// Closure of marked cells under flat steps covers every flat path.
proof fn lemma_flat_path_marked(
    rows: int,
    cols: int,
    keys: Seq<u32>,
    solid: Seq<bool>,
    fl: Seq<bool>,
    p: Seq<int>,
    t: int,
)
    requires
        grid_ok(rows, cols),
        fl.len() == rows * cols,
        flat_path(rows, cols, keys, solid, p),
        fl[p[0]],
        0 <= t < p.len(),
        marks_closed(rows, cols, keys, solid, fl, Seq::empty()),
    ensures
        fl[p[t]],
    decreases t,
{
    if t > 0 {
        lemma_flat_path_marked(rows, cols, keys, solid, fl, p, t - 1);
        let j = p[t - 1];
        let i = p[t];
        assert(flat_step(rows, cols, keys, solid, j, i));
        lemma_adjacent_neighbour(rows, cols, j, i);
        let k = direction_between(cols, j, i);
        reveal(marks_closed);
        assert(!Seq::<usize>::empty().contains(j as usize));
        assert(fl[j] && neighbour(rows, cols, j, k) == Some(i));
    }
}

/// Mark the flat regions: every cell reachable by flat steps from a
/// cell that needs resolution.
fn mark_flats(keys: &Vec<u32>, solid: &Vec<bool>, needs: &Vec<bool>, rows: usize, cols: usize) -> (fl: Vec<bool>)
    requires
        grid_ok(rows as int, cols as int),
        keys@.len() == rows * cols,
        solid@.len() == rows * cols,
        needs@.len() == rows * cols,
        forall|i: int| 0 <= i < rows * cols ==> #[trigger] needs@[i] == needs_drain(rows as int, cols as int, keys@, solid@, i),
    ensures
        fl@.len() == rows * cols,
        forall|i: int| 0 <= i < rows * cols ==> #[trigger] fl@[i] == in_flat(rows as int, cols as int, keys@, solid@, i),
{
    let n = rows * cols;
    let ghost r = rows as int;
    let ghost c = cols as int;
    let mut fl: Vec<bool> = Vec::new();
    let mut stack: Vec<usize> = Vec::new();
    let mut i: usize = 0;
    while i < n
        invariant
            grid_ok(r, c),
            r == rows,
            c == cols,
            n == rows * cols,
            i <= n,
            keys@.len() == n,
            solid@.len() == n,
            needs@.len() == n,
            forall|j: int| 0 <= j < n ==> #[trigger] needs@[j] == needs_drain(r, c, keys@, solid@, j),
            fl@.len() == i,
            forall|j: int| 0 <= j < i ==> #[trigger] fl@[j] == needs@[j],
            forall|t: int| 0 <= t < stack@.len() ==> #[trigger] stack@[t] < i && fl@[stack@[t] as int],
            forall|j: int| 0 <= j < i && #[trigger] fl@[j] ==> stack@.contains(j as usize),
        decreases n - i,
    {
        let ghost s0 = stack@;
        fl.push(needs[i]);
        if needs[i] {
            stack.push(i);
        }
        proof {
            assert forall|j: int| 0 <= j < i + 1 && #[trigger] fl@[j] implies stack@.contains(j as usize) by {
                if j == i as int {
                    assert(stack@[stack@.len() - 1] == i);
                } else {
                    assert(fl@[j] == needs@[j]);
                    assert(s0.contains(j as usize));
                    let t = choose|t: int| 0 <= t < s0.len() && s0[t] == j as usize;
                    assert(stack@[t] == j as usize);
                }
            }
        }
        i += 1;
    }
    proof {
        reveal(marks_witnessed);
        reveal(marks_closed);
        assert forall|j: int| 0 <= j < fl@.len() && #[trigger] fl@[j] implies in_flat(r, c, keys@, solid@, j) by {
            let p = seq![j];
            assert(p.last() == j);
            assert(flat_path(r, c, keys@, solid@, p));
        }
    }
    while stack.len() > 0
        invariant
            grid_ok(r, c),
            r == rows,
            c == cols,
            n == rows * cols,
            keys@.len() == n,
            solid@.len() == n,
            fl@.len() == n,
            forall|j: int| 0 <= j < n && #[trigger] needs@[j] ==> fl@[j],
            needs@.len() == n,
            forall|j: int| 0 <= j < n ==> #[trigger] needs@[j] == needs_drain(r, c, keys@, solid@, j),
            forall|t: int| 0 <= t < stack@.len() ==> #[trigger] stack@[t] < n && fl@[stack@[t] as int],
            marks_witnessed(r, c, keys@, solid@, fl@),
            marks_closed(r, c, keys@, solid@, fl@, stack@),
        decreases 2 * count_false(fl@) + stack@.len(),
    {
        let ghost st0 = stack@;
        let idx = stack.pop().unwrap();
        let ghost st1 = stack@;
        proof {
            reveal(marks_closed);
            assert forall|j: int, kk: int|
                #![trigger fl@[j], neighbour(r, c, j, kk)]
                0 <= j < n && fl@[j] && !stack@.contains(j as usize) && j != idx && 0 <= kk < 8 implies match neighbour(r, c, j, kk) {
                    Some(x) => !flat_step(r, c, keys@, solid@, j, x) || fl@[x],
                    None => true,
                } by {
                if st0.contains(j as usize) {
                    let t = choose|t: int| 0 <= t < st0.len() && st0[t] == j as usize;
                    if t < st0.len() - 1 {
                        assert(stack@[t] == j as usize);
                    }
                }
            }
        }
        let ghost m1 = 2 * count_false(fl@) + stack@.len();
        let mut k: usize = 0;
        while k < 8
            invariant
                grid_ok(r, c),
                r == rows,
                c == cols,
                n == rows * cols,
                k <= 8,
                idx < n,
                fl@[idx as int],
                keys@.len() == n,
                solid@.len() == n,
                fl@.len() == n,
                needs@.len() == n,
                forall|j: int| 0 <= j < n && #[trigger] needs@[j] ==> fl@[j],
                forall|t: int| 0 <= t < stack@.len() ==> #[trigger] stack@[t] < n && fl@[stack@[t] as int],
                st1.len() <= stack@.len(),
                forall|t: int| 0 <= t < st1.len() ==> #[trigger] stack@[t] == st1[t],
                2 * count_false(fl@) + stack@.len() <= m1,
                marks_witnessed(r, c, keys@, solid@, fl@),
                forall|j: int, kk: int|
                    #![trigger fl@[j], neighbour(r, c, j, kk)]
                    0 <= j < n && fl@[j] && !stack@.contains(j as usize) && j != idx && 0 <= kk < 8 ==> match neighbour(r, c, j, kk) {
                        Some(x) => !flat_step(r, c, keys@, solid@, j, x) || fl@[x],
                        None => true,
                    },
                forall|kk: int| 0 <= kk < k ==> match #[trigger] neighbour(r, c, idx as int, kk) {
                    Some(x) => !flat_step(r, c, keys@, solid@, idx as int, x) || fl@[x],
                    None => true,
                },
            decreases 8 - k,
        {
            match d8_neighbour(rows, cols, idx, k) {
                Some(nb) => {
                    proof {
                        lemma_neighbour_adjacent(r, c, idx as int, k as int);
                    }
                    if !solid[nb] && !fl[nb] && keys[nb] == keys[idx] {
                        let ghost f0 = fl@;
                        let ghost s0 = stack@;
                        proof {
                            lemma_count_false_update(f0, nb as int);
                        }
                        fl.set(nb, true);
                        stack.push(nb);
                        proof {
                            reveal(marks_witnessed);
                            assert forall|j: int| 0 <= j < fl@.len() && #[trigger] fl@[j] implies in_flat(r, c, keys@, solid@, j) by {
                                if j == nb as int {
                                    assert(f0[idx as int]);
                                    let p = choose|p: Seq<int>|
                                        #[trigger] flat_path(r, c, keys@, solid@, p) && needs_drain(r, c, keys@, solid@, p[0]) && p.last() == idx as int;
                                    lemma_extend_flat_path(r, c, keys@, solid@, p, j);
                                    assert(flat_path(r, c, keys@, solid@, p.push(j)));
                                } else {
                                    assert(f0[j]);
                                }
                            }
                            assert forall|j: int, kk: int|
                                #![trigger fl@[j], neighbour(r, c, j, kk)]
                                0 <= j < n && fl@[j] && !stack@.contains(j as usize) && j != idx && 0 <= kk < 8 implies match neighbour(r, c, j, kk) {
                                    Some(x) => !flat_step(r, c, keys@, solid@, j, x) || fl@[x],
                                    None => true,
                                } by {
                                if j != nb as int {
                                    assert(f0[j]);
                                    if s0.contains(j as usize) {
                                        let t = choose|t: int| 0 <= t < s0.len() && s0[t] == j as usize;
                                        assert(stack@[t] == j as usize);
                                    }
                                } else {
                                    assert(stack@[stack@.len() - 1] == nb);
                                }
                            }
                        }
                    }
                },
                None => {},
            }
            k += 1;
        }
        proof {
            reveal(marks_closed);
            assert forall|j: int, kk: int|
                #![trigger fl@[j], neighbour(r, c, j, kk)]
                0 <= j < fl@.len() && fl@[j] && !stack@.contains(j as usize) && 0 <= kk < 8 implies match neighbour(r, c, j, kk) {
                    Some(x) => !flat_step(r, c, keys@, solid@, j, x) || fl@[x],
                    None => true,
                } by {
            }
        }
    }
    proof {
        reveal(marks_witnessed);
        assert(stack@ =~= Seq::<usize>::empty());
        assert forall|i: int| 0 <= i < rows * cols implies #[trigger] fl@[i] == in_flat(r, c, keys@, solid@, i) by {
            if in_flat(r, c, keys@, solid@, i) {
                let p = choose|p: Seq<int>|
                    #[trigger] flat_path(r, c, keys@, solid@, p) && needs_drain(r, c, keys@, solid@, p[0]) && p.last() == i;
                assert(needs@[p[0]]);
                lemma_flat_path_marked(r, c, keys@, solid@, fl@, p, p.len() - 1);
            }
        }
    }
    fl
}

/// Number of reached cells.
spec fn count_set(f: Seq<u32>) -> nat
    decreases f.len(),
{
    if f.len() == 0 {
        0
    } else {
        count_set(f.drop_last()) + if f.last() != UNSET {
            1nat
        } else {
            0nat
        }
    }
}

proof fn lemma_count_set_update(f: Seq<u32>, i: int, v: u32)
    requires
        0 <= i < f.len(),
        f[i] == UNSET,
        v != UNSET,
    ensures
        count_set(f.update(i, v)) == count_set(f) + 1,
    decreases f.len(),
{
    let u = f.update(i, v);
    if i == f.len() - 1 {
        assert(u.drop_last() =~= f.drop_last());
    } else {
        lemma_count_set_update(f.drop_last(), i, v);
        assert(u.drop_last() =~= f.drop_last().update(i, v));
    }
}

proof fn lemma_count_set_bounds(f: Seq<u32>, i: int)
    requires
        0 <= i < f.len(),
    ensures
        count_set(f) <= f.len(),
        f[i] == UNSET ==> count_set(f) < f.len(),
        f[i] != UNSET ==> count_set(f) >= 1,
    decreases f.len(),
{
    let g = f.drop_last();
    if i < f.len() - 1 {
        assert(g[i] == f[i]);
        lemma_count_set_bounds(g, i);
    } else if f.len() > 1 {
        lemma_count_set_bounds(g, 0);
    } else {
        assert(g.len() == 0);
        assert(count_set(g) == 0);
    }
}

/// Reached cells: zero exactly on seeds, flat, one hop beyond a
/// neighbour, and below the number of reached cells.
#[verifier::opaque]
spec fn reached_ok(rows: int, cols: int, keys: Seq<u32>, fl: Seq<bool>, seed: Seq<bool>, f: Seq<u32>) -> bool {
    let n = rows * cols;
    &&& forall|i: int| 0 <= i < n ==> (#[trigger] f[i] == 0 <==> seed[i])
    &&& forall|i: int| 0 <= i < n && #[trigger] f[i] != UNSET ==> fl[i]
    &&& forall|i: int|
        0 <= i < n && #[trigger] f[i] != UNSET && f[i] > 0 ==> exists|k: int|
            0 <= k < 8 && #[trigger] pred_at(rows, cols, keys, fl, f, i, k)
    &&& forall|i: int| 0 <= i < n && #[trigger] f[i] != UNSET ==> f[i] < count_set(f)
}

/// Queued cells are reached, in non-decreasing order, spanning at most
/// one hop, and in `[lo, lo + 1]`.
#[verifier::opaque]
spec fn queue_ok(n: int, f: Seq<u32>, q: Seq<usize>, lo: int) -> bool {
    &&& forall|t: int| 0 <= t < q.len() ==> #[trigger] q[t] < n && f[q[t] as int] != UNSET
    &&& forall|s: int, t: int| 0 <= s < t < q.len() ==> f[#[trigger] q[s] as int] <= f[#[trigger] q[t] as int]
    &&& forall|t: int| 0 <= t < q.len() ==> lo <= #[trigger] f[q[t] as int] <= lo + 1
}

/// No reached value exceeds `hi`.
#[verifier::opaque]
spec fn top_ok(n: int, f: Seq<u32>, hi: int) -> bool {
    forall|i: int| 0 <= i < n && #[trigger] f[i] != UNSET ==> f[i] <= hi
}

/// The flat neighbours of `j` in direction `k` are reached within one
/// hop of `j`.
spec fn settled(rows: int, cols: int, keys: Seq<u32>, fl: Seq<bool>, f: Seq<u32>, j: int, k: int) -> bool {
    match neighbour(rows, cols, j, k) {
        Some(i) => !(fl[j] && fl[i] && keys[i] == keys[j]) || (f[i] != UNSET && f[i] <= f[j] + 1),
        None => true,
    }
}

/// Reached cells that left the queue (other than `y`) are settled in
/// every direction.
#[verifier::opaque]
spec fn proc_ok(rows: int, cols: int, keys: Seq<u32>, fl: Seq<bool>, f: Seq<u32>, q: Seq<usize>, y: int) -> bool {
    forall|j: int, k: int|
        #![trigger settled(rows, cols, keys, fl, f, j, k)]
        0 <= j < rows * cols && f[j] != UNSET && !q.contains(j as usize) && j != y && 0 <= k < 8 ==> settled(
            rows,
            cols,
            keys,
            fl,
            f,
            j,
            k,
        )
}

/// Reach the unreached flat neighbour `nb` of `j` at one hop beyond.
proof fn lemma_reach(
    rows: int,
    cols: int,
    keys: Seq<u32>,
    fl: Seq<bool>,
    seed: Seq<bool>,
    f: Seq<u32>,
    q: Seq<usize>,
    j: int,
    k: int,
    nb: int,
    d: u32,
)
    requires
        grid_ok(rows, cols),
        rows * cols <= u32::MAX,
        keys.len() == rows * cols,
        fl.len() == rows * cols,
        f.len() == rows * cols,
        0 <= j < rows * cols,
        0 <= k < 8,
        neighbour(rows, cols, j, k) == Some(nb),
        fl[j],
        fl[nb],
        keys[nb] == keys[j],
        f[j] == d,
        d != UNSET,
        f[nb] == UNSET,
        reached_ok(rows, cols, keys, fl, seed, f),
        queue_ok(rows * cols, f, q, d as int),
        top_ok(rows * cols, f, d + 1),
        proc_ok(rows, cols, keys, fl, f, q, j),
    ensures
        d + 1 < UNSET,
        reached_ok(rows, cols, keys, fl, seed, f.update(nb, (d + 1) as u32)),
        queue_ok(rows * cols, f.update(nb, (d + 1) as u32), q.push(nb as usize), d as int),
        top_ok(rows * cols, f.update(nb, (d + 1) as u32), d + 1),
        proc_ok(rows, cols, keys, fl, f.update(nb, (d + 1) as u32), q.push(nb as usize), j),
        count_set(f.update(nb, (d + 1) as u32)) == count_set(f) + 1,
        count_set(f) < rows * cols,
{
    let n = rows * cols;
    let v = (d + 1) as u32;
    reveal(reached_ok);
    reveal(queue_ok);
    reveal(top_ok);
    reveal(proc_ok);
    lemma_neighbour_adjacent(rows, cols, j, k);
    lemma_count_set_bounds(f, nb);
    lemma_count_set_bounds(f, j);
    assert(d < count_set(f));
    assert(d + 1 < UNSET);
    lemma_count_set_update(f, nb, v);
    let g = f.update(nb, v);
    assert forall|i: int| 0 <= i < n && #[trigger] g[i] != UNSET && g[i] > 0 implies exists|kk: int|
        0 <= kk < 8 && #[trigger] pred_at(rows, cols, keys, fl, g, i, kk) by {
        if i == nb {
            lemma_adjacent_symmetric(rows, cols, j, nb);
            lemma_adjacent_neighbour(rows, cols, nb, j);
            let kk = crate::grid::direction_between(cols, nb, j);
            assert(pred_at(rows, cols, keys, fl, g, i, kk));
        } else {
            assert(f[i] != UNSET && f[i] > 0);
            let kk = choose|kk: int| 0 <= kk < 8 && #[trigger] pred_at(rows, cols, keys, fl, f, i, kk);
            lemma_cell_coords(rows, cols, i);
            match neighbour(rows, cols, i, kk) {
                Some(x) => {
                    lemma_neighbour_adjacent(rows, cols, i, kk);
                    assert(x != nb);
                    assert(pred_at(rows, cols, keys, fl, g, i, kk));
                },
                None => {},
            }
        }
    }
    assert forall|i: int| 0 <= i < n && #[trigger] g[i] != UNSET implies g[i] < count_set(g) by {
        if i != nb {
            assert(f[i] != UNSET);
        }
    }
    assert forall|i: int| 0 <= i < n implies (#[trigger] g[i] == 0 <==> seed[i]) by {
        assert(f[i] == 0 <==> seed[i]);
    }
    let q2 = q.push(nb as usize);
    assert forall|t: int| 0 <= t < q2.len() implies #[trigger] q2[t] < n && g[q2[t] as int] != UNSET by {
        if t < q.len() {
            assert(q2[t] == q[t]);
        }
    }
    assert forall|s: int, t: int| 0 <= s < t < q2.len() implies g[#[trigger] q2[s] as int] <= g[#[trigger] q2[t] as int] by {
        assert(q2[s] == q[s]);
        assert(q[s] as int != nb);
        if t < q.len() {
            assert(q2[t] == q[t]);
            assert(q[t] as int != nb);
        }
    }
    assert forall|t: int| 0 <= t < q2.len() implies d <= #[trigger] g[q2[t] as int] <= d + 1 by {
        if t < q.len() {
            assert(q2[t] == q[t]);
            assert(q[t] as int != nb);
        }
    }
    assert forall|jj: int, kk: int|
        #![trigger settled(rows, cols, keys, fl, g, jj, kk)]
        0 <= jj < n && g[jj] != UNSET && !q2.contains(jj as usize) && jj != j && 0 <= kk < 8 implies settled(
            rows,
            cols,
            keys,
            fl,
            g,
            jj,
            kk,
        ) by {
        if jj == nb {
            assert(q2[q.len() as int] == nb as usize);
        } else {
            assert(!q.contains(jj as usize)) by {
                if q.contains(jj as usize) {
                    let t = choose|t: int| 0 <= t < q.len() && q[t] == jj as usize;
                    assert(q2[t] == jj as usize);
                }
            }
            assert(f[jj] == g[jj]);
            assert(settled(rows, cols, keys, fl, f, jj, kk));
            match neighbour(rows, cols, jj, kk) {
                Some(i) => {
                    lemma_neighbour_adjacent(rows, cols, jj, kk);
                    if i == nb {
                        assert(f[i] == UNSET);
                    } else {
                        assert(f[i] == g[i]);
                    }
                },
                None => {},
            }
        }
    }
}

/// Multi-source breadth-first search over the flat graph from the
/// queued seeds.
fn bfs(
    rows: usize,
    cols: usize,
    keys: &Vec<u32>,
    fl: &Vec<bool>,
    field: &mut Vec<u32>,
    queue: &mut VecDeque<usize>,
    Ghost(seed): Ghost<Seq<bool>>,
)
    requires
        grid_ok(rows as int, cols as int),
        rows * cols <= u32::MAX,
        keys@.len() == rows * cols,
        fl@.len() == rows * cols,
        seed.len() == rows * cols,
        old(field)@.len() == rows * cols,
        forall|i: int| 0 <= i < rows * cols ==> #[trigger] old(field)@[i] == if seed[i] {
            0
        } else {
            UNSET
        },
        forall|i: int| 0 <= i < rows * cols && #[trigger] seed[i] ==> fl@[i],
        forall|t: int| 0 <= t < old(queue)@.len() ==> #[trigger] old(queue)@[t] < rows * cols && seed[old(queue)@[t] as int],
        forall|i: int| 0 <= i < rows * cols && #[trigger] seed[i] ==> old(queue)@.contains(i as usize),
    ensures
        bfs_field(rows as int, cols as int, keys@, fl@, seed, final(field)@),
{
    let n = rows * cols;
    let ghost r = rows as int;
    let ghost c = cols as int;
    proof {
        reveal(reached_ok);
        reveal(queue_ok);
        reveal(top_ok);
        reveal(proc_ok);
        assert forall|i: int| 0 <= i < n && #[trigger] field@[i] != UNSET implies field@[i] < count_set(field@) by {
            lemma_count_set_bounds(field@, i);
        }
        vstd::arithmetic::mul::lemma_mul_strictly_positive(r, c);
        lemma_count_set_bounds(field@, 0);
        assert forall|t: int| 0 <= t < queue@.len() implies #[trigger] queue@[t] < n && field@[queue@[t] as int] != UNSET by {
            assert(seed[queue@[t] as int]);
        }
        assert forall|s: int, t: int| 0 <= s < t < queue@.len() implies field@[#[trigger] queue@[s] as int] <= field@[#[trigger] queue@[t] as int] by {
            assert(seed[queue@[s] as int]);
            assert(seed[queue@[t] as int]);
        }
        assert forall|t: int| 0 <= t < queue@.len() implies 0 <= #[trigger] field@[queue@[t] as int] <= 1 by {
            assert(seed[queue@[t] as int]);
        }
        assert forall|jj: int, kk: int|
            #![trigger settled(r, c, keys@, fl@, field@, jj, kk)]
            0 <= jj < n && field@[jj] != UNSET && !queue@.contains(jj as usize) && jj != -1 && 0 <= kk < 8 implies settled(
                r,
                c,
                keys@,
                fl@,
                field@,
                jj,
                kk,
            ) by {
            assert(seed[jj]);
        }
    }
    let ghost mut lo: int = 0;
    while queue.len() > 0
        invariant
            grid_ok(r, c),
            r == rows,
            c == cols,
            n == rows * cols,
            n <= u32::MAX,
            keys@.len() == n,
            fl@.len() == n,
            seed.len() == n,
            field@.len() == n,
            0 <= lo,
            reached_ok(r, c, keys@, fl@, seed, field@),
            queue_ok(n as int, field@, queue@, lo),
            queue@.len() > 0 ==> lo == field@[queue@[0] as int],
            top_ok(n as int, field@, lo + 1),
            proc_ok(r, c, keys@, fl@, field@, queue@, -1),
            count_set(field@) <= n,
        decreases 2 * (n - count_set(field@)) + queue@.len(),
    {
        let ghost q0 = queue@;
        let j = queue.pop_front().unwrap();
        proof {
            reveal(queue_ok);
            assert(q0[0] == j);
        }
        let d = field[j];
        proof {
            reveal(queue_ok);
            reveal(proc_ok);
            reveal(reached_ok);
            assert(q0[0] == j);
            assert(d != UNSET);
            assert forall|t: int| 0 <= t < queue@.len() implies #[trigger] queue@[t] < n && field@[queue@[t] as int] != UNSET by {
                assert(queue@[t] == q0[t + 1]);
            }
            assert forall|s: int, t: int| 0 <= s < t < queue@.len() implies field@[#[trigger] queue@[s] as int] <= field@[#[trigger] queue@[t] as int] by {
                assert(queue@[s] == q0[s + 1]);
                assert(queue@[t] == q0[t + 1]);
            }
            assert forall|t: int| 0 <= t < queue@.len() implies d <= #[trigger] field@[queue@[t] as int] <= d + 1 by {
                assert(queue@[t] == q0[t + 1]);
                assert(field@[q0[0] as int] <= field@[q0[t + 1] as int]);
            }
            assert forall|jj: int, kk: int|
                #![trigger settled(r, c, keys@, fl@, field@, jj, kk)]
                0 <= jj < n && field@[jj] != UNSET && !queue@.contains(jj as usize) && jj != j && 0 <= kk < 8 implies settled(
                    r,
                    c,
                    keys@,
                    fl@,
                    field@,
                    jj,
                    kk,
                ) by {
                if q0.contains(jj as usize) {
                    let t = choose|t: int| 0 <= t < q0.len() && q0[t] == jj as usize;
                    if t > 0 {
                        assert(queue@[t - 1] == jj as usize);
                    }
                }
            }
            assert(fl@[j as int]) by {
                assert(field@[j as int] != UNSET);
            }
        }
        let ghost m1 = 2 * (n - count_set(field@)) + queue@.len();
        let mut k: usize = 0;
        while k < 8
            invariant
                grid_ok(r, c),
                r == rows,
                c == cols,
                n == rows * cols,
                n <= u32::MAX,
                k <= 8,
                j < n,
                keys@.len() == n,
                fl@.len() == n,
                seed.len() == n,
                field@.len() == n,
                fl@[j as int],
                field@[j as int] == d,
                d != UNSET,
                reached_ok(r, c, keys@, fl@, seed, field@),
                queue_ok(n as int, field@, queue@, d as int),
                top_ok(n as int, field@, d + 1),
                proc_ok(r, c, keys@, fl@, field@, queue@, j as int),
                forall|kk: int| 0 <= kk < k ==> #[trigger] settled(r, c, keys@, fl@, field@, j as int, kk),
                count_set(field@) <= n,
                2 * (n - count_set(field@)) + queue@.len() <= m1,
            decreases 8 - k,
        {
            match d8_neighbour(rows, cols, j, k) {
                Some(nb) => {
                    proof {
                        lemma_neighbour_adjacent(r, c, j as int, k as int);
                    }
                    if fl[nb] && keys[nb] == keys[j] && field[nb] == UNSET {
                        let ghost f0 = field@;
                        let ghost q1 = queue@;
                        proof {
                            lemma_reach(r, c, keys@, fl@, seed, f0, q1, j as int, k as int, nb as int, d);
                        }
                        field.set(nb, d + 1);
                        queue.push_back(nb);
                        proof {
                            assert forall|kk: int| 0 <= kk < k + 1 implies #[trigger] settled(r, c, keys@, fl@, field@, j as int, kk) by {
                                if kk < k {
                                    assert(settled(r, c, keys@, fl@, f0, j as int, kk));
                                    match neighbour(r, c, j as int, kk) {
                                        Some(x) => {
                                            lemma_neighbour_adjacent(r, c, j as int, kk);
                                            if x != nb as int {
                                                assert(f0[x] == field@[x]);
                                            }
                                        },
                                        None => {},
                                    }
                                } else {
                                    assert(neighbour(r, c, j as int, kk) == Some(nb as int));
                                    assert(field@[nb as int] == d + 1);
                                }
                            }
                        }
                    } else {
                        proof {
                            reveal(top_ok);
                            assert(settled(r, c, keys@, fl@, field@, j as int, k as int));
                        }
                    }
                },
                None => {},
            }
            k += 1;
        }
        proof {
            reveal(proc_ok);
            reveal(queue_ok);
            reveal(top_ok);
            assert forall|jj: int, kk: int|
                #![trigger settled(r, c, keys@, fl@, field@, jj, kk)]
                0 <= jj < n && field@[jj] != UNSET && !queue@.contains(jj as usize) && jj != -1 && 0 <= kk < 8 implies settled(
                    r,
                    c,
                    keys@,
                    fl@,
                    field@,
                    jj,
                    kk,
                ) by {
            }
            if queue@.len() > 0 {
                lo = field@[queue@[0] as int] as int;
                assert(d <= lo);
            } else {
                lo = d + 1;
            }
        }
    }
    proof {
        reveal(reached_ok);
        reveal(proc_ok);
        assert forall|a: int, b: int|
            #[trigger] flat_edge(r, c, keys@, fl@, a, b) && field@[a] != UNSET implies field@[b] != UNSET && field@[b] <= field@[a] + 1 by {
            lemma_adjacent_neighbour(r, c, a, b);
            let kk = direction_between(c, a, b);
            assert(!queue@.contains(a as usize));
            assert(settled(r, c, keys@, fl@, field@, a, kk));
        }
    }
}

/// Flat membership of every cell.
pub open spec fn flat_marks(rows: int, cols: int, keys: Seq<u32>, solid: Seq<bool>) -> Seq<bool> {
    Seq::new((rows * cols) as nat, |i: int| in_flat(rows, cols, keys, solid, i))
}

/// Outlets of the flats: flat cells with a lower neighbour or on the
/// grid edge.
pub open spec fn low_seeds(rows: int, cols: int, keys: Seq<u32>, solid: Seq<bool>) -> Seq<bool> {
    Seq::new(
        (rows * cols) as nat,
        |i: int|
            in_flat(rows, cols, keys, solid, i) && (has_lower(rows, cols, keys, solid, i) || on_boundary(rows, cols, i)),
    )
}

/// Flat cells next to higher terrain.
pub open spec fn high_seeds(rows: int, cols: int, keys: Seq<u32>, solid: Seq<bool>) -> Seq<bool> {
    Seq::new((rows * cols) as nat, |i: int| in_flat(rows, cols, keys, solid, i) && has_higher(rows, cols, keys, solid, i))
}

/// Position of direction index `k` in the cardinal-first order
/// E, N, W, S, NE, NW, SW, SE.
pub open spec fn flat_order_pos(k: int) -> int {
    if k % 2 == 0 {
        k / 2
    } else {
        4 + k / 2
    }
}

/// Distance-from-higher-terrain key: unreached counts as farthest.
pub open spec fn fh_key(v: u32) -> int {
    if v == UNSET {
        UNSET - 1
    } else {
        v as int
    }
}

/// Direction `k` from `idx` leads to an equal-elevation valid cell
/// strictly closer to an outlet.
pub open spec fn flat_candidate(rows: int, cols: int, keys: Seq<u32>, solid: Seq<bool>, tl: Seq<u32>, idx: int, k: int) -> bool {
    match neighbour(rows, cols, idx, k) {
        Some(nb) => !solid[nb] && keys[nb] == keys[idx] && tl[nb] != UNSET && tl[nb] < tl[idx],
        None => false,
    }
}

/// Direction `a` is preferred to direction `b`: closer to an outlet,
/// then farther from higher terrain, then earlier in cardinal-first
/// order.
pub open spec fn flat_better(rows: int, cols: int, tl: Seq<u32>, fh: Seq<u32>, idx: int, a: int, b: int) -> bool {
    let na = neighbour(rows, cols, idx, a)->0;
    let nb = neighbour(rows, cols, idx, b)->0;
    tl[na] < tl[nb] || (tl[na] == tl[nb] && (fh_key(fh[na]) > fh_key(fh[nb]) || (fh_key(fh[na]) == fh_key(
        fh[nb],
    ) && flat_order_pos(a) < flat_order_pos(b))))
}

/// The two fields of the flats of a grid, if there are any flats:
/// hop distance to the nearest outlet and from the nearest higher edge.
pub open spec fn flats_ok(rows: int, cols: int, keys: Seq<u32>, solid: Seq<bool>, fv: Option<(Seq<u32>, Seq<u32>)>) -> bool {
    match fv {
        None => forall|i: int| 0 <= i < rows * cols ==> !#[trigger] needs_drain(rows, cols, keys, solid, i),
        Some(f) => {
            &&& exists|i: int| 0 <= i < rows * cols && #[trigger] needs_drain(rows, cols, keys, solid, i)
            &&& bfs_field(rows, cols, keys, flat_marks(rows, cols, keys, solid), low_seeds(rows, cols, keys, solid), f.0)
            &&& bfs_field(rows, cols, keys, flat_marks(rows, cols, keys, solid), high_seeds(rows, cols, keys, solid), f.1)
        },
    }
}

/// The fields of the flats, if any.
pub open spec fn flat_views(flats: Option<FlatOffsets>) -> Option<(Seq<u32>, Seq<u32>)> {
    match flats {
        Some(f) => Some((f.to_lower_view(), f.from_higher_view())),
        None => None,
    }
}

/// The two breadth-first fields of the flats of `keys`.
pub struct FlatOffsets {
    to_lower: Vec<u32>,
    from_higher: Vec<u32>,
    rows: usize,
    cols: usize,
}

impl FlatOffsets {
    /// Hop distance of each cell to the nearest outlet of its flat.
    pub closed spec fn to_lower_view(&self) -> Seq<u32> {
        self.to_lower@
    }

    /// Hop distance of each cell from the nearest higher edge of its flat.
    pub closed spec fn from_higher_view(&self) -> Seq<u32> {
        self.from_higher@
    }

    pub closed spec fn rows_view(&self) -> int {
        self.rows as int
    }

    pub closed spec fn cols_view(&self) -> int {
        self.cols as int
    }

    /// Compute the flat fields of a (filled) elevation-key grid, or
    /// `None` when no valid cell lacks a lower neighbour.
    pub fn compute(keys: &Vec<u32>, solid: &Vec<bool>, rows: usize, cols: usize) -> (res: Option<FlatOffsets>)
        requires
            grid_ok(rows as int, cols as int),
            rows * cols <= u32::MAX,
            keys@.len() == rows * cols,
            solid@.len() == rows * cols,
        ensures
            flats_ok(rows as int, cols as int, keys@, solid@, flat_views(res)),
            match res {
                None => forall|i: int| 0 <= i < rows * cols ==> !#[trigger] needs_drain(rows as int, cols as int, keys@, solid@, i),
                Some(f) => {
                    &&& f.rows_view() == rows
                    &&& f.cols_view() == cols
                    &&& exists|i: int| 0 <= i < rows * cols && #[trigger] needs_drain(rows as int, cols as int, keys@, solid@, i)
                    &&& bfs_field(rows as int, cols as int, keys@, flat_marks(rows as int, cols as int, keys@, solid@),
                        low_seeds(rows as int, cols as int, keys@, solid@), f.to_lower_view())
                    &&& bfs_field(rows as int, cols as int, keys@, flat_marks(rows as int, cols as int, keys@, solid@),
                        high_seeds(rows as int, cols as int, keys@, solid@), f.from_higher_view())
                },
            },
    {
        let n = rows * cols;
        let ghost r = rows as int;
        let ghost c = cols as int;
        let mut needs: Vec<bool> = Vec::new();
        let mut any = false;
        let mut idx: usize = 0;
        while idx < n
            invariant
                grid_ok(r, c),
                r == rows,
                c == cols,
                n == rows * cols,
                idx <= n,
                keys@.len() == n,
                solid@.len() == n,
                needs@.len() == idx,
                forall|i: int| 0 <= i < idx ==> #[trigger] needs@[i] == needs_drain(r, c, keys@, solid@, i),
                any == exists|i: int| 0 <= i < idx && #[trigger] needs_drain(r, c, keys@, solid@, i),
            decreases n - idx,
        {
            let nd = !solid[idx] && !lower_higher(keys, solid, rows, cols, idx).0;
            needs.push(nd);
            if nd {
                any = true;
            }
            proof {
                assert(nd == needs_drain(r, c, keys@, solid@, idx as int));
                if nd {
                    assert(needs_drain(r, c, keys@, solid@, idx as int));
                } else if any {
                    let i = choose|i: int| 0 <= i < idx && #[trigger] needs_drain(r, c, keys@, solid@, i);
                    assert(0 <= i < idx + 1 && needs_drain(r, c, keys@, solid@, i));
                } else {
                    assert forall|i: int| 0 <= i < idx + 1 implies !#[trigger] needs_drain(r, c, keys@, solid@, i) by {
                        if i < idx {
                        }
                    }
                }
            }
            idx += 1;
        }
        if !any {
            return None;
        }
        let fl = mark_flats(keys, solid, &needs, rows, cols);
        let ghost lseed = low_seeds(r, c, keys@, solid@);
        let ghost hseed = high_seeds(r, c, keys@, solid@);
        let mut tl: Vec<u32> = Vec::new();
        let mut fh: Vec<u32> = Vec::new();
        let mut lq: VecDeque<usize> = VecDeque::new();
        let mut hq: VecDeque<usize> = VecDeque::new();
        let mut idx: usize = 0;
        while idx < n
            invariant
                grid_ok(r, c),
                r == rows,
                c == cols,
                n == rows * cols,
                idx <= n,
                keys@.len() == n,
                solid@.len() == n,
                fl@.len() == n,
                forall|i: int| 0 <= i < n ==> #[trigger] fl@[i] == in_flat(r, c, keys@, solid@, i),
                lseed == low_seeds(r, c, keys@, solid@),
                hseed == high_seeds(r, c, keys@, solid@),
                tl@.len() == idx,
                fh@.len() == idx,
                forall|i: int| 0 <= i < idx ==> #[trigger] tl@[i] == if lseed[i] { 0 } else { UNSET },
                forall|i: int| 0 <= i < idx ==> #[trigger] fh@[i] == if hseed[i] { 0 } else { UNSET },
                forall|t: int| 0 <= t < lq@.len() ==> #[trigger] lq@[t] < idx && lseed[lq@[t] as int],
                forall|t: int| 0 <= t < hq@.len() ==> #[trigger] hq@[t] < idx && hseed[hq@[t] as int],
                forall|i: int| 0 <= i < idx && #[trigger] lseed[i] ==> lq@.contains(i as usize),
                forall|i: int| 0 <= i < idx && #[trigger] hseed[i] ==> hq@.contains(i as usize),
            decreases n - idx,
        {
            let ghost lq0 = lq@;
            let ghost hq0 = hq@;
            if !fl[idx] {
                tl.push(UNSET);
                fh.push(UNSET);
            } else {
                let row = idx / cols;
                let col = idx % cols;
                let edge = row == 0 || row == rows - 1 || col == 0 || col == cols - 1;
                let lh = lower_higher(keys, solid, rows, cols, idx);
                if lh.0 || edge {
                    tl.push(0);
                    lq.push_back(idx);
                } else {
                    tl.push(UNSET);
                }
                if lh.1 {
                    fh.push(0);
                    hq.push_back(idx);
                } else {
                    fh.push(UNSET);
                }
            }
            proof {
                assert forall|i: int| 0 <= i < idx + 1 && #[trigger] lseed[i] implies lq@.contains(i as usize) by {
                    if i < idx {
                        let t = choose|t: int| 0 <= t < lq0.len() && lq0[t] == i as usize;
                        assert(lq@[t] == i as usize);
                    } else {
                        assert(lq@[lq@.len() - 1] == idx);
                    }
                }
                assert forall|i: int| 0 <= i < idx + 1 && #[trigger] hseed[i] implies hq@.contains(i as usize) by {
                    if i < idx {
                        let t = choose|t: int| 0 <= t < hq0.len() && hq0[t] == i as usize;
                        assert(hq@[t] == i as usize);
                    } else {
                        assert(hq@[hq@.len() - 1] == idx);
                    }
                }
                assert forall|t: int| 0 <= t < lq@.len() implies #[trigger] lq@[t] < idx + 1 && lseed[lq@[t] as int] by {
                    if t < lq0.len() {
                        assert(lq@[t] == lq0[t]);
                    }
                }
                assert forall|t: int| 0 <= t < hq@.len() implies #[trigger] hq@[t] < idx + 1 && hseed[hq@[t] as int] by {
                    if t < hq0.len() {
                        assert(hq@[t] == hq0[t]);
                    }
                }
            }
            idx += 1;
        }
        proof {
            assert(fl@ =~= flat_marks(r, c, keys@, solid@));
        }
        bfs(rows, cols, keys, &fl, &mut tl, &mut lq, Ghost(lseed));
        bfs(rows, cols, keys, &fl, &mut fh, &mut hq, Ghost(hseed));
        Some(FlatOffsets { to_lower: tl, from_higher: fh, rows, cols })
    }

    /// D8 direction code (1–8) draining flat cell `idx`, or `None` when
    /// the cell is unreached or is itself an outlet.
    ///
    /// Among equal-elevation valid neighbours strictly closer to an
    /// outlet, takes the closest, then the one farthest from higher
    /// terrain, then the first in cardinal-first order.
    pub fn direction(&self, idx: usize, keys: &Vec<u32>, solid: &Vec<bool>) -> (res: Option<u8>)
        requires
            grid_ok(self.rows_view(), self.cols_view()),
            keys@.len() == self.rows_view() * self.cols_view(),
            solid@.len() == self.rows_view() * self.cols_view(),
            self.to_lower_view().len() == self.rows_view() * self.cols_view(),
            self.from_higher_view().len() == self.rows_view() * self.cols_view(),
            idx < self.rows_view() * self.cols_view(),
        ensures
            match res {
                None => {
                    ||| self.to_lower_view()[idx as int] == UNSET
                    ||| self.to_lower_view()[idx as int] == 0
                    ||| forall|k: int| 0 <= k < 8 ==> !#[trigger] flat_candidate(self.rows_view(), self.cols_view(), keys@, solid@, self.to_lower_view(), idx as int, k)
                },
                Some(d) => {
                    &&& 1 <= d <= 8
                    &&& self.to_lower_view()[idx as int] != UNSET
                    &&& self.to_lower_view()[idx as int] != 0
                    &&& flat_candidate(self.rows_view(), self.cols_view(), keys@, solid@, self.to_lower_view(), idx as int, d - 1)
                    &&& forall|k: int| 0 <= k < 8 && k != d - 1 && #[trigger] flat_candidate(self.rows_view(), self.cols_view(), keys@, solid@, self.to_lower_view(), idx as int, k)
                        ==> flat_better(self.rows_view(), self.cols_view(), self.to_lower_view(), self.from_higher_view(), idx as int, d - 1, k)
                },
            },
    {
        let ghost r = self.rows as int;
        let ghost c = self.cols as int;
        let ghost tlv = self.to_lower@;
        let ghost fhv = self.from_higher@;
        let own = self.to_lower[idx];
        if own == UNSET || own == 0 {
            return None;
        }
        let mut found = false;
        let mut best_tl: u32 = 0;
        let mut best_fh: u32 = 0;
        let mut best_k: usize = 0;
        let mut m: usize = 0;
        while m < 8
            invariant
                grid_ok(r, c),
                r == self.rows,
                c == self.cols,
                tlv == self.to_lower@,
                fhv == self.from_higher@,
                keys@.len() == r * c,
                solid@.len() == r * c,
                tlv.len() == r * c,
                fhv.len() == r * c,
                idx < r * c,
                own == tlv[idx as int],
                m <= 8,
                found ==> best_k < 8 && flat_order_pos(best_k as int) < m && flat_candidate(r, c, keys@, solid@, tlv, idx as int, best_k as int),
                found ==> best_tl == tlv[neighbour(r, c, idx as int, best_k as int)->0],
                found ==> best_fh == fh_key(fhv[neighbour(r, c, idx as int, best_k as int)->0]),
                forall|k: int| 0 <= k < 8 && flat_order_pos(k) < m && #[trigger] flat_candidate(r, c, keys@, solid@, tlv, idx as int, k) ==> found && (k == best_k
                    || flat_better(r, c, tlv, fhv, idx as int, best_k as int, k)),
            decreases 8 - m,
        {
            let k: usize = if m < 4 { 2 * m } else { 2 * (m - 4) + 1 };
            proof {
                assert(flat_order_pos(k as int) == m);
                assert forall|kk: int| 0 <= kk < 8 && flat_order_pos(kk) == m implies kk == k by {}
            }
            match d8_neighbour(self.rows, self.cols, idx, k) {
                Some(nb) => {
                    proof {
                        lemma_neighbour_adjacent(r, c, idx as int, k as int);
                    }
                    if !solid[nb] && keys[nb] == keys[idx] && self.to_lower[nb] != UNSET && self.to_lower[nb] < own {
                        let t = self.to_lower[nb];
                        let f = self.from_higher[nb];
                        let fk: u32 = if f == UNSET { UNSET - 1 } else { f };
                        proof {
                            assert(flat_candidate(r, c, keys@, solid@, tlv, idx as int, k as int));
                            assert(fk == fh_key(fhv[nb as int]));
                        }
                        if !found || t < best_tl || (t == best_tl && fk > best_fh) {
                            found = true;
                            best_tl = t;
                            best_fh = fk;
                            best_k = k;
                        } else {
                            proof {
                                assert(flat_better(r, c, tlv, fhv, idx as int, best_k as int, k as int));
                            }
                        }
                    }
                },
                None => {},
            }
            m += 1;
        }
        if found {
            Some((best_k + 1) as u8)
        } else {
            None
        }
    }
}

/// Flat cells are valid.
pub(crate) proof fn lemma_in_flat_valid(rows: int, cols: int, keys: Seq<u32>, solid: Seq<bool>, x: int)
    requires
        in_flat(rows, cols, keys, solid, x),
    ensures
        !solid[x],
{
    let q = choose|q: Seq<int>| #[trigger] flat_path(rows, cols, keys, solid, q) && needs_drain(rows, cols, keys, solid, q[0]) && q.last() == x;
    assert(!solid[q[q.len() - 1]]);
}

/// Law: flat drainage never cycles and ends at an outlet. Follow the
/// flat directions from a cell that has one, `d[t]` being the direction
/// of cell `p[t]` as [`FlatOffsets::direction`] chooses it and `p[t + 1]`
/// the neighbour it names, until a cell has none: every step stays on
/// valid cells of the same elevation, the walk visits fewer than
/// `rows * cols` cells, and it stops at an outlet of the flat, a cell
/// with a strictly lower valid neighbour or on the grid edge.
pub proof fn lemma_flat_drainage_ends_at_outlet(
    rows: int,
    cols: int,
    keys: Seq<u32>,
    solid: Seq<bool>,
    tl: Seq<u32>,
    fh: Seq<u32>,
    p: Seq<int>,
    d: Seq<int>,
)
    requires
        grid_ok(rows, cols),
        keys.len() == rows * cols,
        solid.len() == rows * cols,
        flats_ok(rows, cols, keys, solid, Some((tl, fh))),
        p.len() >= 2,
        d.len() == p.len(),
        forall|t: int| 0 <= t < p.len() ==> 0 <= #[trigger] p[t] < rows * cols,
        forall|t: int| 0 <= t < p.len() ==> #[trigger] flat_dir_ok(rows, cols, keys, solid, tl, fh, p[t], d[t]),
        forall|t: int| 0 <= t < p.len() - 1 ==> #[trigger] d[t] != 0 && neighbour(rows, cols, p[t], d[t] - 1) == Some(p[t + 1]),
        d[p.len() - 1] == 0,
    ensures
        p.len() <= rows * cols,
        forall|t: int| 0 <= t < p.len() ==> !solid[#[trigger] p[t]] && keys[p[t]] == keys[p[0]],
        has_lower(rows, cols, keys, solid, p[p.len() - 1]) || on_boundary(rows, cols, p[p.len() - 1]),
{
    let n = rows * cols;
    let fl = flat_marks(rows, cols, keys, solid);
    let m = p.len() - 1;
    assert(bfs_field(rows, cols, keys, fl, low_seeds(rows, cols, keys, solid), tl));
    // Each step goes to an equal valid cell strictly closer to an outlet.
    assert forall|t: int| 0 <= t < m implies #[trigger] tl[p[t + 1]] < tl[p[t]] && tl[p[t + 1]] != UNSET && !solid[p[t + 1]]
        && keys[p[t + 1]] == keys[p[t]] && tl[p[t]] != UNSET by {
        assert(d[t] != 0 && neighbour(rows, cols, p[t], d[t] - 1) == Some(p[t + 1]));
        assert(flat_dir_ok(rows, cols, keys, solid, tl, fh, p[t], d[t]));
        assert(flat_candidate(rows, cols, keys, solid, tl, p[t], d[t] - 1));
    }
    assert(!solid[p[0]]) by {
        let s0: int = 0;
        assert(tl[p[s0 + 1]] < tl[p[s0]]);
        assert(tl[p[0]] != UNSET);
        assert(fl[p[0]]);
        lemma_in_flat_valid(rows, cols, keys, solid, p[0]);
    }
    assert forall|t: int| 0 <= t <= m implies !solid[#[trigger] p[t]] && keys[p[t]] == keys[p[0]] && tl[p[t]] <= tl[p[0]] - t by {
        lemma_flat_chain_prefix(p, tl, keys, solid, m, t);
    }
    // Strictly decreasing distances: no cell repeats.
    assert(p.no_duplicates()) by {
        assert forall|a: int, b: int| 0 <= a < b <= m implies p[a] != p[b] by {
            lemma_flat_chain_drop(p, tl, m, a, b);
        }
    }
    p.unique_seq_to_set();
    vstd::set_lib::lemma_int_range(0, n);
    assert(p.to_set().subset_of(vstd::set_lib::set_int_range(0, n))) by {
        assert forall|x: int| p.to_set().contains(x) implies vstd::set_lib::set_int_range(0, n).contains(x) by {
            let t = choose|t: int| 0 <= t < p.len() && p[t] == x;
        }
    }
    vstd::set_lib::lemma_len_subset(p.to_set(), vstd::set_lib::set_int_range(0, n));
    // The last cell has no flat direction, yet it was reached: it is an outlet.
    let last = p[m];
    assert(tl[last] != UNSET);
    assert(flat_dir_ok(rows, cols, keys, solid, tl, fh, last, 0));
    if tl[last] != 0 {
        let k = choose|k: int| 0 <= k < 8 && #[trigger] pred_at(rows, cols, keys, fl, tl, last, k);
        let j = neighbour(rows, cols, last, k)->0;
        lemma_neighbour_adjacent(rows, cols, last, k);
        assert(fl[j]);
        lemma_in_flat_valid(rows, cols, keys, solid, j);
        assert(flat_candidate(rows, cols, keys, solid, tl, last, k));
    }
    assert(low_seeds(rows, cols, keys, solid)[last]);
}

proof fn lemma_flat_chain_prefix(p: Seq<int>, tl: Seq<u32>, keys: Seq<u32>, solid: Seq<bool>, m: int, t: int)
    requires
        0 <= t <= m < p.len(),
        !solid[p[0]],
        forall|s: int| 0 <= s < m ==> #[trigger] tl[p[s + 1]] < tl[p[s]] && tl[p[s + 1]] != UNSET && !solid[p[s + 1]]
            && keys[p[s + 1]] == keys[p[s]] && tl[p[s]] != UNSET,
    ensures
        !solid[p[t]],
        keys[p[t]] == keys[p[0]],
        tl[p[t]] <= tl[p[0]] - t,
    decreases t,
{
    if t > 0 {
        lemma_flat_chain_prefix(p, tl, keys, solid, m, t - 1);
        assert(tl[p[t - 1 + 1]] < tl[p[t - 1]]);
    }
}

proof fn lemma_flat_chain_drop(p: Seq<int>, tl: Seq<u32>, m: int, a: int, b: int)
    requires
        0 <= a < b <= m < p.len(),
        forall|s: int| 0 <= s < m ==> #[trigger] tl[p[s + 1]] < tl[p[s]],
    ensures
        tl[p[b]] < tl[p[a]],
    decreases b - a,
{
    assert(tl[p[b - 1 + 1]] < tl[p[b - 1]]);
    if a < b - 1 {
        lemma_flat_chain_drop(p, tl, m, a, b - 1);
    }
}

/// Law: flat drainage goes toward the outlet and away from higher
/// terrain. When a flat cell `idx` drains in direction `d` (as
/// [`FlatOffsets::direction`] chooses it), the cell it drains to is a
/// valid cell of the same elevation exactly one hop closer to the flat's
/// outlets; and among all equal-elevation valid neighbours closer to the
/// outlets, every one is at that same distance and none lies farther
/// from higher terrain than the chosen cell (a cell no higher terrain
/// reaches counting as farthest).
pub proof fn lemma_flat_direction_farthest_from_higher(
    rows: int,
    cols: int,
    keys: Seq<u32>,
    solid: Seq<bool>,
    tl: Seq<u32>,
    fh: Seq<u32>,
    idx: int,
    d: int,
)
    requires
        grid_ok(rows, cols),
        keys.len() == rows * cols,
        solid.len() == rows * cols,
        flats_ok(rows, cols, keys, solid, Some((tl, fh))),
        0 <= idx < rows * cols,
        d != 0,
        flat_dir_ok(rows, cols, keys, solid, tl, fh, idx, d),
    ensures
        neighbour(rows, cols, idx, d - 1) is Some,
        ({
            let c = neighbour(rows, cols, idx, d - 1)->0;
            &&& !solid[c]
            &&& keys[c] == keys[idx]
            &&& tl[c] != UNSET
            &&& tl[c] + 1 == tl[idx]
            &&& forall|k: int|
                0 <= k < 8 && (#[trigger] neighbour(rows, cols, idx, k)) is Some && !solid[neighbour(rows, cols, idx, k)->0]
                    && keys[neighbour(rows, cols, idx, k)->0] == keys[idx] && tl[neighbour(rows, cols, idx, k)->0] != UNSET
                    && tl[neighbour(rows, cols, idx, k)->0] < tl[idx] ==> tl[neighbour(rows, cols, idx, k)->0] == tl[c]
                    && fh_key(fh[c]) >= fh_key(fh[neighbour(rows, cols, idx, k)->0])
        }),
{
    let fl = flat_marks(rows, cols, keys, solid);
    assert(bfs_field(rows, cols, keys, fl, low_seeds(rows, cols, keys, solid), tl));
    assert(flat_candidate(rows, cols, keys, solid, tl, idx, d - 1));
    let c = neighbour(rows, cols, idx, d - 1)->0;
    assert(fl[idx]);
    // Every closer equal neighbour is exactly one hop closer.
    assert forall|k: int|
        0 <= k < 8 && (#[trigger] neighbour(rows, cols, idx, k)) is Some && !solid[neighbour(rows, cols, idx, k)->0]
            && keys[neighbour(rows, cols, idx, k)->0] == keys[idx] && tl[neighbour(rows, cols, idx, k)->0] != UNSET
            && tl[neighbour(rows, cols, idx, k)->0] < tl[idx] implies tl[neighbour(rows, cols, idx, k)->0] + 1 == tl[idx] by {
        let nb = neighbour(rows, cols, idx, k)->0;
        lemma_neighbour_adjacent(rows, cols, idx, k);
        lemma_adjacent_symmetric(rows, cols, idx, nb);
        assert(fl[nb]);
        assert(flat_edge(rows, cols, keys, fl, nb, idx));
    }
    lemma_neighbour_adjacent(rows, cols, idx, d - 1);
    assert(tl[c] + 1 == tl[idx]);
    assert forall|k: int|
        0 <= k < 8 && (#[trigger] neighbour(rows, cols, idx, k)) is Some && !solid[neighbour(rows, cols, idx, k)->0]
            && keys[neighbour(rows, cols, idx, k)->0] == keys[idx] && tl[neighbour(rows, cols, idx, k)->0] != UNSET
            && tl[neighbour(rows, cols, idx, k)->0] < tl[idx] implies tl[neighbour(rows, cols, idx, k)->0] == tl[c]
            && fh_key(fh[c]) >= fh_key(fh[neighbour(rows, cols, idx, k)->0]) by {
        assert(flat_candidate(rows, cols, keys, solid, tl, idx, k));
        if k != d - 1 {
            assert(flat_better(rows, cols, tl, fh, idx, d - 1, k));
        }
    }
}

} // verus!
