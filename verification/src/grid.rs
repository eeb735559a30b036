//! Row-major raster geometry and the D8 neighbourhood.
//!
//! Cells are numbered row-major: cell `i` lies at row `i / cols`, column
//! `i % cols`. D8 directions are numbered counter-clockwise from East:
//! index `k` in `0..8` is direction code `k + 1`, with
//! 1=E, 2=NE, 3=N, 4=NW, 5=W, 6=SW, 7=S, 8=SE (row 0 is north).

use vstd::prelude::*;

verus! {

/// A grid shape the library can index: non-empty and addressable.
pub open spec fn grid_ok(rows: int, cols: int) -> bool {
    rows > 0 && cols > 0 && rows * cols <= usize::MAX
}

/// `i` is a cell of a `rows` x `cols` grid.
pub open spec fn in_grid(rows: int, cols: int, i: int) -> bool {
    0 <= i < rows * cols
}

pub open spec fn row_of(cols: int, i: int) -> int {
    i / cols
}

pub open spec fn col_of(cols: int, i: int) -> int {
    i % cols
}

/// Row offset of D8 direction index `k` (direction code `k + 1`).
pub open spec fn d8_dr(k: int) -> int {
    if k == 1 || k == 2 || k == 3 {
        -1
    } else if k == 5 || k == 6 || k == 7 {
        1
    } else {
        0
    }
}

/// Column offset of D8 direction index `k` (direction code `k + 1`).
pub open spec fn d8_dc(k: int) -> int {
    if k == 0 || k == 1 || k == 7 {
        1
    } else if k == 3 || k == 4 || k == 5 {
        -1
    } else {
        0
    }
}

/// The neighbour of cell `i` in D8 direction index `k`, if it lies in
/// the grid.
pub open spec fn neighbour(rows: int, cols: int, i: int, k: int) -> Option<int> {
    let nr = row_of(cols, i) + d8_dr(k);
    let nc = col_of(cols, i) + d8_dc(k);
    if 0 <= nr < rows && 0 <= nc < cols {
        Some(nr * cols + nc)
    } else {
        None
    }
}

/// `a` and `b` are distinct cells of the grid whose rows and columns
/// differ by at most one (8-connectivity).
pub open spec fn adjacent(rows: int, cols: int, a: int, b: int) -> bool {
    &&& in_grid(rows, cols, a)
    &&& in_grid(rows, cols, b)
    &&& a != b
    &&& -1 <= row_of(cols, b) - row_of(cols, a) <= 1
    &&& -1 <= col_of(cols, b) - col_of(cols, a) <= 1
}

/// `i` lies on the outer edge of the grid.
pub open spec fn on_boundary(rows: int, cols: int, i: int) -> bool {
    row_of(cols, i) == 0 || row_of(cols, i) == rows - 1 || col_of(cols, i) == 0 || col_of(cols, i)
        == cols - 1
}

/// The D8 direction index from `a` to an adjacent cell `b`.
pub open spec fn direction_between(cols: int, a: int, b: int) -> int {
    let dr = row_of(cols, b) - row_of(cols, a);
    let dc = col_of(cols, b) - col_of(cols, a);
    if dr == 0 && dc == 1 {
        0
    } else if dr == -1 && dc == 1 {
        1
    } else if dr == -1 && dc == 0 {
        2
    } else if dr == -1 && dc == -1 {
        3
    } else if dr == 0 && dc == -1 {
        4
    } else if dr == 1 && dc == -1 {
        5
    } else if dr == 1 && dc == 0 {
        6
    } else {
        7
    }
}

pub proof fn lemma_cell_coords(rows: int, cols: int, i: int)
    requires
        cols > 0,
        in_grid(rows, cols, i),
    ensures
        0 <= row_of(cols, i) < rows,
        0 <= col_of(cols, i) < cols,
        i == row_of(cols, i) * cols + col_of(cols, i),
{
    vstd::arithmetic::div_mod::lemma_fundamental_div_mod(i, cols);
    vstd::arithmetic::div_mod::lemma_mod_pos_bound(i, cols);
    vstd::arithmetic::mul::lemma_mul_is_commutative(cols, i / cols);
    assert(i / cols >= 0) by {
        vstd::arithmetic::div_mod::lemma_div_pos_is_pos(i, cols);
    }
    if i / cols >= rows {
        vstd::arithmetic::mul::lemma_mul_inequality(rows, i / cols, cols);
        assert(false);
    }
}

pub proof fn lemma_coords_cell(rows: int, cols: int, r: int, c: int)
    requires
        cols > 0,
        0 <= r < rows,
        0 <= c < cols,
    ensures
        in_grid(rows, cols, r * cols + c),
        row_of(cols, r * cols + c) == r,
        col_of(cols, r * cols + c) == c,
{
    vstd::arithmetic::div_mod::lemma_fundamental_div_mod_converse(r * cols + c, cols, r, c);
    assert(r * cols + c < rows * cols) by {
        vstd::arithmetic::mul::lemma_mul_inequality(r + 1, rows, cols);
        vstd::arithmetic::mul::lemma_mul_is_distributive_add_other_way(cols, r, 1);
    }
    assert(0 <= r * cols) by {
        vstd::arithmetic::mul::lemma_mul_nonnegative(r, cols);
    }
}

/// The neighbour in direction `k` is adjacent, and `k` is recovered
/// from the pair.
pub proof fn lemma_neighbour_adjacent(rows: int, cols: int, i: int, k: int)
    requires
        cols > 0,
        in_grid(rows, cols, i),
        0 <= k < 8,
        neighbour(rows, cols, i, k) is Some,
    ensures
        adjacent(rows, cols, i, neighbour(rows, cols, i, k)->0),
        direction_between(cols, i, neighbour(rows, cols, i, k)->0) == k,
        row_of(cols, neighbour(rows, cols, i, k)->0) == row_of(cols, i) + d8_dr(k),
        col_of(cols, neighbour(rows, cols, i, k)->0) == col_of(cols, i) + d8_dc(k),
{
    lemma_cell_coords(rows, cols, i);
    let nr = row_of(cols, i) + d8_dr(k);
    let nc = col_of(cols, i) + d8_dc(k);
    lemma_coords_cell(rows, cols, nr, nc);
}

/// Every adjacent cell is the neighbour in some direction.
pub proof fn lemma_adjacent_neighbour(rows: int, cols: int, a: int, b: int)
    requires
        cols > 0,
        adjacent(rows, cols, a, b),
    ensures
        0 <= direction_between(cols, a, b) < 8,
        neighbour(rows, cols, a, direction_between(cols, a, b)) == Some(b),
{
    lemma_cell_coords(rows, cols, a);
    lemma_cell_coords(rows, cols, b);
    let k = direction_between(cols, a, b);
    assert(row_of(cols, a) + d8_dr(k) == row_of(cols, b));
    assert(col_of(cols, a) + d8_dc(k) == col_of(cols, b));
}

/// Adjacency is symmetric.
pub proof fn lemma_adjacent_symmetric(rows: int, cols: int, a: int, b: int)
    requires
        adjacent(rows, cols, a, b),
    ensures
        adjacent(rows, cols, b, a),
{
}

/// Exec form of [`neighbour`].
pub fn d8_neighbour(rows: usize, cols: usize, i: usize, k: usize) -> (res: Option<usize>)
    requires
        grid_ok(rows as int, cols as int),
        in_grid(rows as int, cols as int, i as int),
        k < 8,
    ensures
        match res {
            Some(j) => neighbour(rows as int, cols as int, i as int, k as int) == Some(j as int),
            None => neighbour(rows as int, cols as int, i as int, k as int) is None,
        },
{
    proof {
        lemma_cell_coords(rows as int, cols as int, i as int);
    }
    let r = i / cols;
    let c = i % cols;
    let nr: usize;
    if k == 1 || k == 2 || k == 3 {
        if r == 0 {
            return None;
        }
        nr = r - 1;
    } else if k == 5 || k == 6 || k == 7 {
        if r + 1 >= rows {
            return None;
        }
        nr = r + 1;
    } else {
        nr = r;
    }
    let nc: usize;
    if k == 0 || k == 1 || k == 7 {
        if c + 1 >= cols {
            return None;
        }
        nc = c + 1;
    } else if k == 3 || k == 4 || k == 5 {
        if c == 0 {
            return None;
        }
        nc = c - 1;
    } else {
        nc = c;
    }
    proof {
        lemma_coords_cell(rows as int, cols as int, nr as int, nc as int);
    }
    Some(nr * cols + nc)
}

/// Row-major index of `(row, col)`.
pub fn cell_index(rows: usize, cols: usize, row: usize, col: usize) -> (i: usize)
    requires
        grid_ok(rows as int, cols as int),
        row < rows,
        col < cols,
    ensures
        i == row * cols + col,
        in_grid(rows as int, cols as int, i as int),
        row_of(cols as int, i as int) == row as int,
        col_of(cols as int, i as int) == col as int,
{
    proof {
        lemma_coords_cell(rows as int, cols as int, row as int, col as int);
    }
    row * cols + col
}

} // verus!
