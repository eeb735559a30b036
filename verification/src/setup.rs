//! Terrain facts for a hydraulic run over a D8 network: the inflow cell
//! on the channel and the basin draining through it.

use vstd::prelude::*;
use crate::network::{basin_label, Network};

verus! {

/// Why a pour point was refused.
#[derive(Debug, Clone, Copy, PartialEq, Eq, Structural)]
pub enum SetupError {
    /// The pour point lies outside the grid.
    PourPointOutside,
    /// The (snapped) pour point is a `NoData` cell.
    PourPointNoData,
}

/// Number of `i` in `0..m` with `p(i)`.
pub open spec fn count_where(m: int, p: spec_fn(int) -> bool) -> nat
    decreases m,
{
    if m <= 0 {
        0
    } else {
        count_where(m - 1, p) + if p(m - 1) {
            1nat
        } else {
            0nat
        }
    }
}

impl Network {
    /// `best` is where [`Network::snap_to_stream`] puts (row, col).
    pub open spec fn snapped(&self, row: int, col: int, radius: int, best: int) -> bool {
        &&& (exists|j: int| #[trigger] self.snap_candidate(row, col, radius, j)) ==> {
            &&& self.snap_candidate(row, col, radius, best)
            &&& forall|j: int| #[trigger] self.snap_candidate(row, col, radius, j) ==> self.acc_view()[j] <= self.acc_view()[best]
                && (j < best ==> self.acc_view()[j] < self.acc_view()[best])
        }
        &&& !(exists|j: int| #[trigger] self.snap_candidate(row, col, radius, j)) ==> best == row * self.cols_view() + col
    }

    /// The inflow cell for a pour point: (row, col) snapped to the
    /// highest-accumulation valid cell within `snap_radius` (0 keeps the
    /// cell itself), refused outside the grid or on `NoData`.
    pub fn inflow_cell(&self, row: usize, col: usize, snap_radius: usize) -> (r: Result<usize, SetupError>)
        requires
            self.wf(),
            row + snap_radius <= isize::MAX,
            col + snap_radius <= isize::MAX,
        ensures
            (row >= self.rows_view() || col >= self.cols_view()) ==> r == Err::<usize, SetupError>(SetupError::PourPointOutside),
            (row < self.rows_view() && col < self.cols_view()) ==> match r {
                Ok(i) => i < self.n() && self.snapped(row as int, col as int, snap_radius as int, i as int) && !self.solid_view()[i as int],
                Err(e) => e == SetupError::PourPointNoData && exists|b: int| 0 <= b < self.n()
                    && self.snapped(row as int, col as int, snap_radius as int, b) && self.solid_view()[b],
            },
    {
        if row >= self.rows() || col >= self.cols() {
            return Err(SetupError::PourPointOutside);
        }
        let idx0 = crate::grid::cell_index(self.rows(), self.cols(), row, col);
        let idx = self.snap_to_stream(row, col, snap_radius);
        proof {
            assert(idx < self.n()) by {
                if !(exists|j: int| #[trigger] self.snap_candidate(row as int, col as int, snap_radius as int, j)) {
                    assert(idx == idx0);
                }
            }
        }
        if self.solid_slice()[idx] {
            return Err(SetupError::PourPointNoData);
        }
        Ok(idx)
    }

    /// Basin of the inflow cell: the number of cells draining through it,
    /// and how many of those are stream cells (accumulation at least
    /// `threshold`).
    pub fn basin_counts(&self, inflow: usize, threshold: u64) -> (counts: (usize, usize))
        requires
            self.wf(),
            inflow < self.n(),
        ensures
            counts.0 == count_where(self.n(), |i: int| basin_label(self.ds_view(), self.solid_view(), seq![inflow], i) == 1),
            counts.1 == count_where(
                self.n(),
                |i: int| basin_label(self.ds_view(), self.solid_view(), seq![inflow], i) == 1 && self.acc_view()[i] >= threshold,
            ),
    {
        let mut pp: Vec<usize> = Vec::new();
        pp.push(inflow);
        let labels = self.watersheds(&pp);
        let acc = self.flow_acc_slice();
        let n = self.len();
        let ghost p0 = |i: int| basin_label(self.ds_view(), self.solid_view(), seq![inflow], i) == 1;
        let ghost p1 = |i: int| basin_label(self.ds_view(), self.solid_view(), seq![inflow], i) == 1 && self.acc_view()[i] >= threshold;
        proof {
            assert(pp@ =~= seq![inflow]);
        }
        let mut basin: usize = 0;
        let mut stream: usize = 0;
        let mut i: usize = 0;
        while i < n
            invariant
                self.wf(),
                n == self.n(),
                i <= n,
                labels@.len() == n,
                acc@ == self.acc_view(),
                forall|j: int| 0 <= j < n ==> #[trigger] labels@[j] as int == basin_label(self.ds_view(), self.solid_view(), seq![inflow], j),
                p0 == (|i: int| basin_label(self.ds_view(), self.solid_view(), seq![inflow], i) == 1),
                p1 == (|i: int| basin_label(self.ds_view(), self.solid_view(), seq![inflow], i) == 1 && self.acc_view()[i] >= threshold),
                basin == count_where(i as int, p0),
                stream == count_where(i as int, p1),
                basin <= i,
                stream <= i,
            decreases n - i,
        {
            if labels[i] == 1 {
                basin += 1;
                if acc[i] >= threshold {
                    stream += 1;
                }
            }
            i += 1;
        }
        (basin, stream)
    }
}

} // verus!
