//! Combined flood–sediment hazard classes.
//!
//! Each wet cell falls in a 3×3 matrix of depth class (rows) and
//! connectivity class (columns):
//!
//! ```text
//!                 connectivity (IC)
//!                 low   med   high
//! depth  low       1     2     3
//!        medium    4     5     6
//!        high      7     8     9
//! ```
//!
//! so class = `(depth_class − 1) · 3 + ic_class`; dry and `NoData` cells
//! are class 0.

use vstd::prelude::*;

verus! {

/// Hazard class of a cell from its depth class and IC class (each 1–3,
/// or 0 when the cell is not classified).
pub open spec fn hazard_class_of(depth_class: u8, ic_class: u8) -> int {
    if depth_class == 0 || ic_class == 0 {
        0
    } else {
        (depth_class - 1) * 3 + ic_class
    }
}

/// Number of cells among the first `m` whose class is `k`.
pub open spec fn count_class(class: Seq<u8>, m: int, k: int) -> nat
    decreases m,
{
    if m <= 0 {
        0
    } else {
        count_class(class, m - 1, k) + if class[m - 1] == k {
            1nat
        } else {
            0nat
        }
    }
}

/// Hazard classes of a grid.
pub struct HazardClasses {
    /// Class per cell: 0 = dry or `NoData`, 1–9 = hazard matrix.
    pub class: Vec<u8>,
    /// Number of cells per class (index 0–9).
    pub class_counts: Vec<usize>,
}

/// Combine per-cell depth and IC classes into hazard classes, and count
/// the cells of each class.
pub fn classify(depth_class: &Vec<u8>, ic_class: &Vec<u8>) -> (h: HazardClasses)
    requires
        depth_class@.len() == ic_class@.len(),
        forall|i: int| 0 <= i < depth_class@.len() ==> #[trigger] depth_class@[i] <= 3 && ic_class@[i] <= 3,
    ensures
        h.class@.len() == depth_class@.len(),
        forall|i: int| 0 <= i < h.class@.len() ==> #[trigger] h.class@[i] as int == hazard_class_of(depth_class@[i], ic_class@[i]),
        h.class_counts@.len() == 10,
        forall|c: int| 0 <= c < 10 ==> #[trigger] h.class_counts@[c] == count_class(h.class@, h.class@.len() as int, c),
{
    let n = depth_class.len();
    let mut class: Vec<u8> = Vec::new();
    let mut counts: Vec<usize> = Vec::new();
    let mut c: usize = 0;
    while c < 10
        invariant
            c <= 10,
            counts@.len() == c,
            forall|k: int| 0 <= k < c ==> #[trigger] counts@[k] == 0,
        decreases 10 - c,
    {
        counts.push(0);
        c += 1;
    }
    let mut i: usize = 0;
    while i < n
        invariant
            n == depth_class@.len(),
            n == ic_class@.len(),
            forall|j: int| 0 <= j < n ==> #[trigger] depth_class@[j] <= 3 && ic_class@[j] <= 3,
            i <= n,
            class@.len() == i,
            forall|j: int| 0 <= j < i ==> #[trigger] class@[j] as int == hazard_class_of(depth_class@[j], ic_class@[j]),
            counts@.len() == 10,
            forall|k: int| 0 <= k < 10 ==> #[trigger] counts@[k] == count_class(class@, i as int, k),
            forall|k: int| 0 <= k < 10 ==> #[trigger] counts@[k] <= i,
        decreases n - i,
    {
        let d = depth_class[i];
        let q = ic_class[i];
        let v: u8 = if d == 0 || q == 0 { 0 } else { (d - 1) * 3 + q };
        let ghost cls0 = class@;
        let ghost counts0 = counts@;
        class.push(v);
        let vi = v as usize;
        proof {
            assert(vi < 10);
            assert(counts0[vi as int] <= i);
        }
        counts.set(vi, counts[vi] + 1);
        proof {
            assert forall|k: int| 0 <= k < 10 implies #[trigger] counts@[k] == count_class(class@, i + 1, k) by {
                assert(counts0[k] == count_class(cls0, i as int, k));
                lemma_count_class_prefix(cls0, class@, k, i as int);
                assert(class@[i as int] == v);
            }
        }
        i += 1;
    }
    HazardClasses { class, class_counts: counts }
}

/// Counting over a prefix reads only the prefix.
proof fn lemma_count_class_prefix(a: Seq<u8>, b: Seq<u8>, k: int, m: int)
    requires
        0 <= m <= a.len(),
        m < b.len(),
        forall|j: int| 0 <= j < a.len() ==> #[trigger] a[j] == b[j],
    ensures
        count_class(a, m, k) == count_class(b, m, k),
        count_class(b, m + 1, k) == count_class(b, m, k) + if b[m] == k {
            1nat
        } else {
            0nat
        },
    decreases m,
{
    if m > 0 {
        lemma_count_class_prefix(a, b, k, m - 1);
    }
}


/// Cells among the first `m` whose class is below `j`.
pub open spec fn count_below(class: Seq<u8>, m: int, j: int) -> nat
    decreases j,
{
    if j <= 0 {
        0
    } else {
        count_below(class, m, j - 1) + count_class(class, m, j - 1)
    }
}

proof fn lemma_count_below_step(class: Seq<u8>, m: int, j: int)
    requires
        0 <= m < class.len(),
        0 <= j,
    ensures
        count_below(class, m + 1, j) == count_below(class, m, j) + if class[m] < j {
            1nat
        } else {
            0nat
        },
    decreases j,
{
    if j > 0 {
        lemma_count_below_step(class, m, j - 1);
    }
}

/// Every cell is counted in exactly one class: the class counts add up
/// to the number of cells.
pub proof fn lemma_class_counts_total(class: Seq<u8>, m: int)
    requires
        0 <= m <= class.len(),
        forall|i: int| 0 <= i < class.len() ==> #[trigger] class[i] < 10,
    ensures
        count_below(class, m, 10) == m,
    decreases m,
{
    if m > 0 {
        lemma_class_counts_total(class, m - 1);
        lemma_count_below_step(class, m - 1, 10);
    } else {
        lemma_count_below_zero(class, 10);
    }
}

proof fn lemma_count_below_zero(class: Seq<u8>, j: int)
    requires
        0 <= j,
    ensures
        count_below(class, 0, j) == 0,
    decreases j,
{
    if j > 0 {
        lemma_count_below_zero(class, j - 1);
    }
}

} // verus!
