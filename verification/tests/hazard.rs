//! Hazard class combination.

use sedlink::hazard::classify;

#[test]
fn test_hazard_matrix_classes() {
    // Every (depth class, IC class) pair: class = (d - 1) * 3 + ic.
    let mut depth = Vec::new();
    let mut ic = Vec::new();
    for d in 1..=3u8 {
        for q in 1..=3u8 {
            depth.push(d);
            ic.push(q);
        }
    }
    let h = classify(&depth, &ic);
    assert_eq!(h.class, vec![1, 2, 3, 4, 5, 6, 7, 8, 9]);
    assert_eq!(h.class_counts, vec![0, 1, 1, 1, 1, 1, 1, 1, 1, 1]);
}

#[test]
fn test_hazard_dry_and_nodata_are_zero() {
    // Depths 0.0, 0.01 (dry, below the wet depth), NaN and 1.0 m give
    // depth classes 0, 0, 0, 2; IC 3.0 with breaks [-2, 2] is class 3,
    // NaN IC is class 0. Every cell is unclassified.
    let h = classify(&vec![0, 0, 0, 2], &vec![3, 3, 3, 0]);
    assert!(h.class.iter().all(|&c| c == 0));
    assert_eq!(h.class_counts[0], 4);
}

#[test]
fn hazard_unclassified_cells_among_classified_ones() {
    // Unclassified cells (dry, NoData, invalid IC) carry class 0.
    let h = classify(&vec![0, 2, 3, 0], &vec![3, 0, 2, 0]);
    assert_eq!(h.class, vec![0, 0, 8, 0]);
    assert_eq!(h.class_counts[0], 3);
    assert_eq!(h.class_counts[8], 1);
    assert_eq!(h.class_counts.iter().sum::<usize>(), 4);
}

#[test]
fn hazard_empty_grid_counts_nothing() {
    let h = classify(&Vec::new(), &Vec::new());
    assert!(h.class.is_empty());
    assert_eq!(h.class_counts, vec![0; 10]);
}
