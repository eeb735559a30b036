use sedlink::flats::FlatOffsets;
use sedlink::multiflow::{mfd_receivers, settle_order};

fn position(order: &[usize], cell: usize) -> usize {
    order.iter().position(|&c| c == cell).expect("cell settled")
}

#[test]
fn diamond_settles_every_cell_after_its_senders() {
    // 0 -> 1, 0 -> 2, 1 -> 3, 2 -> 3
    let offsets = vec![0, 2, 3, 4, 4];
    let targets = vec![1, 2, 3, 3];
    let solid = vec![false; 4];
    let order = settle_order(&offsets, &targets, &solid);
    assert_eq!(order.len(), 4);
    assert_eq!(order[0], 0);
    assert_eq!(order[3], 3);
    assert!(position(&order, 1) < position(&order, 3));
    assert!(position(&order, 2) < position(&order, 3));
}

#[test]
fn cycle_and_what_it_feeds_stay_unsettled() {
    // 0 <-> 1, 1 -> 2, and 3 -> 4 apart from them
    let offsets = vec![0, 1, 3, 3, 4, 4];
    let targets = vec![1, 0, 2, 4];
    let solid = vec![false; 5];
    let order = settle_order(&offsets, &targets, &solid);
    assert_eq!(order, vec![3, 4]);
}

#[test]
fn nodata_cells_are_never_settled() {
    // 0 -> 1; cell 2 is NoData
    let offsets = vec![0, 1, 1, 1];
    let targets = vec![1];
    let solid = vec![false, false, true];
    let order = settle_order(&offsets, &targets, &solid);
    assert_eq!(order, vec![0, 1]);
}

#[test]
fn empty_graph_settles_nothing() {
    let order = settle_order(&vec![0], &Vec::new(), &Vec::new());
    assert!(order.is_empty());
}

#[test]
fn mfd_receivers_are_the_lower_neighbours_in_direction_order() {
    let keys: Vec<u32> = vec![5, 4, 3, 4, 3, 2, 3, 2, 1];
    let solid = vec![false; 9];
    let flats = FlatOffsets::compute(&keys, &solid, 3, 3);
    let (offsets, targets) = mfd_receivers(&keys, &solid, 3, 3, &flats);
    assert_eq!(offsets.len(), 10);
    // centre: E, S and SE are lower
    assert_eq!(&targets[offsets[4]..offsets[5]], &[5, 7, 8]);
    // top-left corner: E, S and SE are lower
    assert_eq!(&targets[offsets[0]..offsets[1]], &[1, 3, 4]);
    // the bottom-right pit has no receiver
    assert_eq!(offsets[8], offsets[9]);
    let order = settle_order(&offsets, &targets, &solid);
    assert_eq!(order.len(), 9);
    assert_eq!(order[0], 0);
}

#[test]
fn mfd_flat_cells_drain_to_their_outlet() {
    // a flat at cells 5, 6, 7 whose outlet, cell 7, lies on the edge
    let keys: Vec<u32> = vec![
        9, 9, 9, 9, //
        9, 5, 5, 5, //
        9, 9, 9, 9,
    ];
    let solid = vec![false; 12];
    let flats = FlatOffsets::compute(&keys, &solid, 3, 4);
    let (offsets, targets) = mfd_receivers(&keys, &solid, 3, 4, &flats);
    assert_eq!(&targets[offsets[5]..offsets[6]], &[6]);
    assert_eq!(&targets[offsets[6]..offsets[7]], &[7]);
    assert_eq!(offsets[7], offsets[8]);
    // a higher cell sends to every lower neighbour
    assert_eq!(&targets[offsets[1]..offsets[2]], &[5, 6]);
    let order = settle_order(&offsets, &targets, &solid);
    assert_eq!(order.len(), 12);
    let pos = |c: usize| position(&order, c);
    assert!(pos(5) < pos(6) && pos(6) < pos(7));
}

#[test]
fn mfd_nodata_neither_sends_nor_receives() {
    let keys: Vec<u32> = vec![3, 0, 1];
    let solid = vec![false, true, false];
    let flats = FlatOffsets::compute(&keys, &solid, 1, 3);
    let (offsets, targets) = mfd_receivers(&keys, &solid, 1, 3, &flats);
    assert_eq!(offsets, vec![0, 0, 0, 0]);
    assert!(targets.is_empty());
}
