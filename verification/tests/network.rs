//! D8 network construction, tracing, watersheds and stream analysis on
//! small synthetic DEMs.

use sedlink::analysis::NetworkAnalysis;
use sedlink::channel::trace_to_targets;
use sedlink::fill::priority_fill;
use sedlink::flats::FlatOffsets;
use sedlink::graph::PIT;
use sedlink::network::Network;
use sedlink::setup::SetupError;
use sedlink::streams::stream_links;

const N: usize = 5;

const fn cell(r: usize, c: usize) -> usize {
    r * N + c
}

/// Rank of each valid elevation among the distinct valid elevations.
fn keys_of(z: &[f32], solid: &[bool]) -> Vec<u32> {
    let mut vals: Vec<f32> = z.iter().zip(solid).filter(|(_, &s)| !s).map(|(&v, _)| v).collect();
    vals.sort_by(|a, b| a.partial_cmp(b).unwrap());
    vals.dedup();
    z.iter()
        .zip(solid)
        .map(|(&v, &s)| if s { 0 } else { vals.partition_point(|&x| x < v) as u32 })
        .collect()
}

/// Steepest-descent D8 direction per cell (0 when no neighbour is lower),
/// cardinal directions checked first.
fn steepest(z: &[f32], solid: &[bool], rows: usize, cols: usize) -> Vec<u8> {
    const CHECK: [(usize, (isize, isize)); 8] = [
        (0, (0, 1)),
        (2, (-1, 0)),
        (4, (0, -1)),
        (6, (1, 0)),
        (1, (-1, 1)),
        (3, (-1, -1)),
        (5, (1, -1)),
        (7, (1, 1)),
    ];
    let mut dir = vec![0u8; rows * cols];
    for r in 0..rows {
        for c in 0..cols {
            let idx = r * cols + c;
            if solid[idx] {
                continue;
            }
            let mut best = 0.0f64;
            for &(k, (dr, dc)) in &CHECK {
                let (nr, nc) = (r as isize + dr, c as isize + dc);
                if nr < 0 || nc < 0 || nr as usize >= rows || nc as usize >= cols {
                    continue;
                }
                let nidx = nr as usize * cols + nc as usize;
                if solid[nidx] {
                    continue;
                }
                let dist = if k % 2 == 0 { 1.0 } else { std::f64::consts::SQRT_2 };
                let grad = (f64::from(z[idx]) - f64::from(z[nidx])) / dist;
                if grad > best {
                    best = grad;
                    dir[idx] = (k + 1) as u8;
                }
            }
        }
    }
    dir
}

/// Fill, then build the D8 network of a DEM (NaN marks `NoData`).
fn build(z: &[f32], rows: usize, cols: usize) -> Network {
    let solid: Vec<bool> = z.iter().map(|v| !v.is_finite()).collect();
    let keys = keys_of(z, &solid);
    let filled = priority_fill(&keys, &solid, rows, cols);
    let mut by_key: Vec<f32> = vec![0.0; rows * cols + 1];
    for i in 0..z.len() {
        if !solid[i] {
            by_key[keys[i] as usize] = z[i];
        }
    }
    let filled_z: Vec<f32> = (0..z.len()).map(|i| if solid[i] { z[i] } else { by_key[filled[i] as usize] }).collect();
    let dir = steepest(&filled_z, &solid, rows, cols);
    Network::from_filled(&filled, solid, rows, cols, &dir)
}

fn simple_slope() -> Vec<f32> {
    (0..N * N).map(|i| 10.0 - (i / N) as f32 * 2.0).collect()
}

fn funnel() -> Vec<f32> {
    (0..N * N)
        .map(|i| {
            let (r, c) = (i / N, i % N);
            10.0 - r as f32 - ((c as f32) - 2.0).abs() * 0.5
        })
        .collect()
}

fn is_boundary(idx: usize) -> bool {
    let (r, c) = (idx / N, idx % N);
    r == 0 || c == 0 || r == N - 1 || c == N - 1
}

#[test]
fn test_network_build_simple_slope() {
    let net = build(&simple_slope(), N, N);
    assert_eq!(net.rows(), 5);
    assert_eq!(net.cols(), 5);
    for r in 0..4 {
        for c in 0..5 {
            assert_eq!(net.flow_dir(r, c), 7, "cell ({r}, {c}) should flow south");
        }
    }
    for c in 0..5 {
        assert_eq!(net.flow_dir(4, c), 0, "bottom row should be pit");
    }
    for r in 0..5 {
        for c in 0..5 {
            assert_eq!(net.flow_acc(r, c), (r + 1) as u64);
        }
    }
}

#[test]
fn test_strahler_order_simple() {
    let net = build(&simple_slope(), N, N);
    let order = NetworkAnalysis::new(&net).strahler_order(5);
    for c in 0..5 {
        assert_eq!(order.values[cell(4, c)], 1, "bottom row should be order 1");
    }
    for c in 0..5 {
        assert_eq!(order.values[cell(3, c)], 0, "row 3 should be order 0 (not stream)");
    }
    assert_eq!(order.max_order, 1);
}

#[test]
fn test_strahler_order_convergent() {
    let net = build(&funnel(), N, N);
    let order = NetworkAnalysis::new(&net).strahler_order(3);
    for i in 0..net.len() {
        if net.flow_acc(i / net.cols(), i % net.cols()) >= 3 {
            assert!(order.values[i] >= 1, "stream cell should have order >= 1");
        }
    }
    assert!(order.max_order >= 1);
}

#[test]
fn test_stream_magnitude() {
    let net = build(&simple_slope(), N, N);
    let mag = NetworkAnalysis::new(&net).stream_magnitude(5);
    for c in 0..5 {
        assert_eq!(mag.values[cell(4, c)], 1);
    }
    for c in 0..5 {
        assert_eq!(mag.values[cell(0, c)], 0);
    }
}

#[test]
fn test_longitudinal_profile() {
    let z = simple_slope();
    let net = build(&z, N, N);
    let cells = NetworkAnalysis::new(&net).profile_cells(cell(0, 2));
    assert_eq!(cells.len(), 5);
    for i in 1..cells.len() {
        assert!(cells[i] / N > cells[i - 1] / N, "distance should increase downstream");
        assert!(z[cells[i]] < z[cells[i - 1]], "elevation should decrease downstream");
    }
}

#[test]
fn test_trace_downstream() {
    let net = build(&simple_slope(), N, N);
    let path = net.trace_downstream(cell(0, 2));
    assert_eq!(path.len(), 4);
    assert_eq!(path[0], cell(1, 2));
    assert_eq!(path[3], cell(4, 2));
}

#[test]
fn test_trace_to_stream() {
    let net = build(&simple_slope(), N, N);
    let path = net.trace_to_stream(cell(0, 2), 5);
    assert!(!path.is_empty());
    let last = *path.last().unwrap();
    assert!(net.flow_acc(last / 5, last % 5) >= 5);
}

#[test]
fn test_fractional_pit_is_filled_and_drains() {
    let mut z: Vec<f32> = (0..N * N).map(|i| 10.0 - (i / N) as f32 * 0.7).collect();
    z[cell(2, 2)] = 7.0;
    let net = build(&z, N, N);
    assert_ne!(net.flow_dir(2, 2), 0, "fractional-depth pit should be filled and drain");
    let path = net.trace_downstream(2 * N + 2);
    let terminal = *path.last().unwrap();
    assert!(is_boundary(terminal), "filled pit should drain to the boundary, ended at {terminal}");
    assert!(net.flow_acc(4, 2) >= 5);
}

#[test]
fn test_filled_depression_drains_to_boundary() {
    let z: Vec<f32> = (0..N * N)
        .map(|i| {
            let dr = (i / N) as f32 - 2.0;
            let dc = (i % N) as f32 - 2.0;
            (dr * dr + dc * dc).sqrt() * 1.3
        })
        .collect();
    let net = build(&z, N, N);
    for idx in 0..net.len() {
        if is_boundary(idx) {
            continue;
        }
        let (r, c) = (idx / N, idx % N);
        assert_ne!(net.flow_dir(r, c), 0, "interior cell ({r}, {c}) should not be a pit after filling");
        let path = net.trace_downstream(idx);
        let terminal = *path.last().unwrap();
        assert!(is_boundary(terminal), "cell ({r}, {c}) should drain to the boundary, ended at {terminal}");
    }
}

#[test]
fn test_fill_preserves_dry_terrain() {
    let z: Vec<f32> = (0..N * N).map(|i| 10.0 - (i / N) as f32 * 0.7 - (i % N) as f32 * 0.1).collect();
    let net = build(&z, N, N);
    assert!(net.flow_acc(4, 4) > 1);
    assert!(net.flow_acc(4, 4) <= (N * N) as u64);
}

#[test]
fn test_watershed_single_column() {
    let net = build(&simple_slope(), N, N);
    let labels = net.watersheds(&vec![cell(4, 2)]);
    for r in 0..N {
        for c in 0..N {
            let expected = u32::from(c == 2);
            assert_eq!(labels[cell(r, c)], expected, "cell ({r}, {c}) label mismatch");
        }
    }
}

#[test]
fn test_watershed_nested_pour_points() {
    let net = build(&simple_slope(), N, N);
    let labels = net.watersheds(&vec![cell(2, 2), cell(4, 2)]);
    for r in 0..N {
        let expected = if r <= 2 { 1 } else { 2 };
        assert_eq!(labels[cell(r, 2)], expected, "row {r} of column 2");
    }
    assert_eq!(labels[cell(2, 0)], 0);
}

#[test]
fn test_snap_to_stream_finds_max_accumulation() {
    let net = build(&simple_slope(), N, N);
    let snapped = net.snap_to_stream(1, 1, 3);
    assert_eq!(snapped / N, 4, "should snap to the bottom row");
    assert_eq!(net.snap_to_stream(1, 1, 0), cell(1, 1));
}

#[test]
fn snap_prefers_first_of_equal_maxima_in_row_major_order() {
    let net = build(&simple_slope(), N, N);
    // Window rows 0..=4, columns 0..=4: the bottom row ties at 5; the
    // first of them in row-major order wins.
    assert_eq!(net.snap_to_stream(2, 2, 4), cell(4, 0));
}

#[test]
fn snap_outside_window_keeps_pour_point() {
    let mut z = simple_slope();
    for v in z.iter_mut() {
        *v = f32::NAN;
    }
    z[cell(4, 4)] = 1.0;
    let net = build(&z, N, N);
    // No valid cell within radius 1 of (0, 0): the index of (0, 0) comes back.
    assert_eq!(net.snap_to_stream(0, 0, 1), cell(0, 0));
}

#[test]
fn watershed_of_nodata_is_zero_and_pour_point_heads_its_basin() {
    let mut z = simple_slope();
    z[cell(0, 0)] = f32::NAN;
    let net = build(&z, N, N);
    let labels = net.watersheds(&vec![cell(0, 0), cell(3, 1)]);
    assert_eq!(labels[cell(0, 0)], 0, "NoData pour point gets no basin");
    assert_eq!(labels[cell(3, 1)], 2);
    assert_eq!(labels[cell(0, 1)], 2);
    assert_eq!(labels[cell(4, 1)], 0, "below the pour point drains elsewhere");
}

#[test]
fn accumulation_is_conserved_at_outlets() {
    let net = build(&funnel(), N, N);
    let mut total = 0u64;
    for i in 0..net.len() {
        if net.downstream(i) == PIT {
            total += net.flow_acc(i / N, i % N);
        }
    }
    assert_eq!(total, (N * N) as u64);
}

#[test]
fn accumulation_order_lists_upstream_first() {
    let net = build(&funnel(), N, N);
    let order = net.accumulation_order();
    assert_eq!(order.len(), N * N);
    let mut pos = vec![usize::MAX; N * N];
    for (t, &c) in order.iter().enumerate() {
        pos[c] = t;
    }
    for i in 0..N * N {
        let d = net.downstream(i);
        if d != PIT {
            assert!(pos[i] < pos[d]);
        }
    }
}

#[test]
fn topological_order_lists_downstream_first() {
    let net = build(&funnel(), N, N);
    let topo = NetworkAnalysis::new(&net).topological_order();
    assert_eq!(topo.len(), N * N);
    let mut pos = vec![usize::MAX; N * N];
    for (t, &c) in topo.iter().enumerate() {
        pos[c] = t;
    }
    for i in 0..N * N {
        let d = net.downstream(i);
        if d != PIT {
            assert!(pos[d] < pos[i]);
        }
    }
}

#[test]
fn strahler_rises_at_a_confluence_of_equal_orders() {
    // A Y: two branches of order 1 meet; the trunk below is order 2.
    let z: Vec<f32> = vec![
        9.0, 8.0, 9.5, 8.0, 9.0, //
        9.0, 7.0, 9.5, 7.0, 9.0, //
        9.0, 9.0, 6.0, 9.0, 9.0, //
        9.0, 9.0, 5.0, 9.0, 9.0, //
        9.0, 9.0, 4.0, 9.0, 9.0,
    ];
    let net = build(&z, N, N);
    let order = NetworkAnalysis::new(&net).strahler_order(2);
    assert_eq!(order.values[cell(1, 1)], 1);
    assert_eq!(order.values[cell(1, 3)], 1);
    assert_eq!(order.values[cell(2, 2)], 2);
    assert_eq!(order.values[cell(4, 2)], 2);
    assert_eq!(order.max_order, 2);
    // Two head links and the trunk link drain through the outlet.
    let mag = NetworkAnalysis::new(&net).stream_magnitude(2);
    assert_eq!(mag.values[cell(4, 2)], 3);
    assert_eq!(mag.max_magnitude, 3);
}

#[test]
fn upstream_lists_cells_draining_in() {
    let net = build(&simple_slope(), N, N);
    assert_eq!(net.upstream(cell(2, 3)), &[cell(1, 3)]);
    assert!(net.upstream(cell(0, 3)).is_empty());
    assert_eq!(net.downstream(cell(4, 3)), PIT);
}

#[test]
fn fill_raises_pit_to_spill_level() {
    // 3x3 grid with a central pit: the pit rises to the lowest rim.
    let keys = vec![5u32, 5, 5, 5, 1, 4, 5, 5, 5];
    let solid = vec![false; 9];
    let filled = priority_fill(&keys, &solid, 3, 3);
    assert_eq!(filled, vec![5, 5, 5, 5, 4, 4, 5, 5, 5]);
}

/// Two walled channels (cols 1 and 3, NoData elsewhere) converging
/// diagonally into a single outlet cell (4, 2): a Y-shaped network.
fn y_network() -> Vec<f32> {
    let mut z = vec![f32::NAN; N * N];
    for r in 0..4 {
        z[cell(r, 1)] = 10.0 - r as f32 * 2.0;
        z[cell(r, 3)] = 10.0 - r as f32 * 2.0;
    }
    z[cell(4, 2)] = 1.0;
    z
}

#[test]
fn test_stream_links_y_network() {
    let net = build(&y_network(), N, N);
    let links = stream_links(&net, 1);
    assert_eq!(links.len(), 3, "expected 2 head links + 1 junction link");
    let mut head_links = 0;
    for link in &links {
        match link.cells.len() {
            5 => {
                head_links += 1;
                assert_eq!(link.order, 1);
                // 3 cardinal steps, then 1 diagonal step into the junction.
                for w in link.cells.windows(2).take(3) {
                    assert_eq!(w[1], w[0] + N);
                }
                assert_eq!(*link.cells.last().unwrap(), cell(4, 2));
            }
            1 => {
                assert_eq!(link.order, 2, "junction cell should be order 2");
                assert_eq!(link.outlet_acc, 9);
            }
            other => panic!("unexpected link of {other} cells"),
        }
    }
    assert_eq!(head_links, 2);

    // Stream magnitude at the junction sums its two order-1 tributaries
    // and counts the junction link itself: 1 + 1 + 1 = 3.
    let mag = NetworkAnalysis::new(&net).stream_magnitude(1);
    assert!((mag.values[cell(4, 2)] as f64 - 3.0).abs() < 1e-9);
}

#[test]
fn y_network_magnitude_along_the_arms() {
    let net = build(&y_network(), N, N);
    let mag = NetworkAnalysis::new(&net).stream_magnitude(1);
    for r in 0..4 {
        assert_eq!(mag.values[cell(r, 1)], 1);
        assert_eq!(mag.values[cell(r, 3)], 1);
    }
    assert_eq!(mag.values[cell(0, 0)], 0, "NoData cells have magnitude 0");
    assert_eq!(mag.values[cell(4, 2)], 3);
    assert_eq!(mag.max_magnitude, 3);
}

#[test]
fn stream_links_start_at_heads_in_index_order() {
    let net = build(&simple_slope(), N, N);
    // Threshold 4: rows 3 and 4 are stream cells; each column is one link.
    let links = stream_links(&net, 4);
    assert_eq!(links.len(), 5);
    for (c, link) in links.iter().enumerate() {
        assert_eq!(link.cells, vec![cell(3, c), cell(4, c)]);
        assert_eq!(link.order, 1);
        assert_eq!(link.outlet_acc, 5);
    }
}

#[test]
fn test_setup_reach_slope_and_basin() {
    let net = build(&simple_slope(), N, N);
    let inflow = net.inflow_cell(0, 2, 0).unwrap();
    assert_eq!((inflow / N, inflow % N), (0, 2));
    // The reach runs the full column: 4 steps south.
    let cells = NetworkAnalysis::new(&net).profile_cells(inflow);
    assert_eq!(cells, vec![cell(0, 2), cell(1, 2), cell(2, 2), cell(3, 2), cell(4, 2)]);
    let (basin_cells, _) = net.basin_counts(inflow, 5);
    assert_eq!(basin_cells, 1);
    assert_eq!(net.flow_acc(0, 2), 1);
}

#[test]
fn test_setup_basin_at_outlet() {
    let net = build(&simple_slope(), N, N);
    let inflow = net.inflow_cell(4, 2, 0).unwrap();
    assert_eq!((inflow / N, inflow % N), (4, 2));
    let (basin_cells, stream_cells) = net.basin_counts(inflow, 5);
    assert_eq!(basin_cells, N);
    assert_eq!(net.flow_acc(4, 2), 5);
    assert_eq!(NetworkAnalysis::new(&net).profile_cells(inflow).len(), 1);
    assert_eq!(stream_cells, 1);
}

#[test]
fn test_setup_snaps_to_channel() {
    let net = build(&simple_slope(), N, N);
    let inflow = net.inflow_cell(1, 1, 3).unwrap();
    assert_eq!(inflow / N, 4, "should snap to the outlet row");
    assert_eq!(net.flow_acc(inflow / N, inflow % N), 5);
}

#[test]
fn test_setup_rejects_bad_inputs() {
    let net = build(&simple_slope(), N, N);
    assert_eq!(net.inflow_cell(99, 0, 0), Err(SetupError::PourPointOutside));
}

#[test]
fn setup_rejects_nodata_pour_point() {
    let mut z = simple_slope();
    z[cell(1, 1)] = f32::NAN;
    let net = build(&z, N, N);
    assert_eq!(net.inflow_cell(1, 1, 0), Err(SetupError::PourPointNoData));
    assert_eq!(net.inflow_cell(1, 1, 1), Ok(cell(2, 0)));
}

#[test]
fn test_no_channel_means_unreachable() {
    let net = build(&simple_slope(), N, N);
    // Threshold higher than any accumulation: no stream cells at all.
    let target: Vec<bool> = (0..N * N).map(|i| net.flow_acc(i / N, i % N) >= 100).collect();
    let paths = net.channel_paths(&target);
    for i in 0..N * N {
        assert_eq!(paths.entry[i], PIT, "cell {i} should be unreachable without a channel");
    }
    assert!(paths.order.is_empty());
}

#[test]
fn channel_entry_is_the_first_stream_cell_downstream() {
    let net = build(&simple_slope(), N, N);
    let target: Vec<bool> = (0..N * N).map(|i| net.flow_acc(i / N, i % N) >= 5).collect();
    let paths = net.channel_paths(&target);
    for r in 0..N {
        for c in 0..N {
            assert_eq!(paths.entry[cell(r, c)], cell(4, c));
        }
    }
    // Rows 0-3 resolve from the channel upstream: row 3 before row 2, ...
    assert_eq!(paths.order.len(), 4 * N);
    let mut pos = vec![usize::MAX; N * N];
    for (t, &i) in paths.order.iter().enumerate() {
        pos[i] = t;
    }
    for r in 0..3 {
        for c in 0..N {
            assert!(pos[cell(r + 1, c)] < pos[cell(r, c)]);
        }
    }
}

#[test]
fn channel_paths_skip_cycles_without_targets() {
    // Cells 0 -> 1 -> 2 -> 0 circle; 3 -> 4 with 4 a target; 5 is NoData.
    let next = vec![1, 2, 0, 4, PIT, PIT];
    let target = vec![false, false, false, false, true, false];
    let solid = vec![false, false, false, false, false, true];
    let paths = trace_to_targets(&next, &target, &solid);
    assert_eq!(paths.entry, vec![PIT, PIT, PIT, 4, 4, PIT]);
    assert_eq!(paths.order, vec![3]);
}

#[test]
fn fill_is_idempotent() {
    let keys = vec![9u32, 9, 9, 9, 9, 9, 2, 3, 1, 9, 9, 4, 0, 5, 9, 9, 9, 9, 6, 9, 9, 9, 9, 6, 9];
    let solid = vec![false; 25];
    let filled = priority_fill(&keys, &solid, 5, 5);
    assert_eq!(filled[cell(2, 2)], 6, "the pit rises to the lowest rim on its way out");
    assert_eq!(priority_fill(&filled, &solid, 5, 5), filled);
}

#[test]
fn fill_keeps_terrain_that_drains() {
    // Keys rise to the north and west: every cell drains south-east.
    let keys: Vec<u32> = (0..25).map(|i| (8 - (i / 5) - (i % 5)) as u32).collect();
    let solid = vec![false; 25];
    assert_eq!(priority_fill(&keys, &solid, 5, 5), keys);
}

#[test]
fn link_order_is_constant_up_to_the_junction() {
    let net = build(&y_network(), N, N);
    let order = NetworkAnalysis::new(&net).strahler_order(1);
    for link in stream_links(&net, 1) {
        let (last, body) = link.cells.split_last().unwrap();
        for &c in body {
            assert_eq!(order.values[c], link.order);
        }
        if link.cells.len() > 1 {
            assert_eq!(order.values[*last], 2, "the junction ending a head link is of higher order");
        }
    }
    // A junction of order 2 drains at least 2 cells.
    assert!(net.flow_acc(4, 2) >= 2);
}

#[test]
fn every_trace_on_a_filled_dem_ends_on_the_edge() {
    // A basin with a flat floor, a deeper pit in it and one NoData cell.
    let z: Vec<f32> = vec![
        9.0, 9.0, 9.0, 9.0, 9.0, //
        9.0, 5.0, 5.0, 5.0, 9.0, //
        9.0, 5.0, 3.0, 5.0, f32::NAN, //
        9.0, 5.0, 5.0, 5.0, 9.0, //
        9.0, 9.0, 7.0, 9.0, 9.0,
    ];
    let net = build(&z, N, N);
    for idx in 0..net.len() {
        let (r, c) = (idx / N, idx % N);
        if net.is_solid(r, c) {
            continue;
        }
        let end = net.trace_downstream(idx).last().copied().unwrap_or(idx);
        assert!(is_boundary(end), "cell ({r}, {c}) ends at interior cell {end}");
        let (er, ec) = (end / N, end % N);
        assert_eq!(net.flow_dir(er, ec), 0);
    }
}

#[test]
fn magnitude_is_the_number_of_links_draining_through() {
    for (z, threshold) in [(funnel(), 2u64), (funnel(), 3), (y_network(), 1), (simple_slope(), 2)] {
        let net = build(&z, N, N);
        let mag = NetworkAnalysis::new(&net).stream_magnitude(threshold);
        let acc = net.flow_acc_slice();
        let stream = |i: usize| !net.is_solid(i / N, i % N) && acc[i] >= threshold;
        // Link starts: heads (no stream tributary) and confluences (two or more).
        let starts: Vec<usize> = (0..net.len())
            .filter(|&i| stream(i) && net.upstream(i).iter().filter(|&&u| stream(u)).count() != 1)
            .collect();
        for i in 0..net.len() {
            let expected = if stream(i) {
                starts.iter().filter(|&&s| s == i || net.trace_downstream(s).contains(&i)).count() as u64
            } else {
                0
            };
            assert_eq!(mag.values[i], expected, "cell {i}");
        }
    }
}

#[test]
fn links_cover_every_stream_cell() {
    for (z, threshold) in [(funnel(), 2u64), (funnel(), 4), (y_network(), 1), (simple_slope(), 3)] {
        let net = build(&z, N, N);
        let links = stream_links(&net, threshold);
        let acc = net.flow_acc_slice();
        for i in 0..net.len() {
            if !net.is_solid(i / N, i % N) && acc[i] >= threshold {
                assert!(links.iter().any(|l| l.cells.contains(&i)), "stream cell {i} is on no link");
            }
        }
    }
}

#[test]
fn accumulation_counts_the_cells_draining_through() {
    for z in [funnel(), y_network(), simple_slope()] {
        let net = build(&z, N, N);
        let acc = net.flow_acc_slice();
        for i in 0..net.len() {
            let through = (0..net.len()).filter(|&j| j == i || net.trace_downstream(j).contains(&i)).count() as u64;
            assert_eq!(acc[i], through, "cell {i}");
        }
    }
}

#[test]
fn basin_of_an_inflow_cell_is_its_accumulation() {
    for z in [funnel(), y_network()] {
        let net = build(&z, N, N);
        for i in 0..net.len() {
            let (r, c) = (i / N, i % N);
            if net.is_solid(r, c) {
                continue;
            }
            let (basin, _) = net.basin_counts(i, 1);
            assert_eq!(basin as u64, net.flow_acc(r, c), "cell {i}");
        }
    }
}

#[test]
fn network_links_are_consistent() {
    for z in [funnel(), y_network(), simple_slope()] {
        let net = build(&z, N, N);
        let acc = net.flow_acc_slice();
        let dirs = net.flow_dir_slice();
        for i in 0..net.len() {
            let d = net.downstream(i);
            assert_eq!(d == PIT, dirs[i] == 0, "cell {i}");
            if d != PIT {
                assert!(!net.is_solid(d / N, d % N));
                let (dr, dc) = ((d / N) as isize - (i / N) as isize, (d % N) as isize - (i % N) as isize);
                assert!(dr.abs() <= 1 && dc.abs() <= 1 && d != i);
            }
            let up: Vec<usize> = (0..net.len()).filter(|&j| net.downstream(j) == i).collect();
            assert_eq!(net.upstream(i), &up[..]);
            assert_eq!(acc[i], 1 + up.iter().map(|&j| acc[j]).sum::<u64>());
        }
    }
}

#[test]
fn flat_drainage_ends_at_an_outlet() {
    // A 5x5 plateau of equal keys with one lower cell on the east edge.
    let mut keys = vec![3u32; N * N];
    keys[cell(2, 4)] = 1;
    let solid = vec![false; N * N];
    let flats = FlatOffsets::compute(&keys, &solid, N, N).expect("the plateau needs draining");
    let offsets: [(isize, isize); 8] = [(0, 1), (-1, 1), (-1, 0), (-1, -1), (0, -1), (1, -1), (1, 0), (1, 1)];
    for start in 0..N * N {
        let mut cur = start;
        let mut steps = 0;
        while let Some(d) = flats.direction(cur, &keys, &solid) {
            let (dr, dc) = offsets[(d - 1) as usize];
            let next = ((cur / N) as isize + dr) as usize * N + ((cur % N) as isize + dc) as usize;
            assert_eq!(keys[next], keys[cur]);
            cur = next;
            steps += 1;
            assert!(steps < N * N, "flat drainage from {start} cycles");
        }
        if steps > 0 {
            let (r, c) = (cur / N, cur % N);
            let on_edge = r == 0 || c == 0 || r == N - 1 || c == N - 1;
            let has_lower = offsets.iter().any(|&(dr, dc)| {
                let (nr, nc) = (r as isize + dr, c as isize + dc);
                nr >= 0 && nc >= 0 && nr < N as isize && nc < N as isize && keys[nr as usize * N + nc as usize] < keys[cur]
            });
            assert!(on_edge || has_lower, "flat drainage from {start} ends at {cur}, no outlet");
        }
    }
}
