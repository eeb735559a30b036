# sedlink

Sediment connectivity and fluvial network analysis on raster DEMs, with
the discrete core verified in Verus.

## Layout

- `src/` — the verified library:
  - `grid` — row-major geometry and the D8 neighbourhood;
  - `heap`, `fill` — priority-flood pit filling to the exact spill level;
  - `flats` — two-gradient drainage of flats (BFS distances);
  - `graph` — single-successor flow graphs: walks, acyclicity, pits;
  - `network` — the D8 network: directions, downstream and upstream
    links, flow accumulation, watersheds, snapping, tracing;
  - `analysis` — topological order, Strahler order, stream magnitude,
    profile paths;
  - `channel` — where flow paths enter a target set (stream cells), and
    the order in which path sums resolve;
  - `streams` — stream links split at junctions;
  - `setup` — inflow cell and basin counts for a pour point;
  - `hazard` — the depth × connectivity hazard matrix;
  - `multiflow` — MFD receivers, and the order in which D∞ and MFD
    accumulation settle cells with several receivers;
  - `drainage` — why a filled DEM drains off the grid;
  - `area` — flow accumulation as contributing area, and basins;
  - `rowcol` — `row,col` argument parsing.
- `app/` — the command line and everything floating point: GeoTIFF I/O,
  slope, steepest-descent gradients, D∞ and MFD routing, the
  connectivity index and sediment delivery sums, JSON/GeoJSON output.
- `tests/` — tests of the library on small synthetic DEMs.

Elevations enter the library as order keys (the rank of each distinct
elevation), so every comparison the network makes is exact.
