//! Sediment connectivity and fluvial network analysis on raster grids:
//! the discrete core of the library, verified.

pub mod grid;
pub mod heap;
pub mod fill;
pub mod flats;
pub mod graph;
pub mod network;
pub mod analysis;
pub mod channel;
pub mod streams;
pub mod rowcol;
pub mod setup;
pub mod hazard;
pub mod multiflow;
pub mod drainage;
pub mod area;
