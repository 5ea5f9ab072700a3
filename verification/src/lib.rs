//! Smart flood fill over a grid of colour codes.
//!
//! Starting from one cell, the fill claims the cell's region and then keeps
//! absorbing every adjacent region that is strictly smaller than the area
//! claimed so far. The result is the list of claimed cells in the order in
//! which they were claimed.

pub mod grid;
pub mod region;
pub mod walk;
pub mod scan;
pub mod rounds;
pub mod fill;
pub mod laws;

pub use fill::{
    absorb_regions, compute_smart_fill, discover_regions, flatten_positions, smart_fill_positions,
};
pub use grid::{neighbors_4, FILL_COLOR};
pub use scan::{flood_fill_peek, flood_fill_with_positions};
