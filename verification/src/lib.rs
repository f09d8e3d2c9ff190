//! Tile-region extraction and boundary-contour tracing.
//!
//! Given a binary (solid/empty) grid, `floodfill_all` partitions the solid
//! cells into maximal 4-connected regions, and `get_verts` converts one
//! region's cell membership into a minimal closed clockwise polygon outline
//! on the lattice of grid corners.

pub mod fill;
pub mod grid;
pub mod region;
pub mod trace;

pub use fill::floodfill_all;
pub use fill::neighbors;
pub use fill::Floodfill;
pub use grid::is_exposed_and_solid;
pub use grid::Grid;
pub use region::Region;
pub use trace::get_verts;
pub use trace::trace_boundary;
