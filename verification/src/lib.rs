//! Incremental flow-field pathfinding over a dense cost grid.
//!
//! The crate is built in layers, leaves first:
//! - [`field`]: a dense row-major grid addressed by cell coordinates, with
//!   8-neighbor enumeration under the octile metric (orthogonal edges cost
//!   10, diagonal edges 14);
//! - [`cost_map`]: the live per-cell cost grid of the whole map (1 free
//!   through 254 slow, 255 impassable) that requests take snapshots of;
//! - [`astar`]: a resumable grid-wide search that expands one node per step;
//! - [`flowfield`]: a fixed-size tile holding a scalar integration
//!   (distance-to-goal) field computed by wavefront relaxation, and a
//!   discrete direction field derived from it;
//! - [`pathfinding`]: a hierarchical stitcher that decomposes a large map
//!   into tiles, routes a coarse search across it, and drives per-tile field
//!   computation with boundary stitching.
//!
//! Every state machine progresses only through explicit `step` calls, so a
//! caller can interleave computation with other work or run it to
//! completion.

pub mod astar;
pub mod cost_map;
pub mod field;
pub mod flowfield;
pub mod pathfinding;
