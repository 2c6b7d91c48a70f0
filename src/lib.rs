//! Target dispatch and path following for an agent that walks across a
//! navigation mesh.
//!
//! Positions are fixed-point: one unit of a coordinate is a millimetre of the
//! scene. The navigation mesh itself (point containment and shortest-path
//! queries) lives outside the library: its answers are handed in as plain
//! values, and the library decides what the agents do with them.
pub mod geometry;
pub mod path;
pub mod simulation;
