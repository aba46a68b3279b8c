//! Summaries of a trace of 2D locations: how often each location is visited and how often
//! each directed step between two locations is taken.
//!
//! Coordinates are canonicalised to a fixed number of decimal places, truncating toward zero,
//! and held as whole units of that precision, so that two samples that differ only below the
//! precision are the same location.

pub mod connection;
pub mod graph;
pub mod point;
pub mod pointplane;

pub use connection::Connection;
pub use graph::Graph;
pub use point::{Point, DECIMALS};
pub use pointplane::PointPlane;
