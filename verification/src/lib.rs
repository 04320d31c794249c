//! Bounded-area deletion planning for a chunk-based, region-partitioned
//! spatial store.
//!
//! The plane of chunk coordinates is tiled by 32x32-chunk regions. Given a
//! rectangular "keep" border of chunk coordinates, this library computes
//! exactly which stored regions must be deleted wholesale and which chunks
//! must be removed from the regions that straddle the border. The caller
//! drives the storage interface with the plans computed here.

pub mod coord;
pub mod model;
pub mod plan;

pub use coord::Coord;
