//! Approximate nearest-neighbour search over high-dimensional vectors by
//! random-hyperplane locality-sensitive hashing.
//!
//! This crate is the index and query engine. It does no floating-point
//! arithmetic: a caller projects its vectors on the hyperplanes it drew and
//! measures distances itself, and hands the numbers over as IEEE 754 binary32
//! bit patterns. The crate reads the sign of each projection, keeps the
//! buckets, probes them, and ranks scored candidates.

pub mod autotune;
pub mod binary32;
pub mod distance;
pub mod hyperindex;
pub mod multiindex;
pub mod pattern;
pub mod ranking;
pub mod reach;

pub use crate::distance::DistanceNode;
pub use crate::hyperindex::HyperIndex;
pub use crate::multiindex::MultiIndex;
