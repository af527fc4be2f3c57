//! Verified integer core of an acoustic drone-detection toolkit: the seeded
//! generators, shuffles and data splits the benchmarks rely on, frame and
//! window planning, the edge alert latch, early stopping, and the small
//! text parsers for dataset manifests.

pub mod rng;
pub mod shuffle;
pub mod split;
pub mod framing;
pub mod latch;
pub mod text;
pub mod catalog;
pub mod approaches;
pub mod lags;
pub mod manifest;
pub mod esc50;
pub mod grouping;
