//! Culling decisions and batch streaming for spatially partitioned point clouds.
//!
//! The crate holds the discrete logic of a point cloud reader: which candidate
//! axes an oriented box keeps for its separating-axis test, how filtered points
//! are gathered into column batches, and how the nodes of several clouds are
//! queued and worked off. Coordinates are carried as values of a caller-chosen
//! type, so every statement here holds for any numeric representation.

pub mod batch;
pub mod batch_laws;
pub mod deque;
pub mod geometry;
pub mod iterator;
