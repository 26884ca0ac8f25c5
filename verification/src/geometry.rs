//! Region shapes used to cull points.

pub mod obb;
