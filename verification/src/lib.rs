pub mod angle;
pub mod arrangement;
pub mod convex;
pub mod convex_sum;
pub mod convolution;
pub mod crossing;
pub mod cyclic;
pub mod geometry;
pub mod loops;
pub mod plain;
pub mod sorting;
pub mod sum;
pub mod translation;
pub mod walk;

pub use crate::convolution::{reduced_convolution, Conv, Vert};
pub use crate::crossing::RatPoint;
pub use crate::geometry::Point;
pub use crate::loops::extract_loops;
pub use crate::sum::{minkowski, Minkowski};
