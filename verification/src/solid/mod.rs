//! The geodesic solid.

pub mod base;
pub mod edges;
pub mod length;
pub mod mesh;
pub mod sphere;
pub mod topology;
pub mod view;
