//! Binary32 arithmetic on bit patterns.

pub mod repr;
pub mod round;
pub mod pack;
pub mod ops;
pub mod convert;
pub mod root;
pub mod select;
pub mod size;
pub mod error;
pub mod laws;
pub mod mirror;
pub mod value;

pub use repr::F32;

