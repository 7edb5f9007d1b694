//! What results are in real numbers, up to rounding.

pub mod angles;
pub mod desk;
pub mod image;
pub mod levels;
pub mod line;
pub mod motion;
pub mod neon;
pub mod outlines;
pub mod paint;
pub mod particles;
pub mod scenery;
pub mod shapes;
pub mod sky;
pub mod solid;
pub mod spectrum;
pub mod stage;
pub mod stereo;
pub mod sums;
pub mod tunnel;
pub mod veil;
