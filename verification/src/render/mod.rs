//! From spectra to vertices.

pub mod curve;
pub mod drift;
pub mod imaging;
pub mod levels;
pub mod paint;
pub mod particles;
pub mod procession;
pub mod radial;
pub mod ribbon;
pub mod rng;
pub mod scene;
pub mod shapes;
pub mod sides;
pub mod stage;
pub mod tunnel;
pub use paint::Palette;
pub use scene::VizState;
