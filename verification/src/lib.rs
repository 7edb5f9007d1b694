//! Sinestesia: the verified core of an audio visualizer.

pub mod audio;
pub mod bands;
pub mod config;
pub mod dsp;
pub mod exact;
pub mod exchange;
pub mod float;
pub mod natural;
pub mod readings;
pub mod render;
pub mod solid;
pub mod stereo;
pub mod symmetry;
pub mod theme;
pub mod ui;
