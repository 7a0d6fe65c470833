//! Signal framing, spectrum rendering and playback decisions for a music
//! driven LED strip.
pub mod processing;
pub mod visualizer;
pub mod led;
pub mod player;
pub mod track;
pub mod sample_file;
