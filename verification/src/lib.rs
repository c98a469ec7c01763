//! Playback of legacy tab-separated trajectory logs.
//!
//! The library groups per-entity 2D positions sampled over discrete
//! observation frames into an ordered frame sequence, maps wall-clock
//! elapsed time onto a frame index, and fits a data bounding box to a
//! display aspect ratio.
//!
//! Coordinates are fixed-point values in micro-units (millionths), so a
//! logged value of `1.5` is stored as `1_500_000`. Time spans are
//! nanosecond counts.

pub mod console;
pub mod keymap;
pub mod legacy_parsers;
pub mod replay;
pub mod viewport;
