//! Editing model for audio "cuts": a curve from bar time to a position in a
//! stereo sample, a gate curve beside it, grouped undo/redo over both, and
//! the integer parts of the resampler that renders audio through the curve.
//!
//! Times are whole grid steps (one step is `1 / quantization` of a bar) and
//! curve values are fixed-point fractions of `VALUE_ONE`.

pub mod knot;
pub mod checkpoint;
pub mod cut;
pub mod resample;
pub mod settings;
pub mod wav;
