//! Gesture-driven freehand drawing in space: pinch strength from hand or tip
//! input, exclusive grab of the pen, strokes recorded with debounce, motion
//! filter, lazy-brush smoothing and segmentation, and a versioned save format.
//!
//! Lengths are integers in micrometres, times in microseconds, and unit
//! scalars in thousandths.

use vstd::prelude::*;

pub mod codec;
pub mod config;
pub mod engine;
pub mod geometry;
pub mod input;
pub mod session;
pub mod smoothing;
pub mod tool;

verus! {

} // verus!
