//! Verified core of a small image-analysis pipeline: greyscale conversion,
//! brightness slicing, gradient edge detection, a Hough-transform vote
//! accumulator, straight-line extraction, and segment rasterization.
//!
//! All pixel data is carried as flat RGBA byte buffers with explicit
//! dimensions; all geometry is done in fixed-point integer arithmetic over
//! caller-supplied trigonometric sample tables.

pub mod math;
pub mod image_processing;
pub mod accum;
pub mod hough;
pub mod extract;
pub mod render;
pub mod ui;

use vstd::prelude::*;

verus! {

} // verus!
