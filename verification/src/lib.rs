//! Document-assembly engine: a typed block model (placed images and text
//! sections), validated construction, deterministic placement, and a
//! serialized binary artifact.
//!
//! All coordinates and sizes are integer page units (one unit per point,
//! 72 units per inch). The origin is the canvas's top-left corner and y
//! grows downward; the binding layer converts host floating-point values
//! to units before anything here runs.

use vstd::prelude::*;

pub mod codec;
pub mod error;
pub mod laws;
pub mod model;
pub mod reader;
pub mod render;
pub mod wrap;

verus! {

/// The page-unit scale: placed image sizes are computed at 72 units per inch.
pub const UNITS_PER_INCH: u64 = 72;

} // verus!
