//! Conversion of Esri ASCII elevation grids (DEMs) into raster images.
//!
//! The pipeline parses a grid into an elevation matrix, normalizes elevation
//! into 8-bit intensity (vertically flipped so north is at the top), maps
//! intensity through a fixed pseudo-color ramp, derives a hillshade kernel
//! from each pixel's 3x3 neighborhood, and composites the colormap with a
//! shading layer. Elevations are exact decimal values held in millionths
//! (micro-units), so every stage is integer arithmetic with an exact contract.

use vstd::prelude::*;

pub mod colormap;
pub mod error;
pub mod grid;
pub mod parse;
pub mod raster;
pub mod shade;

verus! {

/// Command-line surface of the batch driver: where to read `.asc` grids,
/// where to write images, and which rendering mode to use.
pub struct Args {
    /// Directory searched for `.asc` grid files.
    pub input_dir: String,
    /// Directory that receives the rendered images.
    pub output_dir: String,
    /// Rendering mode: `grayscale` or `hillshade`.
    pub mode: String,
}

} // verus!
