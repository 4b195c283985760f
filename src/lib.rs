//! Colored-trace extraction from rasterized plots: HSV palette classification,
//! morphological opening, connected-component gating, color detection, trace
//! extraction per base color, and the integer rules of curve reconstruction
//! (bin grouping, smoothing windows, axis scale types).

pub mod palette;
pub mod color;
pub mod raster;
pub mod morph;
pub mod components;
pub mod detect;
pub mod extract;
pub mod curve;
