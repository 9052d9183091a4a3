//! Canny edge detection on 8-bit grayscale rasters, in integer arithmetic.

pub mod canny;
pub mod dilation;
pub mod gaussian_blur;
pub mod gradient_calculation;
pub mod hysteresis;
pub mod non_maximum_suppression;
pub mod raster;

pub use gaussian_blur::blur;
