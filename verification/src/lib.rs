//! Row-wise pixel sorting: for each scan line of an RGBA image, pixels whose
//! value under a chosen metric (luminance, hue, saturation) falls within an
//! inclusive threshold range are grouped into maximal contiguous runs, and each
//! run is independently reordered by ascending metric key. Pixels outside every
//! run keep their value and position.

use vstd::prelude::*;

pub mod metric;
pub mod runs;
pub mod sorter;

verus! {

/// One RGBA pixel: four 8-bit channels. A plain value with no identity beyond
/// its position in the grid.
#[derive(Clone, Copy, PartialEq, Eq, Structural, Debug)]
pub struct Pixel {
    pub r: u8,
    pub g: u8,
    pub b: u8,
    pub a: u8,
}

} // verus!
