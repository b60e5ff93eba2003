//! Colours and images.

use vstd::prelude::*;

verus! {

/// A colour of four eight-bit components.
#[derive(Clone, Copy, Debug, PartialEq, Eq)]
pub struct Color32 {
    pub r: u8,
    pub g: u8,
    pub b: u8,
    pub a: u8,
}

impl Color32 {
    /// The colour with all four components zero.
    pub open spec fn zero() -> Color32 {
        Color32 { r: 0, g: 0, b: 0, a: 0 }
    }

    /// The colour with the given components.
    pub fn new(r: u8, g: u8, b: u8, a: u8) -> (color: Color32)
        ensures
            color == (Color32 { r, g, b, a }),
    {
        Color32 { r, g, b, a }
    }
}

impl Default for Color32 {
    fn default() -> (color: Color32)
        ensures
            color == Color32::zero(),
    {
        Color32 { r: 0, g: 0, b: 0, a: 0 }
    }
}

/// An image: rows of `w` pixels, `stride` entries of `data` apart.
#[derive(Debug)]
pub struct Image<T> {
    /// The width in pixels.
    pub w: u32,
    /// The height in pixels.
    pub h: u32,
    /// The distance in `data` from a pixel to the one below it.
    pub stride: u32,
    /// Whether the first row of `data` is the bottom row of the picture.
    pub y_flipped: bool,
    /// The pixels, row by row.
    pub data: Vec<T>,
}

} // verus!
