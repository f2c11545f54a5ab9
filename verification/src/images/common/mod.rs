//! Pixels, raw images and color depths shared by the image formats.
use vstd::prelude::*;

pub mod image;
pub mod utils;

verus! {

/// Bits per pixel.
#[derive(Copy, Clone, PartialEq, Eq, Structural, Debug)]
pub enum ColorDepth {
    Depth1,
    Depth4,
    Depth8,
    Depth16,
    Depth24,
    Depth32,
}

/// The number of bits per pixel of `d`.
pub open spec fn depth_bits(d: ColorDepth) -> u8 {
    match d {
        ColorDepth::Depth1 => 1,
        ColorDepth::Depth4 => 4,
        ColorDepth::Depth8 => 8,
        ColorDepth::Depth16 => 16,
        ColorDepth::Depth24 => 24,
        ColorDepth::Depth32 => 32,
    }
}

impl ColorDepth {
    /// The number of bits per pixel.
    pub fn bits(&self) -> (r: u8)
        ensures
            r == depth_bits(*self),
    {
        match self {
            ColorDepth::Depth1 => 1,
            ColorDepth::Depth4 => 4,
            ColorDepth::Depth8 => 8,
            ColorDepth::Depth16 => 16,
            ColorDepth::Depth24 => 24,
            ColorDepth::Depth32 => 32,
        }
    }
}

} // verus!
