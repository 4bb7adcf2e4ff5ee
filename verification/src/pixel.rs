//! The shared result types: integer pixels and antialiased pixels whose
//! coverage is an exact fraction.

use vstd::prelude::*;

verus! {

/// A discrete raster address on the logical grid.
#[derive(Clone, Copy, PartialEq, Eq, Structural, Debug, Hash)]
pub struct Pixel {
    pub x: i32,
    pub y: i32,
}

/// Builds a pixel from mathematical coordinates; meaningful when both fit
/// in `i32`, which the rasterizers' contracts guarantee.
pub open spec fn px(x: int, y: int) -> Pixel {
    Pixel { x: x as i32, y: y as i32 }
}

/// A raster address plus the exact fraction `cov_num / cov_den` of the
/// pixel's area that the primitive covers.
#[derive(Clone, Copy, PartialEq, Eq, Structural, Debug)]
pub struct AntialiasedPixel {
    pub x: i32,
    pub y: i32,
    pub cov_num: i64,
    pub cov_den: i64,
}

/// Builds an antialiased pixel from mathematical values; meaningful when
/// all four fit their fields, which the contracts guarantee.
pub open spec fn apx(x: int, y: int, cov_num: int, cov_den: int) -> AntialiasedPixel {
    AntialiasedPixel { x: x as i32, y: y as i32, cov_num: cov_num as i64, cov_den: cov_den as i64 }
}

impl AntialiasedPixel {
    /// Coverage is a fraction in `[0, 1]` with a positive denominator.
    pub open spec fn valid(self) -> bool {
        0 < self.cov_den && 0 <= self.cov_num <= self.cov_den
    }
}

} // verus!
