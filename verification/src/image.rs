//! Pixels, the grid model of an image, and the capability an image offers.

use vstd::prelude::*;

verus! {

/// One pixel: three independent 8-bit channels.
#[derive(Debug, Clone, Copy, PartialEq, Eq, Structural)]
pub struct Pixel {
    pub r: u8,
    pub g: u8,
    pub b: u8,
}

/// The mathematical model of an image: its extent and the pixel in each cell.
///
/// Only the cells `(x, y)` with `x < width` and `y < height` carry meaning.
pub ghost struct Grid {
    pub width: nat,
    pub height: nat,
    pub pixels: spec_fn(nat, nat) -> Pixel,
}

impl Grid {
    /// Whether `(x, y)` names a cell of the grid.
    pub open spec fn has(self, x: nat, y: nat) -> bool {
        x < self.width && y < self.height
    }

    /// The pixel in cell `(x, y)`.
    pub open spec fn at(self, x: nat, y: nat) -> Pixel {
        (self.pixels)(x, y)
    }

    /// The grid with the pixel in cell `(x, y)` replaced by `p`.
    pub open spec fn set(self, x: nat, y: nat, p: Pixel) -> Grid {
        Grid {
            pixels: |i: nat, j: nat|
                if i == x && j == y {
                    p
                } else {
                    (self.pixels)(i, j)
                },
            ..self
        }
    }
}

/// A rectangular image of three-channel pixels with in-place access.
///
/// An implementation chooses the grid that models its pixels and the frame
/// that models the rest of it; every method is bound to them, and a change
/// made through `pixel_mut` changes one cell of the grid and nothing else.
pub trait Image {
    /// What an image of this kind holds besides its pixels.
    type Frame;

    /// What this image holds besides its pixels.
    spec fn frame(&self) -> Self::Frame;

    /// The grid this image holds.
    spec fn grid(&self) -> Grid;

    /// The number of columns.
    fn width(&self) -> (w: u32)
        ensures
            w == self.grid().width,
    ;

    /// The number of rows.
    fn height(&self) -> (h: u32)
        ensures
            h == self.grid().height,
    ;

    /// The pixel in column `x` of row `y`.
    fn pixel(&self, x: u32, y: u32) -> (p: &Pixel)
        requires
            self.grid().has(x as nat, y as nat),
        ensures
            *p == self.grid().at(x as nat, y as nat),
    ;

    /// The pixel in column `x` of row `y`, for changing it in place.
    fn pixel_mut(&mut self, x: u32, y: u32) -> (p: &mut Pixel)
        requires
            old(self).grid().has(x as nat, y as nat),
        ensures
            *p == old(self).grid().at(x as nat, y as nat),
            final(self).grid() == old(self).grid().set(x as nat, y as nat, *final(p)),
            final(self).frame() == old(self).frame(),
    ;
}

} // verus!
