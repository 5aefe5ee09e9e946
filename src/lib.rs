//! Manipulating 2D buffers of color.
//!
//! [`ColorBuf`] is a rectangular grid of pixels addressed by `(x, y)`, with `(0, 0)` at the
//! top-left corner and `(width - 1, height - 1)` at the bottom-right one. A pixel is a
//! [`Color`] with one byte per channel: the byte `v` stands for the channel value `v / 255`.
use vstd::prelude::*;

pub mod bitmap;
pub mod ops;

verus! {

/// A straight (non-premultiplied) alpha RGBA color, eight bits per channel.
///
/// A channel byte `v` stands for the value `v / 255`, so `0` is none and `255` is full.
#[derive(Clone, Copy, Debug, PartialEq, Eq, Structural)]
pub struct Color {
    /// The red channel.
    pub r: u8,
    /// The green channel.
    pub g: u8,
    /// The blue channel.
    pub b: u8,
    /// The alpha channel.
    pub a: u8,
}

#[derive(Clone, Copy, Debug, PartialEq, Eq, Structural)]
pub enum ColorBufError {
    /// A pixel was addressed outside `[0, width) x [0, height)`.
    InvalidCoordinate,
    /// A sub-region does not fit inside the buffer it was asked of.
    InvalidDimensions,
    /// A color with zero alpha was written where storing it divides by alpha.
    UndefinedAlphaDivision,
}

/// Whether `(x, y)` addresses a pixel of a `width` by `height` grid.
pub open spec fn in_bounds(x: int, y: int, width: int, height: int) -> bool {
    0 <= x < width && 0 <= y < height
}

/// 2D manipulatable region of pixels.
///
/// A buffer is modelled by its size, the color at each position, which colors it can store
/// and what a stored color reads back as.
pub trait ColorBuf {
    /// The buffer's internal invariant.
    spec fn wf(&self) -> bool;

    spec fn spec_width(&self) -> u64;

    spec fn spec_height(&self) -> u64;

    /// The color that reading `(x, y)` yields; meaningful inside the bounds.
    spec fn spec_pixel(&self, x: int, y: int) -> Color;

    /// Whether writing `c` inside the bounds succeeds.
    spec fn spec_accepts(&self, c: Color) -> bool;

    /// What a pixel reads back as after `c` was written to it.
    spec fn spec_stored(&self, c: Color) -> Color;

    /// Gets the color at a given pixel position.
    ///
    /// Fails with `InvalidCoordinate` unless `x < width` and `y < height`.
    fn get_pixel(&self, x: u64, y: u64) -> (r: Result<Color, ColorBufError>)
        requires
            self.wf(),
        ensures
            in_bounds(x as int, y as int, self.spec_width() as int, self.spec_height() as int)
                ==> r == Ok::<Color, ColorBufError>(self.spec_pixel(x as int, y as int)),
            !in_bounds(x as int, y as int, self.spec_width() as int, self.spec_height() as int)
                ==> r == Err::<Color, ColorBufError>(ColorBufError::InvalidCoordinate),
    ;

    /// Sets the color at a given pixel position.
    ///
    /// Fails with `InvalidCoordinate` unless `x < width` and `y < height`, and with
    /// `UndefinedAlphaDivision` where the buffer cannot store `color`. On failure no pixel
    /// changes; on success only `(x, y)` does.
    fn set_pixel(&mut self, x: u64, y: u64, color: &Color) -> (r: Result<(), ColorBufError>)
        requires
            old(self).wf(),
        ensures
            final(self).wf(),
            final(self).spec_width() == old(self).spec_width(),
            final(self).spec_height() == old(self).spec_height(),
            forall|c: Color| #[trigger] final(self).spec_accepts(c) == old(self).spec_accepts(c),
            forall|c: Color| #[trigger] final(self).spec_stored(c) == old(self).spec_stored(c),
            !in_bounds(x as int, y as int, old(self).spec_width() as int, old(self).spec_height() as int)
                ==> r == Err::<(), ColorBufError>(ColorBufError::InvalidCoordinate),
            in_bounds(x as int, y as int, old(self).spec_width() as int, old(self).spec_height() as int)
                && !old(self).spec_accepts(*color)
                ==> r == Err::<(), ColorBufError>(ColorBufError::UndefinedAlphaDivision),
            in_bounds(x as int, y as int, old(self).spec_width() as int, old(self).spec_height() as int)
                && old(self).spec_accepts(*color) ==> r == Ok::<(), ColorBufError>(()),
            forall|i: int, j: int|
                in_bounds(i, j, old(self).spec_width() as int, old(self).spec_height() as int)
                    ==> #[trigger] final(self).spec_pixel(i, j) == if r is Ok && i == x && j == y {
                        old(self).spec_stored(*color)
                    } else {
                        old(self).spec_pixel(i, j)
                    },
    ;

    /// Gets the width of the buffer.
    fn get_width(&self) -> (r: u64)
        ensures
            r == self.spec_width(),
    ;

    /// Gets the height of the buffer.
    fn get_height(&self) -> (r: u64)
        ensures
            r == self.spec_height(),
    ;
}

} // verus!
