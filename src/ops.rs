//! Operations over [`ColorBuf`]s.
use vstd::prelude::*;
use crate::{in_bounds, Color, ColorBuf, ColorBufError};

verus! {

/// A [`ColorBuf`] over a rectangle of another one, borrowed for the view's lifetime.
///
/// The view's `(0, 0)` is the backing buffer's `(reg_x, reg_y)`. Build it with
/// [`SubRegionColorBuf::new`], which checks that the rectangle fits. The fields are public so
/// that contracts can follow the borrowed buffer: `new` states that the view holds the very
/// reference it was given, so once the view is dropped the backing buffer is known to hold
/// what the view last saw of it.
pub struct SubRegionColorBuf<'a, B: ColorBuf> {
    pub backing: &'a mut B,
    pub reg_x: u64,
    pub reg_y: u64,
    pub width: u64,
    pub height: u64,
}

impl<'a, B: ColorBuf> SubRegionColorBuf<'a, B> {
    /// The backing buffer as the view currently sees it.
    pub open spec fn spec_backing(&self) -> B {
        *self.backing
    }

    pub open spec fn spec_reg_x(&self) -> u64 {
        self.reg_x
    }

    pub open spec fn spec_reg_y(&self) -> u64 {
        self.reg_y
    }

    /// Returns a view of the `width` by `height` rectangle of `backing` whose top-left corner
    /// is `(start_x, start_y)`.
    ///
    /// Fails with `InvalidDimensions`, leaving `backing` as it was, unless the rectangle lies
    /// inside `backing`; it may reach its right and bottom edges.
    pub fn new(backing: &'a mut B, start_x: u64, start_y: u64, width: u64, height: u64) -> (r:
        Result<SubRegionColorBuf<'a, B>, ColorBufError>)
        requires
            old(backing).wf(),
        ensures
            r is Ok <==> start_x + width <= old(backing).spec_width() && start_y + height
                <= old(backing).spec_height(),
            r is Err ==> r == Err::<SubRegionColorBuf<'a, B>, ColorBufError>(
                ColorBufError::InvalidDimensions,
            ) && *final(backing) == *old(backing),
            r is Ok ==> *final(r->Ok_0.backing) == *final(backing),
            r is Ok ==> ({
                let v = r->Ok_0;
                &&& v.wf()
                &&& v.spec_backing() == *old(backing)
                &&& v.spec_reg_x() == start_x
                &&& v.spec_reg_y() == start_y
                &&& v.spec_width() == width
                &&& v.spec_height() == height
            }),
    {
        let bw = backing.get_width();
        let bh = backing.get_height();
        if width > bw || start_x > bw - width || height > bh || start_y > bh - height {
            return Err(ColorBufError::InvalidDimensions);
        }
        Ok(SubRegionColorBuf { backing, reg_x: start_x, reg_y: start_y, width, height })
    }
}

impl<'a, B: ColorBuf> ColorBuf for SubRegionColorBuf<'a, B> {
    open spec fn wf(&self) -> bool {
        &&& self.spec_backing().wf()
        &&& self.spec_reg_x() + self.spec_width() <= self.spec_backing().spec_width()
        &&& self.spec_reg_y() + self.spec_height() <= self.spec_backing().spec_height()
    }

    open spec fn spec_width(&self) -> u64 {
        self.width
    }

    open spec fn spec_height(&self) -> u64 {
        self.height
    }

    open spec fn spec_pixel(&self, x: int, y: int) -> Color {
        self.spec_backing().spec_pixel(self.spec_reg_x() + x, self.spec_reg_y() + y)
    }

    open spec fn spec_accepts(&self, c: Color) -> bool {
        self.spec_backing().spec_accepts(c)
    }

    open spec fn spec_stored(&self, c: Color) -> Color {
        self.spec_backing().spec_stored(c)
    }

    fn get_pixel(&self, x: u64, y: u64) -> (r: Result<Color, ColorBufError>) {
        if x >= self.width || y >= self.height {
            return Err(ColorBufError::InvalidCoordinate);
        }
        self.backing.get_pixel(self.reg_x + x, self.reg_y + y)
    }

    fn set_pixel(&mut self, x: u64, y: u64, color: &Color) -> (r: Result<(), ColorBufError>)
        ensures
            *final(final(self).backing) == *final(old(self).backing),
            final(self).spec_backing().spec_width() == old(self).spec_backing().spec_width(),
            final(self).spec_backing().spec_height() == old(self).spec_backing().spec_height(),
            final(self).spec_reg_x() == old(self).spec_reg_x(),
            final(self).spec_reg_y() == old(self).spec_reg_y(),
            forall|i: int, j: int|
                in_bounds(
                    i,
                    j,
                    old(self).spec_backing().spec_width() as int,
                    old(self).spec_backing().spec_height() as int,
                ) ==> #[trigger] final(self).spec_backing().spec_pixel(i, j) == if r is Ok && i
                    == old(self).spec_reg_x() + x && j == old(self).spec_reg_y() + y {
                    old(self).spec_stored(*color)
                } else {
                    old(self).spec_backing().spec_pixel(i, j)
                },
    {
        if x >= self.width || y >= self.height {
            return Err(ColorBufError::InvalidCoordinate);
        }
        let r = self.backing.set_pixel(self.reg_x + x, self.reg_y + y, color);
        proof {
            assert forall|i: int, j: int|
                in_bounds(i, j, self.width as int, self.height as int) implies
                    #[trigger] self.spec_pixel(i, j) == if r is Ok && i == x && j == y {
                        old(self).spec_stored(*color)
                    } else {
                        old(self).spec_pixel(i, j)
                    } by {
                assert(in_bounds(
                    self.reg_x + i,
                    self.reg_y + j,
                    old(self).spec_backing().spec_width() as int,
                    old(self).spec_backing().spec_height() as int,
                ));
            }
        }
        r
    }

    fn get_width(&self) -> (r: u64) {
        self.width
    }

    fn get_height(&self) -> (r: u64) {
        self.height
    }
}

} // verus!
