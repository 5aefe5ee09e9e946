//! [`ColorBuf`]s used with bitmaps.
//!
//! A bitmap is a flat run of `rows` rows, each `stride` bytes long, holding `pixels_per_row`
//! pixels of `bytes_per_pixel` bytes each in front of any row padding. This module reads and
//! writes pixels in place in such a region, and writes any [`ColorBuf`] out as one.
use vstd::prelude::*;
use vstd::arithmetic::div_mod::lemma_fundamental_div_mod_converse;
use crate::{in_bounds, Color, ColorBuf, ColorBufError};

verus! {

/// Tells the [`BitmapColorBuf`] how the channels of a pixel are arranged in its bytes.
#[derive(Clone, Copy, Debug, PartialEq, Eq, Structural)]
pub enum ColorFormat {
    /// Red in the first byte, then green, blue and alpha.
    RGBA,
    /// Alpha in the first byte, then red, green and blue.
    ARGB,
    /// Red in the first byte, then green and blue; no alpha is stored.
    RGB,
}

/// Tells the [`BitmapColorBuf`] how many bits are used in the bitmap per channel.
#[derive(Clone, Copy, Debug, PartialEq, Eq, Structural)]
pub enum BitDepth {
    Eight,
}

/// Bytes that one pixel takes up under a layout.
pub open spec fn bytes_per_pixel(format: ColorFormat, depth: BitDepth) -> nat {
    let channels: nat = match format {
        ColorFormat::RGBA => 4,
        ColorFormat::ARGB => 4,
        ColorFormat::RGB => 3,
    };
    match depth {
        BitDepth::Eight => channels,
    }
}

/// Where the bytes of pixel `(x, y)` begin.
pub open spec fn pixel_offset(format: ColorFormat, depth: BitDepth, stride: int, x: int, y: int) -> int {
    y * stride + x * bytes_per_pixel(format, depth)
}

/// The bytes that hold `c` in a pixel of the given format.
pub open spec fn encode_color(format: ColorFormat, c: Color) -> Seq<u8> {
    match format {
        ColorFormat::RGBA => seq![c.r, c.g, c.b, c.a],
        ColorFormat::ARGB => seq![c.a, c.r, c.g, c.b],
        ColorFormat::RGB => seq![c.r, c.g, c.b],
    }
}

/// The color that the bytes `b` of a pixel of the given format hold; a format without an
/// alpha byte reads as fully opaque.
pub open spec fn decode_color(format: ColorFormat, b: Seq<u8>) -> Color {
    match format {
        ColorFormat::RGBA => Color { r: b[0], g: b[1], b: b[2], a: b[3] },
        ColorFormat::ARGB => Color { r: b[1], g: b[2], b: b[3], a: b[0] },
        ColorFormat::RGB => Color { r: b[0], g: b[1], b: b[2], a: 255 },
    }
}

/// What `c` reads back as once encoded in the given format.
pub open spec fn visible_color(format: ColorFormat, c: Color) -> Color {
    match format {
        ColorFormat::RGB => Color { a: 255, ..c },
        _ => c,
    }
}

/// Whether `q` is `255 * v / a` rounded to the nearest integer, halves up, and capped at
/// 255 (full).
pub open spec fn rounds_to_byte(v: int, a: int, q: int) -> bool {
    ||| 0 <= q < 255 && (2 * q - 1) * a <= 510 * v < (2 * q + 1) * a
    ||| q == 255 && 509 * a <= 510 * v
}

/// The channel `v` divided by alpha `a`, as the nearest byte, capped at full.
pub open spec fn unpremultiplied(v: u8, a: u8) -> u8
    recommends
        a > 0,
{
    choose|q: u8| rounds_to_byte(v as int, a as int, q as int)
}

/// Whether a pixel of the given format can store `c`: a format without alpha divides the
/// color channels by alpha, which zero alpha leaves undefined.
pub open spec fn accepts_color(format: ColorFormat, c: Color) -> bool {
    !(format is RGB) || c.a != 0
}

/// The color that writing `c` to a pixel of the given format stores: a format without alpha
/// keeps the color divided by its alpha, as an opaque color.
pub open spec fn stored_color(format: ColorFormat, c: Color) -> Color {
    match format {
        ColorFormat::RGB => Color {
            r: unpremultiplied(c.r, c.a),
            g: unpremultiplied(c.g, c.a),
            b: unpremultiplied(c.b, c.a),
            a: 255,
        },
        _ => c,
    }
}

fn get_bpp_factor(format: &ColorFormat, depth: &BitDepth) -> (r: u64)
    ensures
        r == bytes_per_pixel(*format, *depth),
{
    let channels: u64 = match format {
        ColorFormat::RGBA => 4,
        ColorFormat::ARGB => 4,
        ColorFormat::RGB => 3,
    };
    match depth {
        BitDepth::Eight => channels,
    }
}

/// At most one byte is the rounded quotient.
proof fn lemma_rounds_to_unique(v: int, a: int, q1: int, q2: int)
    requires
        a > 0,
        rounds_to_byte(v, a, q1),
        rounds_to_byte(v, a, q2),
    ensures
        q1 == q2,
{
    if q1 < 255 && q2 < 255 {
        assert(2 * q1 - 1 < 2 * q2 + 1 && 2 * q2 - 1 < 2 * q1 + 1) by (nonlinear_arith)
            requires
                a > 0,
                (2 * q1 - 1) * a <= 510 * v < (2 * q1 + 1) * a,
                (2 * q2 - 1) * a <= 510 * v < (2 * q2 + 1) * a,
        ;
    } else if q1 < 255 {
        assert((2 * q1 + 1) * a <= 509 * a) by (nonlinear_arith)
            requires
                a > 0,
                q1 < 255,
        ;
    } else if q2 < 255 {
        assert((2 * q2 + 1) * a <= 509 * a) by (nonlinear_arith)
            requires
                a > 0,
                q2 < 255,
        ;
    }
}

fn unpremultiply(v: u8, a: u8) -> (r: u8)
    requires
        a > 0,
    ensures
        r == unpremultiplied(v, a),
{
    let q: u32 = (510 * (v as u32) + (a as u32)) / (2 * (a as u32));
    let r: u8 = if q > 255 {
        255
    } else {
        q as u8
    };
    proof {
        let (vi, ai, qi) = (v as int, a as int, q as int);
        assert(2 * ai * qi <= 510 * vi + ai < 2 * ai * (qi + 1)) by (nonlinear_arith)
            requires
                ai > 0,
                qi == (510 * vi + ai) / (2 * ai),
        ;
        assert(rounds_to_byte(vi, ai, r as int)) by (nonlinear_arith)
            requires
                ai > 0,
                2 * ai * qi <= 510 * vi + ai < 2 * ai * (qi + 1),
                qi > 255 ==> r == 255,
                qi <= 255 ==> r == qi,
                0 <= qi,
        ;
        lemma_rounds_to_unique(vi, ai, r as int, unpremultiplied(v, a) as int);
    }
    r
}

/// Fits the bytes of pixel `(x, y)` inside the first `rows` rows.
proof fn lemma_offset_fits(x: int, y: int, ppr: int, rows: int, stride: int, bpp: int)
    requires
        0 <= x < ppr,
        0 <= y < rows,
        0 <= bpp,
        ppr * bpp <= stride,
    ensures
        0 <= y * stride + x * bpp,
        y * stride + x * bpp + bpp <= rows * stride,
{
    assert(0 <= x * bpp && x * bpp + bpp <= ppr * bpp) by (nonlinear_arith)
        requires
            0 <= x < ppr,
            0 <= bpp,
    ;
    assert(0 <= y * stride && y * stride + stride <= rows * stride) by (nonlinear_arith)
        requires
            0 <= y < rows,
            0 <= stride,
    ;
}

/// The bytes of two distinct pixels do not overlap.
proof fn lemma_pixels_disjoint(x1: int, y1: int, x2: int, y2: int, ppr: int, stride: int, bpp: int)
    requires
        0 <= x1 < ppr,
        0 <= x2 < ppr,
        0 <= y1,
        0 <= y2,
        0 <= bpp,
        ppr * bpp <= stride,
        x1 != x2 || y1 != y2,
    ensures
        y1 * stride + x1 * bpp + bpp <= y2 * stride + x2 * bpp
            || y2 * stride + x2 * bpp + bpp <= y1 * stride + x1 * bpp,
{
    if y1 == y2 {
        if x1 < x2 {
            assert(x1 * bpp + bpp <= x2 * bpp) by (nonlinear_arith)
                requires
                    x1 < x2,
                    0 <= bpp,
            ;
        } else {
            assert(x2 * bpp + bpp <= x1 * bpp) by (nonlinear_arith)
                requires
                    x2 < x1,
                    0 <= bpp,
            ;
        }
    } else {
        let (xa, ya, xb, yb) = if y1 < y2 {
            (x1, y1, x2, y2)
        } else {
            (x2, y2, x1, y1)
        };
        assert(xa * bpp + bpp <= ppr * bpp && 0 <= xb * bpp) by (nonlinear_arith)
            requires
                0 <= xa < ppr,
                0 <= xb,
                0 <= bpp,
        ;
        assert(ya * stride + stride <= yb * stride) by (nonlinear_arith)
            requires
                ya < yb,
                0 <= stride,
        ;
    }
}

/// Decoding the bytes that encode a color gives back what the format keeps of it.
proof fn lemma_decode_encode(format: ColorFormat, c: Color)
    ensures
        decode_color(format, encode_color(format, c)) == visible_color(format, c),
        visible_color(format, stored_color(format, c)) == stored_color(format, c),
{
}

/// Reads the pixel of the given format whose bytes begin at `i`.
fn read_color(data: &[u8], i: usize, format: &ColorFormat, depth: &BitDepth) -> (c: Color)
    requires
        i + bytes_per_pixel(*format, *depth) <= data@.len(),
    ensures
        c == decode_color(*format, data@.subrange(i as int, i + bytes_per_pixel(*format, *depth))),
{
    match depth {
        BitDepth::Eight => match format {
            ColorFormat::RGBA => Color { r: data[i], g: data[i + 1], b: data[i + 2], a: data[i + 3] },
            ColorFormat::ARGB => {
                let a = data[i];
                Color { r: data[i + 1], g: data[i + 2], b: data[i + 3], a }
            },
            ColorFormat::RGB => Color { r: data[i], g: data[i + 1], b: data[i + 2], a: 255 },
        },
    }
}

/// Writes `c` in the given format to the bytes that begin at `i`, and to no others.
fn write_color(data: &mut [u8], i: usize, format: &ColorFormat, depth: &BitDepth, c: &Color)
    requires
        i + bytes_per_pixel(*format, *depth) <= old(data)@.len(),
    ensures
        final(data)@.len() == old(data)@.len(),
        final(data)@.subrange(i as int, i + bytes_per_pixel(*format, *depth)) == encode_color(*format, *c),
        forall|j: int|
            0 <= j < old(data)@.len() && !(i <= j < i + bytes_per_pixel(*format, *depth))
                ==> #[trigger] final(data)@[j] == old(data)@[j],
{
    match depth {
        BitDepth::Eight => match format {
            ColorFormat::RGBA => {
                data[i] = c.r;
                data[i + 1] = c.g;
                data[i + 2] = c.b;
                data[i + 3] = c.a;
            },
            ColorFormat::ARGB => {
                data[i] = c.a;
                data[i + 1] = c.r;
                data[i + 2] = c.g;
                data[i + 3] = c.b;
            },
            ColorFormat::RGB => {
                data[i] = c.r;
                data[i + 1] = c.g;
                data[i + 2] = c.b;
            },
        },
    }
    assert(data@.subrange(i as int, i + bytes_per_pixel(*format, *depth)) =~= encode_color(*format, *c));
}

/// A [`ColorBuf`] over a bitmap that it owns.
pub struct BitmapColorBuf {
    data: Box<[u8]>,
    format: ColorFormat,
    depth: BitDepth,
    rows: u64,
    pixels_per_row: u64,
    stride: u64,
}

impl BitmapColorBuf {
    /// The bitmap's bytes.
    pub closed spec fn spec_data(&self) -> Seq<u8> {
        self.data@
    }

    pub closed spec fn spec_format(&self) -> ColorFormat {
        self.format
    }

    pub closed spec fn spec_depth(&self) -> BitDepth {
        self.depth
    }

    pub closed spec fn spec_rows(&self) -> u64 {
        self.rows
    }

    pub closed spec fn spec_pixels_per_row(&self) -> u64 {
        self.pixels_per_row
    }

    pub closed spec fn spec_stride(&self) -> u64 {
        self.stride
    }

    /// Bytes per pixel of this bitmap's layout.
    pub open spec fn spec_bpp(&self) -> nat {
        bytes_per_pixel(self.spec_format(), self.spec_depth())
    }

    /// Where the bytes of pixel `(x, y)` begin.
    pub open spec fn spec_offset(&self, x: int, y: int) -> int {
        pixel_offset(self.spec_format(), self.spec_depth(), self.spec_stride() as int, x, y)
    }

    /// Whether byte `i` belongs to a pixel rather than to row padding or to what follows the
    /// last row.
    pub open spec fn holds_pixel_byte(&self, i: int) -> bool {
        &&& 0 <= i < self.spec_rows() * self.spec_stride()
        &&& i % (self.spec_stride() as int) < self.spec_pixels_per_row() * self.spec_bpp()
    }

    /// Returns a new color buffer for the given bitmap.
    ///
    /// * `format` - How the channels are arranged in a pixel's bytes.
    /// * `depth` - How many bits a channel takes up.
    /// * `rows` - How many rows the bitmap has.
    /// * `pixels_per_row` - The width of the image.
    /// * `stride` - How many bytes lie between the starts of two rows; at least
    ///   `pixels_per_row` times the bytes per pixel, more where rows are padded.
    /// * `data` - The bitmap, at least `rows * stride` bytes long.
    pub fn new(
        format: ColorFormat,
        depth: BitDepth,
        rows: u64,
        pixels_per_row: u64,
        stride: u64,
        data: Box<[u8]>,
    ) -> (r: BitmapColorBuf)
        requires
            pixels_per_row * bytes_per_pixel(format, depth) <= stride,
            rows * stride <= data@.len(),
        ensures
            r.wf(),
            r.spec_data() == data@,
            r.spec_format() == format,
            r.spec_depth() == depth,
            r.spec_rows() == rows,
            r.spec_pixels_per_row() == pixels_per_row,
            r.spec_stride() == stride,
    {
        BitmapColorBuf { data, format, depth, rows, pixels_per_row, stride }
    }

    /// Where the bytes of pixel `(x, y)` begin, wherever that fits in a `usize`.
    fn get_offset(&self, x: u64, y: u64) -> (r: usize)
        requires
            self.spec_offset(x as int, y as int) <= usize::MAX,
        ensures
            r == self.spec_offset(x as int, y as int),
            self.wf() && x < self.pixels_per_row && y < self.rows ==> r + self.spec_bpp()
                <= self.data@.len(),
    {
        let bpp = get_bpp_factor(&self.format, &self.depth);
        proof {
            assert(0 <= y * self.stride && 0 <= x * bpp) by (nonlinear_arith);
            if self.wf() && x < self.pixels_per_row && y < self.rows {
                lemma_offset_fits(
                    x as int,
                    y as int,
                    self.pixels_per_row as int,
                    self.rows as int,
                    self.stride as int,
                    bpp as int,
                );
            }
        }
        (y * self.stride + x * bpp) as usize
    }
}

impl ColorBuf for BitmapColorBuf {
    open spec fn wf(&self) -> bool {
        &&& self.spec_pixels_per_row() * self.spec_bpp() <= self.spec_stride()
        &&& self.spec_rows() * self.spec_stride() <= self.spec_data().len()
    }

    open spec fn spec_width(&self) -> u64 {
        self.spec_pixels_per_row()
    }

    open spec fn spec_height(&self) -> u64 {
        self.spec_rows()
    }

    open spec fn spec_pixel(&self, x: int, y: int) -> Color {
        decode_color(
            self.spec_format(),
            self.spec_data().subrange(self.spec_offset(x, y), self.spec_offset(x, y) + self.spec_bpp()),
        )
    }

    open spec fn spec_accepts(&self, c: Color) -> bool {
        accepts_color(self.spec_format(), c)
    }

    open spec fn spec_stored(&self, c: Color) -> Color {
        stored_color(self.spec_format(), c)
    }

    fn get_pixel(&self, x: u64, y: u64) -> (r: Result<Color, ColorBufError>) {
        if x >= self.pixels_per_row || y >= self.rows {
            return Err(ColorBufError::InvalidCoordinate);
        }
        let len = self.data.len();
        proof {
            lemma_offset_fits(
                x as int,
                y as int,
                self.pixels_per_row as int,
                self.rows as int,
                self.stride as int,
                self.spec_bpp() as int,
            );
        }
        let index = self.get_offset(x, y);
        Ok(read_color(&self.data, index, &self.format, &self.depth))
    }

    fn set_pixel(&mut self, x: u64, y: u64, color: &Color) -> (r: Result<(), ColorBufError>)
        ensures
            final(self).spec_format() == old(self).spec_format(),
            final(self).spec_depth() == old(self).spec_depth(),
            final(self).spec_rows() == old(self).spec_rows(),
            final(self).spec_pixels_per_row() == old(self).spec_pixels_per_row(),
            final(self).spec_stride() == old(self).spec_stride(),
            final(self).spec_data().len() == old(self).spec_data().len(),
            r is Ok ==> final(self).spec_data().subrange(
                old(self).spec_offset(x as int, y as int),
                old(self).spec_offset(x as int, y as int) + old(self).spec_bpp(),
            ) == encode_color(old(self).spec_format(), stored_color(old(self).spec_format(), *color)),
            forall|i: int|
                0 <= i < old(self).spec_data().len() && !(r is Ok && old(self).spec_offset(
                    x as int,
                    y as int,
                ) <= i < old(self).spec_offset(x as int, y as int) + old(self).spec_bpp())
                    ==> #[trigger] final(self).spec_data()[i] == old(self).spec_data()[i],
            forall|i: int|
                0 <= i < old(self).spec_data().len() && !old(self).holds_pixel_byte(i)
                    ==> #[trigger] final(self).spec_data()[i] == old(self).spec_data()[i],
    {
        if x >= self.pixels_per_row || y >= self.rows {
            return Err(ColorBufError::InvalidCoordinate);
        }
        let len = self.data.len();
        proof {
            lemma_offset_fits(
                x as int,
                y as int,
                self.pixels_per_row as int,
                self.rows as int,
                self.stride as int,
                self.spec_bpp() as int,
            );
        }
        let index = self.get_offset(x, y);
        let stored = match self.format {
            ColorFormat::RGB => {
                if color.a == 0 {
                    return Err(ColorBufError::UndefinedAlphaDivision);
                }
                Color {
                    r: unpremultiply(color.r, color.a),
                    g: unpremultiply(color.g, color.a),
                    b: unpremultiply(color.b, color.a),
                    a: 255,
                }
            },
            _ => *color,
        };
        write_color(&mut self.data, index, &self.format, &self.depth, &stored);
        proof {
            let ppr = self.pixels_per_row as int;
            let stride = self.stride as int;
            let bpp = self.spec_bpp() as int;
            let o = index as int;
            lemma_decode_encode(self.format, stored);
            assert(self.spec_pixel(x as int, y as int) == stored);
            assert forall|i: int, j: int|
                in_bounds(i, j, ppr, self.rows as int) && !(i == x && j == y) implies
                    #[trigger] self.spec_pixel(i, j) == old(self).spec_pixel(i, j) by {
                lemma_pixels_disjoint(i, j, x as int, y as int, ppr, stride, bpp);
                lemma_offset_fits(i, j, ppr, self.rows as int, stride, bpp);
                let oi = self.spec_offset(i, j);
                assert(self.data@.subrange(oi, oi + bpp) =~= old(self).data@.subrange(oi, oi + bpp));
            }
            assert forall|i: int| o <= i < o + bpp implies #[trigger] old(self).holds_pixel_byte(i) by {
                lemma_offset_fits(x as int, y as int, ppr, self.rows as int, stride, bpp);
                assert(0 <= x * bpp && x * bpp + bpp <= ppr * bpp) by (nonlinear_arith)
                    requires
                        0 <= x < ppr,
                        0 <= bpp,
                ;
                lemma_fundamental_div_mod_converse(i, stride, y as int, i - y * stride);
            }
        }
        Ok(())
    }

    fn get_width(&self) -> (r: u64) {
        self.pixels_per_row
    }

    fn get_height(&self) -> (r: u64) {
        self.rows
    }
}

#[derive(Clone, Copy, Debug, PartialEq, Eq, Structural)]
pub enum BitmapError {
    /// The output cannot hold the bitmap.
    ByteArrayTooSmall,
}

/// The stride of a bitmap with no row padding.
pub open spec fn packed_stride(format: ColorFormat, depth: BitDepth, width: int) -> int {
    bytes_per_pixel(format, depth) * width
}

/// Whether `after` is `before` with the pixels of `buf` written over its front as a bitmap
/// of the given layout, with no row padding, and the bytes that follow the last row kept.
pub open spec fn encodes<B: ColorBuf>(
    buf: B,
    format: ColorFormat,
    depth: BitDepth,
    before: Seq<u8>,
    after: Seq<u8>,
) -> bool {
    let bpp = bytes_per_pixel(format, depth) as int;
    let stride = packed_stride(format, depth, buf.spec_width() as int);
    &&& after.len() == before.len()
    &&& forall|x: int, y: int|
        in_bounds(x, y, buf.spec_width() as int, buf.spec_height() as int) ==> after.subrange(
            pixel_offset(format, depth, stride, x, y),
            pixel_offset(format, depth, stride, x, y) + bpp,
        ) == encode_color(format, #[trigger] buf.spec_pixel(x, y))
    &&& forall|i: int|
        buf.spec_height() * stride <= i < before.len() ==> #[trigger] after[i] == before[i]
}

/// Writes the given [`ColorBuf`] to a bitmap.
///
/// Writes the pixels of `buf` into the front of `output` in the given layout, row after row
/// with no padding, and sets `stride` to the length of a row. Fails with `ByteArrayTooSmall`,
/// leaving `output` and `stride` as they were, where `output` is shorter than the bitmap or a
/// row's length does not fit in a `u64`.
pub fn to_bitmap<B: ColorBuf>(
    buf: B,
    format: ColorFormat,
    depth: BitDepth,
    stride: &mut u64,
    output: &mut [u8],
) -> (r: Result<(), BitmapError>)
    requires
        buf.wf(),
    ensures
        r is Err <==> packed_stride(format, depth, buf.spec_width() as int) > u64::MAX
            || buf.spec_height() * packed_stride(format, depth, buf.spec_width() as int) > old(output)@.len(),
        r is Err ==> r == Err::<(), BitmapError>(BitmapError::ByteArrayTooSmall),
        r is Err ==> final(output)@ == old(output)@ && *final(stride) == *old(stride),
        r is Ok ==> *final(stride) == packed_stride(format, depth, buf.spec_width() as int),
        r is Ok ==> encodes(buf, format, depth, old(output)@, final(output)@),
{
    let width = buf.get_width();
    let height = buf.get_height();
    let bpp = get_bpp_factor(&format, &depth);
    let len = output.len();
    let row_len = match bpp.checked_mul(width) {
        Some(v) => v,
        None => {
            proof {
                if height > 0 {
                    assert(height * (bpp * width) >= bpp * width) by (nonlinear_arith)
                        requires
                            height >= 1,
                            bpp * width >= 0,
                    ;
                }
            }
            return Err(BitmapError::ByteArrayTooSmall);
        },
    };
    let required = match height.checked_mul(row_len) {
        Some(v) => v,
        None => {
            return Err(BitmapError::ByteArrayTooSmall);
        },
    };
    if required > len as u64 {
        return Err(BitmapError::ByteArrayTooSmall);
    }
    let ghost before = output@;
    let mut y: u64 = 0;
    while y < height
        invariant
            buf.wf(),
            width == buf.spec_width(),
            height == buf.spec_height(),
            bpp == bytes_per_pixel(format, depth),
            row_len == bpp * width,
            height * row_len <= len,
            len == output@.len(),
            before == old(output)@,
            before.len() == len,
            y <= height,
            forall|xp: int, yp: int|
                in_bounds(xp, yp, width as int, y as int) ==> output@.subrange(
                    pixel_offset(format, depth, row_len as int, xp, yp),
                    pixel_offset(format, depth, row_len as int, xp, yp) + bpp,
                ) == encode_color(format, #[trigger] buf.spec_pixel(xp, yp)),
            forall|i: int| height * row_len <= i < len ==> #[trigger] output@[i] == before[i],
        decreases height - y,
    {
        let mut x: u64 = 0;
        while x < width
            invariant
                buf.wf(),
                width == buf.spec_width(),
                height == buf.spec_height(),
                bpp == bytes_per_pixel(format, depth),
                row_len == bpp * width,
                height * row_len <= len,
                len == output@.len(),
                before == old(output)@,
                before.len() == len,
                y < height,
                x <= width,
                forall|xp: int, yp: int|
                    in_bounds(xp, yp, width as int, height as int) && (yp < y || (yp == y && xp < x))
                        ==> output@.subrange(
                        pixel_offset(format, depth, row_len as int, xp, yp),
                        pixel_offset(format, depth, row_len as int, xp, yp) + bpp,
                    ) == encode_color(format, #[trigger] buf.spec_pixel(xp, yp)),
                forall|i: int| height * row_len <= i < len ==> #[trigger] output@[i] == before[i],
            decreases width - x,
        {
            if let Ok(color) = buf.get_pixel(x, y) {
                proof {
                    lemma_offset_fits(x as int, y as int, width as int, height as int, row_len as int, bpp as int);
                }
                let index = (y * row_len + x * bpp) as usize;
                let ghost prev = output@;
                write_color(output, index, &format, &depth, &color);
                proof {
                    assert forall|xp: int, yp: int|
                        in_bounds(xp, yp, width as int, height as int) && (yp < y || (yp == y && xp
                            <= x)) implies output@.subrange(
                        pixel_offset(format, depth, row_len as int, xp, yp),
                        pixel_offset(format, depth, row_len as int, xp, yp) + bpp,
                    ) == encode_color(format, #[trigger] buf.spec_pixel(xp, yp)) by {
                        if xp != x || yp != y {
                            lemma_pixels_disjoint(xp, yp, x as int, y as int, width as int, row_len as int, bpp as int);
                            lemma_offset_fits(xp, yp, width as int, height as int, row_len as int, bpp as int);
                            let o = pixel_offset(format, depth, row_len as int, xp, yp);
                            assert(output@.subrange(o, o + bpp) =~= prev.subrange(o, o + bpp));
                        }
                    }
                }
            }
            x += 1;
        }
        y += 1;
    }
    *stride = row_len;
    Ok(())
}

/// Round trip: a [`BitmapColorBuf`] over the bytes that [`to_bitmap`] wrote from `buf`, with
/// the same layout, the same size and the stride that `to_bitmap` reported, reads every pixel
/// of `buf` back as the layout keeps it: unchanged for `RGBA` and `ARGB`, and fully opaque
/// with the same red, green and blue for `RGB`.
pub proof fn lemma_round_trip<B: ColorBuf>(
    buf: B,
    format: ColorFormat,
    depth: BitDepth,
    before: Seq<u8>,
    codec: BitmapColorBuf,
)
    requires
        encodes(buf, format, depth, before, codec.spec_data()),
        codec.spec_format() == format,
        codec.spec_depth() == depth,
        codec.spec_rows() == buf.spec_height(),
        codec.spec_pixels_per_row() == buf.spec_width(),
        codec.spec_stride() == packed_stride(format, depth, buf.spec_width() as int),
    ensures
        forall|x: int, y: int|
            in_bounds(x, y, buf.spec_width() as int, buf.spec_height() as int)
                ==> #[trigger] codec.spec_pixel(x, y) == visible_color(format, buf.spec_pixel(x, y)),
{
    assert forall|x: int, y: int|
        in_bounds(x, y, buf.spec_width() as int, buf.spec_height() as int) implies
            #[trigger] codec.spec_pixel(x, y) == visible_color(format, buf.spec_pixel(x, y)) by {
        lemma_decode_encode(format, buf.spec_pixel(x, y));
    }
}

} // verus!
