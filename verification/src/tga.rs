//! Pixel colors and the in-memory image surface.
//!
//! A color is stored as up to four channel bytes in B,G,R,A order together
//! with a format tag; the channel count implied by the tag is the number of
//! bytes one pixel occupies, both in memory and on disk.

use vstd::prelude::*;

use crate::error::ErrorKind;

verus! {

/// Pixel format: the tag fixes how many channel bytes a pixel holds.
#[derive(Clone, Copy, Debug, PartialEq, Eq, Structural)]
pub enum TgaFormat {
    Grayscale,
    RGB,
    RGBA,
}

impl TgaFormat {
    /// Number of bytes one pixel of this format occupies.
    pub open spec fn spec_bytes_per_pixel(self) -> usize {
        match self {
            TgaFormat::Grayscale => 1usize,
            TgaFormat::RGB => 3usize,
            TgaFormat::RGBA => 4usize,
        }
    }

    /// Executable twin of [`Self::spec_bytes_per_pixel`].
    pub fn bytes_per_pixel(self) -> (r: usize)
        ensures
            r == self.spec_bytes_per_pixel(),
    {
        match self {
            TgaFormat::Grayscale => 1,
            TgaFormat::RGB => 3,
            TgaFormat::RGBA => 4,
        }
    }
}

/// A color: four channel bytes in B,G,R,A storage order plus a format tag.
/// Only the first `format.spec_bytes_per_pixel()` channels are meaningful.
#[derive(Clone, Copy, Debug, PartialEq, Eq, Structural)]
pub struct TgaColor {
    pub b: u8,
    pub g: u8,
    pub r: u8,
    pub a: u8,
    pub format: TgaFormat,
}

impl TgaColor {
    /// The channel bytes in storage order, as a sequence.
    pub open spec fn spec_channels(self) -> Seq<u8> {
        seq![self.b, self.g, self.r, self.a]
    }

    /// The bytes this color contributes to a surface of `bpp` bytes per pixel.
    pub open spec fn spec_bytes(self, bpp: int) -> Seq<u8> {
        self.spec_channels().take(bpp)
    }

    /// The all-zero RGBA color.
    pub fn zeros() -> (c: TgaColor)
        ensures
            c == (TgaColor { b: 0, g: 0, r: 0, a: 0, format: TgaFormat::RGBA }),
    {
        TgaColor { b: 0, g: 0, r: 0, a: 0, format: TgaFormat::RGBA }
    }

    /// An RGB color; the alpha byte is unused and zero.
    ///
    /// Storage order is B,G,R even though the constructor takes R,G,B.
    pub fn from_rgb(r: u8, g: u8, b: u8) -> (c: TgaColor)
        ensures
            c == (TgaColor { b: b, g: g, r: r, a: 0, format: TgaFormat::RGB }),
    {
        TgaColor { b, g, r, a: 0, format: TgaFormat::RGB }
    }

    /// An RGBA color.
    pub fn from_rgba(r: u8, g: u8, b: u8, a: u8) -> (c: TgaColor)
        ensures
            c == (TgaColor { b: b, g: g, r: r, a: a, format: TgaFormat::RGBA }),
    {
        TgaColor { b, g, r, a, format: TgaFormat::RGBA }
    }

    /// A single-channel grayscale color.
    pub fn from_greyscale(v: u8) -> (c: TgaColor)
        ensures
            c == (TgaColor { b: v, g: 0, r: 0, a: 0, format: TgaFormat::Grayscale }),
    {
        TgaColor { b: v, g: 0, r: 0, a: 0, format: TgaFormat::Grayscale }
    }

    /// Channel byte `i` in storage order.
    pub fn channel(&self, i: usize) -> (v: u8)
        requires
            i < 4,
        ensures
            v == self.spec_channels()[i as int],
    {
        match i {
            0 => self.b,
            1 => self.g,
            2 => self.r,
            _ => self.a,
        }
    }

    /// What one channel byte becomes under intensity `num/den` clamped to
    /// [0, 1]: the channel is scaled and truncated.
    pub open spec fn spec_scaled_channel(v: u8, num: i64, den: i64) -> u8 {
        if num <= 0 {
            0u8
        } else if num >= den {
            v
        } else {
            ((v as int) * (num as int) / (den as int)) as u8
        }
    }

    /// The color scaled by the intensity `num/den`, as a spec value.
    pub open spec fn spec_scaled(self, num: i64, den: i64) -> TgaColor {
        TgaColor {
            b: TgaColor::spec_scaled_channel(self.b, num, den),
            g: TgaColor::spec_scaled_channel(self.g, num, den),
            r: TgaColor::spec_scaled_channel(self.r, num, den),
            a: TgaColor::spec_scaled_channel(self.a, num, den),
            format: self.format,
        }
    }

    /// Scalar multiplication by the intensity `num/den`, clamped to [0, 1]:
    /// each channel is scaled and truncated; the format tag is kept.
    pub fn mul_intensity(&self, num: i64, den: i64) -> (c: TgaColor)
        requires
            den > 0,
        ensures
            c == self.spec_scaled(num, den),
            c.b == TgaColor::spec_scaled_channel(self.b, num, den),
            c.g == TgaColor::spec_scaled_channel(self.g, num, den),
            c.r == TgaColor::spec_scaled_channel(self.r, num, den),
            c.a == TgaColor::spec_scaled_channel(self.a, num, den),
            c.format == self.format,
    {
        let num = if num <= 0 {
            0
        } else if num >= den {
            den
        } else {
            num
        };
        proof {
            assert(0 <= num <= den);
        }
        TgaColor {
            b: Self::scale_channel(self.b, num, den),
            g: Self::scale_channel(self.g, num, den),
            r: Self::scale_channel(self.r, num, den),
            a: Self::scale_channel(self.a, num, den),
            format: self.format,
        }
    }

    /// One channel scaled by `num/den` with `0 <= num <= den`.
    fn scale_channel(v: u8, num: i64, den: i64) -> (r: u8)
        requires
            0 <= num <= den,
            den > 0,
        ensures
            r == if num == den {
                v
            } else {
                ((v as int) * (num as int) / (den as int)) as u8
            },
    {
        if num == den {
            v
        } else {
            proof {
                assert((v as int) * (num as int) <= 255 * (num as int)) by (nonlinear_arith)
                    requires
                        0 <= v <= 255,
                        num >= 0,
                {}
            }
            let wide: i128 = (v as i128) * (num as i128);
            let q: i128 = wide / (den as i128);
            proof {
                assert(0 <= (v as int) * (num as int) <= 255 * (den as int)) by (nonlinear_arith)
                    requires
                        0 <= v <= 255,
                        0 <= num < den,
                {}
                assert(0 <= (v as int) * (num as int) / (den as int) < 256) by (nonlinear_arith)
                    requires
                        den > 0,
                        0 <= (v as int) * (num as int) < 256 * (den as int),
                {}
            }
            q as u8
        }
    }
}

/// A mutable 2D pixel grid: `height` rows of `width` pixels, each pixel
/// `bytes_per_pixel` consecutive bytes, rows stored bottom to top unless a
/// flip says otherwise. Writes outside the grid are ignored; reads outside
/// it fail with [`ErrorKind::OutOfBounds`].
#[derive(Clone, Debug)]
pub struct TgaImage {
    pub data: Vec<u8>,
    pub width: i32,
    pub height: i32,
    pub bytes_per_pixel: usize,
}

impl TgaImage {
    /// Well-formedness: the pixel depth is one of the supported channel
    /// counts (or the image is the empty placeholder), and the byte store
    /// has exactly one pixel's bytes per grid cell.
    pub open spec fn wf(self) -> bool {
        &&& 0 <= self.width
        &&& 0 <= self.height
        &&& (self.bytes_per_pixel == 1 || self.bytes_per_pixel == 3 || self.bytes_per_pixel == 4
            || (self.bytes_per_pixel == 0 && self.width == 0 && self.height == 0))
        &&& self.data@.len() == self.width * self.height * self.bytes_per_pixel
    }

    /// Whether `(x, y)` addresses a pixel of the grid.
    pub open spec fn spec_in_bounds(self, x: int, y: int) -> bool {
        0 <= x < self.width && 0 <= y < self.height
    }

    /// Byte offset of pixel `(x, y)` in the store.
    pub open spec fn spec_pixel_ofs(self, x: int, y: int) -> int {
        (x + y * self.width) * self.bytes_per_pixel
    }

    /// The bytes of pixel `(x, y)`.
    pub open spec fn spec_pixel(self, x: int, y: int) -> Seq<u8> {
        self.data@.subrange(
            self.spec_pixel_ofs(x, y),
            self.spec_pixel_ofs(x, y) + self.bytes_per_pixel,
        )
    }

    /// Two images of the same width, height and pixel depth.
    pub open spec fn same_dims(self, other: TgaImage) -> bool {
        &&& self.width == other.width
        &&& self.height == other.height
        &&& self.bytes_per_pixel == other.bytes_per_pixel
    }

    /// A pixel's bytes lie inside the store.
    pub proof fn lemma_pixel_ofs_bound(self, x: int, y: int)
        requires
            self.wf(),
            self.spec_in_bounds(x, y),
        ensures
            0 <= y * self.width,
            0 <= x + y * self.width,
            x + y * self.width <= self.spec_pixel_ofs(x, y),
            0 <= self.spec_pixel_ofs(x, y),
            self.spec_pixel_ofs(x, y) + self.bytes_per_pixel <= self.data@.len(),
    {
        let w = self.width as int;
        let h = self.height as int;
        let bpp = self.bytes_per_pixel as int;
        assert(0 <= y * w && 0 <= x + y * w && x + y * w <= (x + y * w) * bpp && (x + y * w) * bpp
            + bpp <= w * h * bpp) by (nonlinear_arith)
            requires
                0 <= x < w,
                0 <= y < h,
                bpp >= 1,
        {}
    }

    /// Distinct pixels occupy disjoint byte ranges.
    pub proof fn lemma_pixel_ofs_disjoint(self, x1: int, y1: int, x2: int, y2: int)
        requires
            self.wf(),
            self.spec_in_bounds(x1, y1),
            self.spec_in_bounds(x2, y2),
            !(x1 == x2 && y1 == y2),
        ensures
            self.spec_pixel_ofs(x1, y1) + self.bytes_per_pixel <= self.spec_pixel_ofs(x2, y2)
                || self.spec_pixel_ofs(x2, y2) + self.bytes_per_pixel <= self.spec_pixel_ofs(
                x1,
                y1,
            ),
    {
        let w = self.width as int;
        let bpp = self.bytes_per_pixel as int;
        assert((x1 + y1 * w) * bpp + bpp <= (x2 + y2 * w) * bpp || (x2 + y2 * w) * bpp + bpp <= (x1
            + y1 * w) * bpp) by (nonlinear_arith)
            requires
                0 <= x1 < w,
                0 <= x2 < w,
                0 <= y1,
                0 <= y2,
                !(x1 == x2 && y1 == y2),
                bpp >= 1,
        {}
    }

    /// Two well-formed images of the same dimensions whose pixels all agree
    /// have the same byte store.
    pub proof fn lemma_same_pixels_same_data(self, other: TgaImage)
        requires
            self.wf(),
            other.wf(),
            self.same_dims(other),
            forall|px: int, py: int|
                self.spec_in_bounds(px, py) ==> self.spec_pixel(px, py) == other.spec_pixel(px, py),
        ensures
            self.data@ == other.data@,
    {
        let w = self.width as int;
        let h = self.height as int;
        let bpp = self.bytes_per_pixel as int;
        let len = self.data@.len() as int;
        assert forall|j: int| 0 <= j < len implies self.data@[j] == other.data@[j] by {
            assert(bpp >= 1) by {
                assert(len > 0);
            }
            vstd::arithmetic::div_mod::lemma_fundamental_div_mod(j, bpp);
            vstd::arithmetic::div_mod::lemma_mod_bound(j, bpp);
            let p = j / bpp;
            let c = j % bpp;
            assert(0 <= p && p < w * h) by (nonlinear_arith)
                requires
                    j == bpp * p + c,
                    0 <= c < bpp,
                    0 <= j < w * h * bpp,
                    bpp >= 1,
            {}
            assert(w > 0) by (nonlinear_arith)
                requires
                    0 <= p < w * h,
                    0 <= w,
                    0 <= h,
            {}
            vstd::arithmetic::div_mod::lemma_fundamental_div_mod(p, w);
            vstd::arithmetic::div_mod::lemma_mod_bound(p, w);
            let px = p % w;
            let py = p / w;
            assert(0 <= py && py < h) by (nonlinear_arith)
                requires
                    p == w * py + px,
                    0 <= px < w,
                    0 <= p < w * h,
                    w > 0,
            {}
            assert(self.spec_in_bounds(px, py));
            assert(self.spec_pixel_ofs(px, py) == p * bpp);
            self.lemma_pixel_ofs_bound(px, py);
            assert(self.spec_pixel(px, py)[c] == self.data@[p * bpp + c]);
            assert(other.spec_pixel(px, py)[c] == other.data@[p * bpp + c]);
            assert(j == p * bpp + c);
        }
        assert(self.data@ =~= other.data@);
    }

    /// The empty placeholder image.
    pub fn unset() -> (img: TgaImage)
        ensures
            img.wf(),
            img.width == 0,
            img.height == 0,
            img.bytes_per_pixel == 0,
            img.data@.len() == 0,
    {
        TgaImage { data: Vec::new(), width: 0, height: 0, bytes_per_pixel: 0 }
    }

    /// A zero-filled surface of the given dimensions and format.
    pub fn new(width: i32, height: i32, format: TgaFormat) -> (img: TgaImage)
        requires
            0 <= width,
            0 <= height,
            width * height * format.spec_bytes_per_pixel() <= usize::MAX,
        ensures
            img.wf(),
            img.width == width,
            img.height == height,
            img.bytes_per_pixel == format.spec_bytes_per_pixel(),
            forall|i: int| 0 <= i < img.data@.len() ==> img.data@[i] == 0u8,
    {
        let bpp = format.bytes_per_pixel();
        proof {
            assert((width as int) * (height as int) <= (width as int) * (height as int) * (
            bpp as int) && (width as int) * (height as int) >= 0) by (nonlinear_arith)
                requires
                    width >= 0,
                    height >= 0,
                    bpp >= 1,
            {}
        }
        let nbytes: usize = (width as usize) * (height as usize) * bpp;
        let mut data: Vec<u8> = Vec::new();
        while data.len() < nbytes
            invariant
                data@.len() <= nbytes,
                forall|i: int| 0 <= i < data@.len() ==> data@[i] == 0u8,
            decreases nbytes - data@.len(),
        {
            data.push(0);
        }
        TgaImage { data, width, height, bytes_per_pixel: bpp }
    }

    /// Write `color` at `(x, y)`; a write outside the grid is ignored and
    /// must not fail.
    pub fn set(&mut self, x: i32, y: i32, color: &TgaColor)
        requires
            old(self).wf(),
        ensures
            final(self).wf(),
            final(self).same_dims(*old(self)),
            final(self).data@.len() == old(self).data@.len(),
            !old(self).spec_in_bounds(x as int, y as int) ==> *final(self) == *old(self),
            old(self).spec_in_bounds(x as int, y as int) ==> {
                &&& final(self).spec_pixel(x as int, y as int) == color.spec_bytes(
                    old(self).bytes_per_pixel as int,
                )
                &&& forall|px: int, py: int|
                    old(self).spec_in_bounds(px, py) && !(px == x && py == y) ==> final(self).spec_pixel(px, py) == old(self).spec_pixel(px, py)
            },
    {
        if x >= 0 && y >= 0 && x < self.width && y < self.height {
            proof {
                self.lemma_pixel_ofs_bound(x as int, y as int);
            }
            let n = self.data.len();
            let location: usize = ((x as usize) + (y as usize) * (self.width as usize))
                * self.bytes_per_pixel;
            let bpp = self.bytes_per_pixel;
            let ghost orig = *self;
            let mut i: usize = 0;
            while i < bpp
                invariant
                    i <= bpp,
                    n == self.data@.len(),
                    bpp == orig.bytes_per_pixel,
                    bpp <= 4,
                    self.width == orig.width,
                    self.height == orig.height,
                    self.bytes_per_pixel == orig.bytes_per_pixel,
                    self.data@.len() == orig.data@.len(),
                    location == orig.spec_pixel_ofs(x as int, y as int),
                    location + bpp <= self.data@.len(),
                    forall|j: int|
                        0 <= j < self.data@.len() ==> self.data@[j] == if location <= j < location
                            + i {
                            color.spec_channels()[j - location]
                        } else {
                            orig.data@[j]
                        },
                decreases bpp - i,
            {
                let v = color.channel(i);
                self.data.set(location + i, v);
                i += 1;
            }
            proof {
                assert(self.spec_pixel(x as int, y as int) =~= color.spec_bytes(bpp as int));
                assert forall|px: int, py: int|
                    orig.spec_in_bounds(px, py) && !(px == x && py == y) implies self.spec_pixel(
                    px,
                    py,
                ) == orig.spec_pixel(px, py) by {
                    orig.lemma_pixel_ofs_disjoint(px, py, x as int, y as int);
                    orig.lemma_pixel_ofs_bound(px, py);
                    assert(self.spec_pixel(px, py) =~= orig.spec_pixel(px, py));
                }
            }
        }
    }

    /// The color that reading pixel `(x, y)` yields: the pixel's bytes in
    /// channel order, unused channels zero, the format tag matching the
    /// image's pixel depth.
    pub open spec fn spec_get_color(self, x: int, y: int) -> TgaColor {
        let p = self.spec_pixel(x, y);
        if self.bytes_per_pixel == 1 {
            TgaColor { b: p[0], g: 0, r: 0, a: 0, format: TgaFormat::Grayscale }
        } else if self.bytes_per_pixel == 3 {
            TgaColor { b: p[0], g: p[1], r: p[2], a: 0, format: TgaFormat::RGB }
        } else {
            TgaColor { b: p[0], g: p[1], r: p[2], a: p[3], format: TgaFormat::RGBA }
        }
    }

    /// Read the pixel at `(x, y)`; a read outside the grid fails with
    /// [`ErrorKind::OutOfBounds`]. The returned color's format matches the
    /// image's pixel depth and its unused channels are zero.
    pub fn get(&self, x: i32, y: i32) -> (r: Result<TgaColor, ErrorKind>)
        requires
            self.wf(),
        ensures
            r is Ok <==> self.spec_in_bounds(x as int, y as int),
            r is Err ==> r == Err::<TgaColor, ErrorKind>(ErrorKind::OutOfBounds),
            r matches Ok(c) ==> c == self.spec_get_color(x as int, y as int),
            r matches Ok(c) ==> {
                &&& c.spec_bytes(self.bytes_per_pixel as int) == self.spec_pixel(x as int, y as int)
                &&& c.format.spec_bytes_per_pixel() == self.bytes_per_pixel
                &&& forall|i: int|
                    self.bytes_per_pixel <= i < 4 ==> c.spec_channels()[i] == 0u8
            },
    {
        if x >= self.width || y >= self.height || x < 0 || y < 0 {
            Err(ErrorKind::OutOfBounds)
        } else {
            proof {
                self.lemma_pixel_ofs_bound(x as int, y as int);
            }
            let n = self.data.len();
            let location: usize = ((x as usize) + (y as usize) * (self.width as usize))
                * self.bytes_per_pixel;
            let c = if self.bytes_per_pixel == 1 {
                TgaColor {
                    b: self.data[location],
                    g: 0,
                    r: 0,
                    a: 0,
                    format: TgaFormat::Grayscale,
                }
            } else if self.bytes_per_pixel == 3 {
                TgaColor {
                    b: self.data[location],
                    g: self.data[location + 1],
                    r: self.data[location + 2],
                    a: 0,
                    format: TgaFormat::RGB,
                }
            } else {
                TgaColor {
                    b: self.data[location],
                    g: self.data[location + 1],
                    r: self.data[location + 2],
                    a: self.data[location + 3],
                    format: TgaFormat::RGBA,
                }
            };
            proof {
                assert(c.spec_bytes(self.bytes_per_pixel as int) =~= self.spec_pixel(
                    x as int,
                    y as int,
                ));
            }
            Ok(c)
        }
    }

    /// Swap the bytes of two distinct pixels; every other pixel is kept.
    fn swap_pixels(&mut self, x1: i32, y1: i32, x2: i32, y2: i32)
        requires
            old(self).wf(),
            old(self).spec_in_bounds(x1 as int, y1 as int),
            old(self).spec_in_bounds(x2 as int, y2 as int),
            !(x1 == x2 && y1 == y2),
        ensures
            final(self).wf(),
            final(self).same_dims(*old(self)),
            final(self).data@.len() == old(self).data@.len(),
            forall|px: int, py: int|
                old(self).spec_in_bounds(px, py) ==> final(self).spec_pixel(px, py) == if px == x1
                    && py == y1 {
                    old(self).spec_pixel(x2 as int, y2 as int)
                } else if px == x2 && py == y2 {
                    old(self).spec_pixel(x1 as int, y1 as int)
                } else {
                    old(self).spec_pixel(px, py)
                },
    {
        proof {
            self.lemma_pixel_ofs_bound(x1 as int, y1 as int);
            self.lemma_pixel_ofs_bound(x2 as int, y2 as int);
            self.lemma_pixel_ofs_disjoint(x1 as int, y1 as int, x2 as int, y2 as int);
        }
        let n = self.data.len();
        let o1: usize = ((x1 as usize) + (y1 as usize) * (self.width as usize))
            * self.bytes_per_pixel;
        let o2: usize = ((x2 as usize) + (y2 as usize) * (self.width as usize))
            * self.bytes_per_pixel;
        let bpp = self.bytes_per_pixel;
        let ghost orig = *self;
        let mut c: usize = 0;
        while c < bpp
            invariant
                c <= bpp,
                n == self.data@.len(),
                bpp == orig.bytes_per_pixel,
                self.width == orig.width,
                self.height == orig.height,
                self.bytes_per_pixel == orig.bytes_per_pixel,
                self.data@.len() == orig.data@.len(),
                o1 == orig.spec_pixel_ofs(x1 as int, y1 as int),
                o2 == orig.spec_pixel_ofs(x2 as int, y2 as int),
                o1 + bpp <= self.data@.len(),
                o2 + bpp <= self.data@.len(),
                o1 + bpp <= o2 || o2 + bpp <= o1,
                forall|j: int|
                    0 <= j < self.data@.len() ==> self.data@[j] == if o1 <= j < o1 + c {
                        orig.data@[j - o1 + o2]
                    } else if o2 <= j < o2 + c {
                        orig.data@[j - o2 + o1]
                    } else {
                        orig.data@[j]
                    },
            decreases bpp - c,
        {
            let t1 = self.data[o1 + c];
            let t2 = self.data[o2 + c];
            self.data.set(o1 + c, t2);
            self.data.set(o2 + c, t1);
            c += 1;
        }
        proof {
            assert forall|px: int, py: int| orig.spec_in_bounds(px, py) implies self.spec_pixel(
                px,
                py,
            ) == if px == x1 && py == y1 {
                orig.spec_pixel(x2 as int, y2 as int)
            } else if px == x2 && py == y2 {
                orig.spec_pixel(x1 as int, y1 as int)
            } else {
                orig.spec_pixel(px, py)
            } by {
                if px == x1 && py == y1 {
                    assert(self.spec_pixel(px, py) =~= orig.spec_pixel(x2 as int, y2 as int));
                } else if px == x2 && py == y2 {
                    assert(self.spec_pixel(px, py) =~= orig.spec_pixel(x1 as int, y1 as int));
                } else {
                    orig.lemma_pixel_ofs_disjoint(px, py, x1 as int, y1 as int);
                    orig.lemma_pixel_ofs_disjoint(px, py, x2 as int, y2 as int);
                    orig.lemma_pixel_ofs_bound(px, py);
                    assert(self.spec_pixel(px, py) =~= orig.spec_pixel(px, py));
                }
            }
        }
    }

    /// Reverse the vertical order of the rows: afterwards the pixel at
    /// `(x, y)` holds what the pixel at `(x, height - 1 - y)` held.
    pub fn flip_vertically(&mut self)
        requires
            old(self).wf(),
        ensures
            final(self).wf(),
            final(self).same_dims(*old(self)),
            final(self).data@.len() == old(self).data@.len(),
            forall|px: int, py: int|
                old(self).spec_in_bounds(px, py) ==> final(self).spec_pixel(px, py) == old(self).spec_pixel(px, old(self).height - 1 - py),
    {
        let ghost orig = *self;
        let h = self.height;
        let half = h / 2;
        let mut j: i32 = 0;
        while j < half
            invariant
                orig.wf(),
                0 <= j <= half,
                half == orig.height / 2,
                h == orig.height,
                self.wf(),
                self.same_dims(orig),
                self.data@.len() == orig.data@.len(),
                forall|px: int, py: int|
                    orig.spec_in_bounds(px, py) ==> self.spec_pixel(px, py) == if py < j || py > h
                        - 1 - j {
                        orig.spec_pixel(px, h - 1 - py)
                    } else {
                        orig.spec_pixel(px, py)
                    },
            decreases half - j,
        {
            let ghost row_start = *self;
            let mut x: i32 = 0;
            while x < self.width
                invariant
                    orig.wf(),
                    0 <= j < half,
                    half == orig.height / 2,
                    h == orig.height,
                    0 <= x <= self.width,
                    self.wf(),
                    self.same_dims(orig),
                    self.data@.len() == orig.data@.len(),
                    forall|px: int, py: int|
                        orig.spec_in_bounds(px, py) ==> self.spec_pixel(px, py) == if (py < j || py
                            > h - 1 - j) || ((py == j || py == h - 1 - j) && px < x) {
                            orig.spec_pixel(px, h - 1 - py)
                        } else {
                            orig.spec_pixel(px, py)
                        },
                decreases self.width - x,
            {
                let ghost before = *self;
                proof {
                    assert(j < h - 1 - j);
                }
                self.swap_pixels(x, j, x, h - 1 - j);
                proof {
                    assert forall|px: int, py: int| orig.spec_in_bounds(px, py) implies
                        self.spec_pixel(px, py) == if (py < j || py > h - 1 - j) || ((py == j || py
                            == h - 1 - j) && px < x + 1) {
                            orig.spec_pixel(px, h - 1 - py)
                        } else {
                            orig.spec_pixel(px, py)
                        } by {
                        if px == x && py == j {
                            assert(orig.spec_in_bounds(x as int, h - 1 - j));
                            assert(self.spec_pixel(px, py) == before.spec_pixel(
                                x as int,
                                h - 1 - j,
                            ));
                            assert(before.spec_pixel(x as int, h - 1 - j) == orig.spec_pixel(
                                x as int,
                                h - 1 - j,
                            ));
                        } else if px == x && py == h - 1 - j {
                            assert(orig.spec_in_bounds(x as int, j as int));
                            assert(self.spec_pixel(px, py) == before.spec_pixel(x as int, j as int));
                            assert(before.spec_pixel(x as int, j as int) == orig.spec_pixel(
                                x as int,
                                j as int,
                            ));
                        } else {
                            assert(self.spec_pixel(px, py) == before.spec_pixel(px, py));
                        }
                    }
                }
                x += 1;
            }
            j += 1;
        }
        proof {
            assert forall|px: int, py: int| orig.spec_in_bounds(px, py) implies self.spec_pixel(
                px,
                py,
            ) == orig.spec_pixel(px, h - 1 - py) by {
                if py < half || py > h - 1 - half {
                } else {
                    assert(py == h - 1 - py) by {
                        assert(half <= py <= h - 1 - half);
                        assert(h / 2 * 2 == h || h / 2 * 2 == h - 1);
                    }
                }
            }
        }
    }

    /// Mirror each row: afterwards the pixel at `(x, y)` holds what the
    /// pixel at `(width - 1 - x, y)` held. Always succeeds.
    pub fn flip_horizontally(&mut self) -> (r: Result<(), ErrorKind>)
        requires
            old(self).wf(),
        ensures
            r is Ok,
            final(self).wf(),
            final(self).same_dims(*old(self)),
            final(self).data@.len() == old(self).data@.len(),
            forall|px: int, py: int|
                old(self).spec_in_bounds(px, py) ==> final(self).spec_pixel(px, py) == old(self).spec_pixel(old(self).width - 1 - px, py),
    {
        let ghost orig = *self;
        let w = self.width;
        let half = w / 2;
        let mut i: i32 = 0;
        while i < half
            invariant
                orig.wf(),
                0 <= i <= half,
                half == orig.width / 2,
                w == orig.width,
                self.wf(),
                self.same_dims(orig),
                self.data@.len() == orig.data@.len(),
                forall|px: int, py: int|
                    orig.spec_in_bounds(px, py) ==> self.spec_pixel(px, py) == if px < i || px > w
                        - 1 - i {
                        orig.spec_pixel(w - 1 - px, py)
                    } else {
                        orig.spec_pixel(px, py)
                    },
            decreases half - i,
        {
            let mut y: i32 = 0;
            while y < self.height
                invariant
                    orig.wf(),
                    0 <= i < half,
                    half == orig.width / 2,
                    w == orig.width,
                    0 <= y <= self.height,
                    self.wf(),
                    self.same_dims(orig),
                    self.data@.len() == orig.data@.len(),
                    forall|px: int, py: int|
                        orig.spec_in_bounds(px, py) ==> self.spec_pixel(px, py) == if (px < i || px
                            > w - 1 - i) || ((px == i || px == w - 1 - i) && py < y) {
                            orig.spec_pixel(w - 1 - px, py)
                        } else {
                            orig.spec_pixel(px, py)
                        },
                decreases self.height - y,
            {
                let ghost before = *self;
                proof {
                    assert(i < w - 1 - i);
                }
                self.swap_pixels(i, y, w - 1 - i, y);
                proof {
                    assert forall|px: int, py: int| orig.spec_in_bounds(px, py) implies
                        self.spec_pixel(px, py) == if (px < i || px > w - 1 - i) || ((px == i || px
                            == w - 1 - i) && py < y + 1) {
                            orig.spec_pixel(w - 1 - px, py)
                        } else {
                            orig.spec_pixel(px, py)
                        } by {
                        if px == i && py == y {
                            assert(orig.spec_in_bounds(w - 1 - i, y as int));
                            assert(self.spec_pixel(px, py) == before.spec_pixel(w - 1 - i, y as int));
                            assert(before.spec_pixel(w - 1 - i, y as int) == orig.spec_pixel(
                                w - 1 - i,
                                y as int,
                            ));
                        } else if px == w - 1 - i && py == y {
                            assert(orig.spec_in_bounds(i as int, y as int));
                            assert(self.spec_pixel(px, py) == before.spec_pixel(i as int, y as int));
                            assert(before.spec_pixel(i as int, y as int) == orig.spec_pixel(
                                i as int,
                                y as int,
                            ));
                        } else {
                            assert(self.spec_pixel(px, py) == before.spec_pixel(px, py));
                        }
                    }
                }
                y += 1;
            }
            i += 1;
        }
        proof {
            assert forall|px: int, py: int| orig.spec_in_bounds(px, py) implies self.spec_pixel(
                px,
                py,
            ) == orig.spec_pixel(w - 1 - px, py) by {
                if px < half || px > w - 1 - half {
                } else {
                    assert(px == w - 1 - px) by {
                        assert(half <= px <= w - 1 - half);
                        assert(w / 2 * 2 == w || w / 2 * 2 == w - 1);
                    }
                }
            }
        }
        Ok(())
    }
}

} // verus!
