//! The pixel-buffer type and the per-pixel stages of the pipeline:
//! greyscale conversion, brightness slicing, and gradient edge detection.

use vstd::prelude::*;

verus! {

/// How a brightness slice is meant to be composited by the caller. Both
/// policies produce the same per-pixel output; the variant only records the
/// caller's intent (clear to background, or keep the background visible).
#[derive(Clone, Copy, PartialEq, Eq, Structural)]
pub enum SliceMode {
    Clear,
    KeepBackground,
}

/// The gradient kernel used by edge detection. Prewitt takes the horizontal
/// gradient only, with unweighted rows; Sobel weights the middle row and
/// combines a horizontal and a vertical gradient as a Euclidean magnitude.
#[derive(Clone, Copy, PartialEq, Eq, Structural)]
pub enum EdgeKernel {
    Prewitt,
    Sobel,
}

/// A raster image: a flat, row-major RGBA byte buffer together with its
/// dimensions. The origin is the top-left corner; each pixel takes 4 bytes.
pub struct HandleRgbaComponents {
    pub width: u32,
    pub height: u32,
    pub pixels: Vec<u8>,
}

/// Rounded share of one source channel in the luma sum, with the standard
/// perceptual weight `num / 1000`.
pub open spec fn luma_term(v: u8, num: int) -> int {
    (num * v + 500) / 1000
}

/// Luma of one RGBA pixel: the weighted sum 0.299 R + 0.587 G + 0.114 B,
/// each share rounded to the nearest integer.
pub open spec fn luma_spec(r: u8, g: u8, b: u8) -> int {
    luma_term(r, 299) + luma_term(g, 587) + luma_term(b, 114)
}


/// Grey level the pipeline reads from a greyscale buffer: the R channel of
/// the pixel at column `x`, row `y`.
pub open spec fn grey_at(p: Seq<u8>, w: int, x: int, y: int) -> int {
    p[4 * (y * w + x)] as int
}

pub open spec fn abs_val(a: int) -> int {
    if a < 0 {
        -a
    } else {
        a
    }
}

pub open spec fn clamp_255(a: int) -> int {
    if a > 255 {
        255
    } else {
        a
    }
}

/// Horizontal Prewitt gradient at an interior pixel: the column difference
/// summed over the three rows, without row weighting.
pub open spec fn gx_prewitt(p: Seq<u8>, w: int, x: int, y: int) -> int {
    (grey_at(p, w, x + 1, y - 1) - grey_at(p, w, x - 1, y - 1)) + (grey_at(p, w, x + 1, y)
        - grey_at(p, w, x - 1, y)) + (grey_at(p, w, x + 1, y + 1) - grey_at(p, w, x - 1, y + 1))
}

/// Horizontal Sobel gradient: as Prewitt, with the middle row weighted 2.
pub open spec fn gx_sobel(p: Seq<u8>, w: int, x: int, y: int) -> int {
    (grey_at(p, w, x + 1, y - 1) - grey_at(p, w, x - 1, y - 1)) + 2 * (grey_at(p, w, x + 1, y)
        - grey_at(p, w, x - 1, y)) + (grey_at(p, w, x + 1, y + 1) - grey_at(p, w, x - 1, y + 1))
}

/// Vertical Sobel gradient: the transpose of the horizontal one.
pub open spec fn gy_sobel(p: Seq<u8>, w: int, x: int, y: int) -> int {
    (grey_at(p, w, x - 1, y + 1) - grey_at(p, w, x - 1, y - 1)) + 2 * (grey_at(p, w, x, y + 1)
        - grey_at(p, w, x, y - 1)) + (grey_at(p, w, x + 1, y + 1) - grey_at(p, w, x + 1, y - 1))
}

/// Whether `(x, y)` lies on the first or last row or column.
pub open spec fn on_border(w: int, h: int, x: int, y: int) -> bool {
    x == 0 || y == 0 || x >= w - 1 || y >= h - 1
}

/// The gradient magnitude edge detection writes at `(x, y)`: zero on the
/// border, otherwise the kernel's clamped magnitude.
pub open spec fn edge_value(p: Seq<u8>, w: int, h: int, x: int, y: int, kernel: EdgeKernel) -> int {
    if on_border(w, h, x, y) {
        0
    } else {
        match kernel {
            EdgeKernel::Prewitt => clamp_255(abs_val(gx_prewitt(p, w, x, y))),
            EdgeKernel::Sobel => clamp_255(
                crate::math::floor_sqrt(
                    gx_sobel(p, w, x, y) * gx_sobel(p, w, x, y) + gy_sobel(p, w, x, y) * gy_sobel(
                        p,
                        w,
                        x,
                        y,
                    ),
                ),
            ),
        }
    }
}

impl HandleRgbaComponents {
    /// Number of pixels the dimensions call for.
    pub open spec fn npix(self) -> int {
        self.width * self.height
    }

    /// The single buffer invariant: the byte length matches the dimensions.
    pub open spec fn well_formed(self) -> bool {
        self.pixels@.len() == self.npix() * 4
    }

    /// Builds a buffer after checking the length invariant once, so that
    /// every later stage can rely on it.
    pub fn new(width: u32, height: u32, pixels: Vec<u8>) -> (r: Self)
        requires
            pixels@.len() == width * height * 4,
        ensures
            r.well_formed(),
            r.width == width,
            r.height == height,
            r.pixels@ == pixels@,
    {
        HandleRgbaComponents { width, height, pixels }
    }

    /// Fresh copy of this buffer's bytes.
    pub(crate) fn copy_pixels(&self) -> (r: Vec<u8>)
        ensures
            r@ == self.pixels@,
    {
        let n: usize = self.pixels.len();
        let mut out: Vec<u8> = Vec::new();
        let mut i: usize = 0;
        while i < n
            invariant
                i <= n,
                n == self.pixels@.len(),
                out@ == self.pixels@.subrange(0, i as int),
            decreases n - i,
        {
            out.push(self.pixels[i]);
            proof {
                assert(out@ =~= self.pixels@.subrange(0, i + 1));
            }
            i = i + 1;
        }
        proof {
            assert(out@ =~= self.pixels@);
        }
        out
    }

    /// Greyscale conversion: every output pixel carries the luma of the
    /// source pixel in all three color channels and is fully opaque. The
    /// zero-area buffer a collaborator hands over after a failed decode
    /// passes through as an empty greyscale buffer.
    pub fn from_rgb_to_greyscale(width: u32, height: u32, rgba: &Vec<u8>) -> (r: Self)
        requires
            rgba@.len() == width * height * 4,
        ensures
            r.well_formed(),
            r.width == width,
            r.height == height,
            forall|k: int| #![trigger r.pixels@[4 * k]] 0 <= k < r.npix() ==> {
                &&& r.pixels@[4 * k] == luma_spec(rgba@[4 * k], rgba@[4 * k + 1], rgba@[4 * k + 2])
                &&& r.pixels@[4 * k + 1] == r.pixels@[4 * k]
                &&& r.pixels@[4 * k + 2] == r.pixels@[4 * k]
                &&& r.pixels@[4 * k + 3] == 255
            },
    {
        let n: usize = rgba.len() / 4;
        proof {
            assert(n == width * height);
        }
        let mut out: Vec<u8> = Vec::new();
        let mut k: usize = 0;
        while k < n
            invariant
                k <= n,
                n <= usize::MAX / 4,
                n * 4 == rgba@.len(),
                n == width * height,
                out@.len() == 4 * k,
                forall|j: int| #![trigger out@[4 * j]] 0 <= j < k ==> {
                    &&& out@[4 * j] == luma_spec(
                        rgba@[4 * j],
                        rgba@[4 * j + 1],
                        rgba@[4 * j + 2],
                    )
                    &&& out@[4 * j + 1] == out@[4 * j]
                    &&& out@[4 * j + 2] == out@[4 * j]
                    &&& out@[4 * j + 3] == 255
                },
            decreases n - k,
        {
            let base: usize = 4 * k;
            let rv: u32 = rgba[base] as u32;
            let gv: u32 = rgba[base + 1] as u32;
            let bv: u32 = rgba[base + 2] as u32;
            let lum: u32 = (299 * rv + 500) / 1000 + (587 * gv + 500) / 1000 + (114 * bv + 500)
                / 1000;
            let l8: u8 = lum as u8;
            out.push(l8);
            out.push(l8);
            out.push(l8);
            out.push(255);
            k = k + 1;
        }
        HandleRgbaComponents { width, height, pixels: out }
    }

    /// Brightness slice: a pixel whose greyscale value lies in
    /// `min_brightness ..= max_brightness` becomes fully transparent white;
    /// every other pixel passes through unchanged. When `min_brightness`
    /// exceeds `max_brightness` no pixel is in range and the whole buffer
    /// passes through.
    pub fn brightness_slice(
        &self,
        min_brightness: u8,
        max_brightness: u8,
        mode: SliceMode,
    ) -> (r: Self)
        requires
            self.well_formed(),
        ensures
            r.well_formed(),
            r.width == self.width,
            r.height == self.height,
            forall|k: int| #![trigger r.pixels@[4 * k]] 0 <= k < r.npix() ==> {
                if min_brightness <= self.pixels@[4 * k] && self.pixels@[4 * k]
                    <= max_brightness {
                    &&& r.pixels@[4 * k] == 255
                    &&& r.pixels@[4 * k + 1] == 255
                    &&& r.pixels@[4 * k + 2] == 255
                    &&& r.pixels@[4 * k + 3] == 0
                } else {
                    &&& r.pixels@[4 * k] == self.pixels@[4 * k]
                    &&& r.pixels@[4 * k + 1] == self.pixels@[4 * k + 1]
                    &&& r.pixels@[4 * k + 2] == self.pixels@[4 * k + 2]
                    &&& r.pixels@[4 * k + 3] == self.pixels@[4 * k + 3]
                }
            },
    {
        let n: usize = self.pixels.len() / 4;
        proof {
            assert(n == self.npix());
        }
        let mut out: Vec<u8> = Vec::new();
        let mut k: usize = 0;
        while k < n
            invariant
                k <= n,
                n <= usize::MAX / 4,
                n * 4 == self.pixels@.len(),
                n == self.npix(),
                out@.len() == 4 * k,
                forall|j: int| #![trigger out@[4 * j]] 0 <= j < k ==> {
                    if min_brightness <= self.pixels@[4 * j] && self.pixels@[4 * j]
                        <= max_brightness {
                        &&& out@[4 * j] == 255
                        &&& out@[4 * j + 1] == 255
                        &&& out@[4 * j + 2] == 255
                        &&& out@[4 * j + 3] == 0
                    } else {
                        &&& out@[4 * j] == self.pixels@[4 * j]
                        &&& out@[4 * j + 1] == self.pixels@[4 * j + 1]
                        &&& out@[4 * j + 2] == self.pixels@[4 * j + 2]
                        &&& out@[4 * j + 3] == self.pixels@[4 * j + 3]
                    }
                },
            decreases n - k,
        {
            let base: usize = 4 * k;
            let brightness: u8 = self.pixels[base];
            if min_brightness <= brightness && brightness <= max_brightness {
                out.push(255);
                out.push(255);
                out.push(255);
                out.push(0);
            } else {
                out.push(self.pixels[base]);
                out.push(self.pixels[base + 1]);
                out.push(self.pixels[base + 2]);
                out.push(self.pixels[base + 3]);
            }
            proof {
                let kk: int = k as int;
                assert forall|j: int| #![trigger out@[4 * j]] 0 <= j < kk + 1 implies {
                    if min_brightness <= self.pixels@[4 * j] && self.pixels@[4 * j]
                        <= max_brightness {
                        &&& out@[4 * j] == 255
                        &&& out@[4 * j + 1] == 255
                        &&& out@[4 * j + 2] == 255
                        &&& out@[4 * j + 3] == 0
                    } else {
                        &&& out@[4 * j] == self.pixels@[4 * j]
                        &&& out@[4 * j + 1] == self.pixels@[4 * j + 1]
                        &&& out@[4 * j + 2] == self.pixels@[4 * j + 2]
                        &&& out@[4 * j + 3] == self.pixels@[4 * j + 3]
                    }
                } by {
                    if j < kk {
                        assert(4 * j + 3 < 4 * kk);
                        if min_brightness <= self.pixels@[4 * j] && self.pixels@[4 * j]
                            <= max_brightness {
                            assert(out@[4 * j] == 255);
                            assert(out@[4 * j + 1] == 255);
                            assert(out@[4 * j + 2] == 255);
                            assert(out@[4 * j + 3] == 0);
                        } else {
                            assert(out@[4 * j] == self.pixels@[4 * j]);
                            assert(out@[4 * j + 1] == self.pixels@[4 * j + 1]);
                            assert(out@[4 * j + 2] == self.pixels@[4 * j + 2]);
                            assert(out@[4 * j + 3] == self.pixels@[4 * j + 3]);
                        }
                    } else {
                        assert(j == kk);
                        if min_brightness <= self.pixels@[4 * j] && self.pixels@[4 * j]
                            <= max_brightness {
                            assert(out@[4 * j] == 255);
                            assert(out@[4 * j + 1] == 255);
                            assert(out@[4 * j + 2] == 255);
                            assert(out@[4 * j + 3] == 0);
                        } else {
                            assert(out@[4 * j] == self.pixels@[4 * j]);
                            assert(out@[4 * j + 1] == self.pixels@[4 * j + 1]);
                            assert(out@[4 * j + 2] == self.pixels@[4 * j + 2]);
                            assert(out@[4 * j + 3] == self.pixels@[4 * j + 3]);
                        }
                    }
                }
            }
            k = k + 1;
        }
        // every slice mode shares the per-pixel rule; the mode only records
        // how the caller means to composite the result
        let _ = mode;
        HandleRgbaComponents { width: self.width, height: self.height, pixels: out }
    }

    /// The slice variant meant for compositing over the unmodified
    /// background; the per-pixel rule is the same as for every slice mode.
    pub fn greyscale_to_brightness_slice_keep_bg(
        &self,
        min_brightness: u8,
        max_brightness: u8,
    ) -> (r: Self)
        requires
            self.well_formed(),
        ensures
            r.well_formed(),
            r.width == self.width,
            r.height == self.height,
            forall|k: int| #![trigger r.pixels@[4 * k]] 0 <= k < r.npix() ==> {
                if min_brightness <= self.pixels@[4 * k] && self.pixels@[4 * k]
                    <= max_brightness {
                    &&& r.pixels@[4 * k] == 255
                    &&& r.pixels@[4 * k + 1] == 255
                    &&& r.pixels@[4 * k + 2] == 255
                    &&& r.pixels@[4 * k + 3] == 0
                } else {
                    &&& r.pixels@[4 * k] == self.pixels@[4 * k]
                    &&& r.pixels@[4 * k + 1] == self.pixels@[4 * k + 1]
                    &&& r.pixels@[4 * k + 2] == self.pixels@[4 * k + 2]
                    &&& r.pixels@[4 * k + 3] == self.pixels@[4 * k + 3]
                }
            },
    {
        self.brightness_slice(min_brightness, max_brightness, SliceMode::KeepBackground)
    }

    /// Fresh buffer of `n` opaque black pixels.
    fn opaque_black(n: usize) -> (r: Vec<u8>)
        requires
            n <= usize::MAX / 4,
        ensures
            r@.len() == 4 * n,
            forall|j: int| #![trigger r@[4 * j]] 0 <= j < n ==> {
                &&& r@[4 * j] == 0
                &&& r@[4 * j + 1] == 0
                &&& r@[4 * j + 2] == 0
                &&& r@[4 * j + 3] == 255
            },
    {
        let mut out: Vec<u8> = Vec::new();
        let mut k: usize = 0;
        while k < n
            invariant
                k <= n,
                n <= usize::MAX / 4,
                out@.len() == 4 * k,
                forall|j: int| #![trigger out@[4 * j]] 0 <= j < k ==> {
                    &&& out@[4 * j] == 0
                    &&& out@[4 * j + 1] == 0
                    &&& out@[4 * j + 2] == 0
                    &&& out@[4 * j + 3] == 255
                },
            decreases n - k,
        {
            out.push(0);
            out.push(0);
            out.push(0);
            out.push(255);
            proof {
                let kk: int = k as int;
                assert forall|j: int| #![trigger out@[4 * j]] 0 <= j < kk + 1 implies {
                    &&& out@[4 * j] == 0
                    &&& out@[4 * j + 1] == 0
                    &&& out@[4 * j + 2] == 0
                    &&& out@[4 * j + 3] == 255
                } by {
                    if j < kk {
                        assert(4 * j + 3 < 4 * kk);
                        assert(out@[4 * j] == 0);
                        assert(out@[4 * j + 1] == 0);
                        assert(out@[4 * j + 2] == 0);
                        assert(out@[4 * j + 3] == 255);
                    } else {
                        assert(out@[4 * j] == 0);
                        assert(out@[4 * j + 1] == 0);
                        assert(out@[4 * j + 2] == 0);
                        assert(out@[4 * j + 3] == 255);
                    }
                }
            }
            k = k + 1;
        }
        out
    }

    /// Gradient edge detection. Every interior pixel of the result carries
    /// the kernel's clamped gradient magnitude in all three color channels;
    /// the border rows and columns are zero; every pixel is fully opaque.
    /// A buffer narrower or shorter than 3 pixels has no interior and passes
    /// through unchanged.
    #[verifier::rlimit(60)]
    pub fn edge_detect(&self, kernel: EdgeKernel) -> (r: Self)
        requires
            self.well_formed(),
        ensures
            r.well_formed(),
            r.width == self.width,
            r.height == self.height,
            self.width < 3 || self.height < 3 ==> r.pixels@ == self.pixels@,
            self.width >= 3 && self.height >= 3 ==> forall|x: int, y: int|
                #![trigger r.pixels@[4 * (y * self.width + x)]]
                0 <= x < self.width && 0 <= y < self.height ==> {
                    &&& r.pixels@[4 * (y * self.width + x)] == edge_value(
                        self.pixels@,
                        self.width as int,
                        self.height as int,
                        x,
                        y,
                        kernel,
                    )
                    &&& r.pixels@[4 * (y * self.width + x) + 1] == r.pixels@[4 * (y * self.width
                        + x)]
                    &&& r.pixels@[4 * (y * self.width + x) + 2] == r.pixels@[4 * (y * self.width
                        + x)]
                    &&& r.pixels@[4 * (y * self.width + x) + 3] == 255
                },
            self.width >= 3 && self.height >= 3 ==> forall|x: int, y: int|
                #![trigger r.pixels@[4 * (y * self.width + x)]]
                0 <= x < self.width && 0 <= y < self.height && on_border(
                    self.width as int,
                    self.height as int,
                    x,
                    y,
                ) ==> r.pixels@[4 * (y * self.width + x)] == 0,
    {
        if self.width < 3 || self.height < 3 {
            return HandleRgbaComponents {
                width: self.width,
                height: self.height,
                pixels: self.copy_pixels(),
            };
        }
        let w: usize = self.width as usize;
        let h: usize = self.height as usize;
        let n: usize = self.pixels.len() / 4;
        proof {
            assert(n == w * h);
        }
        let ghost p: Seq<u8> = self.pixels@;
        let ghost wi: int = w as int;
        let ghost hi: int = h as int;
        let mut out: Vec<u8> = Self::opaque_black(n);
        proof {
            assert forall|i: int, j: int| #![trigger out@[4 * (j * wi + i)]]
                0 <= i < wi && 0 <= j < hi implies {
                    &&& out@[4 * (j * wi + i) + 1] == out@[4 * (j * wi + i)]
                    &&& out@[4 * (j * wi + i) + 2] == out@[4 * (j * wi + i)]
                    &&& out@[4 * (j * wi + i) + 3] == 255
                    &&& out@[4 * (j * wi + i)] == 0
                } by {
                crate::math::lemma_rc_index(wi, hi, i, j);
                assert(out@[4 * (j * wi + i)] == 0);
                assert(out@[4 * (j * wi + i) + 1] == 0);
                assert(out@[4 * (j * wi + i) + 2] == 0);
                assert(out@[4 * (j * wi + i) + 3] == 255);
            }
        }
        let mut y: usize = 1;
        while y < h - 1
            invariant
                1 <= y <= h - 1,
                3 <= w,
                3 <= h,
                n == w * h,
                n <= usize::MAX / 4,
                p.len() == 4 * n,
                p == self.pixels@,
                wi == w,
                hi == h,
                out@.len() == 4 * n,
                forall|i: int, j: int| #![trigger out@[4 * (j * wi + i)]]
                    0 <= i < wi && 0 <= j < hi ==> {
                        &&& out@[4 * (j * wi + i) + 1] == out@[4 * (j * wi + i)]
                        &&& out@[4 * (j * wi + i) + 2] == out@[4 * (j * wi + i)]
                        &&& out@[4 * (j * wi + i) + 3] == 255
                        &&& (j < y || on_border(wi, hi, i, j) ==> out@[4 * (j * wi + i)]
                            == edge_value(p, wi, hi, i, j, kernel))
                        &&& (!(j < y || on_border(wi, hi, i, j)) ==> out@[4 * (j * wi + i)] == 0)
                    },
            decreases h - 1 - y,
        {
            let mut x: usize = 1;
            while x < w - 1
                invariant
                    1 <= y < h - 1,
                    1 <= x <= w - 1,
                    3 <= w,
                    3 <= h,
                    n == w * h,
                    n <= usize::MAX / 4,
                    p.len() == 4 * n,
                    p == self.pixels@,
                    wi == w,
                    hi == h,
                    out@.len() == 4 * n,
                    forall|i: int, j: int| #![trigger out@[4 * (j * wi + i)]]
                        0 <= i < wi && 0 <= j < hi ==> {
                            &&& out@[4 * (j * wi + i) + 1] == out@[4 * (j * wi + i)]
                            &&& out@[4 * (j * wi + i) + 2] == out@[4 * (j * wi + i)]
                            &&& out@[4 * (j * wi + i) + 3] == 255
                            &&& (j < y || (j == y && i < x) || on_border(wi, hi, i, j) ==> out@[4
                                * (j * wi + i)] == edge_value(p, wi, hi, i, j, kernel))
                            &&& (!(j < y || (j == y && i < x) || on_border(wi, hi, i, j))
                                ==> out@[4 * (j * wi + i)] == 0)
                        },
                decreases w - 1 - x,
            {
                proof {
                    crate::math::lemma_rc_index(wi, hi, x - 1, y - 1);
                    crate::math::lemma_rc_index(wi, hi, x as int, y - 1);
                    crate::math::lemma_rc_index(wi, hi, x + 1, y - 1);
                    crate::math::lemma_rc_index(wi, hi, x - 1, y as int);
                    crate::math::lemma_rc_index(wi, hi, x as int, y as int);
                    crate::math::lemma_rc_index(wi, hi, x + 1, y as int);
                    crate::math::lemma_rc_index(wi, hi, x - 1, y + 1);
                    crate::math::lemma_rc_index(wi, hi, x as int, y + 1);
                    crate::math::lemma_rc_index(wi, hi, x + 1, y + 1);
                }
                let row_above: usize = (y - 1) * w;
                let row_mid: usize = y * w;
                let row_below: usize = (y + 1) * w;
                let tl: i32 = self.pixels[4 * (row_above + x - 1)] as i32;
                let tm: i32 = self.pixels[4 * (row_above + x)] as i32;
                let tr: i32 = self.pixels[4 * (row_above + x + 1)] as i32;
                let ml: i32 = self.pixels[4 * (row_mid + x - 1)] as i32;
                let mr: i32 = self.pixels[4 * (row_mid + x + 1)] as i32;
                let bl: i32 = self.pixels[4 * (row_below + x - 1)] as i32;
                let bm: i32 = self.pixels[4 * (row_below + x)] as i32;
                let br: i32 = self.pixels[4 * (row_below + x + 1)] as i32;
                let v: u8 = match kernel {
                    EdgeKernel::Prewitt => {
                        let gx: i32 = (tr - tl) + (mr - ml) + (br - bl);
                        let a: i32 = if gx < 0 {
                            -gx
                        } else {
                            gx
                        };
                        if a > 255 {
                            255
                        } else {
                            a as u8
                        }
                    },
                    EdgeKernel::Sobel => {
                        let gx: i32 = (tr - tl) + 2 * (mr - ml) + (br - bl);
                        let gy: i32 = (bl - tl) + 2 * (bm - tm) + (br - tr);
                        proof {
                            assert(gx * gx + gy * gy <= 2 * 1020 * 1020) by (nonlinear_arith)
                                requires
                                    -1020 <= gx <= 1020,
                                    -1020 <= gy <= 1020,
                            ;
                            assert(gx * gx >= 0) by (nonlinear_arith);
                            assert(gy * gy >= 0) by (nonlinear_arith);
                        }
                        let m2: i32 = gx * gx + gy * gy;
                        let rq: u64 = crate::math::isqrt(m2 as u128);
                        proof {
                            crate::math::lemma_isqrt_is_floor_sqrt(m2 as int, rq as int);
                        }
                        if rq > 255 {
                            255
                        } else {
                            rq as u8
                        }
                    },
                };
                proof {
                    assert(v == edge_value(p, wi, hi, x as int, y as int, kernel));
                }
                let base: usize = 4 * (row_mid + x);
                out[base] = v;
                out[base + 1] = v;
                out[base + 2] = v;
                proof {
                    let xi: int = x as int;
                    let yi: int = y as int;
                    assert forall|i: int, j: int| #![trigger out@[4 * (j * wi + i)]]
                        0 <= i < wi && 0 <= j < hi implies {
                            &&& out@[4 * (j * wi + i) + 1] == out@[4 * (j * wi + i)]
                            &&& out@[4 * (j * wi + i) + 2] == out@[4 * (j * wi + i)]
                            &&& out@[4 * (j * wi + i) + 3] == 255
                            &&& (j < yi || (j == yi && i < xi + 1) || on_border(wi, hi, i, j)
                                ==> out@[4 * (j * wi + i)] == edge_value(p, wi, hi, i, j, kernel))
                            &&& (!(j < yi || (j == yi && i < xi + 1) || on_border(wi, hi, i, j))
                                ==> out@[4 * (j * wi + i)] == 0)
                        } by {
                        crate::math::lemma_rc_index(wi, hi, i, j);
                        if i == xi && j == yi {
                            assert(out@[4 * (j * wi + i)] == v);
                            assert(out@[4 * (j * wi + i) + 1] == v);
                            assert(out@[4 * (j * wi + i) + 2] == v);
                            assert(out@[4 * (j * wi + i) + 3] == 255);
                        } else {
                            crate::math::lemma_rc_injective(wi, i, j, xi, yi);
                            assert(4 * (j * wi + i) != 4 * (yi * wi + xi));
                            if j < yi || (j == yi && i < xi) || on_border(wi, hi, i, j) {
                                assert(out@[4 * (j * wi + i)] == edge_value(
                                    p,
                                    wi,
                                    hi,
                                    i,
                                    j,
                                    kernel,
                                ));
                            } else {
                                assert(out@[4 * (j * wi + i)] == 0);
                            }
                            assert(out@[4 * (j * wi + i) + 1] == out@[4 * (j * wi + i)]);
                            assert(out@[4 * (j * wi + i) + 2] == out@[4 * (j * wi + i)]);
                            assert(out@[4 * (j * wi + i) + 3] == 255);
                        }
                    }
                }
                x = x + 1;
            }
            y = y + 1;
        }
        proof {
            assert(y == h - 1);
            assert forall|ci: int, rj: int| #![trigger out@[4 * (rj * wi + ci)]]
                0 <= ci < wi && 0 <= rj < hi implies {
                    &&& out@[4 * (rj * wi + ci)] == edge_value(p, wi, hi, ci, rj, kernel)
                    &&& out@[4 * (rj * wi + ci) + 1] == out@[4 * (rj * wi + ci)]
                    &&& out@[4 * (rj * wi + ci) + 2] == out@[4 * (rj * wi + ci)]
                    &&& out@[4 * (rj * wi + ci) + 3] == 255
                } by {
                crate::math::lemma_rc_index(wi, hi, ci, rj);
                assert(out@.len() == 4 * n);
                assert(wi == w as int && hi == h as int);
                assert(wi * hi == n);
                assert(0 <= 4 * (rj * wi + ci) + 3 < out@.len());
                assert(rj < y as int || on_border(wi, hi, ci, rj));
                assert(out@[4 * (rj * wi + ci)] == edge_value(p, wi, hi, ci, rj, kernel));
                assert(out@[4 * (rj * wi + ci) + 3] == 255);
            }
        }
        HandleRgbaComponents { width: self.width, height: self.height, pixels: out }
    }

    /// The pipeline's horizontal Prewitt filter: edge detection with the
    /// Prewitt kernel.
    pub fn prewitt_filtered(&self) -> (r: Self)
        requires
            self.well_formed(),
        ensures
            r.well_formed(),
            r.width == self.width,
            r.height == self.height,
            self.width < 3 || self.height < 3 ==> r.pixels@ == self.pixels@,
            self.width >= 3 && self.height >= 3 ==> forall|x: int, y: int|
                #![trigger r.pixels@[4 * (y * self.width + x)]]
                0 <= x < self.width && 0 <= y < self.height ==> {
                    &&& r.pixels@[4 * (y * self.width + x)] == edge_value(
                        self.pixels@,
                        self.width as int,
                        self.height as int,
                        x,
                        y,
                        EdgeKernel::Prewitt,
                    )
                    &&& r.pixels@[4 * (y * self.width + x) + 3] == 255
                },
    {
        self.edge_detect(EdgeKernel::Prewitt)
    }
}

/// Law: on a uniformly colored buffer the gradient map is zero everywhere.
/// Every pixel of an edge-detected uniform buffer carries the value 0,
/// whatever the kernel.
pub proof fn lemma_edge_detect_uniform(
    p: Seq<u8>,
    w: int,
    h: int,
    x: int,
    y: int,
    kernel: EdgeKernel,
)
    requires
        p.len() == w * h * 4,
        0 <= x < w,
        0 <= y < h,
        forall|a: int, b: int| #![trigger grey_at(p, w, a, b)]
            0 <= a < w && 0 <= b < h ==> grey_at(p, w, a, b) == grey_at(p, w, 0, 0),
    ensures
        edge_value(p, w, h, x, y, kernel) == 0,
{
    if !on_border(w, h, x, y) {
        assert(grey_at(p, w, x - 1, y - 1) == grey_at(p, w, 0, 0));
        assert(grey_at(p, w, x, y - 1) == grey_at(p, w, 0, 0));
        assert(grey_at(p, w, x + 1, y - 1) == grey_at(p, w, 0, 0));
        assert(grey_at(p, w, x - 1, y) == grey_at(p, w, 0, 0));
        assert(grey_at(p, w, x + 1, y) == grey_at(p, w, 0, 0));
        assert(grey_at(p, w, x - 1, y + 1) == grey_at(p, w, 0, 0));
        assert(grey_at(p, w, x, y + 1) == grey_at(p, w, 0, 0));
        assert(grey_at(p, w, x + 1, y + 1) == grey_at(p, w, 0, 0));
        assert(gx_prewitt(p, w, x, y) == 0);
        assert(gx_sobel(p, w, x, y) == 0);
        assert(gy_sobel(p, w, x, y) == 0);
    }
}

} // verus!
