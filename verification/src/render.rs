//! Rasterizing extracted segments back onto a pixel buffer.
//!
//! Segments arrive in the bottom-left Cartesian convention the accumulator
//! votes in; drawing converts each vertical coordinate to top-left image
//! space as `y_image = height - y_cartesian`. A segment is walked along
//! its longer axis, one evenly spaced (rounded) point per step;
//! out-of-canvas points are clipped, not drawn.

use crate::extract::{extract_lines, extract_threshold, extract_upto, lemma_extract_in_box, Segment};
use crate::hough::{fp_diag2, Accumulator, TrigTable};
use crate::image_processing::HandleRgbaComponents;
use crate::math::round_div_any;
use vstd::prelude::*;

verus! {

/// An RGBA draw color.
#[derive(Clone, Copy, PartialEq, Eq, Structural)]
pub struct Rgba {
    pub r: u8,
    pub g: u8,
    pub b: u8,
    pub a: u8,
}

pub open spec fn abs_i(a: int) -> int {
    if a < 0 {
        -a
    } else {
        a
    }
}

pub open spec fn max_i(a: int, b: int) -> int {
    if a >= b {
        a
    } else {
        b
    }
}

/// Number of steps the walk along a segment takes: the span of its longer
/// axis (a single-point segment takes zero steps).
pub open spec fn seg_steps(sg: Segment, h: int) -> int {
    max_i(abs_i(sg.x2 - sg.x1), abs_i((h - sg.y2) - (h - sg.y1)))
}

/// The `i`-th point of the walk, in top-left image coordinates after the
/// vertical flip: both coordinates move in `steps` even, rounded
/// increments from one endpoint to the other.
pub open spec fn seg_point(sg: Segment, h: int, i: int) -> (int, int) {
    let x1 = sg.x1 as int;
    let y1 = h - sg.y1;
    let x2 = sg.x2 as int;
    let y2 = h - sg.y2;
    let n = seg_steps(sg, h);
    if n == 0 {
        (x1, y1)
    } else {
        (x1 + round_div_any(i * (x2 - x1), n), y1 + round_div_any(i * (y2 - y1), n))
    }
}

/// Whether some segment's walk passes through `(x, y)`.
pub open spec fn walk_covers(segs: Seq<Segment>, h: int, x: int, y: int) -> bool {
    exists|i: int, j: int|
        0 <= i < segs.len() && 0 <= j <= seg_steps(segs[i], h) && #[trigger] seg_point(
            segs[i],
            h,
            j,
        ) == (x, y)
}

/// Whether a point lies on the canvas.
pub open spec fn on_canvas(w: int, h: int, x: int, y: int) -> bool {
    0 <= x < w && 0 <= y < h
}

/// Whether the pixel at `(x, y)` of buffer `q` carries the draw color.
pub open spec fn pixel_colored(q: Seq<u8>, w: int, x: int, y: int, color: Rgba) -> bool {
    &&& q[4 * (y * w + x)] == color.r
    &&& q[4 * (y * w + x) + 1] == color.g
    &&& q[4 * (y * w + x) + 2] == color.b
    &&& q[4 * (y * w + x) + 3] == color.a
}

/// Whether the pixel at index `k` is unchanged between two buffers.
pub open spec fn pixel_kept(p: Seq<u8>, q: Seq<u8>, k: int) -> bool {
    &&& q[4 * k] == p[4 * k]
    &&& q[4 * k + 1] == p[4 * k + 1]
    &&& q[4 * k + 2] == p[4 * k + 2]
    &&& q[4 * k + 3] == p[4 * k + 3]
}


/// The segments a visualization pass draws: those the absolute-threshold
/// extraction finds in the accumulator, under the scaled-axis inversion.
pub open spec fn visualize_segments(
    b: HandleRgbaComponents,
    acc: Accumulator,
    trig: TrigTable,
    threshold: u32,
) -> Seq<Segment> {
    extract_upto(
        acc.cells(),
        acc.rho_steps as int,
        trig.cos_fp@,
        trig.sin_fp@,
        crate::math::floor_sqrt(fp_diag2(b.width as int, b.height as int)),
        false,
        extract_threshold(acc.cells(), false, threshold as int),
        b.width as int,
        b.height as int,
        acc.cells().len() as int,
    )
}

impl HandleRgbaComponents {
    /// Draws every segment onto a copy of this buffer in the given color.
    ///
    /// Each pixel of the result either keeps its old value or carries the
    /// draw color, and every on-canvas point of every segment's walk
    /// carries the draw color.
    pub fn render_segments(&self, segs: &Vec<Segment>, color: Rgba) -> (r: Self)
        requires
            self.well_formed(),
            forall|i: int| #![trigger segs@[i]] 0 <= i < segs@.len() ==> {
                &&& -0x1_0000_0000 <= segs@[i].x1 <= 0x1_0000_0000
                &&& -0x1_0000_0000 <= segs@[i].y1 <= 0x1_0000_0000
                &&& -0x1_0000_0000 <= segs@[i].x2 <= 0x1_0000_0000
                &&& -0x1_0000_0000 <= segs@[i].y2 <= 0x1_0000_0000
            },
        ensures
            r.well_formed(),
            r.width == self.width,
            r.height == self.height,
            forall|k: int| #![trigger r.pixels@[4 * k]]
                0 <= k < r.npix() ==> pixel_kept(self.pixels@, r.pixels@, k) || {
                    &&& r.pixels@[4 * k] == color.r
                    &&& r.pixels@[4 * k + 1] == color.g
                    &&& r.pixels@[4 * k + 2] == color.b
                    &&& r.pixels@[4 * k + 3] == color.a
                    &&& walk_covers(
                        segs@,
                        self.height as int,
                        k % (self.width as int),
                        k / (self.width as int),
                    )
                },
            forall|i: int, j: int| #![trigger seg_point(segs@[i], self.height as int, j)]
                0 <= i < segs@.len() && 0 <= j <= seg_steps(segs@[i], self.height as int)
                    && on_canvas(
                    self.width as int,
                    self.height as int,
                    seg_point(segs@[i], self.height as int, j).0,
                    seg_point(segs@[i], self.height as int, j).1,
                ) ==> pixel_colored(
                    r.pixels@,
                    self.width as int,
                    seg_point(segs@[i], self.height as int, j).0,
                    seg_point(segs@[i], self.height as int, j).1,
                    color,
                ),
    {
        let w: usize = self.width as usize;
        let h: usize = self.height as usize;
        let n: usize = self.pixels.len() / 4;
        proof {
            assert(n == w * h);
        }
        let ghost p: Seq<u8> = self.pixels@;
        let ghost wi: int = w as int;
        let ghost hi: int = h as int;
        let mut out: Vec<u8> = self.copy_pixels();
        let m: usize = segs.len();
        let mut i: usize = 0;
        while i < m
            invariant
                i <= m,
                m == segs@.len(),
                n == w * h,
                n <= usize::MAX / 4,
                w == self.width,
                h == self.height,
                p == self.pixels@,
                p.len() == 4 * n,
                wi == w,
                hi == h,
                out@.len() == 4 * n,
                forall|ii: int| #![trigger segs@[ii]] 0 <= ii < m ==> {
                    &&& -0x1_0000_0000 <= segs@[ii].x1 <= 0x1_0000_0000
                    &&& -0x1_0000_0000 <= segs@[ii].y1 <= 0x1_0000_0000
                    &&& -0x1_0000_0000 <= segs@[ii].x2 <= 0x1_0000_0000
                    &&& -0x1_0000_0000 <= segs@[ii].y2 <= 0x1_0000_0000
                },
                forall|k: int| #![trigger out@[4 * k]]
                    0 <= k < n ==> pixel_kept(p, out@, k) || {
                        &&& out@[4 * k] == color.r
                        &&& out@[4 * k + 1] == color.g
                        &&& out@[4 * k + 2] == color.b
                        &&& out@[4 * k + 3] == color.a
                        &&& walk_covers(segs@, hi, k % wi, k / wi)
                    },
                forall|ii: int, j: int| #![trigger seg_point(segs@[ii], hi, j)]
                    0 <= ii < i && 0 <= j <= seg_steps(segs@[ii], hi) && on_canvas(
                        wi,
                        hi,
                        seg_point(segs@[ii], hi, j).0,
                        seg_point(segs@[ii], hi, j).1,
                    ) ==> pixel_colored(
                        out@,
                        wi,
                        seg_point(segs@[ii], hi, j).0,
                        seg_point(segs@[ii], hi, j).1,
                        color,
                    ),
            decreases m - i,
        {
            let sg: Segment = segs[i];
            let x1: i64 = sg.x1;
            let y1: i64 = (h as i64) - sg.y1;
            let x2: i64 = sg.x2;
            let y2: i64 = (h as i64) - sg.y2;
            let dx: i64 = x2 - x1;
            let dy: i64 = y2 - y1;
            let adx: i64 = if dx < 0 {
                -dx
            } else {
                dx
            };
            let ady: i64 = if dy < 0 {
                -dy
            } else {
                dy
            };
            let steps: i64 = if adx >= ady {
                adx
            } else {
                ady
            };
            proof {
                assert(steps == seg_steps(sg, hi));
            }
            let mut j: i64 = 0;
            while j <= steps
                invariant
                    0 <= j <= steps + 1,
                    steps == seg_steps(sg, hi),
                    0 <= steps <= 0x4_0000_0000,
                    sg == segs@[i as int],
                    i < m,
                    m == segs@.len(),
                    x1 == sg.x1,
                    y1 == hi - sg.y1,
                    x2 == sg.x2,
                    y2 == hi - sg.y2,
                    dx == x2 - x1,
                    dy == y2 - y1,
                    -0x2_0000_0000 <= dx <= 0x2_0000_0000,
                    -0x2_0000_0000 <= dy <= 0x2_0000_0000,
                    -0x1_0000_0000 <= x1 <= 0x1_0000_0000,
                    -0x1_0000_0000 - 0x1_0000_0000 <= y1 <= 0x2_0000_0000,
                    n == w * h,
                    n <= usize::MAX / 4,
                    w == self.width,
                    h == self.height,
                    p == self.pixels@,
                    p.len() == 4 * n,
                    wi == w,
                    hi == h,
                    out@.len() == 4 * n,
                    forall|ii: int| #![trigger segs@[ii]] 0 <= ii < m ==> {
                        &&& -0x1_0000_0000 <= segs@[ii].x1 <= 0x1_0000_0000
                        &&& -0x1_0000_0000 <= segs@[ii].y1 <= 0x1_0000_0000
                        &&& -0x1_0000_0000 <= segs@[ii].x2 <= 0x1_0000_0000
                        &&& -0x1_0000_0000 <= segs@[ii].y2 <= 0x1_0000_0000
                    },
                    forall|k: int| #![trigger out@[4 * k]]
                        0 <= k < n ==> pixel_kept(p, out@, k) || {
                            &&& out@[4 * k] == color.r
                            &&& out@[4 * k + 1] == color.g
                            &&& out@[4 * k + 2] == color.b
                            &&& out@[4 * k + 3] == color.a
                            &&& walk_covers(segs@, hi, k % wi, k / wi)
                        },
                    forall|ii: int, jj: int| #![trigger seg_point(segs@[ii], hi, jj)]
                        0 <= ii < i && 0 <= jj <= seg_steps(segs@[ii], hi) && on_canvas(
                            wi,
                            hi,
                            seg_point(segs@[ii], hi, jj).0,
                            seg_point(segs@[ii], hi, jj).1,
                        ) ==> pixel_colored(
                            out@,
                            wi,
                            seg_point(segs@[ii], hi, jj).0,
                            seg_point(segs@[ii], hi, jj).1,
                            color,
                        ),
                    forall|jj: int| #![trigger seg_point(sg, hi, jj)]
                        0 <= jj < j && on_canvas(
                            wi,
                            hi,
                            seg_point(sg, hi, jj).0,
                            seg_point(sg, hi, jj).1,
                        ) ==> pixel_colored(
                            out@,
                            wi,
                            seg_point(sg, hi, jj).0,
                            seg_point(sg, hi, jj).1,
                            color,
                        ),
                decreases steps + 1 - j,
            {
                let (px, py): (i64, i64) = if steps == 0 {
                    (x1, y1)
                } else {
                    proof {
                        assert(-0x1_0000_0000_0000_0000_0000 < (j as i128) * (dx as i128)
                            < 0x1_0000_0000_0000_0000_0000) by (nonlinear_arith)
                            requires
                                0 <= j as i128 <= 0x4_0000_0000,
                                -0x2_0000_0000 <= dx as i128 <= 0x2_0000_0000,
                        ;
                        assert(-0x1_0000_0000_0000_0000_0000 < (j as i128) * (dy as i128)
                            < 0x1_0000_0000_0000_0000_0000) by (nonlinear_arith)
                            requires
                                0 <= j as i128 <= 0x4_0000_0000,
                                -0x2_0000_0000 <= dy as i128 <= 0x2_0000_0000,
                        ;
                    }
                    let ox: i128 = crate::math::div_round_any(
                        (j as i128) * (dx as i128),
                        steps as i128,
                    );
                    let oy: i128 = crate::math::div_round_any(
                        (j as i128) * (dy as i128),
                        steps as i128,
                    );
                    proof {
                        crate::math::lemma_walk_step_bound(j as int, dx as int, steps as int);
                        crate::math::lemma_walk_step_bound(j as int, dy as int, steps as int);
                        assert(-0x2_0000_0000 <= ox <= 0x2_0000_0000);
                        assert(-0x2_0000_0000 <= oy <= 0x2_0000_0000);
                    }
                    ((x1 as i128 + ox) as i64, (y1 as i128 + oy) as i64)
                };
                proof {
                    assert((px as int, py as int) == seg_point(sg, hi, j as int));
                }
                if 0 <= px && px < w as i64 && 0 <= py && py < h as i64 {
                    let xu: usize = px as usize;
                    let yu: usize = py as usize;
                    proof {
                        crate::math::lemma_rc_index(wi, hi, xu as int, yu as int);
                    }
                    let base: usize = 4 * (yu * w + xu);
                    out[base] = color.r;
                    out[base + 1] = color.g;
                    out[base + 2] = color.b;
                    out[base + 3] = color.a;
                    proof {
                        let kk: int = (yu as int) * wi + xu;
                        assert(pixel_colored(out@, wi, xu as int, yu as int, color));
                        crate::math::lemma_div_mod_identity(yu as int, xu as int, wi);
                        assert(seg_point(segs@[i as int], hi, j as int) == (
                            kk % wi,
                            kk / wi,
                        ));
                        assert(walk_covers(segs@, hi, kk % wi, kk / wi));
                        assert forall|k: int| #![trigger out@[4 * k]] 0 <= k < n implies
                            pixel_kept(p, out@, k) || {
                                &&& out@[4 * k] == color.r
                                &&& out@[4 * k + 1] == color.g
                                &&& out@[4 * k + 2] == color.b
                                &&& out@[4 * k + 3] == color.a
                                &&& walk_covers(segs@, hi, k % wi, k / wi)
                            } by {
                            if k == kk {
                                assert(out@[4 * k] == color.r);
                                assert(out@[4 * k + 1] == color.g);
                                assert(out@[4 * k + 2] == color.b);
                                assert(out@[4 * k + 3] == color.a);
                                assert(walk_covers(segs@, hi, k % wi, k / wi));
                            } else {
                                assert(4 * kk == base);
                                assert(4 * k + 3 < 4 * kk || 4 * k > 4 * kk + 3);
                                assert(out@[4 * k] == p[4 * k] || out@[4 * k] == color.r);
                            }
                        }
                        assert forall|ii: int, jj: int| #![trigger seg_point(segs@[ii], hi, jj)]
                            0 <= ii < i && 0 <= jj <= seg_steps(segs@[ii], hi) && on_canvas(
                                wi,
                                hi,
                                seg_point(segs@[ii], hi, jj).0,
                                seg_point(segs@[ii], hi, jj).1,
                            ) implies pixel_colored(
                            out@,
                            wi,
                            seg_point(segs@[ii], hi, jj).0,
                            seg_point(segs@[ii], hi, jj).1,
                            color,
                        ) by {
                            let (qx, qy) = seg_point(segs@[ii], hi, jj);
                            crate::math::lemma_rc_index(wi, hi, qx, qy);
                            if qy * wi + qx != kk {
                                crate::math::lemma_rc_injective(
                                    wi,
                                    qx,
                                    qy,
                                    xu as int,
                                    yu as int,
                                );
                            }
                        }
                        assert forall|jj: int| #![trigger seg_point(sg, hi, jj)]
                            0 <= jj < j + 1 && on_canvas(
                                wi,
                                hi,
                                seg_point(sg, hi, jj).0,
                                seg_point(sg, hi, jj).1,
                            ) implies pixel_colored(
                            out@,
                            wi,
                            seg_point(sg, hi, jj).0,
                            seg_point(sg, hi, jj).1,
                            color,
                        ) by {
                            let (qx, qy) = seg_point(sg, hi, jj);
                            crate::math::lemma_rc_index(wi, hi, qx, qy);
                            if jj != j && qy * wi + qx != kk {
                                crate::math::lemma_rc_injective(
                                    wi,
                                    qx,
                                    qy,
                                    xu as int,
                                    yu as int,
                                );
                            }
                        }
                    }
                } else {
                    proof {
                        assert forall|jj: int| #![trigger seg_point(sg, hi, jj)]
                            0 <= jj < j + 1 && on_canvas(
                                wi,
                                hi,
                                seg_point(sg, hi, jj).0,
                                seg_point(sg, hi, jj).1,
                            ) implies pixel_colored(
                            out@,
                            wi,
                            seg_point(sg, hi, jj).0,
                            seg_point(sg, hi, jj).1,
                            color,
                        ) by {
                            let (qx, qy) = seg_point(sg, hi, jj);
                            crate::math::lemma_rc_index(wi, hi, qx, qy);
                        }
                    }
                }
                j = j + 1;
            }
            proof {
                assert forall|ii: int, jj: int| #![trigger seg_point(segs@[ii], hi, jj)]
                    0 <= ii < i + 1 && 0 <= jj <= seg_steps(segs@[ii], hi) && on_canvas(
                        wi,
                        hi,
                        seg_point(segs@[ii], hi, jj).0,
                        seg_point(segs@[ii], hi, jj).1,
                    ) implies pixel_colored(
                    out@,
                    wi,
                    seg_point(segs@[ii], hi, jj).0,
                    seg_point(segs@[ii], hi, jj).1,
                    color,
                ) by {
                    if ii == i {
                        assert(segs@[ii] == sg);
                    }
                }
            }
            i = i + 1;
        }
        HandleRgbaComponents { width: self.width, height: self.height, pixels: out }
    }

    /// Draws the lines a filled scaled-axis accumulator holds onto a copy
    /// of this buffer, in red, using the absolute vote threshold: the
    /// segments of every qualifying bin, rasterized after the vertical
    /// flip back to image space.
    pub fn visualize_lines(&self, acc: &Accumulator, trig: &TrigTable, threshold: u32) -> (r: Self)
        requires
            self.well_formed(),
            acc.well_formed(),
            acc.theta_steps <= u32::MAX,
            acc.rho_steps <= u32::MAX,
            acc.rho_steps >= 2,
            trig.well_formed(),
            trig.cos_fp@.len() == acc.theta_steps,
        ensures
            r.well_formed(),
            r.width == self.width,
            r.height == self.height,
            forall|k: int| #![trigger r.pixels@[4 * k]]
                0 <= k < r.npix() ==> pixel_kept(self.pixels@, r.pixels@, k) || {
                    &&& r.pixels@[4 * k] == 255
                    &&& r.pixels@[4 * k + 1] == 0
                    &&& r.pixels@[4 * k + 2] == 0
                    &&& r.pixels@[4 * k + 3] == 255
                    &&& walk_covers(
                        visualize_segments(*self, *acc, *trig, threshold),
                        self.height as int,
                        k % (self.width as int),
                        k / (self.width as int),
                    )
                },
            forall|i: int, j: int|
                #![trigger seg_point(visualize_segments(*self, *acc, *trig, threshold)[i], self.height as int, j)]
                0 <= i < visualize_segments(*self, *acc, *trig, threshold).len() && 0 <= j
                    <= seg_steps(
                    visualize_segments(*self, *acc, *trig, threshold)[i],
                    self.height as int,
                ) && on_canvas(
                    self.width as int,
                    self.height as int,
                    seg_point(
                        visualize_segments(*self, *acc, *trig, threshold)[i],
                        self.height as int,
                        j,
                    ).0,
                    seg_point(
                        visualize_segments(*self, *acc, *trig, threshold)[i],
                        self.height as int,
                        j,
                    ).1,
                ) ==> pixel_colored(
                    r.pixels@,
                    self.width as int,
                    seg_point(
                        visualize_segments(*self, *acc, *trig, threshold)[i],
                        self.height as int,
                        j,
                    ).0,
                    seg_point(
                        visualize_segments(*self, *acc, *trig, threshold)[i],
                        self.height as int,
                        j,
                    ).1,
                    (Rgba { r: 255, g: 0, b: 0, a: 255 }),
                ),
    {
        let segs: Vec<Segment> = extract_lines(
            acc,
            trig,
            false,
            threshold,
            false,
            self.width,
            self.height,
        );
        proof {
            lemma_extract_in_box(
                acc.cells(),
                acc.rho_steps as int,
                trig.cos_fp@,
                trig.sin_fp@,
                crate::math::floor_sqrt(fp_diag2(self.width as int, self.height as int)),
                false,
                extract_threshold(acc.cells(), false, threshold as int),
                self.width as int,
                self.height as int,
                acc.cells().len() as int,
            );
        }
        self.render_segments(&segs, Rgba { r: 255, g: 0, b: 0, a: 255 })
    }
}

} // verus!
