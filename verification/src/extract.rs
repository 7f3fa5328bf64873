//! Line extraction: scanning a filled accumulator for bins at or above a
//! threshold, inverting the discretization back to a fixed-point (rho,
//! theta) pair, and clipping the infinite line to the image rectangle.
//!
//! A bin qualifies when it holds at least the threshold and at least one
//! vote, so a blank accumulator yields no lines under either threshold
//! rule. The relative rule (three quarters of the greatest bin) pairs with
//! the bounded-range accumulator; an absolute vote count pairs with the
//! scaled-axis one. Divisions by a vanishing trigonometric coefficient are
//! skipped rather than performed: a line parallel to an image edge simply
//! contributes no intersection on that axis.

use crate::hough::{cfg_of, dropped_upto, edges_upto, fp_diag2, rho_steps_of, theta_steps_of, votes_upto, Accumulator, HoughPolicy, TrigTable};
use crate::image_processing::HandleRgbaComponents;
use crate::math::{
    div_round_any, round_div, round_div_any, seq_max_upto, FP_ONE,
};
use vstd::prelude::*;

verus! {

/// A finite segment: two boundary points of the image rectangle, in the
/// coordinate convention of the accumulator the line came from.
#[derive(Clone, Copy, Debug, PartialEq, Eq, Structural)]
pub struct Segment {
    pub x1: i64,
    pub y1: i64,
    pub x2: i64,
    pub y2: i64,
}

/// Appends a point unless an identical one was already kept: a line
/// through a corner meets two edges in the same point, which counts once.
pub open spec fn add_unique(ps: Seq<(i64, i64)>, p: (i64, i64)) -> Seq<(i64, i64)> {
    if ps.contains(p) {
        ps
    } else {
        ps.push(p)
    }
}

/// The boundary intersections of the line `x cos + y sin = rho` with the
/// rectangle `[0, w] x [0, h]`, in fixed order — left edge, right edge,
/// bottom edge, top edge — deduplicated, each kept only when it lands on
/// the rectangle. All quantities are fixed-point except the resulting
/// pixel coordinates.
pub open spec fn boundary_points(rho: int, c: int, s: int, w: int, h: int) -> Seq<(i64, i64)> {
    let e = Seq::<(i64, i64)>::empty();
    let p1 = if s != 0 && 0 <= round_div_any(rho, s) <= h {
        add_unique(e, (0i64, round_div_any(rho, s) as i64))
    } else {
        e
    };
    let p2 = if s != 0 && 0 <= round_div_any(rho - w * c, s) <= h {
        add_unique(p1, (w as i64, round_div_any(rho - w * c, s) as i64))
    } else {
        p1
    };
    let p3 = if c != 0 && 0 <= round_div_any(rho, c) <= w {
        add_unique(p2, (round_div_any(rho, c) as i64, 0i64))
    } else {
        p2
    };
    let p4 = if c != 0 && 0 <= round_div_any(rho - h * s, c) <= w {
        add_unique(p3, (round_div_any(rho - h * s, c) as i64, h as i64))
    } else {
        p3
    };
    p4
}

/// The segment a line yields: its first two distinct boundary points, or
/// nothing when fewer than two survive (the tangential, degenerate case).
pub open spec fn segment_of(rho: int, c: int, s: int, w: int, h: int) -> Option<Segment> {
    let pts = boundary_points(rho, c, s, w, h);
    if pts.len() >= 2 {
        Some(Segment { x1: pts[0].0, y1: pts[0].1, x2: pts[1].0, y2: pts[1].1 })
    } else {
        None
    }
}

/// Fixed-point rho of rho bin `r`, inverting the discretization.
///
/// Bounded range inverts `round((rho + max_rho) * rho_steps / (2 max_rho))`
/// as `round(2 r max_rho / rho_steps) - max_rho`; scaled axis inverts
/// `round(rho * (rho_steps / 2) / max_rho) + rho_steps / 2` as
/// `round((r - rho_steps / 2) * max_rho / (rho_steps / 2))`.
pub open spec fn rho_of_bin(r: int, max_rho_fp: int, rho_steps: int, bounded: bool) -> int {
    if bounded {
        round_div(2 * r * max_rho_fp, rho_steps) - max_rho_fp
    } else {
        round_div((r - rho_steps / 2) * max_rho_fp, rho_steps / 2)
    }
}

/// The threshold a bin must reach: three quarters of the greatest bin
/// under the relative rule, the caller's count under the absolute rule.
pub open spec fn extract_threshold(
    cells: Seq<u32>,
    relative: bool,
    abs_threshold: int,
) -> int {
    if relative {
        3 * seq_max_upto(cells, cells.len() as int) / 4
    } else {
        abs_threshold
    }
}

/// Whether a bin's count qualifies it for extraction.
pub open spec fn bin_qualifies(votes: int, threshold: int) -> bool {
    votes >= threshold && votes >= 1
}

/// The segments the first `n` bins yield, in scan order of
/// `(theta_bin, rho_bin)`; adjacent bins holding the same line are kept
/// separate, never merged.
pub open spec fn extract_upto(
    cells: Seq<u32>,
    rho_steps: int,
    cos_fp: Seq<i64>,
    sin_fp: Seq<i64>,
    max_rho_fp: int,
    bounded: bool,
    threshold: int,
    w: int,
    h: int,
    n: int,
) -> Seq<Segment>
    decreases n,
{
    if n <= 0 {
        Seq::empty()
    } else {
        let prev = extract_upto(
            cells,
            rho_steps,
            cos_fp,
            sin_fp,
            max_rho_fp,
            bounded,
            threshold,
            w,
            h,
            n - 1,
        );
        let t = (n - 1) / rho_steps;
        let r = (n - 1) % rho_steps;
        if bin_qualifies(cells[n - 1] as int, threshold) {
            match segment_of(
                rho_of_bin(r, max_rho_fp, rho_steps, bounded),
                cos_fp[t] as int,
                sin_fp[t] as int,
                w,
                h,
            ) {
                Some(sg) => prev.push(sg),
                None => prev,
            }
        } else {
            prev
        }
    }
}

/// Appends the point unless an identical one is already held.
fn push_unique(pts: &mut Vec<(i64, i64)>, px: i64, py: i64)
    ensures
        final(pts)@ == add_unique(old(pts)@, (px, py)),
{
    let n: usize = pts.len();
    let mut i: usize = 0;
    while i < n
        invariant
            i <= n,
            n == pts@.len(),
            pts@ == old(pts)@,
            forall|j: int| 0 <= j < i ==> pts@[j] != (px, py),
        decreases n - i,
    {
        let (qx, qy): (i64, i64) = pts[i];
        if qx == px && qy == py {
            proof {
                assert(pts@[i as int] == (px, py));
                assert(pts@.contains((px, py)));
            }
            return ;
        }
        i = i + 1;
    }
    proof {
        assert(!pts@.contains((px, py)));
    }
    pts.push((px, py));
}

/// Clips the line `x c + y s = rho` (all fixed-point) to the rectangle
/// `[0, width] x [0, height]` and returns its segment, if the line meets
/// the boundary in two distinct points.
fn clip_line(rho: i128, c: i64, s: i64, width: u32, height: u32) -> (r: Option<Segment>)
    requires
        -0x1000000000000000000000 < rho < 0x1000000000000000000000,
        -FP_ONE <= c <= FP_ONE,
        -FP_ONE <= s <= FP_ONE,
    ensures
        r == segment_of(rho as int, c as int, s as int, width as int, height as int),
{
    let ghost rhoi: int = rho as int;
    let ghost ci: int = c as int;
    let ghost si: int = s as int;
    let ghost wg: int = width as int;
    let ghost hg: int = height as int;
    let wi: i128 = width as i128;
    let hi: i128 = height as i128;
    let mut pts: Vec<(i64, i64)> = Vec::new();
    if s != 0 {
        let y: i128 = div_round_any(rho, s as i128);
        if 0 <= y && y <= hi {
            push_unique(&mut pts, 0, y as i64);
        }
    }
    proof {
        assert(pts@ == (if si != 0 && 0 <= round_div_any(rhoi, si) <= hg {
            add_unique(Seq::<(i64, i64)>::empty(), (0i64, round_div_any(rhoi, si) as i64))
        } else {
            Seq::<(i64, i64)>::empty()
        }));
    }
    if s != 0 {
        proof {
            assert(-0x1_0000_0000_0000 <= wi * (c as i128) <= 0x1_0000_0000_0000)
                by (nonlinear_arith)
                requires
                    0 <= wi <= 0x1_0000_0000,
                    -0x1_0000 <= c as i128 <= 0x1_0000,
            ;
        }
        let y2: i128 = div_round_any(rho - wi * (c as i128), s as i128);
        if 0 <= y2 && y2 <= hi {
            push_unique(&mut pts, width as i64, y2 as i64);
        }
    }
    proof {
        let p1 = if si != 0 && 0 <= round_div_any(rhoi, si) <= hg {
            add_unique(Seq::<(i64, i64)>::empty(), (0i64, round_div_any(rhoi, si) as i64))
        } else {
            Seq::<(i64, i64)>::empty()
        };
        assert(pts@ == (if si != 0 && 0 <= round_div_any(rhoi - wg * ci, si) <= hg {
            add_unique(p1, (wg as i64, round_div_any(rhoi - wg * ci, si) as i64))
        } else {
            p1
        }));
    }
    if c != 0 {
        let x: i128 = div_round_any(rho, c as i128);
        if 0 <= x && x <= wi {
            push_unique(&mut pts, x as i64, 0);
        }
        proof {
            assert(-0x1_0000_0000_0000 <= hi * (s as i128) <= 0x1_0000_0000_0000)
                by (nonlinear_arith)
                requires
                    0 <= hi <= 0x1_0000_0000,
                    -0x1_0000 <= s as i128 <= 0x1_0000,
            ;
        }
        let x2: i128 = div_round_any(rho - hi * (s as i128), c as i128);
        if 0 <= x2 && x2 <= wi {
            push_unique(&mut pts, x2 as i64, height as i64);
        }
    }
    proof {
        assert(pts@ == boundary_points(rhoi, ci, si, wg, hg));
    }
    if pts.len() >= 2 {
        let (ax, ay): (i64, i64) = pts[0];
        let (bx, by): (i64, i64) = pts[1];
        Some(Segment { x1: ax, y1: ay, x2: bx, y2: by })
    } else {
        None
    }
}

/// Scans every bin of a filled accumulator and reconstructs a segment for
/// each one at or above the threshold, in scan order of
/// `(theta_bin, rho_bin)`.
///
/// `relative` selects the threshold rule: three quarters of the greatest
/// bin (the rule paired with the bounded-range accumulator), or the
/// caller's absolute vote count in `abs_threshold` (paired with the
/// scaled-axis accumulator). `bounded` names the discretization the
/// accumulator was built with, so its inversion matches. Bins with no
/// votes never qualify.
pub fn extract_lines(
    acc: &Accumulator,
    trig: &TrigTable,
    relative: bool,
    abs_threshold: u32,
    bounded: bool,
    width: u32,
    height: u32,
) -> (segs: Vec<Segment>)
    requires
        acc.well_formed(),
        acc.theta_steps <= u32::MAX,
        acc.rho_steps <= u32::MAX,
        trig.well_formed(),
        trig.cos_fp@.len() == acc.theta_steps,
        !bounded ==> acc.rho_steps >= 2,
    ensures
        segs@ == extract_upto(
            acc.cells(),
            acc.rho_steps as int,
            trig.cos_fp@,
            trig.sin_fp@,
            crate::math::floor_sqrt(crate::hough::fp_diag2(width as int, height as int)),
            bounded,
            extract_threshold(acc.cells(), relative, abs_threshold as int),
            width as int,
            height as int,
            acc.cells().len() as int,
        ),
        forall|i: int| #![trigger segs@[i]] 0 <= i < segs@.len() ==> segment_in_box(
            segs@[i],
            width as int,
            height as int,
        ),
{
    let tsteps: usize = acc.theta_steps;
    let rsteps: usize = acc.rho_steps;
    let thr64: u64 = if relative {
        let maxv: u32 = acc.max_vote();
        3 * (maxv as u64) / 4
    } else {
        abs_threshold as u64
    };
    let ghost thr: int = extract_threshold(acc.cells(), relative, abs_threshold as int);
    proof {
        assert(thr64 == thr);
    }
    let w128: u128 = width as u128;
    let h128: u128 = height as u128;
    proof {
        assert(w128 * w128 < 0x1_0000_0000_0000_0000) by (nonlinear_arith)
            requires
                w128 <= 0xFFFF_FFFF,
        ;
        assert(h128 * h128 < 0x1_0000_0000_0000_0000) by (nonlinear_arith)
            requires
                h128 <= 0xFFFF_FFFF,
        ;
    }
    let d2fp: u128 = w128 * w128 + h128 * h128;
    let fp2: u128 = d2fp * 0x1_0000_0000;
    let maxr: u64 = crate::math::isqrt(fp2);
    proof {
        crate::math::lemma_isqrt_is_floor_sqrt(fp2 as int, maxr as int);
        assert(fp2 == crate::hough::fp_diag2(width as int, height as int));
        assert((maxr as int) * (maxr as int) < 0x2_0000_0000_0000 * 0x2_0000_0000_0000);
        crate::math::lemma_square_lt(maxr as int, 0x2_0000_0000_0000);
        assert(maxr < 0x2_0000_0000_0000);
    }
    let ghost maxrg: int = maxr as int;
    let mut segs: Vec<Segment> = Vec::new();
    let mut t: usize = 0;
    while t < tsteps
        invariant
            t <= tsteps,
            tsteps == acc.theta_steps,
            rsteps == acc.rho_steps,
            rsteps <= u32::MAX,
            acc.well_formed(),
            trig.well_formed(),
            trig.cos_fp@.len() == tsteps,
            !bounded ==> rsteps >= 2,
            thr64 == thr,
            thr == extract_threshold(acc.cells(), relative, abs_threshold as int),
            maxrg == maxr,
            maxrg == crate::math::floor_sqrt(
                crate::hough::fp_diag2(width as int, height as int),
            ),
            maxr < 0x2_0000_0000_0000,
            segs@ == extract_upto(
                acc.cells(),
                rsteps as int,
                trig.cos_fp@,
                trig.sin_fp@,
                maxrg,
                bounded,
                thr,
                width as int,
                height as int,
                (t as int) * rsteps,
            ),
        decreases tsteps - t,
    {
        let mut r: usize = 0;
        while r < rsteps
            invariant
                t < tsteps,
                r <= rsteps,
                tsteps == acc.theta_steps,
                rsteps == acc.rho_steps,
                rsteps <= u32::MAX,
                acc.well_formed(),
                trig.well_formed(),
                trig.cos_fp@.len() == tsteps,
                !bounded ==> rsteps >= 2,
                thr64 == thr,
                thr == extract_threshold(acc.cells(), relative, abs_threshold as int),
                maxrg == maxr,
                maxrg == crate::math::floor_sqrt(
                    crate::hough::fp_diag2(width as int, height as int),
                ),
                maxr < 0x2_0000_0000_0000,
                segs@ == extract_upto(
                    acc.cells(),
                    rsteps as int,
                    trig.cos_fp@,
                    trig.sin_fp@,
                    maxrg,
                    bounded,
                    thr,
                    width as int,
                    height as int,
                    (t as int) * rsteps + r,
                ),
            decreases rsteps - r,
        {
            proof {
                crate::math::lemma_rc_index_sym(rsteps as int, tsteps as int, r as int, t as int);
                crate::math::lemma_div_mod_identity(t as int, r as int, rsteps as int);
            }
            let votes: u32 = acc.vote_at(t, r);
            if (votes as u64) >= thr64 && votes >= 1 {
                let rho: i128 = if bounded {
                    proof {
                        assert(0 <= 2 * (r as i128) * (maxr as i128)
                            < 0x1000000000000000000000) by (nonlinear_arith)
                            requires
                                0 <= r as i128 <= 0x1_0000_0000,
                                0 <= maxr as i128 <= 0x2_0000_0000_0000,
                        ;
                    }
                    let a: i128 = 2 * (r as i128) * (maxr as i128);
                    let q: i128 = crate::math::div_round(a, rsteps as i128);
                    proof {
                        crate::math::lemma_round_div_bound(a as int, rsteps as int);
                    }
                    q - (maxr as i128)
                } else {
                    let half: i128 = (rsteps / 2) as i128;
                    proof {
                        assert(-0x1000000000000000000000 < ((r as i128) - half) * (maxr as i128)
                            < 0x1000000000000000000000) by (nonlinear_arith)
                            requires
                                -0x1_0000_0000 <= (r as i128) - half <= 0x1_0000_0000,
                                0 <= maxr as i128 <= 0x2_0000_0000_0000,
                        ;
                    }
                    let a: i128 = ((r as i128) - half) * (maxr as i128);
                    let q: i128 = crate::math::div_round(a, half);
                    proof {
                        crate::math::lemma_round_div_bound(a as int, half as int);
                    }
                    q
                };
                proof {
                    assert(rho == rho_of_bin(r as int, maxrg, rsteps as int, bounded));
                }
                let c: i64 = trig.cos_fp[t];
                let s: i64 = trig.sin_fp[t];
                match clip_line(rho, c, s, width, height) {
                    Some(sg) => {
                        segs.push(sg);
                    },
                    None => {},
                }
            }
            proof {
                assert((t as int) * rsteps + r + 1 <= tsteps as int * rsteps);
            }
            r = r + 1;
        }
        proof {
            assert((t as int) * rsteps + rsteps == ((t as int) + 1) * rsteps)
                by (nonlinear_arith);
        }
        t = t + 1;
    }
    proof {
        assert((tsteps as int) * rsteps == acc.cells().len());
        lemma_extract_in_box(
            acc.cells(),
            rsteps as int,
            trig.cos_fp@,
            trig.sin_fp@,
            maxrg,
            bounded,
            thr,
            width as int,
            height as int,
            acc.cells().len() as int,
        );
    }
    segs
}

/// Every boundary point lies on the rectangle `[0, w] x [0, h]`.
proof fn lemma_boundary_points_bounds(rho: int, c: int, s: int, w: int, h: int)
    requires
        0 <= w <= u32::MAX,
        0 <= h <= u32::MAX,
    ensures
        forall|i: int| #![trigger boundary_points(rho, c, s, w, h)[i]]
            0 <= i < boundary_points(rho, c, s, w, h).len() ==> {
                &&& 0 <= boundary_points(rho, c, s, w, h)[i].0 <= w
                &&& 0 <= boundary_points(rho, c, s, w, h)[i].1 <= h
            },
{
    let e = Seq::<(i64, i64)>::empty();
    let p1 = if s != 0 && 0 <= round_div_any(rho, s) <= h {
        add_unique(e, (0i64, round_div_any(rho, s) as i64))
    } else {
        e
    };
    let p2 = if s != 0 && 0 <= round_div_any(rho - w * c, s) <= h {
        add_unique(p1, (w as i64, round_div_any(rho - w * c, s) as i64))
    } else {
        p1
    };
    let p3 = if c != 0 && 0 <= round_div_any(rho, c) <= w {
        add_unique(p2, (round_div_any(rho, c) as i64, 0i64))
    } else {
        p2
    };
    let p4 = if c != 0 && 0 <= round_div_any(rho - h * s, c) <= w {
        add_unique(p3, (round_div_any(rho - h * s, c) as i64, h as i64))
    } else {
        p3
    };
    assert(forall|i: int| #![trigger p1[i]] 0 <= i < p1.len() ==> 0 <= p1[i].0 <= w && 0
        <= p1[i].1 <= h);
    assert(forall|i: int| #![trigger p2[i]] 0 <= i < p2.len() ==> 0 <= p2[i].0 <= w && 0
        <= p2[i].1 <= h);
    assert(forall|i: int| #![trigger p3[i]] 0 <= i < p3.len() ==> 0 <= p3[i].0 <= w && 0
        <= p3[i].1 <= h);
    assert(forall|i: int| #![trigger p4[i]] 0 <= i < p4.len() ==> 0 <= p4[i].0 <= w && 0
        <= p4[i].1 <= h);
    assert(p4 == boundary_points(rho, c, s, w, h));
}

/// Whether both endpoints of a segment lie on the rectangle.
pub open spec fn segment_in_box(sg: Segment, w: int, h: int) -> bool {
    &&& 0 <= sg.x1 <= w
    &&& 0 <= sg.y1 <= h
    &&& 0 <= sg.x2 <= w
    &&& 0 <= sg.y2 <= h
}

/// Every segment a line yields lies on the rectangle.
pub proof fn lemma_segment_of_in_box(rho: int, c: int, s: int, w: int, h: int)
    requires
        0 <= w <= u32::MAX,
        0 <= h <= u32::MAX,
    ensures
        segment_of(rho, c, s, w, h) matches Some(sg) ==> segment_in_box(sg, w, h),
{
    lemma_boundary_points_bounds(rho, c, s, w, h);
}

/// Law: extraction never returns a segment whose endpoints lie outside
/// `[0, width] x [0, height]` — in particular, never one with both
/// endpoints strictly outside the rectangle.
pub proof fn lemma_extract_in_box(
    cells: Seq<u32>,
    rho_steps: int,
    cos_fp: Seq<i64>,
    sin_fp: Seq<i64>,
    max_rho_fp: int,
    bounded: bool,
    threshold: int,
    w: int,
    h: int,
    n: int,
)
    requires
        0 <= w <= u32::MAX,
        0 <= h <= u32::MAX,
    ensures
        forall|i: int|
            #![trigger extract_upto(cells, rho_steps, cos_fp, sin_fp, max_rho_fp, bounded, threshold, w, h, n)[i]]
            0 <= i < extract_upto(
                cells,
                rho_steps,
                cos_fp,
                sin_fp,
                max_rho_fp,
                bounded,
                threshold,
                w,
                h,
                n,
            ).len() ==> segment_in_box(
                extract_upto(
                    cells,
                    rho_steps,
                    cos_fp,
                    sin_fp,
                    max_rho_fp,
                    bounded,
                    threshold,
                    w,
                    h,
                    n,
                )[i],
                w,
                h,
            ),
    decreases n,
{
    if n > 0 {
        lemma_extract_in_box(
            cells,
            rho_steps,
            cos_fp,
            sin_fp,
            max_rho_fp,
            bounded,
            threshold,
            w,
            h,
            n - 1,
        );
        let t = (n - 1) / rho_steps;
        let r = (n - 1) % rho_steps;
        lemma_segment_of_in_box(
            rho_of_bin(r, max_rho_fp, rho_steps, bounded),
            cos_fp[t] as int,
            sin_fp[t] as int,
            w,
            h,
        );
        let prev = extract_upto(
            cells,
            rho_steps,
            cos_fp,
            sin_fp,
            max_rho_fp,
            bounded,
            threshold,
            w,
            h,
            n - 1,
        );
        let cur = extract_upto(
            cells,
            rho_steps,
            cos_fp,
            sin_fp,
            max_rho_fp,
            bounded,
            threshold,
            w,
            h,
            n,
        );
        assert forall|i: int| #![trigger cur[i]] 0 <= i < cur.len() implies segment_in_box(
            cur[i],
            w,
            h,
        ) by {
            if i < prev.len() {
                assert(segment_in_box(prev[i], w, h));
                assert(cur[i] == prev[i]);
            }
        }
    }
}

impl HandleRgbaComponents {
    /// The bounded-range pass in one call: fills the accumulator from this
    /// buffer and extracts the segments of every bin at or above three
    /// quarters of the peak, returning both.
    pub fn hough_lines(&self, policy: HoughPolicy, trig: &TrigTable) -> (r: (
        Accumulator,
        Vec<Segment>,
    ))
        requires
            policy is BoundedRange,
            self.well_formed(),
            self.npix() <= u32::MAX,
            trig.well_formed(),
            trig.cos_fp@.len() == theta_steps_of(policy),
            1 <= theta_steps_of(policy) <= u32::MAX,
            1 <= rho_steps_of(policy, self.width as int, self.height as int) <= u32::MAX,
            theta_steps_of(policy) * rho_steps_of(policy, self.width as int, self.height as int)
                <= usize::MAX,
        ensures
            r.0.well_formed(),
            r.0.theta_steps == theta_steps_of(policy),
            r.0.rho_steps == rho_steps_of(policy, self.width as int, self.height as int),
            forall|t: int, rr: int| #![trigger r.0.vote_at_spec(t, rr)]
                0 <= t < r.0.theta_steps && 0 <= rr < r.0.rho_steps ==> r.0.vote_at_spec(t, rr)
                    == votes_upto(cfg_of(*self, policy, *trig), self.pixels@, self.npix(), t, rr),
            r.0.dropped == dropped_upto(cfg_of(*self, policy, *trig), self.pixels@, self.npix()),
            r.1@ == extract_upto(
                r.0.cells(),
                r.0.rho_steps as int,
                trig.cos_fp@,
                trig.sin_fp@,
                crate::math::floor_sqrt(fp_diag2(self.width as int, self.height as int)),
                true,
                extract_threshold(r.0.cells(), true, 0),
                self.width as int,
                self.height as int,
                r.0.cells().len() as int,
            ),
            forall|i: int| #![trigger r.1@[i]] 0 <= i < r.1@.len() ==> segment_in_box(
                r.1@[i],
                self.width as int,
                self.height as int,
            ),
    {
        let acc = self.hough_vote(policy, trig);
        let segs = extract_lines(&acc, trig, true, 0, true, self.width, self.height);
        proof {
            lemma_extract_in_box(
                acc.cells(),
                acc.rho_steps as int,
                trig.cos_fp@,
                trig.sin_fp@,
                crate::math::floor_sqrt(fp_diag2(self.width as int, self.height as int)),
                true,
                extract_threshold(acc.cells(), true, 0),
                self.width as int,
                self.height as int,
                acc.cells().len() as int,
            );
        }
        (acc, segs)
    }
}

} // verus!
