//! The Hough transform: discretized (theta, rho) voting over edge pixels,
//! under either of the two discretization policies the pipeline supports.
//!
//! All geometry is fixed-point: angles enter as a caller-supplied table of
//! cosine and sine samples scaled by `FP_ONE`, one pair per theta bin, and
//! distances are integers scaled by `FP_ONE`. Every vote, and every vote
//! dropped for falling outside the rho axis, is accounted for exactly.

use crate::accum::{acc_cells, acc_get, acc_rows, acc_set, acc_zeros, VoteMatrix};
use crate::image_processing::HandleRgbaComponents;
use crate::math::{
    ceil_sqrt, ceil_sqrt_spec, div_round, floor_sqrt, isqrt, lemma_isqrt_is_floor_sqrt,
    lemma_seq_sum_update, lemma_seq_sum_zero, round_div, seq_sum, FP_ONE,
};
use vstd::prelude::*;

verus! {

/// Fixed-point cosine and sine samples, one pair per theta bin. Entry `t`
/// is meant to hold `cos` and `sin` of the bin's angle, scaled by `FP_ONE`
/// and rounded; the voting pass is exact over whatever samples the caller
/// supplies, and only needs them bounded by `FP_ONE` in magnitude.
pub struct TrigTable {
    pub cos_fp: Vec<i64>,
    pub sin_fp: Vec<i64>,
}

impl TrigTable {
    /// Both columns have one entry per bin, each within `[-FP_ONE, FP_ONE]`.
    pub open spec fn well_formed(self) -> bool {
        &&& self.cos_fp@.len() == self.sin_fp@.len()
        &&& forall|t: int| 0 <= t < self.cos_fp@.len() ==> -FP_ONE <= #[trigger] self.cos_fp@[t]
            <= FP_ONE
        &&& forall|t: int| 0 <= t < self.sin_fp@.len() ==> -FP_ONE <= #[trigger] self.sin_fp@[t]
            <= FP_ONE
    }

    /// Validates caller-supplied samples once; every later stage relies on
    /// the bounds checked here.
    pub fn new(cos_fp: Vec<i64>, sin_fp: Vec<i64>) -> (r: Option<TrigTable>)
        ensures
            match r {
                Some(t) => {
                    &&& t.cos_fp@ == cos_fp@
                    &&& t.sin_fp@ == sin_fp@
                    &&& t.well_formed()
                },
                None => !(TrigTable { cos_fp, sin_fp }).well_formed(),
            },
    {
        if cos_fp.len() != sin_fp.len() {
            return None;
        }
        let n: usize = cos_fp.len();
        let mut t: usize = 0;
        while t < n
            invariant
                t <= n,
                n == cos_fp@.len(),
                n == sin_fp@.len(),
                forall|j: int| 0 <= j < t ==> -FP_ONE <= #[trigger] cos_fp@[j] <= FP_ONE,
                forall|j: int| 0 <= j < t ==> -FP_ONE <= #[trigger] sin_fp@[j] <= FP_ONE,
            decreases n - t,
        {
            let c: i64 = cos_fp[t];
            let s: i64 = sin_fp[t];
            if c < -FP_ONE || c > FP_ONE || s < -FP_ONE || s > FP_ONE {
                return None;
            }
            t = t + 1;
        }
        Some(TrigTable { cos_fp, sin_fp })
    }

    /// Number of theta bins the table covers.
    pub fn len(&self) -> (n: usize)
        ensures
            n == self.cos_fp@.len(),
    {
        self.cos_fp.len()
    }
}

/// The two discretization policies.
///
/// `BoundedRange` takes the bin counts directly; a pixel is an edge pixel
/// when its grey value lies strictly below `edge_threshold`, coordinates
/// keep the top-left origin, and votes whose rho bin falls outside the axis
/// are dropped (and counted).
///
/// `ScaledAxis` derives the bin counts from scale factors: `theta_scale`
/// bins per degree over the half circle, and `rho_scale` bins per pixel of
/// image diagonal. A pixel is an edge pixel when its grey value is 0 (below
/// 1), and the vertical coordinate is flipped to a bottom-left origin
/// before voting. Writing a vote without a bounds check would be unsound,
/// so an out-of-range vote is dropped and counted here, exactly as under
/// `BoundedRange`.
#[derive(Clone, Copy, PartialEq, Eq, Structural)]
pub enum HoughPolicy {
    BoundedRange { theta_steps: u32, rho_steps: u32, edge_threshold: u8 },
    ScaledAxis { theta_scale: u32, rho_scale: u32 },
}

/// Everything the vote of one (pixel, theta bin) pair depends on.
pub struct VoteCfg {
    pub w: int,
    pub h: int,
    pub thr: int,
    pub flip: bool,
    pub cos_fp: Seq<i64>,
    pub sin_fp: Seq<i64>,
    pub max_rho_fp: int,
    pub theta_steps: int,
    pub rho_steps: int,
    pub bounded: bool,
}

/// Squared image diagonal, scaled by `FP_ONE` twice: the radicand of the
/// fixed-point `max_rho`.
pub open spec fn fp_diag2(w: int, h: int) -> int {
    (w * w + h * h) * FP_ONE * FP_ONE
}

/// Number of theta bins a policy discretizes the half circle into.
pub open spec fn theta_steps_of(policy: HoughPolicy) -> int {
    match policy {
        HoughPolicy::BoundedRange { theta_steps, .. } => theta_steps as int,
        HoughPolicy::ScaledAxis { theta_scale, .. } => theta_scale * 180,
    }
}

/// Number of rho bins a policy discretizes the rho axis into.
pub open spec fn rho_steps_of(policy: HoughPolicy, w: int, h: int) -> int {
    match policy {
        HoughPolicy::BoundedRange { rho_steps, .. } => rho_steps as int,
        HoughPolicy::ScaledAxis { rho_scale, .. } => ceil_sqrt_spec(w * w + h * h) * rho_scale,
    }
}

/// Edge threshold a policy compares grey values against.
pub open spec fn edge_threshold_of(policy: HoughPolicy) -> int {
    match policy {
        HoughPolicy::BoundedRange { edge_threshold, .. } => edge_threshold as int,
        HoughPolicy::ScaledAxis { .. } => 1,
    }
}

/// The full vote configuration a buffer, policy and table give rise to.
pub open spec fn cfg_of(b: HandleRgbaComponents, policy: HoughPolicy, trig: TrigTable) -> VoteCfg {
    VoteCfg {
        w: b.width as int,
        h: b.height as int,
        thr: edge_threshold_of(policy),
        flip: !(policy is BoundedRange),
        cos_fp: trig.cos_fp@,
        sin_fp: trig.sin_fp@,
        max_rho_fp: floor_sqrt(fp_diag2(b.width as int, b.height as int)),
        theta_steps: theta_steps_of(policy),
        rho_steps: rho_steps_of(policy, b.width as int, b.height as int),
        bounded: policy is BoundedRange,
    }
}

/// Horizontal coordinate of pixel `k` in row-major order.
pub open spec fn px_x(cfg: VoteCfg, k: int) -> int {
    k % cfg.w
}

/// Vertical coordinate pixel `k` votes with: flipped to a bottom-left
/// origin when the policy asks for it.
pub open spec fn px_y(cfg: VoteCfg, k: int) -> int {
    if cfg.flip {
        cfg.h - 1 - k / cfg.w
    } else {
        k / cfg.w
    }
}

/// Whether pixel `k` of greyscale buffer `p` is an edge pixel: its grey
/// value lies strictly below the policy's threshold.
pub open spec fn edge_at(cfg: VoteCfg, p: Seq<u8>, k: int) -> bool {
    (p[4 * k] as int) < cfg.thr
}

/// Fixed-point rho of pixel `k` at theta bin `t`:
/// `x * cos(theta) + y * sin(theta)`, all scaled by `FP_ONE`.
pub open spec fn rho_fp_at(cfg: VoteCfg, k: int, t: int) -> int {
    px_x(cfg, k) * cfg.cos_fp[t] + px_y(cfg, k) * cfg.sin_fp[t]
}

/// The rho bin pixel `k` votes for at theta bin `t`.
///
/// Bounded range: `round((rho + max_rho) * rho_steps / (2 * max_rho))`.
/// Scaled axis: `round(rho * (rho_steps / 2) / max_rho) + rho_steps / 2`,
/// with `rho_steps / 2` taken as integer division.
pub open spec fn bin_at(cfg: VoteCfg, k: int, t: int) -> int {
    if cfg.bounded {
        round_div((rho_fp_at(cfg, k, t) + cfg.max_rho_fp) * cfg.rho_steps, 2 * cfg.max_rho_fp)
    } else {
        round_div(rho_fp_at(cfg, k, t) * (cfg.rho_steps / 2), cfg.max_rho_fp) + cfg.rho_steps / 2
    }
}

/// Whether a rho bin lies on the axis.
pub open spec fn bin_in_range(cfg: VoteCfg, b: int) -> bool {
    0 <= b < cfg.rho_steps
}

/// Votes bin `(t, r)` holds once the first `k` pixels have voted.
pub open spec fn votes_upto(cfg: VoteCfg, p: Seq<u8>, k: int, t: int, r: int) -> int
    decreases k,
{
    if k <= 0 {
        0
    } else {
        votes_upto(cfg, p, k - 1, t, r) + if edge_at(cfg, p, k - 1) && bin_at(cfg, k - 1, t) == r {
            1int
        } else {
            0int
        }
    }
}

/// Votes pixel `k` has dropped over its first `t` theta bins.
pub open spec fn dropped_px(cfg: VoteCfg, p: Seq<u8>, k: int, t: int) -> int
    decreases t,
{
    if t <= 0 {
        0
    } else {
        dropped_px(cfg, p, k, t - 1) + if edge_at(cfg, p, k) && !bin_in_range(
            cfg,
            bin_at(cfg, k, t - 1),
        ) {
            1int
        } else {
            0int
        }
    }
}

/// Votes dropped once the first `k` pixels have voted.
pub open spec fn dropped_upto(cfg: VoteCfg, p: Seq<u8>, k: int) -> int
    decreases k,
{
    if k <= 0 {
        0
    } else {
        dropped_upto(cfg, p, k - 1) + dropped_px(cfg, p, k - 1, cfg.theta_steps)
    }
}

/// Edge pixels among the first `k` pixels.
pub open spec fn edges_upto(cfg: VoteCfg, p: Seq<u8>, k: int) -> int
    decreases k,
{
    if k <= 0 {
        0
    } else {
        edges_upto(cfg, p, k - 1) + if edge_at(cfg, p, k - 1) {
            1int
        } else {
            0int
        }
    }
}

pub proof fn lemma_edges_upto_le(cfg: VoteCfg, p: Seq<u8>, k: int)
    requires
        k >= 0,
    ensures
        0 <= edges_upto(cfg, p, k) <= k,
    decreases k,
{
    if k > 0 {
        lemma_edges_upto_le(cfg, p, k - 1);
    }
}

pub proof fn lemma_votes_le_edges(cfg: VoteCfg, p: Seq<u8>, k: int, t: int, r: int)
    requires
        k >= 0,
    ensures
        0 <= votes_upto(cfg, p, k, t, r) <= edges_upto(cfg, p, k),
    decreases k,
{
    if k > 0 {
        lemma_votes_le_edges(cfg, p, k - 1, t, r);
    }
}

pub proof fn lemma_dropped_px_le(cfg: VoteCfg, p: Seq<u8>, k: int, t: int)
    requires
        t >= 0,
    ensures
        0 <= dropped_px(cfg, p, k, t) <= t,
    decreases t,
{
    if t > 0 {
        lemma_dropped_px_le(cfg, p, k, t - 1);
    }
}

pub proof fn lemma_dropped_px_nonedge(cfg: VoteCfg, p: Seq<u8>, k: int, t: int)
    requires
        !edge_at(cfg, p, k),
    ensures
        dropped_px(cfg, p, k, t) == 0,
    decreases t,
{
    if t > 0 {
        lemma_dropped_px_nonedge(cfg, p, k, t - 1);
    }
}

pub proof fn lemma_dropped_upto_le(cfg: VoteCfg, p: Seq<u8>, k: int)
    requires
        k >= 0,
        cfg.theta_steps >= 0,
    ensures
        0 <= dropped_upto(cfg, p, k) <= k * cfg.theta_steps,
    decreases k,
{
    if k > 0 {
        lemma_dropped_upto_le(cfg, p, k - 1);
        lemma_dropped_px_le(cfg, p, k - 1, cfg.theta_steps);
        assert((k - 1) * cfg.theta_steps + cfg.theta_steps == k * cfg.theta_steps)
            by (nonlinear_arith);
    }
}

/// A filled vote accumulator: the matrix, its shape, and the count of votes
/// dropped for falling outside the rho axis.
pub struct Accumulator {
    pub mat: VoteMatrix,
    pub theta_steps: usize,
    pub rho_steps: usize,
    pub dropped: u64,
}

impl Accumulator {
    /// The vote counts, row-major: theta bin `t`, rho bin `r` stands at
    /// `t * rho_steps + r`.
    pub open spec fn cells(self) -> Seq<u32> {
        acc_cells(self.mat)
    }

    pub open spec fn well_formed(self) -> bool {
        &&& acc_rows(self.mat) == self.theta_steps
        &&& self.cells().len() == self.theta_steps * self.rho_steps
        &&& 1 <= self.theta_steps
        &&& 1 <= self.rho_steps
    }

    pub open spec fn vote_at_spec(self, t: int, r: int) -> u32 {
        self.cells()[t * self.rho_steps + r]
    }

    /// The votes held by one bin.
    pub fn vote_at(&self, t: usize, r: usize) -> (v: u32)
        requires
            self.well_formed(),
            t < self.theta_steps,
            r < self.rho_steps,
        ensures
            v == self.vote_at_spec(t as int, r as int),
    {
        acc_get(&self.mat, t, r, self.rho_steps)
    }

    /// The greatest vote count over all bins.
    pub fn max_vote(&self) -> (m: u32)
        requires
            self.well_formed(),
        ensures
            m == crate::math::seq_max_upto(self.cells(), self.cells().len() as int),
            forall|t: int, r: int|
                0 <= t < self.theta_steps && 0 <= r < self.rho_steps
                    ==> #[trigger] self.vote_at_spec(t, r) <= m,
            exists|t: int, r: int|
                0 <= t < self.theta_steps && 0 <= r < self.rho_steps
                    && #[trigger] self.vote_at_spec(t, r) == m,
    {
        let mut m: u32 = acc_get(&self.mat, 0, 0, self.rho_steps);
        proof {
            assert(self.vote_at_spec(0, 0) == m);
            assert(m == crate::math::seq_max_upto(self.cells(), 1));
        }
        let mut t: usize = 0;
        while t < self.theta_steps
            invariant
                self.well_formed(),
                t <= self.theta_steps,
                forall|tp: int, rp: int|
                    0 <= tp < t && 0 <= rp < self.rho_steps
                        ==> #[trigger] self.vote_at_spec(tp, rp) <= m,
                exists|tp: int, rp: int|
                    0 <= tp < self.theta_steps && 0 <= rp < self.rho_steps
                        && #[trigger] self.vote_at_spec(tp, rp) == m,
                m == crate::math::seq_max_upto(
                    self.cells(),
                    if t == 0 { 1int } else { (t as int) * self.rho_steps },
                ),
            decreases self.theta_steps - t,
        {
            let mut r: usize = 0;
            while r < self.rho_steps
                invariant
                    self.well_formed(),
                    t < self.theta_steps,
                    r <= self.rho_steps,
                    forall|tp: int, rp: int|
                        0 <= tp < t && 0 <= rp < self.rho_steps
                            ==> #[trigger] self.vote_at_spec(tp, rp) <= m,
                    forall|rp: int|
                        0 <= rp < r ==> #[trigger] self.vote_at_spec(t as int, rp) <= m,
                    exists|tp: int, rp: int|
                        0 <= tp < self.theta_steps && 0 <= rp < self.rho_steps
                            && #[trigger] self.vote_at_spec(tp, rp) == m,
                    m == crate::math::seq_max_upto(
                        self.cells(),
                        if t == 0 && r == 0 { 1int } else { (t as int) * self.rho_steps + r },
                    ),
                decreases self.rho_steps - r,
            {
                proof {
                    crate::math::lemma_rc_index_sym(
                        self.rho_steps as int,
                        self.theta_steps as int,
                        r as int,
                        t as int,
                    );
                }
                let v: u32 = acc_get(&self.mat, t, r, self.rho_steps);
                if v > m {
                    m = v;
                    proof {
                        assert(self.vote_at_spec(t as int, r as int) == m);
                    }
                }
                r = r + 1;
            }
            proof {
                assert((t as int) * self.rho_steps + self.rho_steps == ((t as int) + 1)
                    * self.rho_steps) by (nonlinear_arith);
            }
            t = t + 1;
        }
        m
    }
}

impl HandleRgbaComponents {
    /// Fills a Hough accumulator from this greyscale buffer.
    ///
    /// Every edge pixel casts one vote per theta bin; the vote lands in the
    /// rho bin the policy's discretization maps it to, or is dropped (and
    /// counted in `dropped`) when that bin falls outside the axis. The
    /// result states each bin's count exactly, so the total over all bins
    /// plus the dropped votes equals `edge pixels x theta bins`.
    pub fn hough_vote(&self, policy: HoughPolicy, trig: &TrigTable) -> (acc: Accumulator)
        requires
            self.well_formed(),
            self.npix() <= u32::MAX,
            trig.well_formed(),
            trig.cos_fp@.len() == theta_steps_of(policy),
            1 <= theta_steps_of(policy) <= u32::MAX,
            1 <= rho_steps_of(policy, self.width as int, self.height as int) <= u32::MAX,
            theta_steps_of(policy) * rho_steps_of(policy, self.width as int, self.height as int)
                <= usize::MAX,
        ensures
            acc.well_formed(),
            acc.theta_steps == theta_steps_of(policy),
            acc.rho_steps == rho_steps_of(policy, self.width as int, self.height as int),
            forall|t: int, r: int| #![trigger acc.vote_at_spec(t, r)]
                0 <= t < acc.theta_steps && 0 <= r < acc.rho_steps ==> acc.vote_at_spec(t, r)
                    == votes_upto(cfg_of(*self, policy, *trig), self.pixels@, self.npix(), t, r),
            acc.dropped == dropped_upto(cfg_of(*self, policy, *trig), self.pixels@, self.npix()),
            seq_sum(acc.cells()) + acc.dropped == edges_upto(
                cfg_of(*self, policy, *trig),
                self.pixels@,
                self.npix(),
            ) * theta_steps_of(policy),
    {
        let w: usize = self.width as usize;
        let h: usize = self.height as usize;
        let n: usize = self.pixels.len() / 4;
        proof {
            assert(n == w * h);
        }
        let (tsteps, rsteps, thr, flip, bounded): (usize, usize, u8, bool, bool) = match policy {
            HoughPolicy::BoundedRange { theta_steps, rho_steps, edge_threshold } => (
                theta_steps as usize,
                rho_steps as usize,
                edge_threshold,
                false,
                true,
            ),
            HoughPolicy::ScaledAxis { theta_scale, rho_scale } => {
                let ts64: u64 = (theta_scale as u64) * 180;
                let w128: u128 = w as u128;
                let h128: u128 = h as u128;
                proof {
                    assert(w128 * w128 + h128 * h128 < 0x2_0000_0000_0000_0000) by (nonlinear_arith)
                        requires
                            w128 <= 0xFFFF_FFFF,
                            h128 <= 0xFFFF_FFFF,
                    ;
                }
                let d2: u128 = w128 * w128 + h128 * h128;
                let ch: u64 = ceil_sqrt(d2);
                let r128: u128 = (ch as u128) * (rho_scale as u128);
                proof {
                    assert(r128 == rho_steps_of(policy, self.width as int, self.height as int));
                }
                (ts64 as usize, r128 as usize, 1, true, false)
            },
        };
        proof {
            assert(tsteps == theta_steps_of(policy));
            assert(rsteps == rho_steps_of(policy, self.width as int, self.height as int));
            assert(thr == edge_threshold_of(policy));
        }
        let w128: u128 = w as u128;
        let h128: u128 = h as u128;
        proof {
            assert(w128 * w128 < 0x1_0000_0000_0000_0000) by (nonlinear_arith)
                requires
                    w128 <= 0xFFFF_FFFF,
            ;
            assert(h128 * h128 < 0x1_0000_0000_0000_0000) by (nonlinear_arith)
                requires
                    h128 <= 0xFFFF_FFFF,
            ;
        }
        let d2fp: u128 = w128 * w128 + h128 * h128;
        let fp2: u128 = d2fp * 0x1_0000_0000;
        let maxr: u64 = isqrt(fp2);
        proof {
            lemma_isqrt_is_floor_sqrt(fp2 as int, maxr as int);
            assert((w128 * w128) as int == (w as int) * (w as int));
            assert((h128 * h128) as int == (h as int) * (h as int));
            assert(fp_diag2(w as int, h as int) == ((w as int) * (w as int) + (h as int) * (h
                as int)) * 65536 * 65536);
            assert(fp2 as int == (d2fp as int) * 0x1_0000_0000);
            assert(fp2 == fp_diag2(w as int, h as int));
            assert(fp2 < 0x20000000000000000000000000);
            assert((maxr as int) * (maxr as int) < 0x2_0000_0000_0000 * 0x2_0000_0000_0000);
            crate::math::lemma_square_lt(maxr as int, 0x2_0000_0000_0000);
            assert(maxr < 0x2_0000_0000_0000);
            if n > 0 {
                assert(w >= 1 && h >= 1) by (nonlinear_arith)
                    requires
                        n == w * h,
                        n > 0,
                ;
                assert(w128 * w128 >= 1) by (nonlinear_arith)
                    requires
                        w128 >= 1,
                ;
                assert(fp2 >= 0x1_0000_0000);
                assert(maxr >= 1) by (nonlinear_arith)
                    requires
                        (fp2 as int) < ((maxr as int) + 1) * ((maxr as int) + 1),
                        fp2 >= 0x1_0000_0000,
                ;
            }
        }
        let mut mat: VoteMatrix = acc_zeros(tsteps, rsteps);
        let mut dropped: u64 = 0;
        let ghost cfg: VoteCfg = cfg_of(*self, policy, *trig);
        let ghost p: Seq<u8> = self.pixels@;
        proof {
            lemma_seq_sum_zero(acc_cells(mat));
            assert(cfg.theta_steps == tsteps);
            assert(cfg.rho_steps == rsteps);
            assert(cfg.max_rho_fp == maxr);
        }
        proof {
            assert forall|tp: int, rp: int| #![trigger acc_cells(mat)[tp * rsteps + rp]]
                0 <= tp < tsteps && 0 <= rp < rsteps implies acc_cells(mat)[tp * rsteps + rp]
                == votes_upto(cfg, p, 0, tp, rp) by {
                crate::math::lemma_rc_index_sym(rsteps as int, tsteps as int, rp, tp);
                assert(0 <= tp * rsteps + rp < tsteps * rsteps) by (nonlinear_arith)
                    requires
                        0 <= tp < tsteps,
                        0 <= rp < rsteps,
                ;
                assert(acc_cells(mat)[tp * rsteps + rp] == 0);
            }
        }
        let mut k: usize = 0;
        while k < n
            invariant
                k <= n,
                n == w * h,
                n <= u32::MAX,
                n <= usize::MAX / 4,
                p.len() == 4 * n,
                p == self.pixels@,
                w == self.width,
                h == self.height,
                w <= u32::MAX,
                h <= u32::MAX,
                cfg == cfg_of(*self, policy, *trig),
                cfg.w == w,
                cfg.h == h,
                cfg.thr == thr,
                cfg.flip == flip,
                cfg.bounded == bounded,
                cfg.cos_fp == trig.cos_fp@,
                cfg.sin_fp == trig.sin_fp@,
                trig.well_formed(),
                trig.cos_fp@.len() == tsteps,
                cfg.theta_steps == tsteps,
                cfg.rho_steps == rsteps,
                cfg.max_rho_fp == maxr,
                1 <= tsteps <= u32::MAX,
                1 <= rsteps <= u32::MAX,
                tsteps * rsteps <= usize::MAX,
                maxr < 0x2_0000_0000_0000,
                n > 0 ==> maxr >= 1,
                acc_rows(mat) == tsteps,
                acc_cells(mat).len() == tsteps * rsteps,
                forall|tp: int, rp: int| #![trigger acc_cells(mat)[tp * rsteps + rp]]
                    0 <= tp < tsteps && 0 <= rp < rsteps ==> acc_cells(mat)[tp * rsteps + rp]
                        == votes_upto(cfg, p, k as int, tp, rp),
                dropped == dropped_upto(cfg, p, k as int),
                seq_sum(acc_cells(mat)) + dropped == edges_upto(cfg, p, k as int) * tsteps,
            decreases n - k,
        {
            let gval: u8 = self.pixels[4 * k];
            if gval < thr {
                proof {
                    assert(edge_at(cfg, p, k as int));
                    assert(w >= 1 && h >= 1) by (nonlinear_arith)
                        requires
                            n == w * h,
                            k < n,
                    ;
                }
                let x: usize = k % w;
                let y0: usize = k / w;
                proof {
                    assert(y0 < h) by (nonlinear_arith)
                        requires
                            n == w * h,
                            k < n,
                            w >= 1,
                            y0 == k / w,
                            x == k % w,
                    ;
                }
                let ycart: usize = if flip {
                    h - 1 - y0
                } else {
                    y0
                };
                let xi: i64 = x as i64;
                let yi: i64 = ycart as i64;
                proof {
                    assert(xi == px_x(cfg, k as int));
                    assert(yi == px_y(cfg, k as int));
                }
                let mut t: usize = 0;
                while t < tsteps
                    invariant
                        t <= tsteps,
                        k < n,
                        n == w * h,
                        n <= u32::MAX,
                        n <= usize::MAX / 4,
                        p.len() == 4 * n,
                        p == self.pixels@,
                        w == self.width,
                        h == self.height,
                        w <= u32::MAX,
                        h <= u32::MAX,
                        cfg == cfg_of(*self, policy, *trig),
                        cfg.w == w,
                        cfg.h == h,
                        cfg.thr == thr,
                        cfg.flip == flip,
                        cfg.bounded == bounded,
                        cfg.cos_fp == trig.cos_fp@,
                        cfg.sin_fp == trig.sin_fp@,
                        trig.well_formed(),
                        trig.cos_fp@.len() == tsteps,
                        cfg.theta_steps == tsteps,
                        cfg.rho_steps == rsteps,
                        cfg.max_rho_fp == maxr,
                        1 <= tsteps <= u32::MAX,
                        1 <= rsteps <= u32::MAX,
                        tsteps * rsteps <= usize::MAX,
                        maxr < 0x2_0000_0000_0000,
                        maxr >= 1,
                        edge_at(cfg, p, k as int),
                        0 <= xi <= u32::MAX,
                        0 <= yi <= u32::MAX,
                        xi == px_x(cfg, k as int),
                        yi == px_y(cfg, k as int),
                        acc_rows(mat) == tsteps,
                        acc_cells(mat).len() == tsteps * rsteps,
                        forall|tp: int, rp: int| #![trigger acc_cells(mat)[tp * rsteps + rp]]
                            0 <= tp < tsteps && 0 <= rp < rsteps ==> acc_cells(mat)[tp * rsteps
                                + rp] == votes_upto(cfg, p, k as int, tp, rp) + (if tp < t
                                && bin_at(cfg, k as int, tp) == rp {
                                1int
                            } else {
                                0int
                            }),
                        dropped == dropped_upto(cfg, p, k as int) + dropped_px(
                            cfg,
                            p,
                            k as int,
                            t as int,
                        ),
                        seq_sum(acc_cells(mat)) + dropped == edges_upto(cfg, p, k as int) * tsteps
                            + t,
                    decreases tsteps - t,
                {
                    let c: i64 = trig.cos_fp[t];
                    let s: i64 = trig.sin_fp[t];
                    proof {
                        assert(-0x1_0000_0000_0000 <= xi * c <= 0x1_0000_0000_0000)
                            by (nonlinear_arith)
                            requires
                                0 <= xi <= 0x1_0000_0000,
                                -0x1_0000 <= c <= 0x1_0000,
                        ;
                        assert(-0x1_0000_0000_0000 <= yi * s <= 0x1_0000_0000_0000)
                            by (nonlinear_arith)
                            requires
                                0 <= yi <= 0x1_0000_0000,
                                -0x1_0000 <= s <= 0x1_0000,
                        ;
                    }
                    let rho: i64 = xi * c + yi * s;
                    proof {
                        assert(rho == rho_fp_at(cfg, k as int, t as int));
                    }
                    let bin128: i128 = if bounded {
                        proof {
                            let rr: int = rho as int;
                            let mr: int = maxr as int;
                            let rs: int = rsteps as int;
                            assert(-0x10000000000000000000000 < (rr + mr) * rs
                                < 0x10000000000000000000000) by (nonlinear_arith)
                                requires
                                    -0x2_0000_0000_0000 <= rr <= 0x2_0000_0000_0000,
                                    0 <= mr <= 0x2_0000_0000_0000,
                                    0 <= rs <= 0x1_0000_0000,
                            ;
                        }
                        let a: i128 = ((rho as i128) + (maxr as i128)) * (rsteps as i128);
                        div_round(a, 2 * (maxr as i128))
                    } else {
                        let half: i128 = (rsteps / 2) as i128;
                        proof {
                            let rr: int = rho as int;
                            let hf: int = half as int;
                            assert(-0x10000000000000000000000 < rr * hf
                                < 0x10000000000000000000000) by (nonlinear_arith)
                                requires
                                    -0x2_0000_0000_0000 <= rr <= 0x2_0000_0000_0000,
                                    0 <= hf <= 0x1_0000_0000,
                            ;
                        }
                        let a: i128 = (rho as i128) * half;
                        proof {
                            crate::math::lemma_round_div_bound(a as int, maxr as int);
                        }
                        div_round(a, maxr as i128) + half
                    };
                    proof {
                        assert(bin128 == bin_at(cfg, k as int, t as int));
                    }
                    if bin128 >= 0 && bin128 < rsteps as i128 {
                        let bu: usize = bin128 as usize;
                        proof {
                            crate::math::lemma_rc_index_sym(rsteps as int, tsteps as int, bu as int, t as int);
                        }
                        let cur: u32 = acc_get(&mat, t, bu, rsteps);
                        proof {
                            lemma_votes_le_edges(cfg, p, k as int, t as int, bu as int);
                            lemma_edges_upto_le(cfg, p, k as int);
                            assert(cur < u32::MAX);
                        }
                        let ghost prev: Seq<u32> = acc_cells(mat);
                        let ghost idx: int = (t as int) * rsteps + bu;
                        acc_set(&mut mat, t, bu, rsteps, cur + 1);
                        proof {
                            lemma_seq_sum_update(prev, idx, (cur + 1) as u32);
                            assert forall|tp: int, rp: int|
                                #![trigger acc_cells(mat)[tp * rsteps + rp]]
                                0 <= tp < tsteps && 0 <= rp < rsteps implies acc_cells(mat)[tp
                                * rsteps + rp] == votes_upto(cfg, p, k as int, tp, rp) + (if tp < t
                                + 1 && bin_at(cfg, k as int, tp) == rp {
                                1int
                            } else {
                                0int
                            }) by {
                                if tp == t && rp == bu {
                                    assert(acc_cells(mat)[idx] == cur + 1);
                                } else {
                                    crate::math::lemma_rc_index_sym(rsteps as int, tsteps as int, rp, tp);
                                    crate::math::lemma_rc_injective(
                                        rsteps as int,
                                        rp,
                                        tp,
                                        bu as int,
                                        t as int,
                                    );
                                    assert(acc_cells(mat)[tp * rsteps + rp] == prev[tp * rsteps
                                        + rp]);
                                }
                            }
                        }
                    } else {
                        proof {
                            lemma_dropped_upto_le(cfg, p, k as int);
                            lemma_dropped_px_le(cfg, p, k as int, t as int);
                            assert((k as int) * tsteps + tsteps <= 0xFFFF_FFFF * 0x1_0000_0000)
                                by (nonlinear_arith)
                                requires
                                    0 <= k as int <= 0xFFFF_FFFE,
                                    1 <= tsteps <= 0xFFFF_FFFF,
                            ;
                        }
                        dropped = dropped + 1;
                    }
                    t = t + 1;
                }
                proof {
                    assert(edges_upto(cfg, p, k + 1) == edges_upto(cfg, p, k as int) + 1);
                    assert((edges_upto(cfg, p, k as int) + 1) * tsteps == edges_upto(
                        cfg,
                        p,
                        k as int,
                    ) * tsteps + tsteps) by (nonlinear_arith);
                    assert forall|tp: int, rp: int| #![trigger acc_cells(mat)[tp * rsteps + rp]]
                        0 <= tp < tsteps && 0 <= rp < rsteps implies acc_cells(mat)[tp * rsteps
                        + rp] == votes_upto(cfg, p, k + 1, tp, rp) by {
                        assert(acc_cells(mat)[tp * rsteps + rp] == votes_upto(cfg, p, k as int, tp, rp)
                            + (if tp < tsteps && bin_at(cfg, k as int, tp) == rp {
                                1int
                            } else {
                                0int
                            }));
                    }
                }
            } else {
                proof {
                    assert(!edge_at(cfg, p, k as int));
                    lemma_dropped_px_nonedge(cfg, p, k as int, cfg.theta_steps);
                    assert(edges_upto(cfg, p, k + 1) == edges_upto(cfg, p, k as int));
                    assert(dropped_upto(cfg, p, k + 1) == dropped_upto(cfg, p, k as int));
                    assert forall|tp: int, rp: int| #![trigger acc_cells(mat)[tp * rsteps + rp]]
                        0 <= tp < tsteps && 0 <= rp < rsteps implies acc_cells(mat)[tp * rsteps
                        + rp] == votes_upto(cfg, p, k + 1, tp, rp) by {
                        assert(votes_upto(cfg, p, k + 1, tp, rp) == votes_upto(
                            cfg,
                            p,
                            k as int,
                            tp,
                            rp,
                        ));
                    }
                }
            }
            k = k + 1;
        }
        let acc = Accumulator { mat, theta_steps: tsteps, rho_steps: rsteps, dropped };
        proof {
            assert(acc.cells() == acc_cells(acc.mat));
            assert forall|t: int, r: int| #![trigger acc.vote_at_spec(t, r)]
                0 <= t < acc.theta_steps && 0 <= r < acc.rho_steps implies acc.vote_at_spec(t, r)
                == votes_upto(cfg, p, self.npix(), t, r) by {
                assert(acc_cells(acc.mat)[t * rsteps + r] == votes_upto(cfg, p, n as int, t, r));
            }
        }
        acc
    }

    /// The scaled-axis Hough transform of the pipeline: votes from
    /// the pure-black pixels of this buffer, one per theta bin, with the
    /// vertical coordinate flipped to a bottom-left origin.
    pub fn hough_transform(
        &self,
        theta_scale_factor: u32,
        rho_scale_factor: u32,
        trig: &TrigTable,
    ) -> (acc: Accumulator)
        requires
            self.well_formed(),
            self.npix() <= u32::MAX,
            trig.well_formed(),
            trig.cos_fp@.len() == theta_scale_factor * 180,
            1 <= theta_scale_factor * 180 <= u32::MAX,
            1 <= rho_steps_of(
                (HoughPolicy::ScaledAxis {
                    theta_scale: theta_scale_factor,
                    rho_scale: rho_scale_factor,
                }),
                self.width as int,
                self.height as int,
            ) <= u32::MAX,
            (theta_scale_factor * 180) * rho_steps_of(
                (HoughPolicy::ScaledAxis {
                    theta_scale: theta_scale_factor,
                    rho_scale: rho_scale_factor,
                }),
                self.width as int,
                self.height as int,
            ) <= usize::MAX,
        ensures
            acc.well_formed(),
            acc.theta_steps == theta_scale_factor * 180,
            acc.rho_steps == rho_steps_of(
                (HoughPolicy::ScaledAxis {
                    theta_scale: theta_scale_factor,
                    rho_scale: rho_scale_factor,
                }),
                self.width as int,
                self.height as int,
            ),
            forall|t: int, r: int| #![trigger acc.vote_at_spec(t, r)]
                0 <= t < acc.theta_steps && 0 <= r < acc.rho_steps ==> acc.vote_at_spec(t, r)
                    == votes_upto(
                    cfg_of(
                        *self,
                        (HoughPolicy::ScaledAxis {
                            theta_scale: theta_scale_factor,
                            rho_scale: rho_scale_factor,
                        }),
                        *trig,
                    ),
                    self.pixels@,
                    self.npix(),
                    t,
                    r,
                ),
            seq_sum(acc.cells()) + acc.dropped == edges_upto(
                cfg_of(
                    *self,
                    (HoughPolicy::ScaledAxis {
                        theta_scale: theta_scale_factor,
                        rho_scale: rho_scale_factor,
                    }),
                    *trig,
                ),
                self.pixels@,
                self.npix(),
            ) * (theta_scale_factor * 180),
    {
        self.hough_vote(
            HoughPolicy::ScaledAxis {
                theta_scale: theta_scale_factor,
                rho_scale: rho_scale_factor,
            },
            trig,
        )
    }
}

/// Law: the votes an accumulator holds never exceed
/// `edge pixels x theta bins`, and reach that product exactly when no
/// vote fell outside the rho axis. The quantities are the ones
/// `hough_vote` promises of its result: the sum over all bins, the
/// dropped-vote count, and the edge-pixel count.
pub proof fn lemma_vote_total(acc_sum: int, dropped: int, edges: int, theta_steps: int)
    requires
        acc_sum + dropped == edges * theta_steps,
        dropped >= 0,
    ensures
        acc_sum <= edges * theta_steps,
        dropped == 0 ==> acc_sum == edges * theta_steps,
{
}

} // verus!
