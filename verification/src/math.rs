//! Integer helpers shared by the pipeline stages: rounded division,
//! integer square roots, and sums over vote sequences.

use vstd::prelude::*;

verus! {

/// Fixed-point scale shared by all geometric quantities: a stored value `v`
/// stands for the real number `v / FP_ONE`.
pub const FP_ONE: i64 = 65536;

/// Bound on the operands accepted by `div_round`; generous enough for every
/// quantity the pipeline produces (distances scaled by `FP_ONE` and
/// multiplied by bin counts stay far below it).
pub const DIV_ROUND_BOUND: i128 = 0x10000000000000000000000000;

/// Nearest integer to the real quotient `a / b` for a positive divisor `b`,
/// halves rounded away from zero.
pub open spec fn round_div(a: int, b: int) -> int
    recommends
        b > 0,
{
    if a >= 0 {
        (2 * a + b) / (2 * b)
    } else {
        -((2 * -a + b) / (2 * b))
    }
}

/// Rounded division on machine integers, computed through unsigned
/// arithmetic so that no intermediate value can overflow.
pub fn div_round(a: i128, b: i128) -> (q: i128)
    requires
        0 < b < DIV_ROUND_BOUND,
        -DIV_ROUND_BOUND < a < DIV_ROUND_BOUND,
    ensures
        q == round_div(a as int, b as int),
{
    let bu: u128 = b as u128;
    if a >= 0 {
        let au: u128 = a as u128;
        let qu: u128 = (2 * au + bu) / (2 * bu);
        qu as i128
    } else {
        let au: u128 = (-a) as u128;
        let qu: u128 = (2 * au + bu) / (2 * bu);
        -(qu as i128)
    }
}


proof fn lemma_div_round_le_pos(a: int, b: int)
    by (nonlinear_arith)
    requires
        a >= 0,
        b >= 1,
    ensures
        0 <= (2 * a + b) / (2 * b) <= a,
{
}

/// A rounded quotient never exceeds the dividend in magnitude.
pub proof fn lemma_round_div_bound(a: int, b: int)
    requires
        b >= 1,
    ensures
        a >= 0 ==> 0 <= round_div(a, b) <= a,
        a < 0 ==> a <= round_div(a, b) <= 0,
{
    if a >= 0 {
        lemma_div_round_le_pos(a, b);
    } else {
        lemma_div_round_le_pos(-a, b);
    }
}


/// Squares preserve strict order on nonnegative integers.
pub proof fn lemma_square_lt(a: int, b: int)
    by (nonlinear_arith)
    requires
        0 <= a,
        0 <= b,
        a * a < b * b,
    ensures
        a < b,
{
}


/// Rounded division by a nonzero divisor of either sign.
pub open spec fn round_div_any(a: int, b: int) -> int
    recommends
        b != 0,
{
    if b > 0 {
        round_div(a, b)
    } else {
        round_div(-a, -b)
    }
}

/// Rounded division on machine integers, divisor of either sign.
pub fn div_round_any(a: i128, b: i128) -> (q: i128)
    requires
        b != 0,
        -DIV_ROUND_BOUND < b < DIV_ROUND_BOUND,
        -DIV_ROUND_BOUND < a < DIV_ROUND_BOUND,
    ensures
        q == round_div_any(a as int, b as int),
{
    if b > 0 {
        div_round(a, b)
    } else {
        div_round(-a, -b)
    }
}


proof fn lemma_walk_quot_pos(j: int, d: int, n: int)
    by (nonlinear_arith)
    requires
        0 <= j <= n,
        n >= 1,
        d >= 0,
    ensures
        0 <= (2 * (j * d) + n) / (2 * n) <= d,
{
}

/// A point of an evenly spaced walk never oversteps the endpoint: for
/// `0 <= j <= n` the rounded offset `j * d / n` stays between 0 and `d`.
pub proof fn lemma_walk_step_bound(j: int, d: int, n: int)
    requires
        0 <= j <= n,
        n >= 1,
    ensures
        d >= 0 ==> 0 <= round_div_any(j * d, n) <= d,
        d < 0 ==> d <= round_div_any(j * d, n) <= 0,
{
    if d >= 0 {
        assert(j * d >= 0) by (nonlinear_arith)
            requires
                j >= 0,
                d >= 0,
        ;
        lemma_walk_quot_pos(j, d, n);
    } else {
        assert(j * d <= 0 && -(j * d) == j * (-d)) by (nonlinear_arith)
            requires
                j >= 0,
                d < 0,
        ;
        if j * d == 0 {
            assert((2 * (j * d) + n) / (2 * n) == 0) by (nonlinear_arith)
                requires
                    n >= 1,
                    j * d == 0,
            ;
        } else {
            lemma_walk_quot_pos(j, -d, n);
        }
    }
}

/// Greatest `r` with `r * r <= n`.
pub fn isqrt(n: u128) -> (r: u64)
    ensures
        (r as int) * (r as int) <= n as int,
        (n as int) < ((r as int) + 1) * ((r as int) + 1),
{
    let mut lo: u128 = 0;
    let mut hi: u128 = 0xFFFF_FFFF_FFFF_FFFF;
    while lo < hi
        invariant
            lo <= hi <= 0xFFFF_FFFF_FFFF_FFFF,
            (lo as int) * (lo as int) <= n as int,
            (n as int) < ((hi as int) + 1) * ((hi as int) + 1),
        decreases hi - lo,
    {
        let mid: u128 = lo + (hi - lo + 1) / 2;
        assert(mid * mid <= 0xFFFF_FFFF_FFFF_FFFF * 0xFFFF_FFFF_FFFF_FFFF) by (nonlinear_arith)
            requires
                mid <= 0xFFFF_FFFF_FFFF_FFFF,
        ;
        if mid * mid <= n {
            lo = mid;
        } else {
            hi = mid - 1;
        }
    }
    lo as u64
}

/// Least `c` with `n <= c * c`, at the specification level.
pub open spec fn ceil_sqrt_spec(n: int) -> int {
    let r = floor_sqrt(n);
    if r * r == n {
        r
    } else {
        r + 1
    }
}

/// Least `c` with `n <= c * c`.
pub fn ceil_sqrt(n: u128) -> (c: u64)
    requires
        n < 0x1_0000_0000_0000_0000_0000_0000,
    ensures
        c == ceil_sqrt_spec(n as int),
        n as int <= (c as int) * (c as int),
        c > 0 ==> ((c as int) - 1) * ((c as int) - 1) < n as int,
{
    let r: u64 = isqrt(n);
    proof {
        lemma_isqrt_is_floor_sqrt(n as int, r as int);
    }
    let ru: u128 = r as u128;
    if ru * ru == n {
        proof {
            if r > 0 {
                assert(((r as int) - 1) * ((r as int) - 1) < (r as int) * (r as int))
                    by (nonlinear_arith)
                    requires
                        r > 0,
                ;
            }
        }
        r
    } else {
        assert(r < 0xFFFF_FFFF_FFFF_FFFF) by (nonlinear_arith)
            requires
                (r as int) * (r as int) <= n as int,
                n < 0x1_0000_0000_0000_0000_0000_0000,
        ;
        r + 1
    }
}


/// Floor of the real square root, as a specification-level recurrence.
pub open spec fn floor_sqrt(n: int) -> int
    decreases n,
{
    if n < 1 {
        0
    } else {
        let r = floor_sqrt(n - 1);
        if (r + 1) * (r + 1) <= n {
            r + 1
        } else {
            r
        }
    }
}

pub proof fn lemma_floor_sqrt_bounds(n: int)
    requires
        n >= 0,
    ensures
        floor_sqrt(n) >= 0,
        floor_sqrt(n) * floor_sqrt(n) <= n,
        n < (floor_sqrt(n) + 1) * (floor_sqrt(n) + 1),
    decreases n,
{
    if n >= 1 {
        lemma_floor_sqrt_bounds(n - 1);
        let r = floor_sqrt(n - 1);
        if (r + 1) * (r + 1) <= n {
            assert(n < ((r + 1) + 1) * ((r + 1) + 1)) by (nonlinear_arith)
                requires
                    n - 1 < (r + 1) * (r + 1),
                    r >= 0,
            ;
        }
    }
}

/// Two integers that both bracket `n` between their square and the next
/// square are the same integer.
pub proof fn lemma_sqrt_unique(n: int, r1: int, r2: int)
    by (nonlinear_arith)
    requires
        r1 >= 0,
        r2 >= 0,
        r1 * r1 <= n,
        n < (r1 + 1) * (r1 + 1),
        r2 * r2 <= n,
        n < (r2 + 1) * (r2 + 1),
    ensures
        r1 == r2,
{
}

/// The value a verified square root computes is exactly `floor_sqrt`.
pub proof fn lemma_isqrt_is_floor_sqrt(n: int, r: int)
    requires
        n >= 0,
        r >= 0,
        r * r <= n,
        n < (r + 1) * (r + 1),
    ensures
        r == floor_sqrt(n),
{
    lemma_floor_sqrt_bounds(n);
    lemma_sqrt_unique(n, r, floor_sqrt(n));
}

/// A row-major pixel coordinate stays inside the buffer.
pub proof fn lemma_rc_index(w: int, h: int, x: int, y: int)
    by (nonlinear_arith)
    requires
        0 <= x < w,
        0 <= y < h,
    ensures
        0 <= y * w + x < w * h,
{
}

/// As `lemma_rc_index`, with the area product stated in both orders.
pub proof fn lemma_rc_index_sym(w: int, h: int, x: int, y: int)
    by (nonlinear_arith)
    requires
        0 <= x < w,
        0 <= y < h,
    ensures
        0 <= y * w + x < w * h,
        y * w + x < h * w,
{
}

/// Row-major linearization is injective over in-range coordinates.
pub proof fn lemma_rc_injective(w: int, x1: int, y1: int, x2: int, y2: int)
    by (nonlinear_arith)
    requires
        0 <= x1 < w,
        0 <= x2 < w,
        0 <= y1,
        0 <= y2,
        !(x1 == x2 && y1 == y2),
    ensures
        y1 * w + x1 != y2 * w + x2,
{
}


/// Greatest element among the first `n` entries of a vote sequence.
pub open spec fn seq_max_upto(s: Seq<u32>, n: int) -> int
    decreases n,
{
    if n <= 1 {
        s[0] as int
    } else {
        let m = seq_max_upto(s, n - 1);
        if s[n - 1] as int > m {
            s[n - 1] as int
        } else {
            m
        }
    }
}


/// Splitting a row-major index back into row and column.
pub proof fn lemma_div_mod_identity(t: int, r: int, cols: int)
    by (nonlinear_arith)
    requires
        cols >= 1,
        0 <= r < cols,
        0 <= t,
    ensures
        (t * cols + r) / cols == t,
        (t * cols + r) % cols == r,
{
}

/// Total number of votes held in a flat accumulator sequence.
pub open spec fn seq_sum(s: Seq<u32>) -> int
    decreases s.len(),
{
    if s.len() == 0 {
        0
    } else {
        seq_sum(s.drop_last()) + s.last()
    }
}

pub proof fn lemma_seq_sum_zero(s: Seq<u32>)
    requires
        forall|i: int| 0 <= i < s.len() ==> s[i] == 0,
    ensures
        seq_sum(s) == 0,
    decreases s.len(),
{
    if s.len() > 0 {
        lemma_seq_sum_zero(s.drop_last());
    }
}

pub proof fn lemma_seq_sum_update(s: Seq<u32>, i: int, v: u32)
    requires
        0 <= i < s.len(),
    ensures
        seq_sum(s.update(i, v)) == seq_sum(s) - s[i] + v,
    decreases s.len(),
{
    let t = s.update(i, v);
    if i == s.len() - 1 {
        assert(t.drop_last() =~= s.drop_last());
    } else {
        lemma_seq_sum_update(s.drop_last(), i, v);
        assert(t.drop_last() =~= s.drop_last().update(i, v));
        assert(t.last() == s.last());
    }
}

} // verus!
