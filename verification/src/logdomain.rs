//! Fixed-point log-domain arithmetic kernel.
//!
//! A quantity that may span thousands of orders of magnitude is stored as its
//! base-10 logarithm, scaled by [`SCALE`] and rounded to an integer: the value
//! `x: i64` stands for the real number `10^(x / SCALE)`.  [`log10add`] and
//! [`log10sub`] add and subtract two such quantities in the value domain while
//! staying in the log domain.  Each operand is split into a whole-decade part
//! and a fractional part; only the fraction is exponentiated (through a
//! piecewise-linear mantissa table), so the kernel never overflows no matter
//! how far apart the operands are.  When the operands are more than
//! [`FAR_DECADES`] decades apart the smaller one is negligible and the larger
//! operand is returned unchanged.

use vstd::prelude::*;
use vstd::arithmetic::div_mod::{
    lemma_fundamental_div_mod, lemma_fundamental_div_mod_converse, lemma_div_is_ordered,
};

verus! {

/// Number of fixed-point units in one decade (one factor of 10).
pub const SCALE: i64 = 1_000_000;

/// Largest magnitude of a log-domain value the kernel accepts.
pub const LOG_RANGE: i64 = 100_000_000_000_000_000;

/// Operands whose whole-decade parts differ by more than this are combined by
/// returning the larger one unchanged: the smaller is below the kernel's
/// resolution in that regime.
pub const FAR_DECADES: i64 = 40;

/// Number of interpolation segments of the mantissa table.
pub const SEGMENTS: i64 = 32;

/// Width of one interpolation segment, `SCALE / SEGMENTS`.
pub const SEG_STEP: i64 = 31_250;

/// Anchor `i` of the mantissa table: `SCALE * 10^(i / SEGMENTS)`, rounded.
pub open spec fn anchor(i: int) -> int {
    if i <= 0 {
        1_000_000
    } else if i == 1 {
        1_074_608
    } else if i == 2 {
        1_154_782
    } else if i == 3 {
        1_240_938
    } else if i == 4 {
        1_333_521
    } else if i == 5 {
        1_433_013
    } else if i == 6 {
        1_539_927
    } else if i == 7 {
        1_654_817
    } else if i == 8 {
        1_778_279
    } else if i == 9 {
        1_910_953
    } else if i == 10 {
        2_053_525
    } else if i == 11 {
        2_206_734
    } else if i == 12 {
        2_371_374
    } else if i == 13 {
        2_548_297
    } else if i == 14 {
        2_738_420
    } else if i == 15 {
        2_942_727
    } else if i == 16 {
        3_162_278
    } else if i == 17 {
        3_398_208
    } else if i == 18 {
        3_651_741
    } else if i == 19 {
        3_924_190
    } else if i == 20 {
        4_216_965
    } else if i == 21 {
        4_531_584
    } else if i == 22 {
        4_869_675
    } else if i == 23 {
        5_232_991
    } else if i == 24 {
        5_623_413
    } else if i == 25 {
        6_042_964
    } else if i == 26 {
        6_493_816
    } else if i == 27 {
        6_978_306
    } else if i == 28 {
        7_498_942
    } else if i == 29 {
        8_058_422
    } else if i == 30 {
        8_659_643
    } else if i == 31 {
        9_305_720
    } else {
        10_000_000
    }
}

/// The anchors rise by at least one segment width and at most `700_000` per
/// step, so the interpolated mantissa is strictly increasing.
pub proof fn lemma_anchor_gaps()
    ensures
        forall|i: int|
            0 <= i < SEGMENTS ==> SEG_STEP <= #[trigger] (anchor(i + 1) - anchor(i)) <= 700_000,
{
    assert forall|i: int|
        0 <= i < SEGMENTS implies SEG_STEP <= #[trigger] (anchor(i + 1) - anchor(i))
        <= 700_000 by {
        assert(SEG_STEP <= anchor(i + 1) - anchor(i) <= 700_000);
    }
}

/// Anchors are monotone: `anchor(i) <= anchor(j)` whenever `i <= j`.
pub proof fn lemma_anchor_le(i: int, j: int)
    requires
        0 <= i <= j <= SEGMENTS,
    ensures
        anchor(i) <= anchor(j),
    decreases j - i,
{
    if i < j {
        lemma_anchor_gaps();
        lemma_anchor_le(i + 1, j);
    }
}

/// Mantissa of a fractional log value `x` in `[0, SCALE)`: a piecewise-linear
/// approximation of `SCALE * 10^(x / SCALE)`, in `[SCALE, 10 * SCALE)`.
pub open spec fn spec_pow10_frac(x: int) -> int {
    let i = x / (SEG_STEP as int);
    let off = x % (SEG_STEP as int);
    anchor(i) + ((anchor(i + 1) - anchor(i)) * off) / (SEG_STEP as int)
}

/// The interpolation offset term lies in `[0, gap - 1]`.
proof fn lemma_interp_bounds(gap: int, off: int)
    requires
        SEG_STEP <= gap <= 700_000,
        0 <= off < SEG_STEP,
    ensures
        0 <= (gap * off) / (SEG_STEP as int) <= gap - 1,
{
    assert(gap * off >= 0) by (nonlinear_arith)
        requires
            gap >= 0,
            off >= 0,
    ;
    assert(gap * off <= gap * (SEG_STEP - 1)) by (nonlinear_arith)
        requires
            gap >= 0,
            off <= SEG_STEP - 1,
    ;
    assert((gap * off) / (SEG_STEP as int) >= 0);
    lemma_div_is_ordered(gap * off, gap * (SEG_STEP - 1), SEG_STEP as int);
    assert(gap * (SEG_STEP - 1) == gap * SEG_STEP - gap) by (nonlinear_arith);
    assert((gap * SEG_STEP - gap) / (SEG_STEP as int) <= gap - 1) by {
        let q = (gap * SEG_STEP - gap) / (SEG_STEP as int);
        let r = (gap * SEG_STEP - gap) % (SEG_STEP as int);
        lemma_fundamental_div_mod(gap * SEG_STEP - gap, SEG_STEP as int);
        if q >= gap {
            assert(SEG_STEP * q >= SEG_STEP * gap) by (nonlinear_arith)
                requires
                    q >= gap,
                    SEG_STEP > 0,
            ;
            assert(gap * SEG_STEP == SEG_STEP * gap) by (nonlinear_arith);
        }
    }
}

/// `spec_pow10_frac` stays within its segment: at least the left anchor,
/// strictly below the right anchor.
pub proof fn lemma_pow10_frac_segment(x: int)
    requires
        0 <= x < SCALE,
    ensures
        0 <= x / (SEG_STEP as int) < SEGMENTS,
        anchor(x / (SEG_STEP as int)) <= spec_pow10_frac(x) < anchor(x / (SEG_STEP as int) + 1),
        SCALE <= spec_pow10_frac(x) < 10 * SCALE,
{
    let i = x / (SEG_STEP as int);
    let off = x % (SEG_STEP as int);
    lemma_fundamental_div_mod(x, SEG_STEP as int);
    assert(0 <= i < SEGMENTS) by {
        assert(SEG_STEP * i + off == x);
        if i < 0 {
            assert(SEG_STEP * i <= SEG_STEP * -1) by (nonlinear_arith)
                requires
                    i <= -1,
                    SEG_STEP > 0,
            ;
        }
        if i >= SEGMENTS {
            assert(SEG_STEP * i >= SEG_STEP * SEGMENTS) by (nonlinear_arith)
                requires
                    i >= SEGMENTS,
                    SEG_STEP > 0,
            ;
        }
    }
    lemma_anchor_gaps();
    lemma_interp_bounds(anchor(i + 1) - anchor(i), off);
    lemma_anchor_le(0, i);
    lemma_anchor_le(i + 1, SEGMENTS as int);
}

/// Strict monotonicity of the interpolated mantissa.
pub proof fn lemma_pow10_frac_mono(x1: int, x2: int)
    requires
        0 <= x1 < x2 < SCALE,
    ensures
        spec_pow10_frac(x1) < spec_pow10_frac(x2),
{
    let i1 = x1 / (SEG_STEP as int);
    let i2 = x2 / (SEG_STEP as int);
    let off1 = x1 % (SEG_STEP as int);
    let off2 = x2 % (SEG_STEP as int);
    lemma_pow10_frac_segment(x1);
    lemma_pow10_frac_segment(x2);
    lemma_anchor_gaps();
    lemma_fundamental_div_mod(x1, SEG_STEP as int);
    lemma_fundamental_div_mod(x2, SEG_STEP as int);
    if i1 == i2 {
        let gap = anchor(i1 + 1) - anchor(i1);
        assert(off1 < off2) by {
            assert(SEG_STEP * i1 + off1 == x1);
            assert(SEG_STEP * i2 + off2 == x2);
        }
        assert(gap * off1 + SEG_STEP <= gap * off2) by (nonlinear_arith)
            requires
                off1 < off2,
                gap >= SEG_STEP,
                SEG_STEP > 0,
        ;
        assert((gap * off1) / (SEG_STEP as int) < (gap * off2) / (SEG_STEP as int)) by {
            let a = gap * off1;
            let b = gap * off2;
            lemma_fundamental_div_mod(a, SEG_STEP as int);
            lemma_fundamental_div_mod(b, SEG_STEP as int);
            let qa = a / (SEG_STEP as int);
            let qb = b / (SEG_STEP as int);
            if qa >= qb {
                assert(SEG_STEP * qa >= SEG_STEP * qb) by (nonlinear_arith)
                    requires
                        qa >= qb,
                        SEG_STEP > 0,
                ;
            }
        }
    } else {
        assert(i1 < i2) by {
            lemma_div_is_ordered(x1, x2, SEG_STEP as int);
        }
        lemma_anchor_le(i1 + 1, i2);
        lemma_interp_bounds(anchor(i2 + 1) - anchor(i2), off2);
    }
}

/// Executable mantissa interpolation.
pub fn pow10_frac(x: i64) -> (r: i64)
    requires
        0 <= x < SCALE,
    ensures
        r == spec_pow10_frac(x as int),
        SCALE <= r < 10 * SCALE,
{
    proof {
        lemma_pow10_frac_segment(x as int);
        lemma_anchor_gaps();
    }
    let i: i64 = x / SEG_STEP;
    let off: i64 = x % SEG_STEP;
    let lo: i64 = anchor_at(i);
    let hi: i64 = anchor_at(i + 1);
    lo + ((hi - lo) * off) / SEG_STEP
}

/// Executable anchor lookup, mirroring [`anchor`].
fn anchor_at(i: i64) -> (r: i64)
    requires
        0 <= i <= SEGMENTS,
    ensures
        r == anchor(i as int),
{
    if i <= 0 {
        1_000_000
    } else if i == 1 {
        1_074_608
    } else if i == 2 {
        1_154_782
    } else if i == 3 {
        1_240_938
    } else if i == 4 {
        1_333_521
    } else if i == 5 {
        1_433_013
    } else if i == 6 {
        1_539_927
    } else if i == 7 {
        1_654_817
    } else if i == 8 {
        1_778_279
    } else if i == 9 {
        1_910_953
    } else if i == 10 {
        2_053_525
    } else if i == 11 {
        2_206_734
    } else if i == 12 {
        2_371_374
    } else if i == 13 {
        2_548_297
    } else if i == 14 {
        2_738_420
    } else if i == 15 {
        2_942_727
    } else if i == 16 {
        3_162_278
    } else if i == 17 {
        3_398_208
    } else if i == 18 {
        3_651_741
    } else if i == 19 {
        3_924_190
    } else if i == 20 {
        4_216_965
    } else if i == 21 {
        4_531_584
    } else if i == 22 {
        4_869_675
    } else if i == 23 {
        5_232_991
    } else if i == 24 {
        5_623_413
    } else if i == 25 {
        6_042_964
    } else if i == 26 {
        6_493_816
    } else if i == 27 {
        6_978_306
    } else if i == 28 {
        7_498_942
    } else if i == 29 {
        8_058_422
    } else if i == 30 {
        8_659_643
    } else if i == 31 {
        9_305_720
    } else {
        10_000_000
    }
}

} // verus!

verus! {

/// Extended mantissa curve on `[0, 2 * SCALE]`, covering one extra decade so
/// that the sum of two mantissas still has a well-defined logarithm.
pub open spec fn spec_mant(x: int) -> int {
    if x < SCALE {
        spec_pow10_frac(x)
    } else if x < 2 * SCALE {
        10 * spec_pow10_frac(x - SCALE)
    } else {
        100 * SCALE
    }
}

/// Strict monotonicity of the extended mantissa curve.
pub proof fn lemma_mant_mono(x1: int, x2: int)
    requires
        0 <= x1 < x2 <= 2 * SCALE,
    ensures
        spec_mant(x1) < spec_mant(x2),
{
    if x1 < SCALE {
        lemma_pow10_frac_segment(x1);
        if x2 < SCALE {
            lemma_pow10_frac_mono(x1, x2);
        } else if x2 < 2 * SCALE {
            lemma_pow10_frac_segment(x2 - SCALE);
        }
    } else if x1 < 2 * SCALE {
        lemma_pow10_frac_segment(x1 - SCALE);
        if x2 < 2 * SCALE {
            lemma_pow10_frac_mono(x1 - SCALE, x2 - SCALE);
        }
    }
}

/// `x` is the floor-logarithm of mantissa `m`: the largest point whose curve
/// value does not exceed `m`.
pub open spec fn mant_log_at(m: int, x: int) -> bool {
    &&& 0 <= x < 2 * SCALE
    &&& spec_mant(x) <= m
    &&& m < spec_mant(x + 1)
}

/// The floor-logarithm point is unique.
pub proof fn lemma_mant_log_unique(m: int, x1: int, x2: int)
    requires
        mant_log_at(m, x1),
        mant_log_at(m, x2),
    ensures
        x1 == x2,
{
    if x1 < x2 {
        if x1 + 1 < x2 {
            lemma_mant_mono(x1 + 1, x2);
        }
        assert(spec_mant(x1 + 1) <= spec_mant(x2));
    }
    if x2 < x1 {
        if x2 + 1 < x1 {
            lemma_mant_mono(x2 + 1, x1);
        }
        assert(spec_mant(x2 + 1) <= spec_mant(x1));
    }
}

/// Floor-logarithm of a mantissa in `[SCALE, 20 * SCALE)`, as a spec value.
pub open spec fn spec_mant_log(m: int) -> int {
    choose|x: int| mant_log_at(m, x)
}

/// The floor-logarithm is monotone in the mantissa.
pub proof fn lemma_mant_log_mono(m1: int, m2: int, x1: int, x2: int)
    requires
        mant_log_at(m1, x1),
        mant_log_at(m2, x2),
        m1 <= m2,
    ensures
        x1 <= x2,
{
    if x2 < x1 {
        lemma_mant_mono(x2 + 1, x1);
        assert(spec_mant(x2 + 1) <= spec_mant(x1)) by {
            if x2 + 1 == x1 {
            } else {
                lemma_mant_mono(x2 + 1, x1);
            }
        }
    }
}

/// The curve inverts exactly on grid points of the first decade.
pub proof fn lemma_mant_log_inverts(x: int)
    requires
        0 <= x < SCALE,
    ensures
        mant_log_at(spec_pow10_frac(x), x),
{
    lemma_pow10_frac_segment(x);
    lemma_mant_mono(x, x + 1);
}

/// Executable floor-logarithm: binary search over the strictly monotone
/// mantissa curve.
pub fn mant_log(m: i64) -> (r: i64)
    requires
        SCALE <= m < 20 * SCALE,
    ensures
        mant_log_at(m as int, r as int),
        r == spec_mant_log(m as int),
        0 <= r < 2 * SCALE,
{
    let mut lo: i64 = 0;
    let mut hi: i64 = 2 * SCALE;
    proof {
        lemma_pow10_frac_segment(0);
        assert(0int / (SEG_STEP as int) == 0);
        assert(0int % (SEG_STEP as int) == 0);
        assert(((anchor(1) - anchor(0)) * 0) / (SEG_STEP as int) == 0);
        assert(spec_pow10_frac(0) == SCALE);
    }
    while lo + 1 < hi
        invariant
            0 <= lo < hi <= 2 * SCALE,
            SCALE <= m < 20 * SCALE,
            spec_mant(lo as int) <= m as int,
            (m as int) < spec_mant(hi as int),
        decreases hi - lo,
    {
        let mid: i64 = lo + (hi - lo) / 2;
        let v: i64 = mant_at(mid);
        if v <= m {
            lo = mid;
        } else {
            hi = mid;
        }
    }
    proof {
        assert(mant_log_at(m as int, lo as int));
        let w = spec_mant_log(m as int);
        assert(mant_log_at(m as int, w));
        lemma_mant_log_unique(m as int, lo as int, w);
    }
    lo
}

/// Executable extended mantissa curve, mirroring [`spec_mant`].
fn mant_at(x: i64) -> (r: i64)
    requires
        0 <= x <= 2 * SCALE,
    ensures
        r == spec_mant(x as int),
{
    if x < SCALE {
        pow10_frac(x)
    } else if x < 2 * SCALE {
        10 * pow10_frac(x - SCALE)
    } else {
        100 * SCALE
    }
}

} // verus!

verus! {

/// Whole-decade part of a log value (floor division by `SCALE`).
pub open spec fn spec_whole(a: int) -> int {
    a / (SCALE as int)
}

/// Fractional part of a log value, in `[0, SCALE)`.
pub open spec fn spec_frac(a: int) -> int {
    a % (SCALE as int)
}

/// Splits a log value into whole decades and fraction.
fn split_log(a: i64) -> (r: (i64, i64))
    requires
        -LOG_RANGE <= a <= LOG_RANGE,
    ensures
        r.0 == spec_whole(a as int),
        r.1 == spec_frac(a as int),
        a == r.0 * SCALE + r.1,
        0 <= r.1 < SCALE,
        -200_000_000_000 <= r.0 <= 200_000_000_000,
{
    let w: i64 = if a >= 0 {
        a / SCALE
    } else {
        -((-a + SCALE - 1) / SCALE)
    };
    let f: i64 = a - w * SCALE;
    proof {
        if a < 0 {
            let n = -(a as int);
            let q = (n + SCALE - 1) / (SCALE as int);
            lemma_fundamental_div_mod(n + SCALE - 1, SCALE as int);
            assert(0 <= f < SCALE);
        }
        lemma_fundamental_div_mod_converse(a as int, SCALE as int, w as int, f as int);
    }
    (w, f)
}

/// `10^d` for small `d`.
pub open spec fn spec_pow10_small(d: int) -> int {
    if d <= 0 {
        1
    } else if d == 1 {
        10
    } else if d == 2 {
        100
    } else if d == 3 {
        1_000
    } else if d == 4 {
        10_000
    } else if d == 5 {
        100_000
    } else if d == 6 {
        1_000_000
    } else {
        10_000_000
    }
}

fn pow10_small(d: i64) -> (r: i64)
    requires
        0 <= d <= 7,
    ensures
        r == spec_pow10_small(d as int),
        1 <= r <= 10_000_000,
{
    if d <= 0 {
        1
    } else if d == 1 {
        10
    } else if d == 2 {
        100
    } else if d == 3 {
        1_000
    } else if d == 4 {
        10_000
    } else if d == 5 {
        100_000
    } else if d == 6 {
        1_000_000
    } else {
        10_000_000
    }
}

/// The negligible part of the smaller operand once both mantissas are known:
/// the smaller mantissa shifted down by the decade difference `d`.
pub open spec fn spec_shifted_mantissa(lo: int, d: int) -> int {
    if d >= 8 {
        0
    } else {
        spec_pow10_frac(spec_frac(lo)) / spec_pow10_small(d)
    }
}

/// Log-domain addition: `spec_log10add(a, b)` is the scaled base-10 logarithm
/// of `10^(a/SCALE) + 10^(b/SCALE)`, under the kernel's mantissa resolution.
pub open spec fn spec_log10add(a: int, b: int) -> int {
    let hi = vstd::math::max(a, b);
    let lo = vstd::math::min(a, b);
    let wh = spec_whole(hi);
    let wl = spec_whole(lo);
    if wh > wl + FAR_DECADES {
        hi
    } else {
        let m = spec_pow10_frac(spec_frac(hi)) + spec_shifted_mantissa(lo, wh - wl);
        wh * (SCALE as int) + spec_mant_log(m)
    }
}

/// Executable log-domain addition.
pub fn log10add(a: i64, b: i64) -> (r: i64)
    requires
        -LOG_RANGE <= a <= LOG_RANGE,
        -LOG_RANGE <= b <= LOG_RANGE,
    ensures
        r == spec_log10add(a as int, b as int),
        vstd::math::max(a as int, b as int) <= r
            <= vstd::math::max(a as int, b as int) + 2 * SCALE,
{
    let hi: i64 = if a >= b {
        a
    } else {
        b
    };
    let lo: i64 = if a >= b {
        b
    } else {
        a
    };
    let (wh, fh): (i64, i64) = split_log(hi);
    let (wl, fl): (i64, i64) = split_log(lo);
    proof {
        lemma_div_is_ordered(lo as int, hi as int, SCALE as int);
    }
    if wh > wl + FAR_DECADES {
        return hi;
    }
    let mh: i64 = pow10_frac(fh);
    let d: i64 = wh - wl;
    let shifted: i64 = if d >= 8 {
        0
    } else {
        let ml: i64 = pow10_frac(fl);
        proof {
            lemma_pow10_frac_segment(fl as int);
        }
        ml / pow10_small(d)
    };
    let m: i64 = mh + shifted;
    let c: i64 = mant_log(m);
    proof {
        lemma_mant_log_inverts(fh as int);
        lemma_mant_log_mono(mh as int, m as int, fh as int, c as int);
    }
    wh * SCALE + c
}

/// Mantissa normalisation: scale a small positive mantissa up into
/// `[SCALE, 10 * SCALE)`, lowering the whole-decade part accordingly.
pub open spec fn spec_norm(m: int, w: int) -> (int, int)
    decreases vstd::math::max(0, SCALE - m),
{
    if 1 <= m < SCALE {
        spec_norm(10 * m, w - 1)
    } else {
        (m, w)
    }
}

/// Normalisation lowers the decade count only while the mantissa is small,
/// and leaves an already-normalised mantissa untouched.
proof fn lemma_norm_props(m: int, w: int)
    requires
        1 <= m,
    ensures
        spec_norm(m, w).1 <= w,
        m >= SCALE ==> spec_norm(m, w) == (m, w),
        m < SCALE ==> spec_norm(m, w).1 < w,
    decreases vstd::math::max(0, SCALE - m),
{
    if 1 <= m < SCALE {
        lemma_norm_props(10 * m, w - 1);
    }
}

/// Log-domain subtraction: the scaled base-10 logarithm of
/// `10^(a/SCALE) - 10^(b/SCALE)`, defined for `b < a`.
pub open spec fn spec_log10sub(a: int, b: int) -> int {
    let wh = spec_whole(a);
    let wl = spec_whole(b);
    if wh > wl + FAR_DECADES {
        a
    } else {
        let m = spec_pow10_frac(spec_frac(a)) - spec_shifted_mantissa(b, wh - wl);
        let n = spec_norm(m, wh);
        n.1 * (SCALE as int) + spec_mant_log(n.0)
    }
}

/// Executable log-domain subtraction.  The first operand must strictly exceed
/// the second: callers check affordability before spending.
pub fn log10sub(a: i64, b: i64) -> (r: i64)
    requires
        -LOG_RANGE <= a <= LOG_RANGE,
        -LOG_RANGE <= b <= LOG_RANGE,
        b < a,
    ensures
        r == spec_log10sub(a as int, b as int),
        a - 7 * SCALE <= r <= a,
{
    let (wh, fh): (i64, i64) = split_log(a);
    let (wl, fl): (i64, i64) = split_log(b);
    proof {
        lemma_div_is_ordered(b as int, a as int, SCALE as int);
    }
    if wh > wl + FAR_DECADES {
        return a;
    }
    let mh: i64 = pow10_frac(fh);
    let d: i64 = wh - wl;
    let shifted: i64 = if d >= 8 {
        0
    } else {
        let ml: i64 = pow10_frac(fl);
        proof {
            lemma_pow10_frac_segment(fl as int);
            if d == 0 {
                assert(fl < fh) by {
                    assert(b == wl * SCALE + fl);
                    assert(a == wh * SCALE + fh);
                }
                lemma_pow10_frac_mono(fl as int, fh as int);
            } else {
                assert((ml as int) / (spec_pow10_small(d as int)) <= (ml as int) / 10) by {
                    vstd::arithmetic::div_mod::lemma_div_is_ordered_by_denominator(
                        ml as int,
                        10,
                        spec_pow10_small(d as int),
                    );
                }
                assert(ml / 10 <= (10 * SCALE - 1) / 10) by {
                    lemma_div_is_ordered(ml as int, 10 * SCALE - 1, 10);
                }
            }
        }
        ml / pow10_small(d)
    };
    let m: i64 = mh - shifted;
    let mut mm: i64 = m;
    let mut w: i64 = wh;
    proof {
        lemma_pow10_frac_segment(fh as int);
    }
    while mm < SCALE
        invariant
            1 <= mm < 10 * SCALE,
            0 <= wh - w <= 6,
            -200_000_000_000 <= wh <= 200_000_000_000,
            mm >= spec_pow10_small(wh - w),
            spec_norm(m as int, wh as int) == spec_norm(mm as int, w as int),
        decreases vstd::math::max(0, (SCALE - mm) as int),
    {
        proof {
            assert(wh - w <= 5) by {
                if wh - w == 6 {
                    assert(spec_pow10_small(6) == SCALE);
                }
            }
            assert(10 * mm >= spec_pow10_small(wh - w + 1));
        }
        mm = mm * 10;
        w = w - 1;
    }
    let c: i64 = mant_log(mm);
    proof {
        assert(spec_norm(mm as int, w as int) == (mm as int, w as int));
        lemma_mant_log_inverts(fh as int);
        lemma_norm_props(m as int, wh as int);
        if w == wh {
            assert(mm == m);
            lemma_mant_log_mono(mm as int, mh as int, c as int, fh as int);
        } else {
            assert(c < SCALE) by {
                if c >= SCALE {
                    lemma_pow10_frac_segment(c - SCALE as int);
                }
            }
        }
    }
    w * SCALE + c
}

} // verus!

verus! {

/// Log-domain addition is symmetric in its operands.
pub proof fn lemma_log10add_comm(a: int, b: int)
    ensures
        spec_log10add(a, b) == spec_log10add(b, a),
{
}

/// When the first operand is at least eight whole decades above the second,
/// adding the second changes nothing: it is negligible at the kernel's
/// mantissa resolution.
pub proof fn lemma_log10add_far(a: int, b: int)
    requires
        -LOG_RANGE <= a <= LOG_RANGE,
        -LOG_RANGE <= b <= LOG_RANGE,
        spec_whole(b) + 8 <= spec_whole(a),
    ensures
        spec_log10add(a, b) == a,
        b < a,
{
    let wh = spec_whole(a);
    let wl = spec_whole(b);
    lemma_fundamental_div_mod(a, SCALE as int);
    lemma_fundamental_div_mod(b, SCALE as int);
    assert(b < a);
    if wh > wl + FAR_DECADES {
    } else {
        let fa = spec_frac(a);
        lemma_pow10_frac_segment(fa);
        lemma_mant_log_inverts(fa);
        let m = spec_pow10_frac(fa) + spec_shifted_mantissa(b, wh - wl);
        assert(spec_shifted_mantissa(b, wh - wl) == 0);
        let w = spec_mant_log(m);
        assert(mant_log_at(m, w));
        lemma_mant_log_unique(m, w, fa);
    }
}

/// The same negligibility holds for subtraction: a quantity eight or more
/// decades below leaves the larger one unchanged.
pub proof fn lemma_log10sub_far(a: int, b: int)
    requires
        -LOG_RANGE <= a <= LOG_RANGE,
        -LOG_RANGE <= b <= LOG_RANGE,
        spec_whole(b) + 8 <= spec_whole(a),
    ensures
        spec_log10sub(a, b) == a,
{
    let wh = spec_whole(a);
    let wl = spec_whole(b);
    lemma_fundamental_div_mod(a, SCALE as int);
    lemma_fundamental_div_mod(b, SCALE as int);
    if wh > wl + FAR_DECADES {
    } else {
        let fa = spec_frac(a);
        lemma_pow10_frac_segment(fa);
        lemma_mant_log_inverts(fa);
        let m = spec_pow10_frac(fa) - spec_shifted_mantissa(b, wh - wl);
        assert(spec_shifted_mantissa(b, wh - wl) == 0);
        lemma_norm_props(m, wh);
        assert(spec_norm(m, wh) == (m, wh));
        let w = spec_mant_log(m);
        assert(mant_log_at(m, w));
        lemma_mant_log_unique(m, w, fa);
    }
}

/// Round trip in the negligible regime: adding a quantity that sits eight or
/// more decades below and subtracting it again returns the original exactly.
/// Closer operands round-trip only up to the kernel's mantissa resolution.
pub proof fn lemma_round_trip_far(a: int, b: int)
    requires
        -LOG_RANGE <= a <= LOG_RANGE,
        -LOG_RANGE <= b <= LOG_RANGE,
        spec_whole(b) + 8 <= spec_whole(a),
    ensures
        spec_log10sub(spec_log10add(a, b), b) == a,
{
    lemma_log10add_far(a, b);
    lemma_log10sub_far(a, b);
}

/// `10^d` without a bound on `d`.
pub open spec fn pow10b(d: int) -> int
    decreases d,
{
    if d <= 0 {
        1
    } else {
        10 * pow10b(d - 1)
    }
}

proof fn lemma_pow10b_pos(d: int)
    ensures
        pow10b(d) >= 1,
    decreases d,
{
    if d > 0 {
        lemma_pow10b_pos(d - 1);
    }
}

proof fn lemma_pow10b_13()
    ensures
        pow10b(13) == 10_000_000_000_000,
{
    assert(pow10b(0) == 1);
    assert(pow10b(1) == 10);
    assert(pow10b(2) == 100);
    assert(pow10b(3) == 1_000);
    assert(pow10b(4) == 10_000);
    assert(pow10b(5) == 100_000);
    assert(pow10b(6) == 1_000_000);
    assert(pow10b(7) == 10_000_000);
    assert(pow10b(8) == 100_000_000);
    assert(pow10b(9) == 1_000_000_000);
    assert(pow10b(10) == 10_000_000_000);
    assert(pow10b(11) == 100_000_000_000);
    assert(pow10b(12) == 1_000_000_000_000);
    assert(pow10b(13) == 10_000_000_000_000);
}

/// Shift an oversized mantissa down into `[1, 10 * SCALE)`, counting decades.
pub open spec fn spec_log_shift_down(m: int, d: int) -> (int, int)
    decreases vstd::math::max(0, m),
{
    if m >= 10 * SCALE {
        spec_log_shift_down(m / 10, d + 1)
    } else {
        (m, d)
    }
}

/// Scaled base-10 logarithm of a positive integer count.
pub open spec fn spec_log10_u64(n: int) -> int {
    let p = spec_log_shift_down(n, 0);
    let q = spec_norm(p.0, p.1);
    (q.1 + 6) * (SCALE as int) + spec_mant_log(q.0)
}

/// Executable scaled base-10 logarithm of a positive integer count, used to
/// bring plain counts (a tick length, a level count) into the log domain.
pub fn log10_u64(n: u64) -> (r: i64)
    requires
        1 <= n,
    ensures
        r == spec_log10_u64(n as int),
        0 <= r <= 21 * SCALE,
{
    let mut m: u64 = n;
    let mut d: i64 = 0;
    proof {
        lemma_pow10b_13();
    }
    while m >= 10_000_000
        invariant
            1 <= m,
            0 <= d <= 13,
            pow10b(d as int) * m <= n,
            n <= 0xffff_ffff_ffff_ffff,
            spec_log_shift_down(n as int, 0) == spec_log_shift_down(m as int, d as int),
        decreases m,
    {
        proof {
            lemma_pow10b_13();
            assert(d <= 12) by {
                if d == 13 {
                    assert(pow10b(13) * m >= pow10b(13) * 10_000_000) by (nonlinear_arith)
                        requires
                            m >= 10_000_000,
                            pow10b(13) > 0,
                    ;
                }
            }
            lemma_fundamental_div_mod(m as int, 10);
            lemma_pow10b_pos(d as int);
            assert(pow10b(d + 1) * (m as int / 10) <= pow10b(d as int) * m) by (nonlinear_arith)
                requires
                    pow10b(d + 1) == 10 * pow10b(d as int),
                    pow10b(d as int) >= 1,
                    10 * (m as int / 10) <= m as int,
                    m as int / 10 >= 0,
            ;
        }
        m = m / 10;
        d = d + 1;
    }
    let dmid: Ghost<int> = Ghost(d as int);
    let mmid: Ghost<int> = Ghost(m as int);
    while m < 1_000_000
        invariant
            1 <= m < 10 * SCALE,
            0 <= dmid@ - d <= 6,
            -6 <= d <= 13,
            0 <= dmid@ <= 13,
            m >= spec_pow10_small(dmid@ - d),
            spec_norm(mmid@, dmid@) == spec_norm(m as int, d as int),
        decreases vstd::math::max(0, (SCALE - m) as int),
    {
        proof {
            assert(dmid@ - d <= 5) by {
                if dmid@ - d == 6 {
                    assert(spec_pow10_small(6) == SCALE);
                }
            }
            assert(10 * m >= spec_pow10_small(dmid@ - d + 1));
        }
        m = m * 10;
        d = d - 1;
    }
    proof {
        assert(spec_norm(m as int, d as int) == (m as int, d as int));
    }
    let c: i64 = mant_log(m as i64);
    (d + 6) * SCALE + c
}

} // verus!

verus! {

/// Decomposes a log value into a human display pair: a three-digit mantissa
/// in hundredths (`100` stands for 1.00, up to `1000` for a mantissa that
/// rounds to 10.00) and the whole-decade exponent.
pub open spec fn spec_log10_parts(x: int) -> (int, int) {
    ((spec_pow10_frac(spec_frac(x)) + 5_000) / 10_000, spec_whole(x))
}

/// Executable display decomposition.
pub fn log10_parts(x: i64) -> (r: (i64, i64))
    requires
        -LOG_RANGE <= x <= LOG_RANGE,
    ensures
        (r.0 as int, r.1 as int) == spec_log10_parts(x as int),
        100 <= r.0 <= 1000,
{
    let (w, f): (i64, i64) = split_log(x);
    let m: i64 = pow10_frac(f);
    proof {
        lemma_pow10_frac_segment(f as int);
        lemma_div_is_ordered(105_000, m as int + 5_000, 10_000);
        lemma_div_is_ordered(m as int + 5_000, 10_004_999, 10_000);
    }
    ((m + 5_000) / 10_000, w)
}

/// Reads a display pair back into a log value: the exponent plus the
/// logarithm of the mantissa (shifted down by its two scale digits).
pub open spec fn spec_log10_from_parts(mant: int, e: int) -> int {
    e * (SCALE as int) + spec_log10_u64(mant) - 2 * (SCALE as int)
}

/// Executable inverse of the display decomposition.
pub fn log10_from_parts(mant: i64, e: i64) -> (r: i64)
    requires
        1 <= mant <= 100_000,
        -200_000_000_000 <= e <= 200_000_000_000,
    ensures
        r == spec_log10_from_parts(mant as int, e as int),
{
    e * SCALE + log10_u64(mant as u64) - 2 * SCALE
}

} // verus!

verus! {

/// Floor division distributes over a sum up to one unit.
proof fn lemma_div_sum(a: int, b: int, c: int)
    requires
        c > 0,
        a >= 0,
        b >= 0,
    ensures
        a / c + b / c <= (a + b) / c <= a / c + b / c + 1,
{
    lemma_fundamental_div_mod(a, c);
    lemma_fundamental_div_mod(b, c);
    vstd::arithmetic::div_mod::lemma_mod_bound(a, c);
    vstd::arithmetic::div_mod::lemma_mod_bound(b, c);
    let qa = a / c;
    let ra = a % c;
    let qb = b / c;
    let rb = b % c;
    if ra + rb < c {
        assert(a + b == (qa + qb) * c + (ra + rb)) by (nonlinear_arith)
            requires
                a == c * qa + ra,
                b == c * qb + rb,
        ;
        lemma_fundamental_div_mod_converse(a + b, c, qa + qb, ra + rb);
    } else {
        assert(a + b == (qa + qb + 1) * c + (ra + rb - c)) by (nonlinear_arith)
            requires
                a == c * qa + ra,
                b == c * qb + rb,
        ;
        lemma_fundamental_div_mod_converse(a + b, c, qa + qb + 1, ra + rb - c);
    }
}

/// The mantissa of a zero fraction is exactly one decade unit.
proof fn lemma_pf_zero()
    ensures
        spec_pow10_frac(0) == SCALE,
{
    assert(0int / (SEG_STEP as int) == 0);
    assert(0int % (SEG_STEP as int) == 0);
    assert(((anchor(1) - anchor(0)) * 0) / (SEG_STEP as int) == 0);
}

/// One fixed-point step moves the interpolated mantissa by at least one and
/// at most twenty-three units.
proof fn lemma_pow10_frac_step(x: int)
    requires
        0 <= x,
        x + 1 < SCALE,
    ensures
        1 <= spec_pow10_frac(x + 1) - spec_pow10_frac(x) <= 23,
{
    lemma_pow10_frac_mono(x, x + 1);
    lemma_pow10_frac_segment(x);
    lemma_pow10_frac_segment(x + 1);
    lemma_anchor_gaps();
    let i = x / (SEG_STEP as int);
    let off = x % (SEG_STEP as int);
    let i2 = (x + 1) / (SEG_STEP as int);
    let off2 = (x + 1) % (SEG_STEP as int);
    lemma_fundamental_div_mod(x, SEG_STEP as int);
    lemma_fundamental_div_mod(x + 1, SEG_STEP as int);
    let gap = anchor(i + 1) - anchor(i);
    assert(gap / (SEG_STEP as int) <= 22) by {
        lemma_div_is_ordered(gap, 700_000, SEG_STEP as int);
    }
    if i2 == i {
        assert(off2 == off + 1) by {
            assert(SEG_STEP * i + off == x);
            assert(SEG_STEP * i2 + off2 == x + 1);
        }
        assert(gap * off2 == gap * off + gap) by (nonlinear_arith)
            requires
                off2 == off + 1,
        ;
        assert(gap * off >= 0) by (nonlinear_arith)
            requires
                gap >= 0,
                off >= 0,
        ;
        lemma_div_sum(gap * off, gap, SEG_STEP as int);
    } else {
        assert(i2 == i + 1 && off2 == 0 && off == SEG_STEP - 1) by {
            assert(SEG_STEP * i + off == x);
            assert(SEG_STEP * i2 + off2 == x + 1);
            if i2 == i {
            }
            if i2 > i + 1 {
                assert(SEG_STEP * i2 >= SEG_STEP * (i + 2)) by (nonlinear_arith)
                    requires
                        i2 >= i + 2,
                        SEG_STEP > 0,
                ;
            }
            if i2 <= i {
                lemma_div_is_ordered(x, x + 1, SEG_STEP as int);
            }
        }
        // End of the segment: the interpolated value sits within a step of
        // the right anchor.
        assert(gap * off == gap * SEG_STEP - gap) by (nonlinear_arith)
            requires
                off == SEG_STEP - 1,
        ;
        assert((gap * SEG_STEP - gap) / (SEG_STEP as int) >= gap - gap / (SEG_STEP as int) - 1)
            by {
            lemma_fundamental_div_mod(gap, SEG_STEP as int);
            assert(gap * SEG_STEP - gap == (SEG_STEP as int) * (gap - gap / (SEG_STEP as int) - 1)
                + (SEG_STEP - gap % (SEG_STEP as int))) by (nonlinear_arith)
                requires
                    gap == (SEG_STEP as int) * (gap / (SEG_STEP as int)) + gap % (SEG_STEP as int),
            ;
            lemma_fundamental_div_mod_converse(
                gap * SEG_STEP - gap,
                SEG_STEP as int,
                gap - gap / (SEG_STEP as int) - 1,
                SEG_STEP - gap % (SEG_STEP as int),
            );
        }
    }
}

/// One fixed-point step moves the extended mantissa curve by at least one
/// and at most two hundred thirty units.
#[verifier::rlimit(30)]
proof fn lemma_mant_step(x: int)
    requires
        0 <= x,
        x + 1 < 2 * SCALE,
    ensures
        1 <= spec_mant(x + 1) - spec_mant(x) <= 230,
{
    if x + 1 < SCALE {
        lemma_pow10_frac_step(x);
    } else if x + 1 == SCALE {
        lemma_pow10_frac_segment(x);
        lemma_anchor_gaps();
        let i = x / (SEG_STEP as int);
        assert(i == SEGMENTS - 1) by {
            lemma_fundamental_div_mod(x, SEG_STEP as int);
            if i < SEGMENTS - 1 {
                assert(SEG_STEP * i <= SEG_STEP * (SEGMENTS - 2)) by (nonlinear_arith)
                    requires
                        i <= SEGMENTS - 2,
                        SEG_STEP > 0,
                ;
            }
        }
        assert(spec_pow10_frac(x) >= anchor(SEGMENTS as int) - 230) by {
            lemma_pow10_frac_step_end(x);
        }
        assert(spec_mant(SCALE as int) == 10 * spec_pow10_frac(0));
        lemma_pf_zero();
    } else {
        lemma_pow10_frac_step(x - SCALE);
    }
}

/// At the last point of its decade the interpolated mantissa is within two
/// hundred thirty units of the top anchor.
proof fn lemma_pow10_frac_step_end(x: int)
    requires
        x == SCALE - 1,
    ensures
        spec_pow10_frac(x) >= anchor(SEGMENTS as int) - 230,
{
    lemma_anchor_gaps();
    let i = x / (SEG_STEP as int);
    let off = x % (SEG_STEP as int);
    lemma_fundamental_div_mod(x, SEG_STEP as int);
    assert(i == SEGMENTS - 1 && off == SEG_STEP - 1) by {
        assert(SEG_STEP * i + off == x);
        if i < SEGMENTS - 1 {
            assert(SEG_STEP * i <= SEG_STEP * (SEGMENTS - 2)) by (nonlinear_arith)
                requires
                    i <= SEGMENTS - 2,
                    SEG_STEP > 0,
            ;
        }
        if i > SEGMENTS - 1 {
            assert(SEG_STEP * i >= SEG_STEP * SEGMENTS) by (nonlinear_arith)
                requires
                    i >= SEGMENTS,
                    SEG_STEP > 0,
            ;
        }
    }
    let gap = anchor(i + 1) - anchor(i);
    assert(gap * off == gap * SEG_STEP - gap) by (nonlinear_arith)
        requires
            off == SEG_STEP - 1,
    ;
    assert((gap * SEG_STEP - gap) / (SEG_STEP as int) >= gap - gap / (SEG_STEP as int) - 1) by {
        lemma_fundamental_div_mod(gap, SEG_STEP as int);
        assert(gap * SEG_STEP - gap == (SEG_STEP as int) * (gap - gap / (SEG_STEP as int) - 1) + (
        SEG_STEP - gap % (SEG_STEP as int))) by (nonlinear_arith)
            requires
                gap == (SEG_STEP as int) * (gap / (SEG_STEP as int)) + gap % (SEG_STEP as int),
        ;
        lemma_fundamental_div_mod_converse(
            gap * SEG_STEP - gap,
            SEG_STEP as int,
            gap - gap / (SEG_STEP as int) - 1,
            SEG_STEP - gap % (SEG_STEP as int),
        );
    }
    assert(gap / (SEG_STEP as int) <= 22) by {
        lemma_div_is_ordered(gap, 700_000, SEG_STEP as int);
    }
}

/// The extended mantissa curve moves at least step-for-step and at most two
/// hundred thirty times the step.
proof fn lemma_mant_lipschitz(x: int, y: int)
    requires
        0 <= x <= y < 2 * SCALE,
    ensures
        y - x <= spec_mant(y) - spec_mant(x) <= 230 * (y - x),
    decreases y - x,
{
    if x < y {
        lemma_mant_step(x);
        lemma_mant_lipschitz(x + 1, y);
        assert(230 * (y - x) == 230 * (y - x - 1) + 230) by (nonlinear_arith);
    }
}

/// Every mantissa in working range has a floor-logarithm point.
proof fn lemma_mant_log_exists(m: int)
    requires
        SCALE <= m < 20 * SCALE,
    ensures
        mant_log_at(m, spec_mant_log(m)),
{
    lemma_pf_zero();
    lemma_mant_log_exists_rec(m, 0);
    let w = choose|x: int| mant_log_at(m, x);
    assert(mant_log_at(m, w));
}

/// Walks the curve upward to the crossing point.
proof fn lemma_mant_log_exists_rec(m: int, x: int)
    requires
        SCALE <= m < 20 * SCALE,
        0 <= x < 2 * SCALE,
        spec_mant(x) <= m,
    ensures
        exists|r: int| mant_log_at(m, r),
    decreases 2 * SCALE - x,
{
    if m < spec_mant(x + 1) {
        assert(mant_log_at(m, x));
    } else {
        assert(x + 1 < 2 * SCALE) by {
            if x + 1 == 2 * SCALE {
                assert(spec_mant(2 * SCALE) == 100 * SCALE);
            }
        }
        lemma_mant_log_exists_rec(m, x + 1);
    }
}

/// The floor-logarithm moves no faster than the mantissa: raising the
/// mantissa by `k` raises the logarithm by at most `k`.
proof fn lemma_mant_log_shift(m1: int, m2: int, x1: int, x2: int)
    requires
        mant_log_at(m1, x1),
        mant_log_at(m2, x2),
        m1 <= m2,
    ensures
        x1 <= x2,
        x2 - x1 <= m2 - m1,
{
    lemma_mant_log_mono(m1, m2, x1, x2);
    if x1 < x2 {
        lemma_mant_lipschitz(x1 + 1, x2);
        assert(spec_mant(x1 + 1) >= m1 + 1);
        assert(spec_mant(x2) <= m2);
    }
}

} // verus!

verus! {

/// Shifting a fraction up by one decade multiplies its mantissa by ten:
/// the point `SCALE + f` is the floor-logarithm of `10 * pf(f)`.
proof fn lemma_shift10_at(f: int)
    requires
        0 <= f < SCALE,
    ensures
        mant_log_at(10 * spec_pow10_frac(f), SCALE + f),
{
    lemma_pow10_frac_segment(f);
    assert(spec_mant(SCALE + f) == 10 * spec_pow10_frac(f));
    if f + 1 < SCALE {
        lemma_pow10_frac_mono(f, f + 1);
        assert(spec_mant(SCALE + f + 1) == 10 * spec_pow10_frac(f + 1));
    } else {
        assert(spec_mant(SCALE + f + 1) == 100 * SCALE);
    }
}

/// Round trip of the kernel in the near regime: adding a quantity at most
/// seven whole decades below and subtracting it again lands within a
/// quarter-hundredth of a decade below the original, and at most a tenth of
/// a thousandth above it.  (Eight or more decades apart the round trip is
/// exact: see [`lemma_round_trip_far`].)
#[verifier::rlimit(90)]
pub proof fn lemma_round_trip_near(a: int, b: int)
    requires
        b <= a,
        spec_whole(a) <= spec_whole(b) + 7,
    ensures
        a - 2400 <= spec_log10sub(spec_log10add(a, b), b) <= a + 100,
{
    let wh = spec_whole(a);
    let wl = spec_whole(b);
    let fh = spec_frac(a);
    let fb = spec_frac(b);
    lemma_fundamental_div_mod(a, SCALE as int);
    lemma_fundamental_div_mod(b, SCALE as int);
    vstd::arithmetic::div_mod::lemma_mod_bound(a, SCALE as int);
    vstd::arithmetic::div_mod::lemma_mod_bound(b, SCALE as int);
    lemma_div_is_ordered(b, a, SCALE as int);
    let d = wh - wl;
    let mh = spec_pow10_frac(fh);
    let ml = spec_pow10_frac(fb);
    lemma_pow10_frac_segment(fh);
    lemma_pow10_frac_segment(fb);
    let sh = spec_shifted_mantissa(b, d);
    assert(0 <= sh <= ml) by {
        vstd::arithmetic::div_mod::lemma_div_pos_is_pos(ml, spec_pow10_small(d));
        vstd::arithmetic::div_mod::lemma_div_nonincreasing(ml, spec_pow10_small(d));
    }
    let m = mh + sh;
    lemma_mant_log_exists(m);
    let lg = spec_mant_log(m);
    lemma_mant_log_inverts(fh);
    lemma_mant_log_mono(mh, m, fh, lg);
    let c = wh * (SCALE as int) + lg;
    assert(spec_log10add(a, b) == c);
    lemma_pf_zero();
    if lg < SCALE {
        // No whole-decade carry: the sum keeps the decade of the larger
        // operand.
        lemma_fundamental_div_mod_converse(c, SCALE as int, wh, lg);
        assert(spec_whole(c) == wh && spec_frac(c) == lg);
        let mh2 = spec_pow10_frac(lg);
        assert(spec_mant(lg) == mh2);
        assert(mh2 <= m);
        lemma_mant_step(lg);
        assert(mh2 > m - 231);
        let m2 = mh2 - sh;
        assert(spec_log10sub(c, b) == {
            let n = spec_norm(m2, wh);
            n.1 * (SCALE as int) + spec_mant_log(n.0)
        });
        if m2 >= SCALE {
            lemma_norm_props(m2, wh);
            assert(spec_norm(m2, wh) == (m2, wh));
            lemma_mant_log_exists(m2);
            let r2 = spec_mant_log(m2);
            lemma_mant_log_shift(m2, mh, r2, fh);
            assert(spec_log10sub(c, b) == wh * (SCALE as int) + r2);
        } else {
            assert(m2 >= SCALE - 230);
            assert(spec_norm(m2, wh) == spec_norm(10 * m2, wh - 1));
            lemma_norm_props(10 * m2, wh - 1);
            assert(spec_norm(10 * m2, wh - 1) == (10 * m2, wh - 1));
            lemma_mant_log_exists(10 * m2);
            let r2 = spec_mant_log(10 * m2);
            lemma_shift10_at(fh);
            lemma_mant_log_shift(10 * m2, 10 * mh, r2, SCALE + fh);
            assert(10 * mh - 10 * m2 <= 2310);
            assert(spec_log10sub(c, b) == (wh - 1) * (SCALE as int) + r2);
        }
    } else {
        // Carry: the sum crossed into the next decade.
        assert(m >= 10 * SCALE) by {
            assert(spec_mant(SCALE as int) == 10 * spec_pow10_frac(0));
            if m < 10 * SCALE {
                lemma_mant_log_unique(m, lg, lg);
                lemma_mant_mono(SCALE as int, lg);
                assert(spec_mant(lg) >= spec_mant(SCALE as int));
            }
        }
        assert(sh >= 1);
        assert(d <= 6) by {
            if d == 7 {
                vstd::arithmetic::div_mod::lemma_basic_div(ml, spec_pow10_small(7));
            }
        }
        assert(lg + 1 < 2 * SCALE) by {
            if lg + 1 == 2 * SCALE {
                lemma_pow10_frac_step_end(SCALE - 1);
                assert(spec_mant(lg) == 10 * spec_pow10_frac(SCALE - 1));
                assert(spec_mant(lg) <= m < 20 * SCALE);
            }
        }
        lemma_fundamental_div_mod_converse(c, SCALE as int, wh + 1, lg - SCALE);
        assert(spec_whole(c) == wh + 1 && spec_frac(c) == lg - SCALE);
        let fc = lg - SCALE;
        let mh2 = spec_pow10_frac(fc);
        assert(spec_mant(lg) == 10 * mh2);
        lemma_mant_step(lg);
        assert(10 * mh2 <= m);
        assert(m < 10 * mh2 + 231);
        let sh2 = spec_shifted_mantissa(b, d + 1);
        assert(sh2 == sh / 10) by {
            assert(spec_pow10_small(d + 1) == 10 * spec_pow10_small(d));
            vstd::arithmetic::div_mod::lemma_div_denominator(ml, spec_pow10_small(d), 10);
            assert(spec_pow10_small(d) * 10 == 10 * spec_pow10_small(d)) by (nonlinear_arith);
        }
        let m2 = mh2 - sh / 10;
        assert(spec_log10sub(c, b) == {
            let n = spec_norm(m2, wh + 1);
            n.1 * (SCALE as int) + spec_mant_log(n.0)
        });
        // Relate m2 to mh / 10.
        assert(mh2 <= m / 10) by {
            vstd::arithmetic::div_mod::lemma_div_multiples_vanish(mh2, 10);
            lemma_div_is_ordered(10 * mh2, m, 10);
        }
        assert(m / 10 <= mh2 + 23) by {
            lemma_div_is_ordered(m, 10 * mh2 + 230, 10);
            lemma_fundamental_div_mod_converse(10 * mh2 + 230, 10, mh2 + 23, 0);
        }
        lemma_div_sum(mh, sh, 10);
        assert(mh / 10 - 23 <= m2 <= mh / 10 + 1);
        assert(mh / 10 >= SCALE / 10) by {
            lemma_div_is_ordered(SCALE as int, mh, 10);
        }
        assert(mh / 10 <= SCALE - 1) by {
            lemma_div_is_ordered(mh, 10 * SCALE - 1, 10);
            lemma_fundamental_div_mod_converse(10 * SCALE - 10, 10, SCALE - 1, 0);
            lemma_fundamental_div_mod_converse(10 * SCALE - 1, 10, SCALE - 1, 9);
        }
        if m2 >= SCALE {
            // The subtraction lands exactly on the decade boundary.
            assert(m2 == SCALE);
            lemma_norm_props(m2, wh + 1);
            lemma_mant_log_exists(m2);
            let r2 = spec_mant_log(m2);
            assert(mant_log_at(SCALE as int, 0)) by {
                lemma_mant_mono(0, 1);
            }
            lemma_mant_log_unique(SCALE as int, r2, 0);
            assert(spec_log10sub(c, b) == (wh + 1) * (SCALE as int));
            assert(mh >= 10 * SCALE - 10) by {
                lemma_fundamental_div_mod(mh, 10);
                vstd::arithmetic::div_mod::lemma_mod_bound(mh, 10);
            }
            assert(fh >= SCALE - 10) by {
                lemma_pow10_frac_segment(SCALE - 1);
                if fh < SCALE - 1 {
                    lemma_mant_lipschitz(fh, SCALE - 1);
                    assert(spec_mant(fh) == mh);
                    assert(spec_mant(SCALE - 1) == spec_pow10_frac(SCALE - 1));
                    assert(spec_mant(SCALE - 1) - spec_mant(fh) >= (SCALE - 1) - fh);
                    assert(spec_pow10_frac(SCALE - 1) < 10 * SCALE);
                }
            }
        } else {
            assert(m2 >= 1);
            assert(spec_norm(m2, wh + 1) == spec_norm(10 * m2, wh));
            if 10 * m2 >= SCALE {
                lemma_norm_props(10 * m2, wh);
                lemma_mant_log_exists(10 * m2);
                let r2 = spec_mant_log(10 * m2);
                assert(10 * m2 >= mh - 230);
                assert(10 * m2 <= mh + 10);
                if 10 * m2 <= mh {
                    lemma_mant_log_shift(10 * m2, mh, r2, fh);
                } else {
                    lemma_mant_log_shift(mh, 10 * m2, fh, r2);
                }
                assert(spec_log10sub(c, b) == wh * (SCALE as int) + r2);
            } else {
                // The larger mantissa sat just above a decade boundary:
                // normalise twice.
                assert(mh < SCALE + 230) by {
                    lemma_fundamental_div_mod(mh, 10);
                    vstd::arithmetic::div_mod::lemma_mod_bound(mh, 10);
                }
                assert(fh <= mh - SCALE) by {
                    if fh > 0 {
                        lemma_mant_lipschitz(0, fh);
                    }
                }
                assert(spec_norm(10 * m2, wh) == spec_norm(100 * m2, wh - 1));
                assert(100 * m2 >= 10 * SCALE - 2300);
                lemma_norm_props(100 * m2, wh - 1);
                lemma_mant_log_exists(100 * m2);
                let r2 = spec_mant_log(100 * m2);
                lemma_shift10_at(fh);
                assert(100 * m2 >= 10 * mh - 2300);
                assert(100 * m2 <= 10 * mh + 100);
                if 100 * m2 <= 10 * mh {
                    lemma_mant_log_shift(100 * m2, 10 * mh, r2, SCALE + fh);
                } else {
                    lemma_mant_log_shift(10 * mh, 100 * m2, SCALE + fh, r2);
                }
                assert(spec_log10sub(c, b) == (wh - 1) * (SCALE as int) + r2);
            }
        }
    }
}

} // verus!

verus! {

/// Round trip of the display decomposition: parsing the mantissa/exponent
/// pair back lands within six thousandths of a decade of the original.
#[verifier::rlimit(90)]
pub proof fn lemma_parts_round_trip(x: int)
    requires
        -LOG_RANGE <= x <= LOG_RANGE,
    ensures
        x - 6_000 <= spec_log10_from_parts(spec_log10_parts(x).0, spec_log10_parts(x).1),
        spec_log10_from_parts(spec_log10_parts(x).0, spec_log10_parts(x).1) <= x + 6_000,
{
    let e = spec_whole(x);
    let f = spec_frac(x);
    lemma_fundamental_div_mod(x, SCALE as int);
    vstd::arithmetic::div_mod::lemma_mod_bound(x, SCALE as int);
    let pfv = spec_pow10_frac(f);
    lemma_pow10_frac_segment(f);
    let mant = (pfv + 5_000) / 10_000;
    lemma_fundamental_div_mod(pfv + 5_000, 10_000);
    vstd::arithmetic::div_mod::lemma_mod_bound(pfv + 5_000, 10_000);
    assert(100 <= mant <= 1_000) by {
        lemma_div_is_ordered(1_005_000, pfv + 5_000, 10_000);
        lemma_div_is_ordered(pfv + 5_000, 10_004_999, 10_000);
    }
    let m4 = mant * 10_000;
    assert(pfv - 5_000 < m4 <= pfv + 5_000);
    lemma_mant_log_inverts(f);
    lemma_pf_zero();
    assert(spec_log_shift_down(mant, 0) == (mant, 0int));
    if mant == 1_000 {
        // The mantissa rounded up to the next decade.
        assert(spec_norm(1_000int, 0) == spec_norm(10_000int, -1int));
        assert(spec_norm(10_000int, -1int) == spec_norm(100_000int, -2int));
        assert(spec_norm(100_000int, -2int) == spec_norm(1_000_000int, -3int));
        assert(spec_log10_u64(1_000) == 3 * (SCALE as int) + spec_mant_log(1_000_000));
        assert(mant_log_at(SCALE as int, 0)) by {
            lemma_mant_mono(0, 1);
        }
        let r0 = spec_mant_log(SCALE as int);
        assert(mant_log_at(SCALE as int, r0)) by {
            lemma_mant_log_exists(SCALE as int);
        }
        lemma_mant_log_unique(SCALE as int, r0, 0);
        assert(spec_log10_from_parts(mant, e) == (e + 1) * (SCALE as int));
        assert(f >= SCALE - 5_000) by {
            lemma_pow10_frac_segment(SCALE - 1);
            if f < SCALE - 1 {
                lemma_mant_lipschitz(f, SCALE - 1);
                assert(spec_mant(f) == pfv);
                assert(spec_mant(SCALE - 1) == spec_pow10_frac(SCALE - 1));
            }
        }
    } else {
        assert(spec_norm(mant, 0) == spec_norm(10 * mant, -1int));
        assert(spec_norm(10 * mant, -1int) == spec_norm(100 * mant, -2int));
        assert(spec_norm(100 * mant, -2int) == spec_norm(1_000 * mant, -3int));
        assert(spec_norm(1_000 * mant, -3int) == spec_norm(10_000 * mant, -4int));
        assert(10_000 * mant == m4);
        assert(SCALE <= m4 < 10 * SCALE);
        assert(spec_norm(m4, -4int) == (m4, -4int));
        assert(spec_log10_u64(mant as int) == 2 * (SCALE as int) + spec_mant_log(m4));
        lemma_mant_log_exists(m4);
        let l4 = spec_mant_log(m4);
        if m4 <= pfv {
            lemma_mant_log_shift(m4, pfv, l4, f);
        } else {
            lemma_mant_log_shift(pfv, m4, f, l4);
        }
        assert(spec_log10_from_parts(mant, e) == e * (SCALE as int) + l4);
    }
}

} // verus!
