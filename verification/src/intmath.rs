//! Integer helpers used by theory-specific growth formulas: a closed-form
//! stepwise level sum and small base-two utilities.

use vstd::prelude::*;
use vstd::arithmetic::div_mod::lemma_fundamental_div_mod;

verus! {

/// Closed form of the stepwise level sum: the first `length` levels count
/// once; past that, each completed block of `length` levels adds a growing
/// multiple of `base`, plus the raw level count again.
pub open spec fn spec_stepwise_sum(level: int, base: int, length: int) -> int {
    if level <= length {
        level
    } else {
        let lv = level - length;
        let cycles = lv / length;
        let modpart = lv - cycles * length;
        (base * (cycles + 1) * (length * cycles + 2 * modpart)) / 2 + length + lv
    }
}

/// Executable closed-form stepwise sum.
pub fn stepwise_sum(level: u32, base: u32, length: u32) -> (r: u32)
    requires
        1 <= length,
        spec_stepwise_sum(level as int, base as int, length as int) <= u32::MAX,
    ensures
        r == spec_stepwise_sum(level as int, base as int, length as int),
{
    if level <= length {
        return level;
    }
    let lv: u32 = level - length;
    let cycles: u32 = lv / length;
    proof {
        lemma_fundamental_div_mod(lv as int, length as int);
        assert((cycles as int) * (length as int) <= lv as int);
        assert((cycles as int) * (length as int) >= 0) by (nonlinear_arith)
            requires
                cycles >= 0,
                length >= 0,
        ;
    }
    let modpart: u32 = lv - cycles * length;
    let b: u64 = base as u64;
    let c1: u64 = cycles as u64 + 1;
    let k: u64 = (length as u64) * (cycles as u64) + 2 * (modpart as u64);
    proof {
        let bi = base as int;
        let c1i = cycles as int + 1;
        let ki = (length as int) * (cycles as int) + 2 * (modpart as int);
        assert((length as int) * (cycles as int) == lv - modpart);
        assert(ki == lv + modpart);
        assert(ki >= 1);
        assert(bi * c1i * ki >= 0) by (nonlinear_arith)
            requires
                bi >= 0,
                c1i >= 0,
                ki >= 0,
        ;
        assert((bi * c1i * ki) / 2 * 2 <= bi * c1i * ki) by {
            lemma_fundamental_div_mod(bi * c1i * ki, 2);
        }
        assert(bi * c1i * ki <= 2 * (u32::MAX as int) + 1) by {
            assert((bi * c1i * ki) / 2 + length + lv <= u32::MAX);
            assert((bi * c1i * ki) / 2 >= 0);
            lemma_fundamental_div_mod(bi * c1i * ki, 2);
        }
        assert(bi * c1i <= bi * c1i * ki) by (nonlinear_arith)
            requires
                ki >= 1,
                bi * c1i >= 0,
        ;
        assert(bi * c1i >= 0) by (nonlinear_arith)
            requires
                bi >= 0,
                c1i >= 0,
        ;
    }
    let prod: u64 = b * c1 * k;
    let term: u32 = (prod / 2) as u32;
    term + length + lv
}

/// `n` is an exact power of two: one, or an even number whose half is one.
pub open spec fn spec_is_pow2(n: int) -> bool
    decreases n,
{
    if n <= 0 {
        false
    } else if n == 1 {
        true
    } else if n % 2 == 1 {
        false
    } else {
        spec_is_pow2(n / 2)
    }
}

/// Tests whether a word is an exact power of two by halving it down.
pub fn u32_is_powerof2(n: u32) -> (r: bool)
    ensures
        r == spec_is_pow2(n as int),
{
    if n == 0 {
        return false;
    }
    let mut m: u32 = n;
    while m != 1
        invariant
            1 <= m,
            spec_is_pow2(n as int) == spec_is_pow2(m as int),
        decreases m,
    {
        if m & 1 == 1 {
            proof {
                assert(m & 1 == 1 ==> m % 2 == 1) by (bit_vector);
            }
            return false;
        }
        proof {
            assert(m & 1 != 1 ==> m % 2 == 0) by (bit_vector);
            assert(m >> 1 == m / 2) by (bit_vector);
        }
        m = m >> 1;
    }
    true
}

/// Floor base-two logarithm (zero for one).
pub open spec fn spec_log2(n: int) -> int
    decreases n,
{
    if n <= 1 {
        0
    } else {
        1 + spec_log2(n / 2)
    }
}

proof fn lemma_log2_nonneg(n: int)
    ensures
        spec_log2(n) >= 0,
    decreases n,
{
    if n > 1 {
        lemma_log2_nonneg(n / 2);
    }
}

proof fn lemma_log2_upper(n: int, k: nat)
    requires
        1 <= n < vstd::arithmetic::power2::pow2(k),
    ensures
        spec_log2(n) < k,
    decreases n,
{
    vstd::arithmetic::power2::lemma_pow2_pos(k);
    if n <= 1 {
        if k == 0 {
            assert(vstd::arithmetic::power2::pow2(0) == 1) by {
                vstd::arithmetic::power2::lemma2_to64();
            }
        }
    } else {
        assert(k >= 1) by {
            if k == 0 {
                assert(vstd::arithmetic::power2::pow2(0) == 1) by {
                    vstd::arithmetic::power2::lemma2_to64();
                }
            }
        }
        assert(vstd::arithmetic::power2::pow2(k) == 2 * vstd::arithmetic::power2::pow2(
            (k - 1) as nat,
        )) by {
            vstd::arithmetic::power2::lemma_pow2_unfold(k);
        }
        lemma_log2_upper(n / 2, (k - 1) as nat);
    }
}

/// Floor base-two logarithm of a word; the all-ones word marks the undefined
/// case of zero.
pub fn u32_log2(n: u32) -> (r: u32)
    ensures
        n == 0 ==> r == u32::MAX,
        n >= 1 ==> r == spec_log2(n as int),
{
    if n == 0 {
        return u32::MAX;
    }
    let mut m: u32 = n;
    let mut res: u32 = 0;
    proof {
        assert(n < vstd::arithmetic::power2::pow2(32)) by {
            vstd::arithmetic::power2::lemma2_to64();
        }
        lemma_log2_upper(n as int, 32);
    }
    while m != 1
        invariant
            1 <= m <= n,
            0 <= res,
            res + spec_log2(m as int) == spec_log2(n as int),
            spec_log2(n as int) <= 31,
        decreases m,
    {
        proof {
            assert(m >> 1 == m / 2) by (bit_vector);
            assert(m >= 2 ==> 1 <= (m >> 1) < m) by (bit_vector);
            assert(spec_log2(m as int) == 1 + spec_log2(m as int / 2));
            lemma_log2_nonneg(m as int / 2);
        }
        m = m >> 1;
        res = res + 1;
    }
    proof {
        lemma_log2_nonneg(n as int);
    }
    res
}

} // verus!
