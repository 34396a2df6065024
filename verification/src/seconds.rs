//! Times in seconds that are kept as the bits of a 64-bit float.

use vstd::arithmetic::power2::*;
use vstd::bits::*;
use vstd::prelude::*;

verus! {

/// Two to the power of 52: one more than the greatest fraction.
pub const FRACTION: u64 = 0x10_0000_0000_0000;

/// Two to the power of 63: the sign bit.
pub const SIGN: u64 = 0x8000_0000_0000_0000;

/// The exponent of infinity, and of what is not a number.
pub const EXPONENT_MAX: u64 = 2047;

/// The biased exponent.
pub open spec fn exponent(bits: u64) -> int {
    bits as int / FRACTION as int % 2048
}

/// The fraction, as an integer.
pub open spec fn fraction(bits: u64) -> int {
    bits as int % FRACTION as int
}

/// A number greater than zero.
pub open spec fn positive(bits: u64) -> bool {
    &&& 0 < bits < SIGN
    &&& !(exponent(bits) == EXPONENT_MAX && fraction(bits) > 0)
}

/// The whole seconds of a time: 0 of what is not positive, and no more than `max`.
pub open spec fn whole(bits: u64, max: int) -> int {
    let e = exponent(bits);
    let m = FRACTION + fraction(bits);
    if !positive(bits) || e < 1023 {
        0
    } else if e < 1075 {
        m / pow2((1075 - e) as nat) as int
    } else if e > 1086 || m * pow2((e - 1075) as nat) > max {
        max
    } else {
        m * pow2((e - 1075) as nat)
    }
}

/// The biased exponent.
fn exponent_of(bits: u64) -> (r: u64)
    ensures
        r == exponent(bits),
{
    bits / FRACTION % 2048
}

/// Whether a number is greater than zero.
pub fn is_positive(bits: u64) -> (r: bool)
    ensures
        r == positive(bits),
{
    0 < bits && bits < SIGN && !(exponent_of(bits) == EXPONENT_MAX && bits % FRACTION > 0)
}

/// The whole seconds of a time: 0 of what is not positive, and no more than `max`.
pub fn whole_seconds(bits: u64, max: u64) -> (r: u64)
    requires
        max >= 0x7fff_ffff_ffff_ffff,
    ensures
        r == whole(bits, max as int),
        r <= max,
{
    let e = exponent_of(bits);
    if !is_positive(bits) || e < 1023 {
        return 0;
    }
    let m: u64 = FRACTION + bits % FRACTION;
    if e < 1075 {
        let down: u64 = 1075 - e;
        proof {
            lemma_u64_shr_is_div(m, down);
            lemma_pow2_pos(down as nat);
            let p = pow2(down as nat) as int;
            assert(m as int / p <= m) by (nonlinear_arith)
                requires
                    0 <= m,
                    p >= 1,
            ;
        }
        return m >> down;
    }
    if e > 1086 {
        return max;
    }
    let up: u64 = e - 1075;
    proof {
        lemma2_to64();
        if up < 11 {
            lemma_pow2_strictly_increases(up as nat, 11);
        }
        let p = pow2(up as nat) as int;
        assert(m * p <= 0x1f_ffff_ffff_ffff * 2048) by (nonlinear_arith)
            requires
                0 <= m <= 0x1f_ffff_ffff_ffff,
                0 <= p <= 2048,
        ;
        lemma_u64_shl_is_mul(m, up);
    }
    let r: u64 = m << up;
    if r > max {
        max
    } else {
        r
    }
}

/// The whole seconds of a time of one second at least, and less than two to the power of 52, are
/// the greatest number that is not greater than it.
pub proof fn law_whole(bits: u64, max: int)
    requires
        positive(bits),
        1023 <= exponent(bits) < 1075,
    ensures
        whole(bits, max) * pow2((1075 - exponent(bits)) as nat) <= FRACTION + fraction(bits),
        FRACTION + fraction(bits) < (whole(bits, max) + 1) * pow2((1075 - exponent(bits)) as nat),
        FRACTION == pow2(52),
{
    let p = pow2((1075 - exponent(bits)) as nat) as int;
    let m = FRACTION + fraction(bits);
    lemma_pow2_pos((1075 - exponent(bits)) as nat);
    lemma2_to64();
    lemma2_to64_rest();
    vstd::arithmetic::div_mod::lemma_fundamental_div_mod(m, p);
    vstd::arithmetic::div_mod::lemma_mod_bound(m, p);
    let w = m / p;
    assert(w * p <= m < (w + 1) * p) by (nonlinear_arith)
        requires
            m == p * w + m % p,
            0 <= m % p < p,
    ;
}

/// A time of less than a second has no whole seconds, nor has a negative one.
pub proof fn law_whole_none(bits: u64, max: int)
    requires
        bits >= SIGN || exponent(bits) < 1023,
    ensures
        whole(bits, max) == 0,
        SIGN == 2 * pow2(62),
{
    lemma2_to64_rest();
}

/// There are never fewer whole seconds than none.
pub proof fn lemma_whole_not_negative(bits: u64, max: int)
    requires
        max >= 0,
    ensures
        whole(bits, max) >= 0,
{
    let e = exponent(bits);
    let m = FRACTION + fraction(bits);
    if positive(bits) && 1023 <= e < 1075 {
        lemma_pow2_pos((1075 - e) as nat);
        let p = pow2((1075 - e) as nat) as int;
        assert(m / p >= 0) by (nonlinear_arith)
            requires
                m >= 0,
                p > 0,
        ;
    } else if positive(bits) && e >= 1075 {
        let p = pow2((e - 1075) as nat) as int;
        assert(m * p >= 0) by (nonlinear_arith)
            requires
                m >= 0,
                p >= 0,
        ;
    }
}

} // verus!
