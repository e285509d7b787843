//! Reading IEEE 754 binary32 numbers from their bit patterns.
//!
//! A pattern is a `u32`: the sign in the top bit, then eight exponent bits,
//! then twenty-three fraction bits. A few questions are asked of a number
//! here: is it greater than zero, where does it stand among the others,
//! what is its logarithm, and how does it compare with a fraction of two
//! counts.

use vstd::arithmetic::power2::lemma2_to64;
use vstd::arithmetic::power2::lemma_pow2_adds;
use vstd::arithmetic::power2::lemma_pow2_pos;
use vstd::arithmetic::power2::lemma_pow2_strictly_increases;
use vstd::arithmetic::power2::lemma_pow2_unfold;
use vstd::arithmetic::power2::pow2;
use vstd::prelude::*;

verus! {

/// The pattern of positive zero with the sign bit set: negative zero.
pub const SIGN: u32 = 0x8000_0000;

/// The pattern of positive infinity. Every greater magnitude is a NaN.
pub const INFINITE: u32 = 0x7F80_0000;

/// The pattern without its sign bit.
pub open spec fn magnitude(bits: u32) -> u32 {
    if bits >= SIGN {
        (bits - SIGN) as u32
    } else {
        bits
    }
}

/// Whether the pattern is that of a NaN.
pub open spec fn nan(bits: u32) -> bool {
    magnitude(bits) > INFINITE
}

/// Whether the number is greater than zero: the sign bit is clear, and the
/// rest is neither zero nor a NaN.
pub open spec fn positive(bits: u32) -> bool {
    0 < bits <= INFINITE
}

/// The place of the number in ascending order, as an integer: numbers compare
/// as their ordinals do. Both zeros share one ordinal; every NaN has the
/// greatest ordinal, so that it sorts behind all numbers.
pub open spec fn ordinal(bits: u32) -> u32 {
    if nan(bits) {
        u32::MAX
    } else if bits >= SIGN {
        (SIGN - magnitude(bits)) as u32
    } else {
        (SIGN + bits) as u32
    }
}

/// Whether the pattern is that of a NaN.
pub fn is_nan(bits: u32) -> (r: bool)
    ensures
        r == nan(bits),
{
    let rest: u32 = if bits >= SIGN {
        bits - SIGN
    } else {
        bits
    };
    rest > INFINITE
}

/// Whether the number is greater than zero.
pub fn is_positive(bits: u32) -> (r: bool)
    ensures
        r == positive(bits),
{
    0 < bits && bits <= INFINITE
}

/// The ordinal of the number.
pub fn rank(bits: u32) -> (r: u32)
    ensures
        r == ordinal(bits),
{
    if is_nan(bits) {
        u32::MAX
    } else if bits >= SIGN {
        SIGN - (bits - SIGN)
    } else {
        SIGN + bits
    }
}

/// The weight of the lowest exponent bit in a pattern.
pub const EXPONENT_UNIT: u32 = 0x80_0000;

/// The exponent field of the pattern.
pub open spec fn exponent(bits: u32) -> nat {
    (magnitude(bits) / EXPONENT_UNIT) as nat
}

/// The fraction field of the pattern.
pub open spec fn fraction(bits: u32) -> nat {
    (magnitude(bits) % EXPONENT_UNIT) as nat
}

/// The size of the number, sign apart, counted in the least positive
/// number that the format has. An infinity counts as the power of two that
/// follows the greatest finite number.
pub open spec fn size(bits: u32) -> nat {
    if exponent(bits) == 0 {
        fraction(bits)
    } else {
        ((EXPONENT_UNIT + fraction(bits)) * pow2((exponent(bits) - 1) as nat)) as nat
    }
}

/// The number, counted in the least positive number that the format has.
pub open spec fn scaled(bits: u32) -> int {
    if bits >= SIGN {
        -(size(bits) as int)
    } else {
        size(bits) as int
    }
}

/// Of two patterns, the one with the greater magnitude has the greater
/// size.
pub proof fn lemma_size_grows(a: u32, b: u32)
    requires
        magnitude(a) < magnitude(b),
    ensures
        size(a) < size(b),
{
    let ea = exponent(a);
    let eb = exponent(b);
    let fa = fraction(a);
    let fb = fraction(b);
    let unit = EXPONENT_UNIT as int;
    assert(fa < unit && fb < unit);
    assert(magnitude(a) == ea * unit + fa && magnitude(b) == eb * unit + fb);
    assert(ea <= eb) by (nonlinear_arith)
        requires
            ea * unit + fa < eb * unit + fb,
            0 <= fa < unit,
            0 <= fb < unit,
    ;
    if ea == eb {
        if ea > 0 {
            let p = pow2((ea - 1) as nat) as int;
            lemma_pow2_pos((ea - 1) as nat);
            assert((unit + fa) * p < (unit + fb) * p) by (nonlinear_arith)
                requires
                    fa < fb,
                    p > 0,
            ;
        }
    } else {
        let q = pow2((eb - 1) as nat) as int;
        lemma_pow2_pos((eb - 1) as nat);
        assert(unit * 1 <= (unit + fb) * q) by (nonlinear_arith)
            requires
                q >= 1,
                fb >= 0,
                unit > 0,
        ;
        if ea > 0 {
            let p = pow2((ea - 1) as nat) as int;
            lemma_pow2_pos((ea - 1) as nat);
            lemma_pow2_unfold(ea);
            if ea < eb - 1 {
                lemma_pow2_strictly_increases(ea, (eb - 1) as nat);
            }
            assert(pow2(ea) <= q);
            assert((unit + fa) * p < unit * (2 * p)) by (nonlinear_arith)
                requires
                    fa < unit,
                    p > 0,
            ;
            assert(unit * (2 * p) <= unit * q) by (nonlinear_arith)
                requires
                    2 * p <= q,
                    unit > 0,
            ;
            assert(unit * q <= (unit + fb) * q) by (nonlinear_arith)
                requires
                    q >= 1,
                    fb >= 0,
            ;
        }
    }
}

/// Numbers compare as their ordinals do: of two patterns that are no NaNs,
/// the one with the lesser ordinal is the lesser number, and those with one
/// ordinal are equal numbers.
pub proof fn lemma_ordinal_orders(a: u32, b: u32)
    requires
        !nan(a),
        !nan(b),
    ensures
        ordinal(a) < ordinal(b) <==> scaled(a) < scaled(b),
        ordinal(a) == ordinal(b) <==> scaled(a) == scaled(b),
{
    lemma_size_of_zero(a);
    lemma_size_of_zero(b);
    if magnitude(a) < magnitude(b) {
        lemma_size_grows(a, b);
    } else if magnitude(b) < magnitude(a) {
        lemma_size_grows(b, a);
    } else {
        assert(size(a) == size(b));
    }
}

/// Only the zeros have no size.
pub proof fn lemma_size_of_zero(a: u32)
    ensures
        size(a) == 0 <==> magnitude(a) == 0,
{
    if magnitude(a) > 0 {
        lemma_size_grows(0, a);
    }
}

/// A pattern is positive exactly when it is no NaN and its number is greater
/// than zero.
pub proof fn lemma_positive(a: u32)
    ensures
        positive(a) <==> !nan(a) && scaled(a) > 0,
{
    lemma_size_of_zero(a);
}

/// The base-two logarithm of the number, rounded down; 0 for a number
/// below one and for a pattern that is not positive. An infinity counts as
/// the power of two that follows the greatest finite number.
pub open spec fn whole_log2(bits: u32) -> nat {
    if positive(bits) && exponent(bits) >= 127 {
        (exponent(bits) - 127) as nat
    } else {
        0
    }
}

/// The base-two logarithm of the number, rounded down.
pub fn log2_floor(bits: u32) -> (r: usize)
    ensures
        r == whole_log2(bits),
{
    if is_positive(bits) && bits / EXPONENT_UNIT >= 127 {
        (bits / EXPONENT_UNIT - 127) as usize
    } else {
        0
    }
}

/// A number of one or more lies between the power of two that its
/// logarithm names and the next.
pub proof fn lemma_whole_log2(bits: u32)
    requires
        positive(bits),
        exponent(bits) >= 127,
    ensures
        pow2(whole_log2(bits) + 149) <= scaled(bits) < pow2(whole_log2(bits) + 150),
{
    let k = whole_log2(bits);
    let p = pow2(k + 126) as int;
    let f = fraction(bits) as int;
    lemma2_to64();
    lemma_pow2_adds(23, k + 126);
    lemma_pow2_adds(24, k + 126);
    lemma_pow2_pos(k + 126);
    assert(0x80_0000 * p <= (0x80_0000 + f) * p < 0x100_0000 * p) by (nonlinear_arith)
        requires
            0 <= f < 0x80_0000,
            p > 0,
    ;
}

/// Whether `total` items in `count` buckets are more to the bucket than the
/// number says: whether `total` is greater than the number times `count`.
pub open spec fn under_fraction(bits: u32, total: nat, count: nat) -> bool {
    total * pow2(149) > scaled(bits) * count
}

/// Two to the power of `d`.
fn two_to(d: u32) -> (r: u128)
    requires
        d < 128,
    ensures
        r == pow2(d as nat),
{
    let mut r: u128 = 1;
    let mut i: u32 = 0;
    proof {
        lemma2_to64();
    }
    while i < d
        invariant
            i <= d,
            d < 128,
            r == pow2(i as nat),
        decreases d - i,
    {
        proof {
            lemma_pow2_unfold((i + 1) as nat);
            lemma_pow2_127();
            if i < 126 {
                lemma_pow2_strictly_increases(i as nat, 126);
            }
            lemma_pow2_unfold(127);
        }
        r = r * 2;
        i += 1;
    }
    r
}

proof fn lemma_pow2_127()
    ensures
        pow2(127) == 0x8000_0000_0000_0000_0000_0000_0000_0000,
        pow2(88) == 0x100_0000_0000_0000_0000_0000,
        pow2(64) == 0x1_0000_0000_0000_0000,
{
    lemma2_to64();
    lemma_pow2_adds(64, 24);
    lemma_pow2_adds(64, 32);
    assert(pow2(96) == 0x1_0000_0000_0000_0000_0000_0000);
    lemma_pow2_adds(96, 31);
}

proof fn lemma_cancel(a: int, b: int, k: int)
    requires
        k > 0,
    ensures
        a * k > b * k <==> a > b,
{
    assert(a * k > b * k <==> a > b) by (nonlinear_arith)
        requires
            k > 0,
    ;
}

proof fn lemma_divided(a: int, p: int, d: int)
    requires
        d > 0,
        p >= 0,
    ensures
        a * d > p <==> a > p / d,
{
    vstd::arithmetic::div_mod::lemma_fundamental_div_mod(p, d);
    let q = p / d;
    let r = p % d;
    assert(0 <= r < d);
    assert(a * d > d * q + r <==> a > q) by (nonlinear_arith)
        requires
            0 <= r < d,
    ;
}

/// Whether `total` is greater than the number times `count`. The number
/// must not be a NaN.
pub fn is_under_fraction(bits: u32, total: usize, count: usize) -> (r: bool)
    requires
        !nan(bits),
    ensures
        r == under_fraction(bits, total as nat, count as nat),
{
    proof {
        lemma_size_of_zero(bits);
        lemma_pow2_pos(149);
        lemma_pow2_127();
    }
    if bits >= SIGN || bits == 0 {
        let r = total > 0 || (bits > SIGN && count > 0);
        proof {
            let s = scaled(bits);
            let a = pow2(149) as int;
            assert(s <= 0);
            assert(total * a > s * count <==> r) by (nonlinear_arith)
                requires
                    a > 0,
                    s <= 0,
                    total >= 0,
                    count >= 0,
                    r == (total > 0 || (s < 0 && count > 0)),
            ;
        }
        return r;
    }
    let e: u32 = bits / EXPONENT_UNIT;
    let f: u32 = bits % EXPONENT_UNIT;
    let m: u128 = if e == 0 {
        f as u128
    } else {
        (EXPONENT_UNIT + f) as u128
    };
    let high: u32 = if e == 0 {
        0
    } else {
        e - 1
    };
    assert(m * count < 0x100_0000 * 0x1_0000_0000_0000_0000) by (nonlinear_arith)
        requires
            0 <= m < 0x100_0000,
            0 <= count < 0x1_0000_0000_0000_0000,
    ;
    let p: u128 = m * (count as u128);
    proof {
        lemma2_to64();
        assert(scaled(bits) == m * pow2(high as nat));
    }
    if high >= 149 {
        let d: u32 = high - 149;
        proof {
            let a = pow2(149) as int;
            let dd = pow2(d as nat) as int;
            lemma_pow2_adds(149, d as nat);
            lemma_pow2_pos(d as nat);
            assert(scaled(bits) * count == (p * dd) * a) by (nonlinear_arith)
                requires
                    scaled(bits) == m * (a * dd),
                    p == m * count,
            ;
            lemma_cancel(total as int, p * dd, a);
            if d > 64 {
                lemma_pow2_strictly_increases(64, d as nat);
            }
            if d >= 64 && p > 0 {
                assert(p * dd >= 0x1_0000_0000_0000_0000) by (nonlinear_arith)
                    requires
                        p >= 1,
                        dd >= 0x1_0000_0000_0000_0000,
                ;
            }
            if p >= 0x1_0000_0000_0000_0000 {
                assert(p * dd >= 0x1_0000_0000_0000_0000) by (nonlinear_arith)
                    requires
                        p >= 0x1_0000_0000_0000_0000,
                        dd >= 1,
                ;
            }
            if d < 64 {
                lemma_pow2_strictly_increases(d as nat, 64);
                if p < 0x1_0000_0000_0000_0000 {
                    assert(p * dd < 0x1_0000_0000_0000_0000 * 0x1_0000_0000_0000_0000)
                        by (nonlinear_arith)
                        requires
                            0 <= p < 0x1_0000_0000_0000_0000,
                            0 <= dd < 0x1_0000_0000_0000_0000,
                    ;
                }
            }
        }
        if p == 0 {
            total > 0
        } else if d >= 64 || p >= 0x1_0000_0000_0000_0000 {
            false
        } else {
            (total as u128) > p * two_to(d)
        }
    } else {
        let d: u32 = 149 - high;
        proof {
            let b = pow2(high as nat) as int;
            let dd = pow2(d as nat) as int;
            lemma_pow2_adds(high as nat, d as nat);
            lemma_pow2_pos(d as nat);
            lemma_pow2_pos(high as nat);
            assert(total * pow2(149) == (total * dd) * b) by (nonlinear_arith)
                requires
                    pow2(149) == b * dd,
            ;
            assert(scaled(bits) * count == p * b) by (nonlinear_arith)
                requires
                    scaled(bits) == m * b,
                    p == m * count,
            ;
            lemma_cancel(total * dd, p as int, b);
            lemma_divided(total as int, p as int, dd);
            if d > 88 {
                lemma_pow2_strictly_increases(88, d as nat);
            }
            if d >= 88 {
                assert((p as int) / dd == 0) by (nonlinear_arith)
                    requires
                        0 <= p < dd,
                ;
            }
        }
        if d >= 88 {
            total > 0
        } else {
            (total as u128) > p / two_to(d)
        }
    }
}

} // verus!
