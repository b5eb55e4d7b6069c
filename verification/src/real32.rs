//! Single-precision numbers, held as their IEEE 754 bit patterns.
//!
//! The meter stores, sends and compares readings and calibration coordinates
//! without ever needing to do arithmetic on them here, and for that the bit
//! pattern is the number: `f32::to_bits` on the way in, `f32::from_bits` on
//! the way out. What this module gives those patterns is their meaning as
//! numbers, and the comparisons that follow from it.

use vstd::arithmetic::power2::{lemma_pow2_adds, lemma_pow2_pos, lemma_pow2_strictly_increases, pow2};
use vstd::prelude::*;

verus! {

/// Weight of the sign bit.
pub const SIGN: u32 = 0x8000_0000;

/// Weight of the lowest exponent bit, which is also how many mantissa
/// patterns there are.
pub const MANTISSA: u32 = 0x0080_0000;

/// The pattern of positive infinity; above it, without the sign, lie the NaNs.
pub const INFINITY: u32 = 0x7F80_0000;

/// The pattern with its sign bit cleared.
pub open spec fn magnitude(bits: u32) -> int {
    bits as int % 0x8000_0000
}

/// Whether the sign bit is set.
pub open spec fn signed(bits: u32) -> bool {
    bits >= SIGN
}

/// Not a number: an all-ones exponent over a mantissa that is not zero.
pub open spec fn nan(bits: u32) -> bool {
    magnitude(bits) > INFINITY
}

/// A number that is neither infinite nor NaN.
pub open spec fn finite(bits: u32) -> bool {
    magnitude(bits) < INFINITY
}

/// What the magnitude stands for, in units of 2^-149, the smallest step the
/// format has: subnormals are their mantissa, and a normal number is its
/// mantissa with the hidden bit, shifted up by the exponent. For the infinity
/// the same formula gives a number above every finite one.
pub open spec fn scaled(magnitude: int) -> int {
    let exponent = magnitude / 0x0080_0000;
    let mantissa = magnitude % 0x0080_0000;
    if exponent <= 0 {
        mantissa
    } else {
        (0x0080_0000 + mantissa) * pow2((exponent - 1) as nat)
    }
}

/// The number a pattern stands for, in units of 2^-149. Both zeros are 0.
pub open spec fn value(bits: u32) -> int {
    if signed(bits) {
        -scaled(magnitude(bits))
    } else {
        scaled(magnitude(bits))
    }
}

/// IEEE 754 "less than": false as soon as one side is not a number.
pub open spec fn less(a: u32, b: u32) -> bool {
    !nan(a) && !nan(b) && value(a) < value(b)
}

/// IEEE 754 "less than zero". Negative zero is not.
pub open spec fn negative(bits: u32) -> bool {
    less(bits, 0)
}

/// Larger magnitudes stand for larger numbers, so patterns of equal sign
/// compare as integers do.
pub proof fn law_scaled_is_increasing(a: int, b: int)
    requires
        0 <= a < b,
    ensures
        0 <= scaled(a) < scaled(b),
{
    let ea = a / 0x0080_0000;
    let eb = b / 0x0080_0000;
    let ma = a % 0x0080_0000;
    let mb = b % 0x0080_0000;
    assert(ea <= eb);
    if ea <= 0 {
        if eb > 0 {
            lemma_pow2_pos((eb - 1) as nat);
            let p: int = pow2((eb - 1) as nat) as int;
            assert((0x0080_0000 + mb) * p >= 0x0080_0000) by (nonlinear_arith)
                requires
                    p >= 1,
                    mb >= 0,
            ;
        }
    } else {
        lemma_pow2_pos((ea - 1) as nat);
        let p: int = pow2((ea - 1) as nat) as int;
        assert((0x0080_0000 + ma) * p >= 0) by (nonlinear_arith)
            requires
                p >= 1,
                ma >= 0,
        ;
        if ea == eb {
            assert((0x0080_0000 + ma) * p < (0x0080_0000 + mb) * p) by (nonlinear_arith)
                requires
                    p >= 1,
                    ma < mb,
            ;
        } else {
            let d = (eb - ea) as nat;
            lemma_pow2_pos(d);
            lemma_pow2_adds((ea - 1) as nat, d);
            vstd::arithmetic::power2::lemma2_to64();
            if d > 1 {
                lemma_pow2_strictly_increases(1, d);
            }
            let q: int = pow2(d) as int;
            assert(q >= 2);
            assert(pow2((eb - 1) as nat) == p * q);
            assert((0x0080_0000 + ma) * p < (0x0080_0000 + mb) * (p * q)) by (nonlinear_arith)
                requires
                    p >= 1,
                    q >= 2,
                    0 <= ma < 0x0080_0000,
                    mb >= 0,
            ;
        }
    }
}

proof fn lemma_less_by_pattern(a: u32, b: u32)
    requires
        !nan(a),
        !nan(b),
    ensures
        !signed(a) && !signed(b) ==> (less(a, b) <==> magnitude(a) < magnitude(b)),
        signed(a) && signed(b) ==> (less(a, b) <==> magnitude(b) < magnitude(a)),
        signed(a) && !signed(b) ==> (less(a, b) <==> magnitude(a) > 0 || magnitude(b) > 0),
        !signed(a) && signed(b) ==> !less(a, b),
{
    let ma = magnitude(a);
    let mb = magnitude(b);
    if ma < mb {
        law_scaled_is_increasing(ma, mb);
    }
    if mb < ma {
        law_scaled_is_increasing(mb, ma);
    }
    assert(scaled(0) == 0);
    if ma > 0 {
        law_scaled_is_increasing(0, ma);
    }
    if mb > 0 {
        law_scaled_is_increasing(0, mb);
    }
}

/// `f32::is_nan`.
pub fn is_nan(bits: u32) -> (yes: bool)
    ensures
        yes == nan(bits),
{
    bits % SIGN > INFINITY
}

/// `f32::is_finite`.
pub fn is_finite(bits: u32) -> (yes: bool)
    ensures
        yes == finite(bits),
{
    bits % SIGN < INFINITY
}

/// `a < b` as `f32` has it.
pub fn is_less(a: u32, b: u32) -> (yes: bool)
    ensures
        yes == less(a, b),
{
    let ma: u32 = a % SIGN;
    let mb: u32 = b % SIGN;
    if ma > INFINITY || mb > INFINITY {
        return false;
    }
    proof {
        lemma_less_by_pattern(a, b);
    }
    if a >= SIGN {
        if b >= SIGN {
            mb < ma
        } else {
            ma > 0 || mb > 0
        }
    } else if b >= SIGN {
        false
    } else {
        ma < mb
    }
}

/// `x < 0.0` as `f32` has it.
pub fn is_negative(bits: u32) -> (yes: bool)
    ensures
        yes == negative(bits),
{
    is_less(bits, 0)
}

/// The numbers, from the ground up: below the second normal exponent a pattern
/// counts the format's smallest steps, and from there on each exponent stands
/// for twice what the one below it does. The sign bit negates.
pub proof fn law_patterns_count_steps(bits: u32)
    requires
        bits < 0x8000_0000,
    ensures
        bits < 0x0100_0000 ==> value(bits) == bits,
        bits >= 0x0100_0000 ==> value(bits) == 2 * value((bits - 0x0080_0000) as u32),
        value((bits + 0x8000_0000) as u32) == -value(bits),
{
    let m = magnitude(bits);
    let flipped = (bits + 0x8000_0000) as u32;
    assert(magnitude(flipped) == m);
    vstd::arithmetic::power2::lemma2_to64();
    if bits >= 0x0100_0000 {
        let e = m / 0x0080_0000;
        let k = m % 0x0080_0000;
        assert((m - 0x0080_0000) / 0x0080_0000 == e - 1 && (m - 0x0080_0000) % 0x0080_0000 == k);
        lemma_pow2_adds(1, (e - 2) as nat);
        let p: int = pow2((e - 2) as nat) as int;
        assert(pow2((e - 1) as nat) == 2 * p);
        assert((0x0080_0000 + k) * (2 * p) == 2 * ((0x0080_0000 + k) * p)) by (nonlinear_arith);
    } else if bits >= 0x0080_0000 {
        let k = m % 0x0080_0000;
        assert(m / 0x0080_0000 == 1 && m == 0x0080_0000 + k);
        assert(scaled(m) == (0x0080_0000 + k) * pow2(0));
        assert((0x0080_0000 + k) * 1 == m);
    }
}

/// Which patterns are numbers, and which of those are finite.
pub proof fn law_patterns_are_numbers_below_infinity(bits: u32)
    ensures
        !nan(bits) <==> bits <= 0x7F80_0000 || 0x8000_0000 <= bits <= 0xFF80_0000,
        finite(bits) <==> bits < 0x7F80_0000 || 0x8000_0000 <= bits < 0xFF80_0000,
        negative(bits) <==> 0x8000_0000 < bits <= 0xFF80_0000,
{
    if !nan(bits) {
        lemma_less_by_pattern(bits, 0);
    }
}

/// How two numbers compare, by their patterns: without a sign as the patterns
/// do, both with a sign the other way round, and one below zero is less than
/// one that is not. The two zeros are equal.
pub proof fn law_numbers_compare_by_their_patterns(a: u32, b: u32)
    requires
        a <= 0x7F80_0000,
        b <= 0x7F80_0000,
    ensures
        less(a, b) <==> a < b,
        less((a + 0x8000_0000) as u32, (b + 0x8000_0000) as u32) <==> b < a,
        less((a + 0x8000_0000) as u32, b) <==> a > 0 || b > 0,
        !less(a, (b + 0x8000_0000) as u32),
{
    let x = (a + 0x8000_0000) as u32;
    let y = (b + 0x8000_0000) as u32;
    assert(magnitude(x) == a && magnitude(y) == b);
    lemma_less_by_pattern(a, b);
    lemma_less_by_pattern(x, y);
    lemma_less_by_pattern(x, b);
    lemma_less_by_pattern(a, y);
}

/// What is not a number compares with nothing; any two numbers are one less
/// than the other, or equal.
pub proof fn law_numbers_are_in_order(a: u32, b: u32)
    ensures
        nan(a) || nan(b) ==> !less(a, b) && !less(b, a),
        !nan(a) && !nan(b) ==> {
            &&& less(a, b) <==> value(a) < value(b)
            &&& !less(a, b) && !less(b, a) <==> value(a) == value(b)
        },
{
}

} // verus!
