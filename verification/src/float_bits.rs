//! IEEE-754 single precision numbers as bit patterns.
//!
//! The host logic only ever orders, copies and rounds floats: it never adds two
//! of them. So a float is held as its bit pattern, a `u32`, and what the
//! pattern is worth is the integer [`units`]: the number in units of the
//! smallest subnormal, `2^-149`.

use vstd::arithmetic::power2::{lemma2_to64, lemma_pow2_adds, lemma_pow2_pos, lemma_pow2_strictly_increases, pow2};
use vstd::prelude::*;

verus! {

/// The bit pattern of negative infinity.
pub const NEG_INFINITY: u32 = 0xFF80_0000;

/// The bit pattern of positive infinity.
pub const INFINITY: u32 = 0x7F80_0000;

/// The bit pattern without its sign bit.
pub open spec fn magnitude(b: u32) -> int {
    b as int % 0x8000_0000
}

/// The sign bit.
pub open spec fn is_negative(b: u32) -> bool {
    b >= 0x8000_0000
}

/// A pattern that is not a number.
pub open spec fn is_nan(b: u32) -> bool {
    magnitude(b) > 0x7F80_0000
}

/// What a magnitude is worth in units of `2^-149`. Infinity comes out as
/// `2^277`, one step above the largest finite number.
pub open spec fn magnitude_units(mag: int) -> int {
    let e: int = mag / 0x80_0000;
    let m: int = mag % 0x80_0000;
    if e <= 0 {
        m
    } else {
        (0x80_0000 + m) * pow2((e - 1) as nat)
    }
}

/// What a pattern is worth in units of `2^-149`; meaningless for NaN.
pub open spec fn units(b: u32) -> int {
    if is_negative(b) {
        -magnitude_units(magnitude(b))
    } else {
        magnitude_units(magnitude(b))
    }
}

/// The pattern with the other sign bit.
pub open spec fn negated(b: u32) -> u32 {
    if is_negative(b) {
        (b - 0x8000_0000) as u32
    } else {
        (b + 0x8000_0000) as u32
    }
}

/// `x > y` on floats: false as soon as one of the two is NaN.
pub open spec fn float_gt(x: u32, y: u32) -> bool {
    &&& !is_nan(x)
    &&& !is_nan(y)
    &&& units(x) > units(y)
}

/// The order of a descending selection that puts NaN first: `x` comes strictly
/// before `y`.
pub open spec fn before(x: u32, y: u32) -> bool {
    (is_nan(x) && !is_nan(y)) || float_gt(x, y)
}

/// The place of a pattern in that order, as an integer: the larger, the earlier.
pub open spec fn rank(b: u32) -> int {
    if is_nan(b) {
        0x8000_0000
    } else if is_negative(b) {
        -magnitude(b)
    } else {
        magnitude(b)
    }
}

proof fn lemma_magnitude_units_increasing(a: int, b: int)
    requires
        0 <= a < b <= 0x7F80_0000,
    ensures
        magnitude_units(a) < magnitude_units(b),
        0 <= magnitude_units(a),
{
    let ea: int = a / 0x80_0000;
    let ma: int = a % 0x80_0000;
    let eb: int = b / 0x80_0000;
    let mb: int = b % 0x80_0000;
    lemma2_to64();
    if ea > 0 {
        lemma_pow2_pos((ea - 1) as nat);
        let pa: int = pow2((ea - 1) as nat) as int;
        assert(0 <= (0x80_0000 + ma) * pa) by (nonlinear_arith)
            requires
                0 <= ma,
                0 < pa,
        ;
    }
    if eb > 0 {
        lemma_pow2_pos((eb - 1) as nat);
        let pb: int = pow2((eb - 1) as nat) as int;
        assert((0x80_0000 + mb) * pb >= 0x80_0000) by (nonlinear_arith)
            requires
                0 <= mb,
                1 <= pb,
        ;
        if ea == eb {
            assert((0x80_0000 + ma) * pb < (0x80_0000 + mb) * pb) by (nonlinear_arith)
                requires
                    ma < mb,
                    0 < pb,
            ;
        } else if ea > 0 {
            lemma_pow2_adds((ea - 1) as nat, 1);
            let pa: int = pow2((ea - 1) as nat) as int;
            let pn: int = pow2(ea as nat) as int;
            if ea < eb - 1 {
                lemma_pow2_strictly_increases(ea as nat, (eb - 1) as nat);
            }
            assert(pn == pa * 2);
            assert((0x80_0000 + ma) * pa < (0x80_0000 + mb) * pb) by (nonlinear_arith)
                requires
                    0 <= ma < 0x80_0000,
                    0 <= mb,
                    0 < pa,
                    pa * 2 <= pb,
            ;
        }
    }
}

/// Larger magnitude patterns are worth more.
pub proof fn lemma_magnitude_units_monotone(a: int, b: int)
    requires
        0 <= a <= 0x7F80_0000,
        0 <= b <= 0x7F80_0000,
    ensures
        a < b <==> magnitude_units(a) < magnitude_units(b),
        a <= b <==> magnitude_units(a) <= magnitude_units(b),
        0 <= magnitude_units(a),
{
    if a < b {
        lemma_magnitude_units_increasing(a, b);
    } else if b < a {
        lemma_magnitude_units_increasing(b, a);
    } else if a < 0x7F80_0000 {
        lemma_magnitude_units_increasing(a, a + 1);
    } else {
        lemma_magnitude_units_increasing(0, a);
    }
}

/// The order of [`before`] is the order of [`rank`].
pub proof fn lemma_before_is_rank_order(x: u32, y: u32)
    ensures
        before(x, y) <==> rank(x) > rank(y),
{
    if !is_nan(x) && !is_nan(y) {
        let a: int = magnitude(x);
        let b: int = magnitude(y);
        if a < b {
            lemma_magnitude_units_increasing(a, b);
        } else if b < a {
            lemma_magnitude_units_increasing(b, a);
        }
        if a > 0 {
            lemma_magnitude_units_increasing(0, a);
        }
        if b > 0 {
            lemma_magnitude_units_increasing(0, b);
        }
        assert(magnitude_units(0) == 0);
    }
}

/// Whether a pattern is not a number.
pub fn nan(b: u32) -> (r: bool)
    ensures
        r == is_nan(b),
{
    b % 0x8000_0000 > 0x7F80_0000
}

/// The integer by which a pattern is ordered.
pub fn order_key(b: u32) -> (r: i64)
    ensures
        r == rank(b),
{
    let mag: u32 = b % 0x8000_0000;
    if mag > 0x7F80_0000 {
        0x8000_0000
    } else if b >= 0x8000_0000 {
        -(mag as i64)
    } else {
        mag as i64
    }
}

/// Whether `x` comes strictly before `y` in a descending selection with NaN first.
pub fn comes_before(x: u32, y: u32) -> (r: bool)
    ensures
        r == before(x, y),
{
    proof {
        lemma_before_is_rank_order(x, y);
    }
    order_key(x) > order_key(y)
}

/// `x > y` on floats.
pub fn greater(x: u32, y: u32) -> (r: bool)
    ensures
        r == float_gt(x, y),
{
    proof {
        lemma_before_is_rank_order(x, y);
    }
    !nan(x) && !nan(y) && order_key(x) > order_key(y)
}

/// The larger of two floats, the one that is a number where the other is not,
/// and the first where neither is larger.
pub open spec fn larger(x: u32, y: u32) -> u32 {
    if is_nan(x) || float_gt(y, x) {
        y
    } else {
        x
    }
}

/// The larger of two floats, ignoring NaN.
pub fn max_float(x: u32, y: u32) -> (r: u32)
    ensures
        r == larger(x, y),
{
    if nan(x) || greater(y, x) {
        y
    } else {
        x
    }
}

} // verus!
