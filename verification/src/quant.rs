//! Rounding of floats, on their bit patterns: to bf16, and onto the e2m1 grid
//! of the fp4 quantisers.

use crate::bytes::{le16, widened_bf16};
use crate::float_bits::{is_nan, is_negative, lemma_magnitude_units_monotone, magnitude, magnitude_units, negated, units};
use crate::rows::{concat_rows, lemma_concat_rows_len, lemma_concat_rows_row, row};
use vstd::arithmetic::power2::{lemma2_to64, lemma_pow2_adds, lemma_pow2_pos, pow2};
use vstd::prelude::*;

verus! {

/// The bf16 pattern that a float is rounded to: the upper half, after half of
/// the lower half's range and the upper half's last bit were added.
pub open spec fn bf16_of(b: u32) -> u16 {
    ((b + 0x7FFF + (b / 0x1_0000) % 2) % 0x1_0000_0000 / 0x1_0000) as u16
}

/// The bf16 bytes of floats.
pub open spec fn bf16_bytes_of(v: Seq<u32>) -> Seq<u8> {
    concat_rows(v.len(), |i: int| le16(bf16_of(v[i])))
}

/// Rounding to bf16 goes to the nearest pattern, ties to the even one. (The
/// patterns that wrap around, `0xFFFF8000` and up, are all NaN.)
pub proof fn lemma_bf16_rounds_to_nearest_even(b: u32)
    requires
        b < 0xFFFF_8000,
    ensures
        -0x8000 <= b - bf16_of(b) * 0x1_0000 <= 0x8000,
        b - bf16_of(b) * 0x1_0000 == 0x8000 || b - bf16_of(b) * 0x1_0000 == -0x8000 ==> bf16_of(b) % 2 == 0,
{
}

/// A value that bf16 can hold is kept.
pub proof fn lemma_bf16_keeps_bf16(x: u16)
    ensures
        bf16_of((x * 0x1_0000) as u32) == x,
{
}

/// Values that bf16 can hold come back from their bytes as they were.
pub proof fn lemma_bf16_bytes_round_trip(v: Seq<u32>)
    requires
        forall|i: int| 0 <= i < v.len() ==> (#[trigger] v[i]) % 0x1_0000 == 0,
    ensures
        widened_bf16(bf16_bytes_of(v)) == v,
{
    let f = |i: int| le16(bf16_of(v[i]));
    let b: Seq<u8> = bf16_bytes_of(v);
    assert forall|i: int| 0 <= i < v.len() implies (#[trigger] f(i)).len() == 2 by {}
    lemma_concat_rows_len(v.len(), 2, f);
    assert forall|i: int| 0 <= i < v.len() implies #[trigger] widened_bf16(b)[i] == v[i] by {
        lemma_concat_rows_row(v.len(), 2, f, i);
        let part: Seq<u8> = row(b, i, 2);
        assert(part == f(i));
        assert(part[0] == b[2 * i] && part[1] == b[2 * i + 1]);
        let x: u16 = (v[i] / 0x1_0000) as u16;
        lemma_bf16_keeps_bf16(x);
        assert(v[i] == x * 0x1_0000);
    }
    assert(widened_bf16(b) =~= v);
}

fn bf16_round(b: u32) -> (r: u16)
    ensures
        r == bf16_of(b),
{
    let lsb: u32 = (b / 0x1_0000) % 2;
    let add_on: u32 = 0x7FFF + lsb;
    let sum: u64 = (b as u64 + add_on as u64) % 0x1_0000_0000;
    (sum / 0x1_0000) as u16
}

/// The bytes of a bf16 device buffer that holds the floats `v`.
pub fn bf16_bytes(v: &[u32]) -> (r: Vec<u8>)
    ensures
        r@ == bf16_bytes_of(v@),
        r@.len() == 2 * v@.len(),
{
    let n: usize = v.len();
    let mut out: Vec<u8> = Vec::new();
    let ghost f = |i: int| le16(bf16_of(v@[i]));
    for i in 0..n
        invariant
            n == v@.len(),
            f == |i: int| le16(bf16_of(v@[i])),
            out@ == concat_rows(i as nat, f),
    {
        let x: u16 = bf16_round(v[i]);
        let ghost done: Seq<u8> = out@;
        out.push((x % 256) as u8);
        out.push((x / 256) as u8);
        assert(out@ =~= done + f(i as int));
    }
    proof {
        assert forall|i: int| 0 <= i < n implies (#[trigger] f(i)).len() == 2 by {}
        lemma_concat_rows_len(n as nat, 2, f);
    }
    out
}

/// The e2m1 grid by code: 0, 1/2, 1, 3/2, 2, 3, 4, 6, in the units of
/// [`crate::float_bits::units`], of which one half is `2^148`.
pub open spec fn e2m1_units(code: int) -> int {
    if code <= 0 {
        0
    } else if code == 1 {
        pow2(148) as int
    } else if code == 2 {
        2 * (pow2(148) as int)
    } else if code == 3 {
        3 * (pow2(148) as int)
    } else if code == 4 {
        4 * (pow2(148) as int)
    } else if code == 5 {
        6 * (pow2(148) as int)
    } else if code == 6 {
        8 * (pow2(148) as int)
    } else {
        12 * (pow2(148) as int)
    }
}

/// The bit pattern of a grid value.
pub open spec fn e2m1_pattern(code: int) -> u32 {
    if code == 0 {
        0x0000_0000
    } else if code == 1 {
        0x3F00_0000
    } else if code == 2 {
        0x3F80_0000
    } else if code == 3 {
        0x3FC0_0000
    } else if code == 4 {
        0x4000_0000
    } else if code == 5 {
        0x4040_0000
    } else if code == 6 {
        0x4080_0000
    } else {
        0x40C0_0000
    }
}

/// How far a magnitude is from a grid value.
pub open spec fn e2m1_distance(u: int, code: int) -> int {
    if u >= e2m1_units(code) {
        u - e2m1_units(code)
    } else {
        e2m1_units(code) - u
    }
}

/// No grid value is nearer to the magnitude `u`, and if another is as near,
/// this one has the even code.
pub open spec fn is_nearest_code(u: int, code: int) -> bool {
    &&& 0 <= code < 8
    &&& forall|j: int|
        0 <= j < 8 && j != code ==> {
            ||| #[trigger] e2m1_distance(u, j) > e2m1_distance(u, code)
            ||| e2m1_distance(u, j) == e2m1_distance(u, code) && code % 2 == 0
        }
}

proof fn lemma_pattern_units(mag: int, k: nat, m: int, scale: int, c: int)
    requires
        mag / 0x80_0000 == k + 1,
        mag % 0x80_0000 == m,
        pow2(k) == scale * pow2(124),
        c == (0x80_0000 + m) * scale,
    ensures
        magnitude_units(mag) == c * pow2(124),
{
    let p: int = pow2(124) as int;
    assert((0x80_0000 + m) * (scale * p) == ((0x80_0000 + m) * scale) * p) by (nonlinear_arith);
}

proof fn lemma_grid_powers()
    ensures
        pow2(125) == 2 * pow2(124),
        pow2(126) == 4 * pow2(124),
        pow2(127) == 8 * pow2(124),
        pow2(128) == 16 * pow2(124),
        pow2(148) == 0x100_0000 * pow2(124),
{
    lemma2_to64();
    lemma_pow2_adds(124, 1);
    lemma_pow2_adds(124, 2);
    lemma_pow2_adds(124, 3);
    lemma_pow2_adds(124, 4);
    lemma_pow2_adds(124, 24);
}

/// The patterns of the grid are worth what the grid says.
pub proof fn lemma_e2m1_patterns(code: int)
    requires
        0 <= code < 8,
    ensures
        magnitude_units(e2m1_pattern(code) as int) == e2m1_units(code),
{
    lemma_grid_powers();
    lemma_pattern_units(0x3F00_0000, 125, 0, 2, 0x100_0000);
    lemma_pattern_units(0x3F80_0000, 126, 0, 4, 0x200_0000);
    lemma_pattern_units(0x3FC0_0000, 126, 0x40_0000, 4, 0x300_0000);
    lemma_pattern_units(0x4000_0000, 127, 0, 8, 0x400_0000);
    lemma_pattern_units(0x4040_0000, 127, 0x40_0000, 8, 0x600_0000);
    lemma_pattern_units(0x4080_0000, 128, 0, 16, 0x800_0000);
    lemma_pattern_units(0x40C0_0000, 128, 0x40_0000, 16, 0xC00_0000);
    assert(magnitude_units(0) == 0);
}

proof fn lemma_midpoints()
    ensures
        magnitude_units(0x3E80_0000) * 2 == pow2(148),
        magnitude_units(0x3F40_0000) * 2 == 3 * pow2(148),
        magnitude_units(0x3FA0_0000) * 2 == 5 * pow2(148),
        magnitude_units(0x3FE0_0000) * 2 == 7 * pow2(148),
        magnitude_units(0x4020_0000) * 2 == 10 * pow2(148),
        magnitude_units(0x4060_0000) * 2 == 14 * pow2(148),
        magnitude_units(0x40A0_0000) * 2 == 20 * pow2(148),
{
    lemma_grid_powers();
    lemma_pattern_units(0x3E80_0000, 124, 0, 1, 0x80_0000);
    lemma_pattern_units(0x3F40_0000, 125, 0x40_0000, 2, 0x180_0000);
    lemma_pattern_units(0x3FA0_0000, 126, 0x20_0000, 4, 0x280_0000);
    lemma_pattern_units(0x3FE0_0000, 126, 0x60_0000, 4, 0x380_0000);
    lemma_pattern_units(0x4020_0000, 127, 0x20_0000, 8, 0x500_0000);
    lemma_pattern_units(0x4060_0000, 127, 0x60_0000, 8, 0x700_0000);
    lemma_pattern_units(0x40A0_0000, 128, 0x20_0000, 16, 0xA00_0000);
}

/// The code of the grid value that a float's magnitude is rounded to; NaN goes
/// to zero.
pub fn e2m1_code(b: u32) -> (r: u32)
    ensures
        is_nan(b) ==> r == 0,
        !is_nan(b) ==> is_nearest_code(magnitude_units(magnitude(b)), r as int),
{
    let mag: u32 = b % 0x8000_0000;
    let r: u32 = if mag > 0x7F80_0000 {
        0
    } else if mag <= 0x3E80_0000 {
        0
    } else if mag < 0x3F40_0000 {
        1
    } else if mag <= 0x3FA0_0000 {
        2
    } else if mag < 0x3FE0_0000 {
        3
    } else if mag <= 0x4020_0000 {
        4
    } else if mag < 0x4060_0000 {
        5
    } else if mag <= 0x40A0_0000 {
        6
    } else {
        7
    };
    proof {
        if mag <= 0x7F80_0000 {
            let m: int = mag as int;
            lemma_midpoints();
            lemma_pow2_pos(148);
            lemma_magnitude_units_monotone(0, m);
            lemma_magnitude_units_monotone(m, 0x3E80_0000);
            lemma_magnitude_units_monotone(m, 0x3F40_0000);
            lemma_magnitude_units_monotone(m, 0x3FA0_0000);
            lemma_magnitude_units_monotone(m, 0x3FE0_0000);
            lemma_magnitude_units_monotone(m, 0x4020_0000);
            lemma_magnitude_units_monotone(m, 0x4060_0000);
            lemma_magnitude_units_monotone(m, 0x40A0_0000);
            assert(magnitude_units(0) == 0);
            let u: int = magnitude_units(m);
            assert forall|j: int| 0 <= j < 8 && j != r as int implies {
                ||| #[trigger] e2m1_distance(u, j) > e2m1_distance(u, r as int)
                ||| e2m1_distance(u, j) == e2m1_distance(u, r as int) && r % 2 == 0
            } by {
                assert(j == 0 || j == 1 || j == 2 || j == 3 || j == 4 || j == 5 || j == 6 || j == 7);
            }
        }
    }
    r
}

/// The code of the grid value that a magnitude is rounded to.
pub open spec fn nearest_code(u: int) -> int {
    choose|c: int| is_nearest_code(u, c)
}

/// A float on the e2m1 grid: the nearest grid value with the float's sign; NaN
/// becomes a zero with its sign.
pub open spec fn e2m1_rounded(y: u32) -> u32 {
    if is_nan(y) {
        (y - magnitude(y)) as u32
    } else {
        (y - magnitude(y) + e2m1_pattern(nearest_code(magnitude_units(magnitude(y))))) as u32
    }
}

/// A float rounded onto the e2m1 grid, ties to the even code, keeping the sign.
pub fn to_e2m1_rne(y: u32) -> (r: u32)
    ensures
        r == e2m1_rounded(y),
        !is_nan(y) ==> is_nearest_code(
            magnitude_units(magnitude(y)),
            nearest_code(magnitude_units(magnitude(y))),
        ),
{
    let code: u32 = e2m1_code(y);
    let sign: u32 = y - y % 0x8000_0000;
    proof {
        if !is_nan(y) {
            let u: int = magnitude_units(magnitude(y));
            lemma_magnitude_units_monotone(magnitude(y), 0);
            assert(is_nearest_code(u, code as int));
            lemma_nearest_code_unique(u, nearest_code(u), code as int);
        }
    }
    let grid: u32 = if code == 0 {
        0x0000_0000
    } else if code == 1 {
        0x3F00_0000
    } else if code == 2 {
        0x3F80_0000
    } else if code == 3 {
        0x3FC0_0000
    } else if code == 4 {
        0x4000_0000
    } else if code == 5 {
        0x4040_0000
    } else if code == 6 {
        0x4080_0000
    } else {
        0x40C0_0000
    };
    sign + grid
}

/// There is one nearest grid value.
pub proof fn lemma_nearest_code_unique(u: int, a: int, b: int)
    requires
        0 <= u,
        is_nearest_code(u, a),
        is_nearest_code(u, b),
    ensures
        a == b,
{
    if a != b {
        lemma_pow2_pos(148);
        assert(a == 0 || a == 1 || a == 2 || a == 3 || a == 4 || a == 5 || a == 6 || a == 7);
        assert(b == 0 || b == 1 || b == 2 || b == 3 || b == 4 || b == 5 || b == 6 || b == 7);
        assert(e2m1_distance(u, a) == e2m1_distance(u, b));
        assert(e2m1_distance(u, 1) >= e2m1_distance(u, a));
        assert(e2m1_distance(u, 3) >= e2m1_distance(u, a));
        assert(e2m1_distance(u, 5) >= e2m1_distance(u, a));
    }
}

proof fn lemma_grid_value_is_nearest(code: int)
    requires
        0 <= code < 8,
    ensures
        is_nearest_code(e2m1_units(code), code),
        nearest_code(e2m1_units(code)) == code,
{
    lemma_pow2_pos(148);
    let u: int = e2m1_units(code);
    assert forall|j: int| 0 <= j < 8 && j != code implies {
        ||| #[trigger] e2m1_distance(u, j) > e2m1_distance(u, code)
        ||| e2m1_distance(u, j) == e2m1_distance(u, code) && code % 2 == 0
    } by {
        assert(j == 0 || j == 1 || j == 2 || j == 3 || j == 4 || j == 5 || j == 6 || j == 7);
        assert(code == 0 || code == 1 || code == 2 || code == 3 || code == 4 || code == 5 || code == 6 || code == 7);
    }
    assert(is_nearest_code(u, code));
    lemma_nearest_code_unique(u, nearest_code(u), code);
}

/// Every magnitude has a nearest grid value.
pub proof fn lemma_nearest_code_exists(u: int)
    requires
        0 <= u,
    ensures
        is_nearest_code(u, nearest_code(u)),
{
    lemma_pow2_pos(148);
    let half: int = pow2(148) as int;
    let code: int = if 2 * u <= half {
        0
    } else if 2 * u < 3 * half {
        1
    } else if 2 * u <= 5 * half {
        2
    } else if 2 * u < 7 * half {
        3
    } else if 2 * u <= 10 * half {
        4
    } else if 2 * u < 14 * half {
        5
    } else if 2 * u <= 20 * half {
        6
    } else {
        7
    };
    assert forall|j: int| 0 <= j < 8 && j != code implies {
        ||| #[trigger] e2m1_distance(u, j) > e2m1_distance(u, code)
        ||| e2m1_distance(u, j) == e2m1_distance(u, code) && code % 2 == 0
    } by {
        assert(j == 0 || j == 1 || j == 2 || j == 3 || j == 4 || j == 5 || j == 6 || j == 7);
    }
    assert(is_nearest_code(u, code));
}

/// The grid stays as it is: rounding twice is rounding once.
pub proof fn lemma_e2m1_idempotent(y: u32)
    ensures
        e2m1_rounded(e2m1_rounded(y)) == e2m1_rounded(y),
{
    let c: int = if is_nan(y) {
        0
    } else {
        nearest_code(magnitude_units(magnitude(y)))
    };
    if !is_nan(y) {
        lemma_magnitude_units_monotone(magnitude(y), 0);
        lemma_nearest_code_exists(magnitude_units(magnitude(y)));
    }
    let r: u32 = e2m1_rounded(y);
    assert(r == y - magnitude(y) + e2m1_pattern(c));
    assert(magnitude(r) == e2m1_pattern(c));
    lemma_e2m1_patterns(c);
    lemma_grid_value_is_nearest(c);
}

/// The nearest grid value of a larger magnitude is no smaller.
pub proof fn lemma_nearest_code_monotone(u: int, v: int)
    requires
        0 <= u <= v,
    ensures
        nearest_code(u) <= nearest_code(v),
        e2m1_units(nearest_code(u)) <= e2m1_units(nearest_code(v)),
{
    lemma_nearest_code_exists(u);
    lemma_nearest_code_exists(v);
    lemma_pow2_pos(148);
    let a: int = nearest_code(u);
    let b: int = nearest_code(v);
    assert(e2m1_distance(u, b) >= e2m1_distance(u, a));
    assert(e2m1_distance(v, a) >= e2m1_distance(v, b));
    assert(a == 0 || a == 1 || a == 2 || a == 3 || a == 4 || a == 5 || a == 6 || a == 7);
    assert(b == 0 || b == 1 || b == 2 || b == 3 || b == 4 || b == 5 || b == 6 || b == 7);
}

/// What a rounded float is worth.
proof fn lemma_e2m1_worth(y: u32)
    requires
        !is_nan(y),
    ensures
        0 <= magnitude_units(magnitude(y)),
        !is_nan(e2m1_rounded(y)),
        is_negative(e2m1_rounded(y)) == is_negative(y),
        magnitude_units(magnitude(e2m1_rounded(y))) == e2m1_units(nearest_code(magnitude_units(magnitude(y)))),
{
    lemma_magnitude_units_monotone(magnitude(y), 0);
    let u: int = magnitude_units(magnitude(y));
    lemma_nearest_code_exists(u);
    lemma_e2m1_patterns(nearest_code(u));
    assert(magnitude(e2m1_rounded(y)) == e2m1_pattern(nearest_code(u)));
}

/// Rounding onto the grid keeps the order of floats: no number is rounded to
/// less than a smaller one is.
pub proof fn lemma_e2m1_monotone(x: u32, y: u32)
    requires
        !is_nan(x),
        !is_nan(y),
        units(x) <= units(y),
    ensures
        units(e2m1_rounded(x)) <= units(e2m1_rounded(y)),
{
    lemma_e2m1_worth(x);
    lemma_e2m1_worth(y);
    lemma_pow2_pos(148);
    let u: int = magnitude_units(magnitude(x));
    let v: int = magnitude_units(magnitude(y));
    if !is_negative(x) && !is_negative(y) {
        lemma_nearest_code_monotone(u, v);
    } else if is_negative(x) && is_negative(y) {
        lemma_nearest_code_monotone(v, u);
    } else if is_negative(y) {
        lemma_grid_value_is_nearest(0);
    }
}

/// Rounding onto the grid is odd: the negative of a float is rounded to the
/// negative of what the float is rounded to, zeros and NaN included.
pub proof fn lemma_e2m1_odd(y: u32)
    ensures
        e2m1_rounded(negated(y)) == negated(e2m1_rounded(y)),
{
    assert(magnitude(negated(y)) == magnitude(y));
    if !is_nan(y) {
        lemma_e2m1_worth(y);
    }
}

/// The floor of a block's largest magnitude under e8m0 scales, `6 * 2^-126`.
pub const AMAX_FLOOR_E8M0: u32 = 0x01C0_0000;

/// The floor of a block's largest magnitude under e4m3 scales, `6 * 2^-9`.
pub const AMAX_FLOOR_E4M3: u32 = 0x3C40_0000;

/// `r` is the largest of a floor and the magnitudes of `s`, NaN left out.
pub open spec fn is_amax(s: Seq<u32>, floor: u32, r: u32) -> bool {
    &&& r >= floor
    &&& forall|i: int| 0 <= i < s.len() && !is_nan(#[trigger] s[i]) ==> magnitude(s[i]) <= r
    &&& r == floor || exists|i: int| 0 <= i < s.len() && !is_nan(#[trigger] s[i]) && magnitude(s[i]) == r
}

/// Block `b` of values that are quantised in blocks; the last may be shorter.
pub open spec fn quant_block(x: Seq<u32>, b: int, block: int) -> Seq<u32> {
    x.subrange(
        b * block,
        if (b + 1) * block < x.len() {
            (b + 1) * block
        } else {
            x.len() as int
        },
    )
}

/// The largest magnitude of each block, which its scale is made of, and no less
/// than a positive floor.
pub fn block_amaxes(x: &[u32], block: usize, floor: u32) -> (r: Vec<u32>)
    requires
        block > 0,
        floor <= 0x7F80_0000,
    ensures
        r@.len() == (x@.len() + block - 1) / block as int,
        forall|b: int| 0 <= b < r@.len() ==> is_amax(quant_block(x@, b, block as int), floor, #[trigger] r@[b]),
{
    let n: usize = x.len();
    let mut out: Vec<u32> = Vec::new();
    let mut start: usize = 0;
    assert(0 * block == 0) by (nonlinear_arith);
    while start < n
        invariant
            n == x@.len(),
            block > 0,
            floor <= 0x7F80_0000,
            start <= n,
            start == n || start == out@.len() * block,
            out@.len() * block < n + block,
            start == n ==> n <= out@.len() * block,
            forall|b: int| 0 <= b < out@.len() ==> is_amax(quant_block(x@, b, block as int), floor, #[trigger] out@[b]),
        decreases n - start,
    {
        let ghost b: int = out@.len() as int;
        let end: usize = if n - start < block { n } else { start + block };
        assert((b + 1) * block == b * block + block) by (nonlinear_arith);
        let ghost part: Seq<u32> = quant_block(x@, b, block as int);
        assert(part =~= x@.subrange(start as int, end as int));
        let mut best: u32 = floor;
        for i in start..end
            invariant
                n == x@.len(),
                end <= n,
                start < n,
                part == x@.subrange(start as int, end as int),
                floor <= 0x7F80_0000,
                is_amax(part.take(i - start), floor, best),
                best <= 0x7F80_0000,
        {
            let mag: u32 = x[i] % 0x8000_0000;
            let ghost was: u32 = best;
            let ghost shorter: Seq<u32> = part.take(i - start);
            let ghost longer: Seq<u32> = part.take(i + 1 - start);
            assert(longer =~= shorter.push(x@[i as int]));
            if mag <= 0x7F80_0000 && mag > best {
                best = mag;
                assert(longer[i - start] == x@[i as int]);
            }
            proof {
                if best == was && was != floor {
                    let k: int = choose|k: int|
                        0 <= k < shorter.len() && !is_nan(#[trigger] shorter[k]) && magnitude(shorter[k]) == was;
                    assert(longer[k] == shorter[k]);
                }
            }
            assert forall|j: int| 0 <= j < longer.len() && !is_nan(#[trigger] longer[j]) implies magnitude(longer[j])
                <= best by {
                if j < shorter.len() {
                    assert(longer[j] == shorter[j]);
                }
            }
        }
        assert(part.take(end - start) =~= part);
        out.push(best);
        start = end;
        assert forall|k: int| 0 <= k < out@.len() implies is_amax(
            quant_block(x@, k, block as int),
            floor,
            #[trigger] out@[k],
        ) by {}
    }
    proof {
        let len: int = out@.len() as int;
        let bl: int = block as int;
        if n == 0 {
            assert(len * bl < bl);
            assert(len == 0) by (nonlinear_arith)
                requires
                    len * bl < bl,
                    bl > 0,
                    len >= 0,
            ;
            vstd::arithmetic::div_mod::lemma_fundamental_div_mod_converse(bl - 1, bl, 0, bl - 1);
        } else {
            assert((len - 1) * bl == len * bl - bl) by (nonlinear_arith);
            vstd::arithmetic::div_mod::lemma_fundamental_div_mod_converse(
                n + bl - 1,
                bl,
                len,
                n + bl - 1 - len * bl,
            );
        }
    }
    out
}

/// Blocks follow one another: value `i` of block `b` is value `b * block + i`,
/// and only the last block may be shorter.
pub proof fn lemma_quant_blocks(x: Seq<u32>, b: int, block: int, i: int)
    requires
        0 < block,
        0 <= b,
        0 <= i < block,
        b * block + i < x.len(),
    ensures
        i < quant_block(x, b, block).len() <= block,
        quant_block(x, b, block)[i] == x[b * block + i],
        (b + 1) * block <= x.len() ==> quant_block(x, b, block).len() == block,
{
    assert((b + 1) * block == b * block + block && 0 <= b * block) by (nonlinear_arith)
        requires
            0 <= b,
            0 < block,
    ;
}

/// The floors are six units of the smallest scales: `6 * 2^-126` and `6 * 2^-9`,
/// where one is `2^149` units.
pub proof fn lemma_amax_floors()
    ensures
        magnitude_units(AMAX_FLOOR_E8M0 as int) == 6 * pow2(23),
        magnitude_units(AMAX_FLOOR_E4M3 as int) == 6 * pow2(140),
{
    lemma2_to64();
    lemma_pow2_adds(21, 119);
    lemma_pow2_adds(21, 2);
    let p: int = pow2(119) as int;
    assert(0x01C0_0000int / 0x80_0000 == 3 && 0x01C0_0000int % 0x80_0000 == 0x40_0000);
    assert(0x3C40_0000int / 0x80_0000 == 120 && 0x3C40_0000int % 0x80_0000 == 0x40_0000);
    assert(pow2(21) == 0x20_0000);
    assert(pow2(2) == 4);
    assert(0xC0_0000 * p == 6 * (0x20_0000 * p));
    assert(magnitude_units(AMAX_FLOOR_E4M3 as int) == 0xC0_0000 * p);
    assert(magnitude_units(AMAX_FLOOR_E8M0 as int) == 0xC0_0000 * 4);
}

} // verus!
