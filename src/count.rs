//! Element counts, which the format stores as a double holding the count plus
//! a fixed fraction.
//!
//! A double is carried as its IEEE-754 bit pattern. Its value is an integer
//! multiple of the smallest subnormal, two to the power minus 1074, so values
//! are stated as that integer (`value_num`).
use vstd::prelude::*;
use vstd::arithmetic::power2::{pow2, lemma_pow2_adds, lemma_pow2_pos, lemma_pow2_strictly_increases, lemma2_to64, lemma2_to64_rest};
use vstd::arithmetic::div_mod::{lemma_fundamental_div_mod, lemma_mod_pos_bound};
use crate::error::LevelError;

verus! {

/// The largest count that a section may hold.
pub const MAX_COUNT: usize = 65535;

/// The fraction added to polygon and object counts: the double nearest
/// 4643643 ten-millionths.
pub const POLYGON_OFFSET: u64 = 0x3fdd_b825_0a7b_8405;

/// The fraction added to picture counts: the double nearest 2345672
/// ten-millionths.
pub const PICTURE_OFFSET: u64 = 0x3fce_064c_4a5b_6de5;

const FRACTION_UNIT: u64 = 0x10_0000_0000_0000;

/// Two to the power 60: one, in the units of the exec computation.
const ONE: u128 = 0x1000_0000_0000_0000;

/// One half in the same units.
const HALF: u128 = 0x800_0000_0000_0000;

pub open spec fn exp_of(b: u64) -> int {
    (b as int / 0x10_0000_0000_0000) % 2048
}

pub open spec fn frac_of(b: u64) -> int {
    b as int % 0x10_0000_0000_0000
}

pub open spec fn is_negative(b: u64) -> bool {
    b as int >= 0x8000_0000_0000_0000
}

/// Neither infinite nor NaN.
pub open spec fn is_finite(b: u64) -> bool {
    exp_of(b) != 2047
}

pub open spec fn significand(b: u64) -> int {
    if exp_of(b) == 0 {
        frac_of(b)
    } else {
        frac_of(b) + 0x10_0000_0000_0000
    }
}

/// The weight of the significand's last bit, as a power of two in units of
/// two to the power minus 1074.
pub open spec fn ulp_exp(b: u64) -> nat {
    if exp_of(b) == 0 {
        0
    } else {
        (exp_of(b) - 1) as nat
    }
}

/// The value of a finite double, in units of two to the power minus 1074.
pub open spec fn value_num(b: u64) -> int {
    let m = significand(b) * pow2(ulp_exp(b));
    if is_negative(b) {
        -m
    } else {
        m
    }
}

/// The number one, in the units of `value_num`.
pub open spec fn unit() -> int {
    pow2(1074) as int
}

pub open spec fn is_count_offset(off: u64) -> bool {
    off == POLYGON_OFFSET || off == PICTURE_OFFSET
}

/// The value of `b` less the value of `off` rounds to the integer `c`, with
/// halves rounded away from zero.
pub open spec fn rounds_to(b: u64, off: u64, c: int) -> bool {
    let d2 = 2 * (value_num(b) - value_num(off));
    if c == 0 {
        -unit() < d2 && d2 < unit()
    } else {
        (2 * c - 1) * unit() <= d2 && d2 < (2 * c + 1) * unit()
    }
}

/// `r` is the double nearest the exact value `x` (ties to an even
/// significand), and is positive and normal.
pub open spec fn nearest_double(r: u64, x: int) -> bool {
    let ulp = pow2(ulp_exp(r)) as int;
    let d2 = 2 * (value_num(r) - x);
    &&& !is_negative(r)
    &&& 1 <= exp_of(r) < 2047
    &&& 0x10_0000_0000_0000 * ulp <= x < 0x20_0000_0000_0000 * ulp
    &&& -ulp <= d2 <= ulp
    &&& (d2 == ulp || d2 == -ulp) ==> significand(r) % 2 == 0
}

/// The same rounding, with values stated in units of two to the power minus 60.
spec fn rounds_units(d: int, c: int) -> bool {
    if c == 0 {
        -0x1000_0000_0000_0000 < 2 * d && 2 * d < 0x1000_0000_0000_0000
    } else {
        (2 * c - 1) * 0x1000_0000_0000_0000 <= 2 * d && 2 * d < (2 * c + 1) * 0x1000_0000_0000_0000
    }
}

spec fn big() -> int {
    pow2(1014) as int
}

proof fn lemma_unit_big()
    ensures
        unit() == 0x1000_0000_0000_0000 * big(),
        big() > 0,
{
    lemma_pow2_adds(60, 1014);
    lemma2_to64_rest();
    lemma_pow2_pos(1014);
}

proof fn lemma_rounds_scaled(b: u64, off: u64, c: int, sv: int, o: int)
    requires
        value_num(b) == sv * big(),
        value_num(off) == o * big(),
    ensures
        rounds_to(b, off, c) == rounds_units(sv - o, c),
{
    lemma_unit_big();
    let p = big();
    let d = sv - o;
    assert(2 * (value_num(b) - value_num(off)) == (2 * d) * p) by (nonlinear_arith)
        requires
            value_num(b) == sv * p,
            value_num(off) == o * p,
            d == sv - o,
    ;
    let k = 0x1000_0000_0000_0000int;
    assert((2 * c - 1) * (k * p) == ((2 * c - 1) * k) * p) by (nonlinear_arith);
    assert((2 * c + 1) * (k * p) == ((2 * c + 1) * k) * p) by (nonlinear_arith);
    assert(-(k * p) == (-k) * p) by (nonlinear_arith);
    lemma_scale(2 * d, (2 * c - 1) * k, p);
    lemma_scale(2 * d, (2 * c + 1) * k, p);
    lemma_scale(2 * d, -k, p);
    lemma_scale(2 * d, k, p);
}

/// Comparing two multiples of a positive number compares the factors.
proof fn lemma_scale(a: int, b: int, p: int)
    requires
        p > 0,
    ensures
        (a * p < b * p) == (a < b),
        (a * p <= b * p) == (a <= b),
        (b * p < a * p) == (b < a),
        (b * p <= a * p) == (b <= a),
{
    assert((a * p < b * p) == (a < b)) by (nonlinear_arith)
        requires
            p > 0,
    ;
    assert((a * p <= b * p) == (a <= b)) by (nonlinear_arith)
        requires
            p > 0,
    ;
}

/// The value of a count offset, in units of two to the power minus 60.
proof fn lemma_offset_value(off: u64)
    requires
        is_count_offset(off),
    ensures
        value_num(off) == offset_units_spec(off) * big(),
        0x200_0000_0000_0000 <= offset_units_spec(off) < 0x800_0000_0000_0000 - 0x10_0000_0000_0000,
{
    lemma2_to64();
    lemma_pow2_adds(6, 1014);
    lemma_pow2_adds(5, 1014);
    if off == POLYGON_OFFSET {
        assert(exp_of(off) == 1021 && significand(off) == 8365243553776645);
        assert(value_num(off) == 8365243553776645 * pow2(1020));
    } else {
        assert(exp_of(off) == 1020 && significand(off) == 8451174036106725);
        assert(value_num(off) == 8451174036106725 * pow2(1019));
    }
}

/// The value of a count offset, in units of two to the power minus 60.
fn offset_units(off: u64) -> (o: u128)
    requires
        is_count_offset(off),
    ensures
        value_num(off) == o * big(),
        o == offset_units_spec(off),
        0x200_0000_0000_0000 <= o < 0x800_0000_0000_0000 - 0x10_0000_0000_0000,
{
    proof {
        lemma_offset_value(off);
    }
    if off == POLYGON_OFFSET {
        535375587441705280
    } else {
        270437569155415200
    }
}

/// `sig` times two to the power `k`.
fn shift_up(sig: u128, k: u64) -> (r: u128)
    requires
        sig < 0x20_0000_0000_0000,
        k <= 23,
    ensures
        r == sig * pow2(k as nat),
        r < 0x1000_0000_0000_0000_0000,
{
    let mut r: u128 = sig;
    let mut i: u64 = 0;
    proof {
        lemma2_to64();
    }
    while i < k
        invariant
            i <= k <= 23,
            sig < 0x20_0000_0000_0000,
            r == sig * pow2(i as nat),
            pow2(i as nat) <= pow2(23),
            pow2(23) == 0x80_0000,
        decreases k - i,
    {
        proof {
            lemma_pow2_unfold_at((i + 1) as nat);
            if i + 1 < 23 {
                lemma_pow2_strictly_increases((i + 1) as nat, 23);
            }
            assert(sig * pow2(i as nat) < 0x20_0000_0000_0000 * 0x80_0000) by (nonlinear_arith)
                requires
                    sig < 0x20_0000_0000_0000,
                    pow2(i as nat) <= 0x80_0000,
            ;
            assert(sig * pow2((i + 1) as nat) == 2 * (sig * pow2(i as nat))) by (nonlinear_arith)
                requires
                    pow2((i + 1) as nat) == 2 * pow2(i as nat),
            ;
        }
        r = r * 2;
        i = i + 1;
    }
    proof {
        lemma_pow2_pos(k as nat);
        assert(sig * pow2(k as nat) < 0x20_0000_0000_0000 * 0x80_0000) by (nonlinear_arith)
            requires
                sig < 0x20_0000_0000_0000,
                0 < pow2(k as nat) <= 0x80_0000,
        ;
    }
    r
}

proof fn lemma_pow2_unfold_at(e: nat)
    requires
        e > 0,
    ensures
        pow2(e) == 2 * pow2((e - 1) as nat),
{
    lemma_pow2_adds(1, (e - 1) as nat);
    lemma2_to64();
}

/// A double whose exponent field is under 1015 has magnitude under two to the
/// power minus 8, and so rounds, less an offset, to zero.
proof fn lemma_small_rounds_to_zero(b: u64, off: u64, o: int)
    requires
        exp_of(b) < 1015,
        value_num(off) == o * big(),
        0x200_0000_0000_0000 <= o < 0x800_0000_0000_0000 - 0x10_0000_0000_0000,
    ensures
        rounds_to(b, off, 0),
{
    lemma_unit_big();
    let p = big();
    let s = significand(b);
    let w = pow2(ulp_exp(b)) as int;
    if ulp_exp(b) < 1013 {
        lemma_pow2_strictly_increases(ulp_exp(b), 1013);
    }
    lemma_pow2_unfold_at(1014);
    lemma_pow2_pos(ulp_exp(b));
    assert(0 <= s < 0x20_0000_0000_0000);
    assert(s * w < 0x10_0000_0000_0000 * p) by (nonlinear_arith)
        requires
            0 <= s < 0x20_0000_0000_0000,
            0 < w,
            2 * w <= p,
    ;
    assert(0 <= s * w) by (nonlinear_arith)
        requires
            0 <= s,
            0 < w,
    ;
    assert(0x200_0000_0000_0000 * p <= o * p < (0x800_0000_0000_0000 - 0x10_0000_0000_0000) * p)
        by (nonlinear_arith)
        requires
            0x200_0000_0000_0000 <= o < 0x800_0000_0000_0000 - 0x10_0000_0000_0000,
            p > 0,
    ;
}

/// A double whose exponent field is over 1038 has magnitude at least two to
/// the power 16, and so rounds, less an offset, to no count in range.
proof fn lemma_large_rounds_to_none(b: u64, off: u64, o: int)
    requires
        1038 < exp_of(b) < 2047,
        value_num(off) == o * big(),
        0x200_0000_0000_0000 <= o < 0x800_0000_0000_0000 - 0x10_0000_0000_0000,
    ensures
        forall|c: int| 0 <= c <= MAX_COUNT ==> !#[trigger] rounds_to(b, off, c),
{
    lemma_unit_big();
    let p = big();
    let s = significand(b);
    let w = pow2(ulp_exp(b)) as int;
    lemma_pow2_adds(24, 1014);
    lemma2_to64();
    if ulp_exp(b) > 1038 {
        lemma_pow2_strictly_increases(1038, ulp_exp(b));
    }
    assert(s * w >= 0x1000_0000_0000_0000_0000 * p) by (nonlinear_arith)
        requires
            s >= 0x10_0000_0000_0000,
            w >= 0x100_0000 * p,
            p > 0,
    ;
    assert(o * p < 0x800_0000_0000_0000 * p) by (nonlinear_arith)
        requires
            o < 0x800_0000_0000_0000,
            p > 0,
    ;
    assert(o * p >= 0) by (nonlinear_arith)
        requires
            o >= 0,
            p > 0,
    ;
    assert forall|c: int| 0 <= c <= MAX_COUNT implies !#[trigger] rounds_to(b, off, c) by {
        assert((2 * c + 1) * (0x1000_0000_0000_0000 * p) <= 131071 * (0x1000_0000_0000_0000 * p))
            by (nonlinear_arith)
            requires
                0 <= c <= 65535,
                p > 0,
        ;
        assert((2 * c - 1) * (0x1000_0000_0000_0000 * p) >= (0x1000_0000_0000_0000 * p)
            || c == 0) by (nonlinear_arith)
            requires
                0 <= c,
                p > 0,
        ;
    }
}

/// Decodes a stored count: the value of the double `bits` less the section's
/// `offset`, rounded to the nearest integer (halves away from zero). Fails
/// with `InvalidCount` where `bits` is not finite or rounds to no count in
/// zero to `MAX_COUNT`.
pub fn decode_count(bits: u64, offset: u64) -> (r: Result<usize, LevelError>)
    requires
        is_count_offset(offset),
    ensures
        match r {
            Ok(c) => is_finite(bits) && c <= MAX_COUNT && rounds_to(bits, offset, c as int),
            Err(e) => e == LevelError::InvalidCount && forall|c: int|
                0 <= c <= MAX_COUNT ==> !(is_finite(bits) && #[trigger] rounds_to(bits, offset, c)),
        },
{
    let e: u64 = (bits / FRACTION_UNIT) % 2048;
    let f: u64 = bits % FRACTION_UNIT;
    let neg: bool = bits >= 0x8000_0000_0000_0000;
    if e == 2047 {
        return Err(LevelError::InvalidCount);
    }
    let o = offset_units(offset);
    if e < 1015 {
        proof {
            lemma_small_rounds_to_zero(bits, offset, o as int);
        }
        return Ok(0);
    }
    if e > 1038 {
        proof {
            lemma_large_rounds_to_none(bits, offset, o as int);
        }
        return Err(LevelError::InvalidCount);
    }
    let u = shift_up(f as u128 + FRACTION_UNIT as u128, e - 1015);
    let ghost sv: int = if neg { -(u as int) } else { u as int };
    proof {
        lemma_pow2_adds((e - 1015) as nat, 1014);
        assert(ulp_exp(bits) == (e - 1015) + 1014);
        assert(value_num(bits) == sv * big()) by (nonlinear_arith)
            requires
                u == significand(bits) * pow2((e - 1015) as nat),
                pow2(ulp_exp(bits)) == pow2((e - 1015) as nat) * big(),
                sv == (if is_negative(bits) { -(u as int) } else { u as int }),
                value_num(bits) == (if is_negative(bits) {
                    -(significand(bits) * pow2(ulp_exp(bits)))
                } else {
                    significand(bits) * pow2(ulp_exp(bits))
                }),
        ;
        assert forall|c: int| #[trigger] rounds_to(bits, offset, c) == rounds_units(sv - o, c) by {
            lemma_rounds_scaled(bits, offset, c, sv, o as int);
        }
    }
    if !neg && u >= o {
        let d = u - o;
        let c = (d + HALF) / ONE;
        if c > MAX_COUNT as u128 {
            Err(LevelError::InvalidCount)
        } else {
            assert(rounds_units(sv - o, c as int));
            Ok(c as usize)
        }
    } else {
        let dd = if neg { u + o } else { o - u };
        if dd < HALF {
            assert(rounds_units(sv - o, 0));
            Ok(0)
        } else {
            Err(LevelError::InvalidCount)
        }
    }
}

/// Splits a double into its fields: `r` has exponent field `be`, significand
/// `n`, and is positive.
proof fn lemma_fields(r: u64, be: int, n: int)
    requires
        1 <= be < 2047,
        0x10_0000_0000_0000 <= n < 0x20_0000_0000_0000,
        r as int == be * 0x10_0000_0000_0000 + (n - 0x10_0000_0000_0000),
    ensures
        exp_of(r) == be,
        significand(r) == n,
        ulp_exp(r) == be - 1,
        !is_negative(r),
{
    let f = n - 0x10_0000_0000_0000;
    assert(r as int / 0x10_0000_0000_0000 == be) by (nonlinear_arith)
        requires
            r as int == be * 0x10_0000_0000_0000 + f,
            0 <= f < 0x10_0000_0000_0000,
    ;
    assert(r as int % 0x10_0000_0000_0000 == f) by (nonlinear_arith)
        requires
            r as int == be * 0x10_0000_0000_0000 + f,
            0 <= f < 0x10_0000_0000_0000,
    ;
}

/// The sum `c + offset` in units of two to the power minus 60.
spec fn sum_units(c: int, off: u64) -> int {
    c * 0x1000_0000_0000_0000 + offset_units_spec(off)
}

/// The bits of the double nearest `x` (in units of two to the power minus
/// 60), where two to the power `k` is the weight of its last significand bit.
spec fn rounded_bits(x: int, k: nat) -> u64 {
    let q = pow2(k) as int;
    let n = x / q;
    let rem = x % q;
    let half = q / 2;
    let nn = if rem > half || (rem == half && n % 2 == 1) { n + 1 } else { n };
    ((k + 1015) * 0x10_0000_0000_0000 + (nn - 0x10_0000_0000_0000)) as u64
}

/// The offset itself is the double nearest `0 + offset`.
proof fn lemma_offset_nearest(off: u64)
    requires
        is_count_offset(off),
    ensures
        nearest_double(off, 0 * unit() + value_num(off)),
{
    let w = pow2(ulp_exp(off)) as int;
    lemma_pow2_pos(ulp_exp(off));
    assert(significand(off) == 8365243553776645 || significand(off) == 8451174036106725);
    assert(0x10_0000_0000_0000 * w <= significand(off) * w < 0x20_0000_0000_0000 * w)
        by (nonlinear_arith)
        requires
            0x10_0000_0000_0000 <= significand(off) < 0x20_0000_0000_0000,
            w > 0,
    ;
}

/// The binade of `x`: the `k` from which two to the power `k + 52` is the
/// largest power of two not above `x`, searched upward from `k`, at most 24.
spec fn binade(x: int, k: nat) -> nat
    decreases 24 - k,
{
    if k < 24 && pow2(k) * 0x20_0000_0000_0000 <= x {
        binade(x, k + 1)
    } else {
        k
    }
}

proof fn lemma_binade(x: int, k: nat)
    requires
        5 <= k <= 24,
        pow2(k) * 0x10_0000_0000_0000 <= x < 0x2000_0000_0000_0000_0000,
    ensures
        k <= binade(x, k) <= 24,
        pow2(binade(x, k)) * 0x10_0000_0000_0000 <= x < pow2(binade(x, k)) * 0x20_0000_0000_0000,
    decreases 24 - k,
{
    lemma2_to64();
    if k < 24 && pow2(k) * 0x20_0000_0000_0000 <= x {
        lemma_pow2_unfold_at(k + 1);
        lemma_binade(x, k + 1);
    }
}

/// Rounding the sum at its binade gives the double nearest it.
proof fn lemma_rounded_nearest(c: int, off: u64, k: nat)
    requires
        1 <= c <= MAX_COUNT,
        is_count_offset(off),
        5 <= k <= 24,
        pow2(k) * 0x10_0000_0000_0000 <= sum_units(c, off) < pow2(k) * 0x20_0000_0000_0000,
    ensures
        nearest_double(rounded_bits(sum_units(c, off), k), c * unit() + value_num(off)),
{
    lemma_unit_big();
    lemma2_to64();
    lemma_offset_value(off);
    let o = offset_units_spec(off);
    let x = sum_units(c, off);
    let q = pow2(k) as int;
    if k <= 7 {
        if k < 7 {
            lemma_pow2_strictly_increases(k, 7);
        }
    }
    assert(8 <= k);
    lemma_pow2_adds(8, (k - 8) as nat);
    lemma_pow2_pos(k);
    let n = x / q;
    let rem = x % q;
    let half = q / 2;
    let t = pow2((k - 8) as nat) as int;
    assert(q == 256 * t);
    lemma_fundamental_div_mod(x, q);
    lemma_mod_pos_bound(x, q);
    assert(x == q * n + rem);
    assert(q * n == n * q) by (nonlinear_arith);
    assert(0x10_0000_0000_0000 <= n < 0x20_0000_0000_0000) by (nonlinear_arith)
        requires
            x == n * q + rem,
            0 <= rem < q,
            q * 0x10_0000_0000_0000 <= x < q * 0x20_0000_0000_0000,
    ;
    assert(c < 2 * t) by (nonlinear_arith)
        requires
            c * 0x1000_0000_0000_0000 <= x < q * 0x20_0000_0000_0000,
            q == 256 * t,
    ;
    assert(x < q * 0x20_0000_0000_0000 - 0x800_0000_0000_0000) by (nonlinear_arith)
        requires
            x == c * 0x1000_0000_0000_0000 + o,
            o < 0x800_0000_0000_0000 - 0x10_0000_0000_0000,
            c + 1 <= 2 * t,
            q == 256 * t,
    ;
    let nn = if rem > half || (rem == half && n % 2 == 1) { n + 1 } else { n };
    if nn == n + 1 {
        assert(n + 1 < 0x20_0000_0000_0000) by (nonlinear_arith)
            requires
                x == n * q + rem,
                rem >= q / 2,
                q < 0x200_0000,
                x < q * 0x20_0000_0000_0000 - 0x800_0000_0000_0000,
                n < 0x20_0000_0000_0000,
        ;
    }
    let be = k + 1015;
    assert(be * 0x10_0000_0000_0000 + (nn - 0x10_0000_0000_0000) < 0x8000_0000_0000_0000)
        by (nonlinear_arith)
        requires
            be <= 1039,
            0x10_0000_0000_0000 <= nn < 0x20_0000_0000_0000,
    ;
    let r = rounded_bits(x, k);
    assert(r as int == be * 0x10_0000_0000_0000 + (nn - 0x10_0000_0000_0000));
    lemma_fields(r, be as int, nn as int);
    lemma_pow2_adds(k, 1014);
    let p = big();
    let ulp = pow2(ulp_exp(r)) as int;
    assert(ulp == q * p);
    assert(value_num(r) == nn * (q * p));
    assert(c * unit() + value_num(off) == x * p) by (nonlinear_arith)
        requires
            unit() == 0x1000_0000_0000_0000 * p,
            value_num(off) == o * p,
            x == c * 0x1000_0000_0000_0000 + o,
    ;
    let xs = x * p;
    assert(q % 2 == 0);
    assert(-q <= 2 * (nn * q - x) <= q) by (nonlinear_arith)
        requires
            x == n * q + rem,
            0 <= rem < q,
            q % 2 == 0,
            half == q / 2,
            nn == n || nn == n + 1,
            nn == n + 1 ==> rem >= half,
            nn == n ==> rem <= half,
    ;
    assert((2 * (nn * q - x) == q || 2 * (nn * q - x) == -q) ==> nn % 2 == 0) by (nonlinear_arith)
        requires
            x == n * q + rem,
            0 <= rem < q,
            q % 2 == 0,
            half == q / 2,
            nn == (if rem > half || (rem == half && n % 2 == 1) { n + 1 } else { n }),
    ;
    assert(2 * (value_num(r) - xs) == (2 * (nn * q - x)) * p) by (nonlinear_arith)
        requires
            value_num(r) == nn * (q * p),
            xs == x * p,
    ;
    lemma_scale(2 * (nn * q - x), q, p);
    lemma_scale(2 * (nn * q - x), -q, p);
    assert((-q) * p == -(q * p)) by (nonlinear_arith);
    assert(0x10_0000_0000_0000 * (q * p) == (q * 0x10_0000_0000_0000) * p) by (nonlinear_arith);
    assert(0x20_0000_0000_0000 * (q * p) == (q * 0x20_0000_0000_0000) * p) by (nonlinear_arith);
    lemma_scale(q * 0x10_0000_0000_0000, x, p);
    lemma_scale(x, q * 0x20_0000_0000_0000, p);
}

/// Every count in range has a nearest double once its offset is added.
pub proof fn lemma_nearest_exists(c: int, off: u64)
    requires
        0 <= c <= MAX_COUNT,
        is_count_offset(off),
    ensures
        nearest_double(count_bits(c, off), c * unit() + value_num(off)),
{
    if c == 0 {
        lemma_offset_nearest(off);
    } else {
        lemma2_to64();
        lemma_offset_value(off);
        let x = sum_units(c, off);
        lemma_binade(x, 5);
        lemma_rounded_nearest(c, off, binade(x, 5));
    }
}

/// Encodes a count for storage: the double nearest the count plus the
/// section's `offset`.
pub fn encode_count(c: usize, offset: u64) -> (r: u64)
    requires
        c <= MAX_COUNT,
        is_count_offset(offset),
    ensures
        nearest_double(r, c * unit() + value_num(offset)),
{
    let o = offset_units(offset);
    if c == 0 {
        proof {
            lemma_offset_nearest(offset);
        }
        return offset;
    }
    proof {
        lemma2_to64();
    }
    let x: u128 = c as u128 * ONE + o;
    let mut q: u128 = 32;
    let mut k: u64 = 5;
    while k < 24 && q * 0x20_0000_0000_0000 <= x
        invariant
            5 <= k <= 24,
            q > 0,
            q == pow2(k as nat),
            q * 0x10_0000_0000_0000 <= x,
            x < 0x2000_0000_0000_0000_0000,
            x == sum_units(c as int, offset),
        decreases x - q,
    {
        proof {
            lemma_pow2_unfold_at((k + 1) as nat);
        }
        q = q * 2;
        k = k + 1;
    }
    proof {
        lemma2_to64();
    }
    let n = x / q;
    let rem = x % q;
    let half = q / 2;
    let nn: u128 = if rem > half || (rem == half && n % 2 == 1) { n + 1 } else { n };
    proof {
        lemma_rounded_nearest(c as int, offset, k as nat);
        lemma_fundamental_div_mod(x as int, q as int);
        lemma_mod_pos_bound(x as int, q as int);
        assert(0x10_0000_0000_0000 <= n < 0x20_0000_0000_0000) by (nonlinear_arith)
            requires
                x == q * n + rem,
                0 <= rem < q,
                q * 0x10_0000_0000_0000 <= x < q * 0x20_0000_0000_0000,
        ;
        assert(nn <= 0x20_0000_0000_0000);
    }
    let r: u64 = ((k + 1015) as u128 * FRACTION_UNIT as u128 + nn - FRACTION_UNIT as u128) as u64;
    assert(r == rounded_bits(x as int, k as nat));
    r
}

/// A count encoded with an offset decodes, with the same offset, to that count
/// and to no other.
pub proof fn lemma_count_round_trip(c: int, off: u64, r: u64)
    requires
        0 <= c <= MAX_COUNT,
        is_count_offset(off),
        nearest_double(r, c * unit() + value_num(off)),
    ensures
        is_finite(r),
        rounds_to(r, off, c),
        forall|c2: int| #[trigger] rounds_to(r, off, c2) ==> c2 == c,
{
    lemma_unit_big();
    let o = offset_units_spec(off);
    let p = big();
    let u = unit();
    let ulp = pow2(ulp_exp(r)) as int;
    let x = c * u + value_num(off);
    lemma_offset_value(off);
    assert(0 <= 2 * value_num(off) < u) by (nonlinear_arith)
        requires
            value_num(off) == o * p,
            0 <= o < 0x800_0000_0000_0000,
            u == 0x1000_0000_0000_0000 * p,
            p > 0,
    ;
    assert(c * u <= 65535 * u) by (nonlinear_arith)
        requires
            c <= 65535,
            u > 0,
    ;
    assert(2 * ulp < u);
    assert forall|c2: int| #[trigger] rounds_to(r, off, c2) == (c2 == c) by {
        assert((2 * c2 - 1) * u == 2 * c2 * u - u && (2 * c2 + 1) * u == 2 * c2 * u + u
            && 2 * c * u == 2 * (c * u)) by (nonlinear_arith);
        if c2 < c {
            assert(2 * c2 * u <= 2 * c * u - 2 * u) by (nonlinear_arith)
                requires
                    c2 < c,
                    u > 0,
            ;
        } else if c2 > c {
            assert(2 * c2 * u >= 2 * c * u + 2 * u) by (nonlinear_arith)
                requires
                    c2 > c,
                    u > 0,
            ;
        }
    }
}

/// The value of a count offset, in units of two to the power minus 60.
spec fn offset_units_spec(off: u64) -> int {
    if off == POLYGON_OFFSET {
        535375587441705280
    } else {
        270437569155415200
    }
}

/// A double rounds, less an offset, to at most one count.
pub proof fn lemma_rounds_unique(b: u64, off: u64, c1: int, c2: int)
    requires
        rounds_to(b, off, c1),
        rounds_to(b, off, c2),
        0 <= c1,
        0 <= c2,
    ensures
        c1 == c2,
{
    lemma_unit_big();
    let u = unit();
    if c1 < c2 {
        assert((2 * c2 - 1) * u >= (2 * c1 + 1) * u) by (nonlinear_arith)
            requires
                c1 < c2,
                u > 0,
        ;
        assert(c1 > 0 || (2 * c2 - 1) * u >= u) by (nonlinear_arith)
            requires
                0 <= c1 < c2,
                u > 0,
        ;
    } else if c2 < c1 {
        assert((2 * c1 - 1) * u >= (2 * c2 + 1) * u) by (nonlinear_arith)
            requires
                c2 < c1,
                u > 0,
        ;
        assert(c2 > 0 || (2 * c1 - 1) * u >= u) by (nonlinear_arith)
            requires
                0 <= c2 < c1,
                u > 0,
        ;
    }
}

/// The count that a stored double holds with an offset.
pub open spec fn count_value(bits: u64, off: u64) -> Result<int, LevelError> {
    if is_finite(bits) && exists|c: int| 0 <= c <= MAX_COUNT && #[trigger] rounds_to(bits, off, c) {
        Ok(choose|c: int| 0 <= c <= MAX_COUNT && #[trigger] rounds_to(bits, off, c))
    } else {
        Err(LevelError::InvalidCount)
    }
}

/// Decodes a stored count, as `count_value` states it.
pub fn read_count_value(bits: u64, off: u64) -> (r: Result<usize, LevelError>)
    requires
        is_count_offset(off),
    ensures
        match r {
            Ok(c) => count_value(bits, off) == Ok::<int, LevelError>(c as int),
            Err(e) => count_value(bits, off) == Err::<int, LevelError>(e),
        },
{
    let r = decode_count(bits, off);
    proof {
        if let Ok(c) = r {
            let c2 = choose|c2: int| 0 <= c2 <= MAX_COUNT && #[trigger] rounds_to(bits, off, c2);
            assert(rounds_to(bits, off, c as int));
            lemma_rounds_unique(bits, off, c as int, c2);
        }
    }
    r
}

/// The stored double for count `c` with offset `off`.
pub open spec fn count_bits(c: int, off: u64) -> u64 {
    choose|r: u64| #[trigger] nearest_double(r, c * unit() + value_num(off))
}

/// Of a positive real number, the nearest double is unique.
pub proof fn lemma_nearest_unique(r1: u64, r2: u64, x: int)
    requires
        nearest_double(r1, x),
        nearest_double(r2, x),
    ensures
        r1 == r2,
{
    let e1 = ulp_exp(r1);
    let e2 = ulp_exp(r2);
    let u1 = pow2(e1) as int;
    let u2 = pow2(e2) as int;
    lemma_pow2_pos(e1);
    lemma_pow2_pos(e2);
    if e1 < e2 {
        lemma_pow2_adds(e1 + 1, (e2 - e1 - 1) as nat);
        lemma_pow2_unfold_at(e1 + 1);
        lemma_pow2_pos((e2 - e1 - 1) as nat);
        assert(u2 >= 2 * u1) by (nonlinear_arith)
            requires
                u2 == pow2(e1 + 1) * pow2((e2 - e1 - 1) as nat),
                pow2(e1 + 1) == 2 * u1,
                pow2((e2 - e1 - 1) as nat) >= 1,
                u1 > 0,
        ;
    } else if e2 < e1 {
        lemma_pow2_adds(e2 + 1, (e1 - e2 - 1) as nat);
        lemma_pow2_unfold_at(e2 + 1);
        lemma_pow2_pos((e1 - e2 - 1) as nat);
        assert(u1 >= 2 * u2) by (nonlinear_arith)
            requires
                u1 == pow2(e2 + 1) * pow2((e1 - e2 - 1) as nat),
                pow2(e2 + 1) == 2 * u2,
                pow2((e1 - e2 - 1) as nat) >= 1,
                u2 > 0,
        ;
    }
    assert(e1 == e2);
    let s1 = significand(r1);
    let s2 = significand(r2);
    let u = u1;
    assert(value_num(r1) == s1 * u && value_num(r2) == s2 * u);
    assert(s1 == s2) by (nonlinear_arith)
        requires
            u > 0,
            -u <= 2 * (s1 * u - x) <= u,
            -u <= 2 * (s2 * u - x) <= u,
            (2 * (s1 * u - x) == u || 2 * (s1 * u - x) == -u) ==> s1 % 2 == 0,
            (2 * (s2 * u - x) == u || 2 * (s2 * u - x) == -u) ==> s2 % 2 == 0,
    ;
    assert(exp_of(r1) == exp_of(r2));
    assert(frac_of(r1) == frac_of(r2));
    assert(r1 as int == exp_of(r1) * 0x10_0000_0000_0000 + frac_of(r1)) by (nonlinear_arith)
        requires
            !is_negative(r1),
            exp_of(r1) == (r1 as int / 0x10_0000_0000_0000) % 2048,
            frac_of(r1) == r1 as int % 0x10_0000_0000_0000,
            r1 < 0x8000_0000_0000_0000,
    ;
    assert(r2 as int == exp_of(r2) * 0x10_0000_0000_0000 + frac_of(r2)) by (nonlinear_arith)
        requires
            !is_negative(r2),
            exp_of(r2) == (r2 as int / 0x10_0000_0000_0000) % 2048,
            frac_of(r2) == r2 as int % 0x10_0000_0000_0000,
            r2 < 0x8000_0000_0000_0000,
    ;
}

/// Encodes a count, as `count_bits` states it.
pub fn write_count_bits(c: usize, off: u64) -> (r: u64)
    requires
        c <= MAX_COUNT,
        is_count_offset(off),
    ensures
        r == count_bits(c as int, off),
{
    let r = encode_count(c, off);
    proof {
        let x = c * unit() + value_num(off);
        let r2 = choose|r2: u64| #[trigger] nearest_double(r2, x);
        lemma_nearest_unique(r, r2, x);
    }
    r
}

} // verus!
