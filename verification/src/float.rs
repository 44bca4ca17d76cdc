use vstd::prelude::*;
use vstd::arithmetic::power2::*;

verus! {

// A 64-bit IEEE-754 binary floating-point number is held here as its bit
// pattern (`u64`). These functions give the comparison semantics of such
// numbers in integer terms.

pub open spec fn two52() -> int { 0x10_0000_0000_0000 }

pub open spec fn two63() -> int { 0x8000_0000_0000_0000 }

/// The sign bit of the pattern.
pub open spec fn f64_negative(b: u64) -> bool {
    b >= two63()
}

/// The pattern without its sign bit.
pub open spec fn f64_magnitude(b: u64) -> int {
    (b as int) % two63()
}

/// The biased exponent field.
pub open spec fn f64_exponent(b: u64) -> int {
    f64_magnitude(b) / two52()
}

/// The fraction field.
pub open spec fn f64_fraction(b: u64) -> int {
    (b as int) % two52()
}

pub open spec fn f64_is_nan(b: u64) -> bool {
    f64_exponent(b) == 2047 && f64_fraction(b) != 0
}

pub open spec fn f64_is_finite(b: u64) -> bool {
    f64_exponent(b) != 2047
}

/// An integer that orders the non-NaN patterns exactly as their values are
/// ordered: the magnitude bits of a pattern grow with the value it denotes,
/// and both zeros map to 0.
pub open spec fn f64_order_key(b: u64) -> int {
    if f64_negative(b) { -f64_magnitude(b) } else { f64_magnitude(b) }
}

/// `==` on two floats: false when either is NaN, zeros of either sign equal.
pub open spec fn f64_eq(a: u64, b: u64) -> bool {
    !f64_is_nan(a) && !f64_is_nan(b) && f64_order_key(a) == f64_order_key(b)
}

/// The outcome of `partial_cmp`: `None` when either side is NaN, otherwise
/// -1, 0 or 1.
pub open spec fn f64_compare(a: u64, b: u64) -> Option<i8> {
    if f64_is_nan(a) || f64_is_nan(b) {
        None
    } else if f64_order_key(a) < f64_order_key(b) {
        Some(-1i8)
    } else if f64_order_key(a) == f64_order_key(b) {
        Some(0i8)
    } else {
        Some(1i8)
    }
}

pub fn is_nan(b: u64) -> (r: bool)
    ensures
        r == f64_is_nan(b),
{
    let mag = b % 0x8000_0000_0000_0000u64;
    mag / 0x10_0000_0000_0000u64 == 2047 && b % 0x10_0000_0000_0000u64 != 0
}

pub fn is_finite(b: u64) -> (r: bool)
    ensures
        r == f64_is_finite(b),
{
    let mag = b % 0x8000_0000_0000_0000u64;
    mag / 0x10_0000_0000_0000u64 != 2047
}

/// Sign-magnitude key as an `i128` (every key fits).
pub fn order_key(b: u64) -> (r: i128)
    ensures
        r as int == f64_order_key(b),
{
    let mag = (b % 0x8000_0000_0000_0000u64) as i128;
    if b >= 0x8000_0000_0000_0000u64 {
        -mag
    } else {
        mag
    }
}

pub fn float_eq(a: u64, b: u64) -> (r: bool)
    ensures
        r == f64_eq(a, b),
{
    !is_nan(a) && !is_nan(b) && order_key(a) == order_key(b)
}

pub fn float_compare(a: u64, b: u64) -> (r: Option<i8>)
    ensures
        r == f64_compare(a, b),
{
    if is_nan(a) || is_nan(b) {
        None
    } else {
        let ka = order_key(a);
        let kb = order_key(b);
        if ka < kb {
            Some(-1i8)
        } else if ka == kb {
            Some(0i8)
        } else {
            Some(1i8)
        }
    }
}

// ---------------------------------------------------------------------------
// Conversion of a 64-bit integer to the nearest double (`i as f64`), rounding
// to nearest with ties to even, written in integer arithmetic.

/// The index of the highest set bit of a positive integer.
pub open spec fn high_bit(m: nat) -> nat
    decreases m,
{
    if m <= 1 { 0 } else { 1 + high_bit(m / 2) }
}

/// Rounds `m / 2^s` to the nearest integer, ties to even.
pub open spec fn round_half_even(m: nat, s: nat) -> nat {
    let d = pow2(s) as int;
    let q = m as int / d;
    let r = m as int % d;
    if s == 0 {
        m
    } else if 2 * r > d || (2 * r == d && q % 2 == 1) {
        (q + 1) as nat
    } else {
        q as nat
    }
}

/// The magnitude bits (exponent and fraction) of the double nearest to the
/// positive integer `m`.
pub open spec fn nat_to_f64_magnitude(m: nat) -> int {
    let p = high_bit(m);
    if p <= 52 {
        (p + 1023) * two52() + (m * pow2((52 - p) as nat) - two52())
    } else {
        let q = round_half_even(m, (p - 52) as nat);
        if q == 2 * two52() {
            (p + 1024) * two52()
        } else {
            (p + 1023) * two52() + (q - two52())
        }
    }
}

/// The bit pattern of `a as f64`.
pub open spec fn i64_to_f64_bits(a: i64) -> u64 {
    if a == 0 {
        0u64
    } else if a > 0 {
        nat_to_f64_magnitude(a as nat) as u64
    } else {
        (two63() + nat_to_f64_magnitude((-(a as int)) as nat)) as u64
    }
}

proof fn lemma_div_bounds(m: int, d: int, a: int, b: int)
    requires
        d > 0,
        a * d <= m < b * d,
    ensures
        a <= m / d < b,
{
    vstd::arithmetic::div_mod::lemma_fundamental_div_mod(m, d);
    let q = m / d;
    let r = m % d;
    assert(a <= q < b) by (nonlinear_arith)
        requires
            m == d * q + r,
            0 <= r < d,
            a * d <= m < b * d,
            d > 0;
}

proof fn lemma_high_bit_bounds(m: nat)
    requires
        m >= 1,
    ensures
        pow2(high_bit(m)) <= m < pow2(high_bit(m) + 1),
    decreases m,
{
    if m > 1 {
        lemma_high_bit_bounds(m / 2);
        lemma_pow2_unfold(high_bit(m));
        lemma_pow2_unfold(high_bit(m) + 1);
    } else {
        lemma2_to64();
    }
}

proof fn lemma_high_bit_le_63(m: nat)
    requires
        1 <= m <= 0x8000_0000_0000_0000,
    ensures
        high_bit(m) <= 63,
{
    lemma_high_bit_bounds(m);
    if high_bit(m) >= 64 {
        lemma_pow2_strictly_increases(63, high_bit(m));
        lemma2_to64_rest();
    }
}

proof fn lemma_magnitude_fits(m: nat)
    requires
        1 <= m <= 0x8000_0000_0000_0000,
    ensures
        0 <= nat_to_f64_magnitude(m) < 0x7ff0_0000_0000_0000,
{
    lemma_high_bit_le_63(m);
    lemma_high_bit_bounds(m);
    let p = high_bit(m);
    if p <= 52 {
        lemma_pow2_adds(p, (52 - p) as nat);
        lemma2_to64(); lemma2_to64_rest();
        assert(pow2(p) * pow2((52 - p) as nat) == pow2(52));
        assert(m * pow2((52 - p) as nat) >= pow2(p) * pow2((52 - p) as nat)) by (nonlinear_arith)
            requires m >= pow2(p);
        lemma_pow2_pos((52 - p) as nat);
        assert(m * pow2((52 - p) as nat) < pow2(p + 1) * pow2((52 - p) as nat)) by (nonlinear_arith)
            requires m < pow2(p + 1), pow2((52 - p) as nat) > 0;
        lemma_pow2_adds(p + 1, (52 - p) as nat);
        assert(pow2(53) == 2 * pow2(52)) by { lemma2_to64(); lemma2_to64_rest(); }
    } else {
        let s = (p - 52) as nat;
        lemma_pow2_pos(s);
        lemma_pow2_adds(52, s);
        lemma_pow2_adds(53, s);
        lemma2_to64(); lemma2_to64_rest();
        let d = pow2(s) as int;
        assert(pow2(p) == pow2(52) * pow2(s));
        assert(pow2(p + 1) == pow2(53) * pow2(s));
        lemma_div_bounds(m as int, d, pow2(52) as int, pow2(53) as int);
    }
}

/// `2^e` for `e < 64`.
pub fn pow2_u64(e: u64) -> (r: u64)
    requires
        e < 64,
    ensures
        r as nat == pow2(e as nat),
{
    let mut r: u64 = 1;
    let mut i: u64 = 0;
    proof { lemma2_to64(); lemma2_to64_rest(); }
    while i < e
        invariant
            i <= e < 64,
            r as nat == pow2(i as nat),
        decreases e - i,
    {
        proof {
            lemma_pow2_unfold((i + 1) as nat);
            lemma_pow2_strictly_increases((i + 1) as nat, 64);
            lemma2_to64(); lemma2_to64_rest();
        }
        r = r * 2;
        i = i + 1;
    }
    r
}

/// The bits of the double nearest to a positive integer `m <= 2^63`.
fn nat_to_f64(m: u64) -> (r: u64)
    requires
        1 <= m <= 0x8000_0000_0000_0000,
    ensures
        r as int == nat_to_f64_magnitude(m as nat),
{
    proof {
        lemma_high_bit_le_63(m as nat);
    }
    let mut p: u64 = 0;
    let mut t: u64 = m;
    while t > 1
        invariant
            1 <= t <= m,
            high_bit(m as nat) == p + high_bit(t as nat),
            high_bit(m as nat) <= 63,
        decreases t,
    {
        t = t / 2;
        p = p + 1;
    }
    assert(high_bit(t as nat) == 0);
    proof {
        lemma_magnitude_fits(m as nat);
        lemma_high_bit_bounds(m as nat);
        lemma2_to64(); lemma2_to64_rest();
    }
    if p <= 52 {
        let f = pow2_u64(52 - p);
        proof {
            lemma_pow2_pos((52 - p) as nat);
            lemma_pow2_adds(p as nat, (52 - p) as nat);
            assert(m * f < pow2((p + 1) as nat) * f) by (nonlinear_arith)
                requires m < pow2((p + 1) as nat), f > 0;
            lemma_pow2_adds((p + 1) as nat, (52 - p) as nat);
            assert(m * f >= pow2(p as nat) * f) by (nonlinear_arith)
                requires m >= pow2(p as nat);
        }
        (p + 1023) * 0x10_0000_0000_0000u64 + (m * f - 0x10_0000_0000_0000u64)
    } else {
        let s = p - 52;
        let d = pow2_u64(s);
        let q = m / d;
        let rem = m % d;
        let q2 = if 2 * (rem as u128) > d as u128 || (2 * (rem as u128) == d as u128 && q % 2 == 1) {
            q + 1
        } else {
            q
        };
        proof {
            lemma_pow2_pos(s as nat);
            lemma_pow2_adds(52, s as nat);
            lemma_pow2_adds(53, s as nat);
            lemma_div_bounds(m as int, d as int, pow2(52) as int, pow2(53) as int);
            assert(q2 == round_half_even(m as nat, s as nat));
        }
        if q2 == 0x20_0000_0000_0000u64 {
            (p + 1024) * 0x10_0000_0000_0000u64
        } else {
            (p + 1023) * 0x10_0000_0000_0000u64 + (q2 - 0x10_0000_0000_0000u64)
        }
    }
}

/// `a as f64`, as a bit pattern.
pub fn i64_to_f64(a: i64) -> (r: u64)
    ensures
        r == i64_to_f64_bits(a),
{
    if a == 0 {
        0
    } else if a > 0 {
        nat_to_f64(a as u64)
    } else {
        let m: u64 = if a == i64::MIN { 0x8000_0000_0000_0000u64 } else { (-a) as u64 };
        let mag = nat_to_f64(m);
        proof { lemma_magnitude_fits(m as nat); }
        0x8000_0000_0000_0000u64 + mag
    }
}

} // verus!
