use vstd::prelude::*;
use vstd::arithmetic::power::{pow, lemma_pow_positive};
use vstd::arithmetic::power2::{pow2, lemma_pow2_pos, lemma2_to64, lemma2_to64_rest, lemma_pow2_unfold,
    lemma_pow2_strictly_increases};
use crate::float::{f64_is_nan, f64_is_finite, f64_negative, f64_exponent, f64_fraction, two52, round_half_even, pow2_u64};
use crate::text::{decimal, digit_char, u64_to_decimal, string_push, string_append};

verus! {

// Fixed-point text of a double with two digits after the point, the way
// `format!("{:.2}", x)` writes it: the exact value rounded to hundredths
// (ties to even), a `-` for a negative sign, `inf` and `NaN` as words.

/// The integer significand of a finite pattern.
pub open spec fn f64_significand(b: u64) -> nat {
    if f64_exponent(b) == 0 { f64_fraction(b) as nat } else { (f64_fraction(b) + two52()) as nat }
}

/// The power of two that scales the significand.
pub open spec fn f64_scale(b: u64) -> int {
    if f64_exponent(b) == 0 { -1074 } else { f64_exponent(b) - 1075 }
}

/// The magnitude of a finite pattern in hundredths, rounded to nearest with
/// ties to even.
pub open spec fn hundredths(b: u64) -> nat {
    let m = f64_significand(b);
    let e = f64_scale(b);
    if e >= 0 { m * 100 * pow2(e as nat) } else { round_half_even(m * 100, (-e) as nat) }
}

/// The text `format!("{:.2}", x)` gives for the double with pattern `b`.
pub open spec fn fixed2_text(b: u64) -> Seq<char> {
    let sign: Seq<char> = if f64_negative(b) { seq!['-'] } else { Seq::empty() };
    if f64_is_nan(b) {
        seq!['N', 'a', 'N']
    } else if !f64_is_finite(b) {
        sign + seq!['i', 'n', 'f']
    } else {
        let h = hundredths(b);
        sign + decimal(h / 100) + seq!['.', digit_char((h % 100) / 10), digit_char(h % 10)]
    }
}

// ---------------------------------------------------------------------------
// Decimal digits, least significant first.

/// The value of little-endian decimal digits.
pub open spec fn le_value(d: Seq<u8>) -> nat
    decreases d.len(),
{
    if d.len() == 0 { 0 } else { (d[0] + 10 * le_value(d.drop_first())) as nat }
}

/// Digits are below ten and there is no leading zero (but a lone zero).
pub open spec fn le_normal(d: Seq<u8>) -> bool {
    &&& d.len() >= 1
    &&& forall|i: int| 0 <= i < d.len() ==> #[trigger] d[i] < 10
    &&& (d.len() == 1 || d[d.len() - 1] != 0)
}

/// The text of little-endian digits, most significant first.
pub open spec fn le_text(d: Seq<u8>) -> Seq<char>
    decreases d.len(),
{
    if d.len() <= 1 {
        if d.len() == 0 { Seq::empty() } else { seq![digit_char(d[0] as nat)] }
    } else {
        le_text(d.drop_first()).push(digit_char(d[0] as nat))
    }
}

proof fn lemma_le_value_push(d: Seq<u8>, x: u8)
    ensures
        le_value(d.push(x)) == le_value(d) + x * pow(10, d.len()),
    decreases d.len(),
{
    if d.len() == 0 {
        assert(d.push(x).drop_first() =~= Seq::<u8>::empty());
        assert(le_value(Seq::<u8>::empty()) == 0);
        assert(le_value(d.push(x)) == x + 10 * le_value(d.push(x).drop_first()));
        assert(pow(10, 0) == 1) by { reveal(pow); }
    } else {
        assert(d.push(x).drop_first() =~= d.drop_first().push(x));
        assert(d.push(x)[0] == d[0]);
        assert(le_value(d.push(x)) == d[0] + 10 * le_value(d.drop_first().push(x)));
        lemma_le_value_push(d.drop_first(), x);
        assert(pow(10, d.len()) == 10 * pow(10, (d.len() - 1) as nat)) by { reveal(pow); }
        assert(10 * (le_value(d.drop_first()) + x * pow(10, (d.len() - 1) as nat))
            == 10 * le_value(d.drop_first()) + x * (10 * pow(10, (d.len() - 1) as nat))) by (nonlinear_arith);
    }
}

proof fn lemma_le_value_bound(d: Seq<u8>)
    requires
        forall|i: int| 0 <= i < d.len() ==> #[trigger] d[i] < 10,
    ensures
        le_value(d) < pow(10, d.len()),
    decreases d.len(),
{
    reveal(pow);
    if d.len() > 0 {
        lemma_le_value_bound(d.drop_first());
        assert(forall|i: int| 0 <= i < d.drop_first().len() ==> #[trigger] d.drop_first()[i] == d[i + 1]);
        assert(d[0] + 10 * le_value(d.drop_first()) < 10 * pow(10, (d.len() - 1) as nat)) by (nonlinear_arith)
            requires d[0] < 10, le_value(d.drop_first()) < pow(10, (d.len() - 1) as nat);
    }
}

proof fn lemma_le_text_decimal(d: Seq<u8>)
    requires
        le_normal(d),
    ensures
        le_text(d) == decimal(le_value(d)),
    decreases d.len(),
{
    if d.len() == 1 {
        assert(d.drop_first() =~= Seq::<u8>::empty());
        assert(le_value(d.drop_first()) == 0);
        assert(le_value(d) == d[0]);
    } else {
        let rest = d.drop_first();
        assert(forall|i: int| 0 <= i < rest.len() ==> #[trigger] rest[i] == d[i + 1]);
        assert(rest[rest.len() - 1] == d[d.len() - 1]);
        lemma_le_text_decimal(rest);
        assert(le_value(rest) >= 1) by {
            if le_value(rest) == 0 {
                lemma_le_zero(rest);
            }
        }
        let n = le_value(d);
        assert(n == d[0] + 10 * le_value(rest));
        assert(n / 10 == le_value(rest) && n % 10 == d[0]) by (nonlinear_arith)
            requires n == d[0] + 10 * le_value(rest), d[0] < 10;
    }
}

proof fn lemma_le_zero(d: Seq<u8>)
    requires
        le_value(d) == 0,
        d.len() >= 1,
    ensures
        d[d.len() - 1] == 0,
    decreases d.len(),
{
    if d.len() > 1 {
        let rest = d.drop_first();
        assert(le_value(rest) == 0);
        lemma_le_zero(rest);
    }
}

/// The digits of `n`.
fn digits_of(n: u64) -> (r: Vec<u8>)
    ensures
        le_normal(r@),
        le_value(r@) == n,
{
    let mut out: Vec<u8> = Vec::new();
    let mut m: u64 = n;
    out.push((m % 10) as u8);
    proof {
        assert(out@ =~= Seq::<u8>::empty().push((n % 10) as u8));
        lemma_le_value_push(Seq::<u8>::empty(), (n % 10) as u8);
        assert(le_value(Seq::<u8>::empty()) == 0);
        assert(pow(10, 0) == 1 && pow(10, 1) == 10) by { reveal(pow); }
        assert(n % 10 + (n / 10) * 10 == n) by (nonlinear_arith);
    }
    m = m / 10;
    while m > 0
        invariant
            out@.len() >= 1,
            forall|i: int| 0 <= i < out@.len() ==> #[trigger] out@[i] < 10,
            le_value(out@) + m * pow(10, out@.len()) == n,
            m > 0 ==> true,
            out@.len() == 1 || out@[out@.len() - 1] != 0 || m > 0,
        decreases m,
    {
        let digit = (m % 10) as u8;
        let ghost before = out@;
        proof { lemma_le_value_push(before, digit); }
        out.push(digit);
        proof {
            reveal(pow);
            assert(pow(10, out@.len()) == 10 * pow(10, before.len()));
            assert(m * pow(10, before.len()) == digit * pow(10, before.len()) + (m / 10) * pow(10, out@.len()))
                by (nonlinear_arith)
                requires
                    digit == m % 10,
                    pow(10, out@.len()) == 10 * pow(10, before.len());
        }
        m = m / 10;
        proof {
            if m == 0 {
                assert(digit != 0 || out@.len() == 1) by {
                    assert(out@[out@.len() - 1] == digit);
                }
            }
        }
    }
    out
}

/// Doubles little-endian digits.
fn double_digits(d: &Vec<u8>) -> (r: Vec<u8>)
    requires
        le_normal(d@),
    ensures
        le_normal(r@),
        le_value(r@) == 2 * le_value(d@),
{
    let mut out: Vec<u8> = Vec::new();
    let mut carry: u8 = 0;
    let mut i: usize = 0;
    while i < d.len()
        invariant
            i <= d@.len(),
            le_normal(d@),
            out@.len() == i,
            carry <= 1,
            forall|j: int| 0 <= j < out@.len() ==> #[trigger] out@[j] < 10,
            le_value(out@) + carry * pow(10, i as nat) == 2 * le_value(d@.subrange(0, i as int)),
            i > 0 && i == d@.len() && d@.len() > 1 ==> (carry == 1 || out@[i - 1] != 0),
            i == d@.len() && d@.len() == 1 && d@[0] != 0 ==> (carry == 1 || out@[0] != 0),
        decreases d@.len() - i,
    {
        let x: u8 = 2 * d[i] + carry;
        let digit: u8 = x % 10;
        let ghost before = out@;
        proof {
            lemma_le_value_push(before, digit);
            lemma_le_value_push(d@.subrange(0, i as int), d@[i as int]);
            assert(d@.subrange(0, i as int).push(d@[i as int]) =~= d@.subrange(0, i + 1));
            reveal(pow);
            assert(pow(10, (i + 1) as nat) == 10 * pow(10, i as nat));
        }
        out.push(digit);
        let ghost old_carry = carry;
        carry = x / 10;
        proof {
            assert(digit * pow(10, i as nat) + carry * pow(10, (i + 1) as nat)
                == 2 * (d@[i as int] * pow(10, i as nat)) + old_carry * pow(10, i as nat)) by (nonlinear_arith)
                requires
                    digit == x % 10,
                    carry == x / 10,
                    x == 2 * d@[i as int] + old_carry,
                    pow(10, (i + 1) as nat) == 10 * pow(10, i as nat);
            if i + 1 == d@.len() && d@.len() > 1 {
                assert(d@[i as int] != 0);
            }
            assert(le_value(out@) == le_value(before) + digit * pow(10, i as nat));
            assert(le_value(d@.subrange(0, i + 1)) == le_value(d@.subrange(0, i as int)) + d@[i as int] * pow(10, i as nat));
            assert(le_value(out@) + carry * pow(10, (i + 1) as nat) == 2 * le_value(d@.subrange(0, i + 1)));
        }
        i = i + 1;
    }
    assert(d@.subrange(0, d@.len() as int) =~= d@);
    if carry > 0 {
        let ghost before = out@;
        proof { lemma_le_value_push(before, carry); }
        out.push(carry);
    }
    out
}

/// The text of little-endian digits.
fn digits_text(d: &Vec<u8>) -> (r: String)
    requires
        le_normal(d@),
    ensures
        r@ == decimal(le_value(d@)),
{
    let mut s = String::new();
    let mut i: usize = d.len();
    while i > 0
        invariant
            i <= d@.len(),
            le_normal(d@),
            s@ == le_text(d@.subrange(i as int, d@.len() as int)),
        decreases i,
    {
        i = i - 1;
        let ghost tail = d@.subrange(i as int, d@.len() as int);
        assert(tail.drop_first() =~= d@.subrange(i + 1, d@.len() as int));
        string_push(&mut s, digit_of(d[i]));
        proof {
            if tail.len() == 1 {
                assert(d@.subrange(i + 1, d@.len() as int) =~= Seq::<u8>::empty());
            }
        }
    }
    assert(d@.subrange(0, d@.len() as int) =~= d@);
    proof { lemma_le_text_decimal(d@); }
    s
}

fn digit_of(x: u8) -> (c: char)
    requires
        x < 10,
    ensures
        c == digit_char(x as nat),
{
    if x == 0 { '0' } else if x == 1 { '1' } else if x == 2 { '2' } else if x == 3 { '3' }
    else if x == 4 { '4' } else if x == 5 { '5' } else if x == 6 { '6' } else if x == 7 { '7' }
    else if x == 8 { '8' } else { '9' }
}

/// Decimal text of `m * 2^e`.
fn scaled_decimal(m: u64, e: u64) -> (r: String)
    ensures
        r@ == decimal((m * pow2(e as nat)) as nat),
{
    let mut d = digits_of(m);
    let mut k: u64 = 0;
    proof { lemma2_to64(); }
    while k < e
        invariant
            k <= e,
            le_normal(d@),
            le_value(d@) == m * pow2(k as nat),
        decreases e - k,
    {
        d = double_digits(&d);
        proof {
            lemma_pow2_unfold((k + 1) as nat);
            assert(m * pow2((k + 1) as nat) == 2 * (m * pow2(k as nat))) by (nonlinear_arith)
                requires pow2((k + 1) as nat) == 2 * pow2(k as nat);
        }
        k = k + 1;
    }
    digits_text(&d)
}

/// `format!("{:.2}", x)` for the double with bit pattern `bits`.
pub fn format_fixed2(bits: u64) -> (r: String)
    ensures
        r@ == fixed2_text(bits),
{
    if crate::float::is_nan(bits) {
        proof { reveal_strlit("NaN"); }
        let t = String::from_str("NaN");
        assert(t@ =~= fixed2_text(bits));
        return t;
    }
    let mut out = String::new();
    if bits >= 0x8000_0000_0000_0000 {
        string_push(&mut out, '-');
    }
    let ghost sign = out@;
    assert(sign =~= (if f64_negative(bits) { seq!['-'] } else { Seq::<char>::empty() }));
    if !crate::float::is_finite(bits) {
        string_push(&mut out, 'i');
        string_push(&mut out, 'n');
        string_push(&mut out, 'f');
        assert(out@ =~= fixed2_text(bits));
        return out;
    }
    let exp: u64 = (bits % 0x8000_0000_0000_0000) / 0x10_0000_0000_0000;
    let frac: u64 = bits % 0x10_0000_0000_0000;
    assert(exp as int == f64_exponent(bits) && frac as int == f64_fraction(bits));
    assert(exp < 2047);
    let m: u64 = if exp == 0 { frac } else { frac + 0x10_0000_0000_0000 };
    assert(m as nat == f64_significand(bits));
    assert(m < 0x20_0000_0000_0000);
    if exp >= 1075 {
        let e = exp - 1075;
        assert(f64_scale(bits) == e as int);
        let body = scaled_decimal(m, e);
        string_append(&mut out, &body);
        string_push(&mut out, '.');
        string_push(&mut out, '0');
        string_push(&mut out, '0');
        proof {
            let h = hundredths(bits);
            let v = (m * pow2(e as nat)) as nat;
            assert(h == v * 100) by (nonlinear_arith) requires h == m * 100 * pow2(e as nat), v == m * pow2(e as nat);
            assert(h / 100 == v && h % 100 == 0) by (nonlinear_arith) requires h == v * 100;
            assert(out@ =~= fixed2_text(bits));
        }
        return out;
    }
    let shift: u64 = if exp == 0 { 1074 } else { 1075 - exp };
    assert(f64_scale(bits) == -(shift as int));
    let x: u64 = m * 100;
    let n: u64 = if shift >= 64 {
        proof {
            lemma_pow2_pos(shift as nat);
            lemma2_to64();
            lemma2_to64_rest();
            lemma_pow2_strictly_increases(60, (shift - 1) as nat);
            lemma_pow2_unfold(shift as nat);
            assert(x < pow2(60));
            let d = pow2(shift as nat) as int;
            assert(2 * (x as int) < d);
            assert((x as int) / d == 0 && (x as int) % d == x as int) by (nonlinear_arith)
                requires 0 <= x < d;
            assert(round_half_even(x as nat, shift as nat) == 0);
        }
        0
    } else {
        let d = pow2_u64(shift);
        proof {
            lemma_pow2_pos(shift as nat);
            lemma2_to64();
            lemma2_to64_rest();
            if shift < 63 {
                lemma_pow2_strictly_increases(shift as nat, 63);
            }
        }
        assert(d > 0);
        assert(d <= 0x8000_0000_0000_0000);
        let q = x / d;
        let rem = x % d;
        if 2 * rem > d || (2 * rem == d && q % 2 == 1) { q + 1 } else { q }
    };
    assert(n as nat == hundredths(bits));
    let whole = u64_to_decimal(n / 100);
    string_append(&mut out, &whole);
    string_push(&mut out, '.');
    string_push(&mut out, digit_of(((n % 100) / 10) as u8));
    string_push(&mut out, digit_of((n % 10) as u8));
    assert(out@ =~= fixed2_text(bits));
    out
}

} // verus!
