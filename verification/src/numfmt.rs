//! Exact integer accounts of the `f64` values the display code works with:
//! the conversion of a `u64`, the quotient of two `u32`, and the text that
//! `{:.N}` formatting writes for such a value. A value is kept as an integer
//! numerator over a power of two, so nothing is rounded but where IEEE 754
//! (round to nearest, ties to even) rounds.
use vstd::prelude::*;
use crate::text::{
    decimal, digit_char, digits_value, is_digit, lemma_decimal_denotes, padded_digits, push_decimal,
    push_padded_digits,
};

verus! {

/// 2 to the power `e`.
pub open spec fn exp2(e: nat) -> nat
    decreases e,
{
    if e == 0 {
        1
    } else {
        2 * exp2((e - 1) as nat)
    }
}

/// 10 to the power `e`.
pub open spec fn exp10(e: nat) -> nat
    decreases e,
{
    if e == 0 {
        1
    } else {
        10 * exp10((e - 1) as nat)
    }
}

pub proof fn lemma_exp2_pos(e: nat)
    ensures
        exp2(e) >= 1,
    decreases e,
{
    if e > 0 {
        lemma_exp2_pos((e - 1) as nat);
    }
}

pub proof fn lemma_exp2_add(a: nat, b: nat)
    ensures
        exp2(a + b) == exp2(a) * exp2(b),
    decreases a,
{
    if a > 0 {
        lemma_exp2_add((a - 1) as nat, b);
        let x = exp2((a - 1) as nat);
        assert(exp2(a) == 2 * x);
        assert(exp2(a + b) == 2 * exp2((a - 1 + b) as nat));
        assert(2 * (x * exp2(b)) == (2 * x) * exp2(b)) by (nonlinear_arith);
    } else {
        assert(exp2(0) == 1);
        assert(a + b == b);
    }
}

/// A larger exponent gives at least twice the power.
pub proof fn lemma_exp2_grows(a: nat, b: nat)
    requires
        a < b,
    ensures
        2 * exp2(a) <= exp2(b),
    decreases b,
{
    lemma_exp2_pos(a);
    if b - 1 > a {
        lemma_exp2_grows(a, (b - 1) as nat);
        lemma_exp2_pos((b - 1) as nat);
    }
}

pub proof fn lemma_exp2_monotone(a: nat, b: nat)
    requires
        a <= b,
    ensures
        exp2(a) <= exp2(b),
{
    if a < b {
        lemma_exp2_grows(a, b);
    }
}

pub proof fn lemma_exp2_values()
    ensures
        exp2(0) == 1,
        exp2(1) == 2,
        exp2(10) == 1024,
        exp2(11) == 2048,
        exp2(12) == 4096,
        exp2(20) == 1048576,
        exp2(32) == 0x1_0000_0000,
        exp2(52) == 0x10_0000_0000_0000,
        exp2(53) == 0x20_0000_0000_0000,
        exp2(64) == 0x1_0000_0000_0000_0000,
        exp2(84) == 0x10_0000_0000_0000_0000_0000,
        exp2(85) == 0x20_0000_0000_0000_0000_0000,
{
    reveal_with_fuel(exp2, 13);
    lemma_exp2_add(10, 10);
    assert(exp2(20) == 1048576);
    lemma_exp2_add(20, 12);
    assert(exp2(32) == 0x1_0000_0000);
    lemma_exp2_add(32, 20);
    assert(exp2(52) == 0x10_0000_0000_0000);
    lemma_exp2_add(52, 1);
    lemma_exp2_add(52, 12);
    assert(exp2(64) == 0x1_0000_0000_0000_0000);
    lemma_exp2_add(64, 20);
    assert(exp2(84) == 0x10_0000_0000_0000_0000_0000);
    lemma_exp2_add(84, 1);
}

/// `2^e` as a machine integer.
pub fn pow2_u128(e: u32) -> (r: u128)
    requires
        e < 128,
    ensures
        r == exp2(e as nat),
{
    let mut r: u128 = 1;
    let mut i: u32 = 0;
    proof {
        lemma_exp2_values();
        lemma_exp2_monotone(0, 127);
        lemma_exp2_add(64, 63);
        lemma_exp2_add(52, 11);
        lemma_exp2_add(63, 1);
    }
    assert(exp2(127) == 0x8000_0000_0000_0000_0000_0000_0000_0000);
    while i < e
        invariant
            i <= e < 128,
            r == exp2(i as nat),
            exp2(127) == 0x8000_0000_0000_0000_0000_0000_0000_0000,
        decreases e - i,
    {
        proof {
            lemma_exp2_grows(i as nat, 127);
        }
        r = r * 2;
        i = i + 1;
    }
    r
}

/// `n / d` rounded to the nearest integer, a tie going to the even one.
pub open spec fn round_half_even(n: nat, d: nat) -> nat {
    let q = n / d;
    let r = n % d;
    if 2 * r > d || (2 * r == d && q % 2 == 1) {
        q + 1
    } else {
        q
    }
}

pub fn round_half_even_u128(n: u128, d: u128) -> (r: u128)
    requires
        0 < d <= 0x1_0000_0000_0000_0000_0000_0000_0000,
        n < 0xFFFF_FFFF_FFFF_FFFF_FFFF_FFFF_FFFF_FFFF,
    ensures
        r == round_half_even(n as nat, d as nat),
        r <= n / d + 1,
{
    let q = n / d;
    let r = n % d;
    if 2 * r > d || (2 * r == d && q % 2 == 1) {
        q + 1
    } else {
        q
    }
}

// ---------------------------------------------------------------------------
// `u64 as f64`
// ---------------------------------------------------------------------------

/// `x` lies in the binade where `f64` values are spaced `2^s` apart.
pub open spec fn binade_shift(x: nat, s: nat) -> bool {
    exp2(52 + s) <= x < exp2(53 + s)
}

/// The value of `x as f64` for a natural `x`: `x` itself below `2^53`, above
/// that `x` rounded to a multiple of the spacing of its binade, ties to even.
pub open spec fn f64_of_nat(x: nat) -> nat {
    if x < exp2(53) {
        x
    } else {
        let s = choose|s: nat| binade_shift(x, s);
        round_half_even(x, exp2(s)) * exp2(s)
    }
}

proof fn lemma_binade_unique(x: nat, s1: nat, s2: nat)
    requires
        binade_shift(x, s1),
        binade_shift(x, s2),
    ensures
        s1 == s2,
{
    if s1 < s2 {
        lemma_exp2_grows(52 + s1, 52 + s2);
        lemma_exp2_grows(52 + s1, 53 + s1);
        lemma_exp2_add(52 + s1, 1);
        reveal_with_fuel(exp2, 2);
    } else if s2 < s1 {
        lemma_exp2_add(52 + s2, 1);
        lemma_exp2_grows(52 + s2, 52 + s1);
        reveal_with_fuel(exp2, 2);
    }
}

/// The value of `x as f64`, exactly.
pub fn f64_of_u64(x: u64) -> (r: u128)
    ensures
        r == f64_of_nat(x as nat),
        r <= 0x1_0000_0000_0000_1000,
{
    proof {
        lemma_exp2_values();
    }
    if x < 0x20_0000_0000_0000 {
        return x as u128;
    }
    let xx = x as u128;
    let mut s: u32 = 0;
    let mut p: u128 = 1;
    while xx >= 0x20_0000_0000_0000 * p
        invariant
            p == exp2(s as nat),
            xx == x,
            xx < 0x1_0000_0000_0000_0000,
            p >= 1,
            0x10_0000_0000_0000 * p <= xx,
        decreases 4096 - p,
    {
        proof {
            lemma_exp2_values();
            if s >= 12 {
                lemma_exp2_monotone(12, s as nat);
            }
            assert(exp2((s + 1) as nat) == 2 * exp2(s as nat));
        }
        s = s + 1;
        p = p * 2;
    }
    proof {
        lemma_exp2_values();
        lemma_exp2_add(53, s as nat);
        lemma_exp2_add(52, s as nat);
        assert(binade_shift(x as nat, s as nat));
        let c = choose|t: nat| binade_shift(x as nat, t);
        lemma_binade_unique(x as nat, s as nat, c);
    }
    let q = round_half_even_u128(xx, p);
    proof {
        assert((xx / p) * p <= xx) by (nonlinear_arith)
            requires
                p > 0,
        ;
        assert(q * p <= xx + p) by (nonlinear_arith)
            requires
                q <= xx / p + 1,
                (xx / p) * p <= xx,
                p > 0,
        ;
    }
    q * p
}

// ---------------------------------------------------------------------------
// `w as f64 / h as f64`
// ---------------------------------------------------------------------------

/// Scaling `w / h` by `2^k` puts it in `[2^52, 2^53)`.
pub open spec fn quotient_scale(w: nat, h: nat, k: nat) -> bool {
    exp2(52) * h <= w * exp2(k) && w * exp2(k) < exp2(53) * h
}

/// The `f64` nearest to `w / h` (ties to even), multiplied by `2^85`; this is
/// an integer for every `w`, `h` below `2^32` with `h > 0`.
pub open spec fn f64_quotient(w: nat, h: nat) -> nat {
    if w == 0 {
        0
    } else {
        let k = choose|k: nat| quotient_scale(w, h, k);
        round_half_even(w * exp2(k), h) * exp2((85 - k) as nat)
    }
}

/// `2^85`: the scale of the values `f64_quotient` gives.
pub open spec fn unit() -> nat {
    exp2(85)
}

pub proof fn lemma_quotient_scale_unique(w: nat, h: nat, k1: nat, k2: nat)
    requires
        quotient_scale(w, h, k1),
        quotient_scale(w, h, k2),
    ensures
        k1 == k2,
{
    lemma_exp2_values();
    lemma_exp2_add(52, 1);
    if k1 < k2 {
        lemma_exp2_grows(k1, k2);
        assert(w * exp2(k2) >= exp2(53) * h) by (nonlinear_arith)
            requires
                exp2(k2) >= 2 * exp2(k1),
                w * exp2(k1) >= exp2(52) * h,
                exp2(53) == 2 * exp2(52),
        ;
    } else if k2 < k1 {
        lemma_exp2_grows(k2, k1);
        assert(w * exp2(k1) >= exp2(53) * h) by (nonlinear_arith)
            requires
                exp2(k1) >= 2 * exp2(k2),
                w * exp2(k2) >= exp2(52) * h,
                exp2(53) == 2 * exp2(52),
        ;
    }
}

/// The `f64` nearest to `w / h`, times `2^85`, exactly.
pub fn quotient_value(w: u32, h: u32) -> (r: u128)
    requires
        h > 0,
    ensures
        r == f64_quotient(w as nat, h as nat),
        r <= 0x40_0000_0000_0000_0000_0000_0000_0000,
{
    proof {
        lemma_exp2_values();
    }
    if w == 0 {
        return 0;
    }
    let hh = h as u128;
    let lo: u128 = hh * 0x10_0000_0000_0000;
    let mut n: u128 = w as u128;
    let mut k: u32 = 0;
    while n < lo
        invariant
            hh == h,
            h > 0,
            w > 0,
            lo == 0x10_0000_0000_0000 * hh,
            n == w * exp2(k as nat),
            exp2(k as nat) <= n,
            n >= 1,
            n < 2 * lo,
            k <= 85,
        decreases 2 * lo - n,
    {
        proof {
            lemma_exp2_values();
            // 2^k <= n < lo < 2^84, so k < 84
            if k >= 84 {
                lemma_exp2_monotone(84, k as nat);
            }
            assert(exp2((k + 1) as nat) == 2 * exp2(k as nat));
        }
        n = n * 2;
        k = k + 1;
        proof {
            assert(n == w * exp2(k as nat)) by (nonlinear_arith)
                requires
                    n == 2 * (w * exp2((k - 1) as nat)),
                    exp2(k as nat) == 2 * exp2((k - 1) as nat),
            ;
        }
    }
    proof {
        lemma_exp2_values();
        lemma_exp2_add(52, 1);
        assert(quotient_scale(w as nat, h as nat, k as nat)) by (nonlinear_arith)
            requires
                lo == exp2(52) * h,
                lo <= n,
                n < 2 * lo,
                n == w * exp2(k as nat),
                exp2(53) == 2 * exp2(52),
        ;
        let c = choose|t: nat| quotient_scale(w as nat, h as nat, t);
        lemma_quotient_scale_unique(w as nat, h as nat, k as nat, c);
        if k >= 85 {
            lemma_exp2_monotone(85, k as nat);
        }
    }
    let scale = pow2_u128(85 - k);
    let m = round_half_even_u128(n, hh);
    proof {
        lemma_exp2_add(k as nat, (85 - k) as nat);
        assert(n / hh < 0x20_0000_0000_0000) by (nonlinear_arith)
            requires
                n < 2 * lo,
                lo == 0x10_0000_0000_0000 * hh,
                hh > 0,
        ;
        assert(exp2(k as nat) > 0x10_0000) by (nonlinear_arith)
            requires
                n == w * exp2(k as nat),
                n >= lo,
                lo == 0x10_0000_0000_0000 * hh,
                hh >= 1,
                w < 0x1_0000_0000,
        ;
        assert(scale < 0x2_0000_0000_0000_0000) by (nonlinear_arith)
            requires
                exp2(k as nat) * scale == 0x20_0000_0000_0000_0000_0000,
                exp2(k as nat) > 0x10_0000,
        ;
        assert(m * scale <= 0x40_0000_0000_0000_0000_0000_0000_0000) by (nonlinear_arith)
            requires
                m <= 0x20_0000_0000_0000,
                scale <= 0x2_0000_0000_0000_0000,
        ;
    }
    m * scale
}

/// Rounding is unchanged when numerator and denominator are scaled alike.
pub proof fn lemma_round_half_even_scaled(n: nat, d: nat, k: nat)
    requires
        d > 0,
        k > 0,
    ensures
        round_half_even(k * n, k * d) == round_half_even(n, d),
{
    let q = n / d;
    let r = n % d;
    vstd::arithmetic::div_mod::lemma_fundamental_div_mod(n as int, d as int);
    assert(k * n == q * (k * d) + k * r) by (nonlinear_arith)
        requires
            n == d * q + r,
    ;
    assert(0 <= k * r < k * d) by (nonlinear_arith)
        requires
            0 <= r < d,
            k > 0,
    ;
    vstd::arithmetic::div_mod::lemma_fundamental_div_mod_converse(
        (k * n) as int,
        (k * d) as int,
        q as int,
        (k * r) as int,
    );
    assert((2 * (k * r) > k * d) == (2 * r > d)) by (nonlinear_arith)
        requires
            k > 0,
    ;
    assert((2 * (k * r) == k * d) == (2 * r == d)) by (nonlinear_arith)
        requires
            k > 0,
    ;
}

/// The `f64` quotient depends only on the ratio: scaling both operands by
/// the same factor leaves it unchanged.
pub proof fn lemma_quotient_scaled(w: nat, h: nat, k: nat)
    requires
        h > 0,
        k > 0,
        k * w < 0x1_0000_0000,
        k * h < 0x1_0000_0000,
    ensures
        f64_quotient(k * w, k * h) == f64_quotient(w, h),
{
    if w == 0 {
        assert(k * w == 0);
    } else {
        assert(k * w != 0) by (nonlinear_arith)
            requires
                k > 0,
                w > 0,
        ;
        lemma_exp2_values();
        // a scale exponent exists for w / h
        assert(w < 0x1_0000_0000 && h < 0x1_0000_0000) by (nonlinear_arith)
            requires
                k > 0,
                k * w < 0x1_0000_0000,
                k * h < 0x1_0000_0000,
        ;
        lemma_quotient_scale_exists(w, h);
        let e = choose|e: nat| quotient_scale(w, h, e);
        assert(quotient_scale(k * w, k * h, e)) by (nonlinear_arith)
            requires
                exp2(52) * h <= w * exp2(e),
                w * exp2(e) < exp2(53) * h,
                k > 0,
        ;
        let kw = k * w;
        let kh = k * h;
        let e2 = choose|e2: nat| quotient_scale(kw, kh, e2);
        lemma_quotient_scale_unique(kw, kh, e, e2);
        assert(k * w * exp2(e) == k * (w * exp2(e))) by (nonlinear_arith);
        lemma_round_half_even_scaled(w * exp2(e), h, k);
    }
}

/// For `w > 0` and `h > 0` below `2^32` a scale exponent exists.
pub proof fn lemma_quotient_scale_exists(w: nat, h: nat)
    requires
        0 < w < 0x1_0000_0000,
        0 < h < 0x1_0000_0000,
    ensures
        exists|e: nat| quotient_scale(w, h, e),
{
    lemma_exp2_values();
    lemma_quotient_scale_search(w, h, 0);
}

proof fn lemma_quotient_scale_search(w: nat, h: nat, e: nat)
    requires
        w > 0,
        0 < h,
        w * exp2(e) < exp2(53) * h,
    ensures
        exists|f: nat| quotient_scale(w, h, f),
    decreases exp2(53) * h - w * exp2(e),
{
    lemma_exp2_values();
    lemma_exp2_pos(e);
    if exp2(52) * h <= w * exp2(e) {
        assert(quotient_scale(w, h, e));
    } else {
        assert(exp2(e + 1) == 2 * exp2(e));
        assert(w * exp2(e + 1) == 2 * (w * exp2(e))) by (nonlinear_arith)
            requires
                exp2(e + 1) == 2 * exp2(e),
        ;
        assert(w * exp2(e) >= 1) by (nonlinear_arith)
            requires
                w > 0,
                exp2(e) >= 1,
        ;
        assert(w * exp2(e + 1) < exp2(53) * h);
        lemma_quotient_scale_search(w, h, e + 1);
    }
}

// ---------------------------------------------------------------------------
// `{:.N}` formatting
// ---------------------------------------------------------------------------

/// The text `{:.N}` writes for the non-negative value `num / den` with
/// `N == places`: the value rounded to `places` decimals, ties to even (the
/// exact binary value is rounded), as integer digits, a point and exactly
/// `places` digits.
pub open spec fn fixed_text(num: nat, den: nat, places: nat) -> Seq<char> {
    let n = round_half_even(num * exp10(places), den);
    decimal(n / exp10(places)) + seq!['.'] + padded_digits(n % exp10(places), places)
}

/// Appends `fixed_text(num, den, places)`.
pub fn push_fixed(s: &mut String, num: u128, den: u128, places: u32)
    requires
        0 < den <= 0x1_0000_0000_0000_0000_0000_0000_0000,
        1 <= places <= 2,
        num <= 0x100_0000_0000_0000_0000_0000_0000_0000,
    ensures
        final(s)@ == old(s)@ + fixed_text(num as nat, den as nat, places as nat),
{
    proof {
        reveal_with_fuel(exp10, 3);
    }
    let p: u128 = if places == 1 {
        10
    } else {
        100
    };
    assert(p == exp10(places as nat));
    let n = round_half_even_u128(num * p, den);
    push_decimal(s, n / p);
    s.push('.');
    push_padded_digits(s, n % p, places);
    assert(final(s)@ =~= old(s)@ + fixed_text(num as nat, den as nat, places as nat));
}

// ---------------------------------------------------------------------------
// Properties of rounding and of the written value
// ---------------------------------------------------------------------------

/// `round_half_even(n, d)` is an integer nearest to `n / d`, and of two
/// equally near ones the even one.
pub proof fn lemma_round_half_even_nearest(n: nat, d: nat)
    requires
        d > 0,
    ensures
        2 * (n - round_half_even(n, d) * d) <= d,
        2 * (round_half_even(n, d) * d - n) <= d,
        (2 * (n - round_half_even(n, d) * d) == d || 2 * (round_half_even(n, d) * d - n) == d)
            ==> round_half_even(n, d) % 2 == 0,
{
    let q = n / d;
    let r = n % d;
    vstd::arithmetic::div_mod::lemma_fundamental_div_mod(n as int, d as int);
    assert(n == q * d + r) by (nonlinear_arith)
        requires
            n == d * q + r,
    ;
    assert((q + 1) * d == q * d + d) by (nonlinear_arith);
}

/// The last `places` digits of `n`: exactly `places` ASCII digits, which
/// denote `n mod 10^places` (leading zeros kept).
pub proof fn lemma_padded_digits_denote(n: nat, places: nat)
    ensures
        padded_digits(n, places).len() == places,
        forall|i: int| 0 <= i < places ==> is_digit(#[trigger] padded_digits(n, places)[i]),
        digits_value(padded_digits(n, places)) == n % exp10(places),
    decreases places,
{
    if places == 0 {
        assert(n % 1 == 0);
    } else {
        let p1 = (places - 1) as nat;
        lemma_padded_digits_denote(n / 10, p1);
        let s = padded_digits(n, places);
        assert(s.drop_last() =~= padded_digits(n / 10, p1));
        assert(is_digit(digit_char(n % 10)));
        assert((digit_char(n % 10) as u32) - 48 == n % 10);
        assert forall|i: int| 0 <= i < places implies is_digit(#[trigger] s[i]) by {
            if i < places - 1 {
                assert(s[i] == padded_digits(n / 10, p1)[i]);
            }
        }
        // n mod 10E = 10 (n/10 mod E) + n mod 10
        let e = exp10(p1);
        assert(e >= 1) by {
            lemma_exp10_pos(p1);
        }
        let q = n / 10;
        let r = n % 10;
        let m = q / e;
        let t = q % e;
        vstd::arithmetic::div_mod::lemma_fundamental_div_mod(n as int, 10);
        vstd::arithmetic::div_mod::lemma_fundamental_div_mod(q as int, e as int);
        assert(n == m * (10 * e) + (10 * t + r)) by (nonlinear_arith)
            requires
                n == 10 * q + r,
                q == e * m + t,
        ;
        assert(0 <= 10 * t + r < 10 * e) by (nonlinear_arith)
            requires
                t < e,
                r < 10,
        ;
        vstd::arithmetic::div_mod::lemma_fundamental_div_mod_converse(
            n as int,
            (10 * e) as int,
            m as int,
            (10 * t + r) as int,
        );
        assert(exp10(places) == 10 * e);
    }
}

pub proof fn lemma_exp10_pos(e: nat)
    ensures
        exp10(e) >= 1,
    decreases e,
{
    if e > 0 {
        lemma_exp10_pos((e - 1) as nat);
    }
}

/// The text `{:.N}` writes for `num / den`: the digits of the integer part
/// of the rounded value (no leading zero), a point, then exactly `places`
/// digits whose value is the rounded value's fraction in units of
/// `10^-places`; the rounded value is `round_half_even(num 10^places, den)`,
/// the nearest multiple of `10^-places`, ties to even.
pub proof fn lemma_fixed_text_shape(num: nat, den: nat, places: nat)
    requires
        den > 0,
    ensures
        ({
            let n = round_half_even(num * exp10(places), den);
            let t = fixed_text(num, den, places);
            let k = t.len() - places - 1;
            &&& t.len() >= places + 2
            &&& t[k] == '.'
            &&& forall|i: int| 0 <= i < k ==> is_digit(#[trigger] t[i])
            &&& forall|i: int| k < i < t.len() ==> is_digit(#[trigger] t[i])
            &&& digits_value(t.subrange(0, k)) == n / exp10(places)
            &&& digits_value(t.subrange(k + 1, t.len() as int)) == n % exp10(places)
            &&& (k == 1 || t[0] != '0')
        }),
{
    let n = round_half_even(num * exp10(places), den);
    let a = decimal(n / exp10(places));
    let b = padded_digits(n % exp10(places), places);
    lemma_decimal_denotes(n / exp10(places));
    lemma_padded_digits_denote(n % exp10(places), places);
    lemma_exp10_pos(places);
    let t = fixed_text(num, den, places);
    assert(t == a + seq!['.'] + b);
    let k = a.len() as int;
    assert(t.len() == a.len() + 1 + places);
    assert(t.subrange(0, k) =~= a);
    assert(t.subrange(k + 1, t.len() as int) =~= b);
    assert(n % exp10(places) % exp10(places) == n % exp10(places)) by {
        vstd::arithmetic::div_mod::lemma_mod_twice(n as int, exp10(places) as int);
    }
    assert forall|i: int| 0 <= i < k implies is_digit(#[trigger] t[i]) by {
        assert(t[i] == a[i]);
    }
    assert forall|i: int| k < i < t.len() implies is_digit(#[trigger] t[i]) by {
        assert(t[i] == b[i - k - 1]);
    }
    if k != 1 {
        assert(n / exp10(places) > 0) by {
            if n / exp10(places) == 0 {
                assert(a =~= seq!['0']);
            }
        }
        assert(t[0] == a[0]);
    }
}

/// `f64_quotient(w, h)` is `w / h` (scaled by `2^85`) up to a relative
/// error of at most `2^-53`, the rounding error of one `f64` division; it is
/// 0 exactly when `w` is.
pub proof fn lemma_f64_quotient_close(w: nat, h: nat)
    requires
        0 < h < 0x1_0000_0000,
        w < 0x1_0000_0000,
    ensures
        ({
            let q = f64_quotient(w, h) as int;
            let x = (w * exp2(85)) as int;
            &&& exp2(53) * (q * h - x) <= x
            &&& exp2(53) * (x - q * h) <= x
            &&& (q == 0) == (w == 0)
        }),
{
    if w == 0 {
        assert(w * exp2(85) == 0);
        assert(f64_quotient(w, h) == 0);
        assert(f64_quotient(w, h) * h == 0) by (nonlinear_arith)
            requires
                f64_quotient(w, h) == 0,
        ;
    } else {
        lemma_exp2_values();
        lemma_quotient_scale_exists(w, h);
        let k = choose|k: nat| quotient_scale(w, h, k);
        let e = exp2(k);
        let n = w * e;
        let m = round_half_even(n, h);
        // k < 85: else w 2^k >= 2^85 > 2^53 h
        if k >= 85 {
            lemma_exp2_monotone(85, k);
            assert(w * e >= exp2(85)) by (nonlinear_arith)
                requires
                    w >= 1,
                    e >= exp2(85),
            ;
            assert(exp2(53) * h < exp2(85)) by (nonlinear_arith)
                requires
                    h < 0x1_0000_0000,
                    exp2(53) == 0x20_0000_0000_0000,
                    exp2(85) == 0x20_0000_0000_0000_0000_0000,
            ;
        }
        let f = exp2((85 - k) as nat);
        lemma_exp2_add(k, (85 - k) as nat);
        assert(exp2(85) == e * f);
        lemma_round_half_even_nearest(n, h);
        let q = m * f;
        assert(f64_quotient(w, h) == q);
        lemma_exp2_pos((85 - k) as nat);
        assert(exp2(52) * h <= n);
        assert(q * h - w * exp2(85) == f * (m * h - n)) by (nonlinear_arith)
            requires
                q == m * f,
                n == w * e,
                exp2(85) == e * f,
        ;
        assert(exp2(53) * (f * (m * h - n)) <= w * exp2(85)) by (nonlinear_arith)
            requires
                2 * (m * h - n) <= h,
                f >= 1,
                exp2(53) == 2 * exp2(52),
                exp2(52) * h <= n,
                n == w * e,
                exp2(85) == e * f,
        ;
        assert(exp2(53) * (f * (n - m * h)) <= w * exp2(85)) by (nonlinear_arith)
            requires
                2 * (n - m * h) <= h,
                f >= 1,
                exp2(53) == 2 * exp2(52),
                exp2(52) * h <= n,
                n == w * e,
                exp2(85) == e * f,
        ;
        let qi = f64_quotient(w, h) as int;
        let xi = (w * exp2(85)) as int;
        assert(qi * h - xi == f * (m * h - n)) by (nonlinear_arith)
            requires
                qi == m * f,
                n == w * e,
                xi == w * (e * f),
        ;
        assert(exp2(53) * (qi * h - xi) <= xi);
        assert(exp2(53) * (xi - qi * h) <= xi) by {
            assert(xi - qi * h == f * (n - m * h)) by (nonlinear_arith)
                requires
                    qi * h - xi == f * (m * h - n),
            ;
        }
        assert(m > 0) by (nonlinear_arith)
            requires
                2 * (n - m * h) <= h,
                exp2(52) * h <= n,
                exp2(52) == 0x10_0000_0000_0000,
                h > 0,
        ;
        assert(q > 0) by (nonlinear_arith)
            requires
                q == m * f,
                m > 0,
                f >= 1,
        ;
    }
}

/// `f64_of_nat(x)` is `x` itself below `2^53`, and in general within a
/// relative error of `2^-53`: the rounding of one conversion to `f64`.
pub proof fn lemma_f64_of_nat_close(x: nat)
    ensures
        x < exp2(53) ==> f64_of_nat(x) == x,
        exp2(53) * (f64_of_nat(x) - x) <= x,
        exp2(53) * (x - f64_of_nat(x)) <= x,
{
    if x >= exp2(53) {
        lemma_exp2_values();
        lemma_binade_exists(x, 0);
        let s = choose|s: nat| binade_shift(x, s);
        {
            let e = exp2(s);
            lemma_exp2_pos(s);
            lemma_exp2_add(52, s);
            lemma_round_half_even_nearest(x, e);
            let m = round_half_even(x, e);
            assert(exp2(53) * (m * e - x) <= x) by (nonlinear_arith)
                requires
                    2 * (m * e - x) <= e,
                    exp2(53) == 2 * exp2(52),
                    exp2(52 + s) == exp2(52) * e,
                    exp2(52 + s) <= x,
            ;
            assert(exp2(53) * (x - m * e) <= x) by (nonlinear_arith)
                requires
                    2 * (x - m * e) <= e,
                    exp2(53) == 2 * exp2(52),
                    exp2(52 + s) == exp2(52) * e,
                    exp2(52 + s) <= x,
            ;
        }
    }
}

proof fn lemma_binade_exists(x: nat, s: nat)
    requires
        exp2(52 + s) <= x,
    ensures
        exists|t: nat| binade_shift(x, t),
    decreases x - exp2(52 + s),
{
    if x >= exp2(53 + s) {
        lemma_exp2_grows(52 + s, 53 + s);
        lemma_exp2_pos(52 + s);
        assert(53 + s == 52 + (s + 1));
        lemma_binade_exists(x, s + 1);
    } else {
        assert(binade_shift(x, s));
    }
}

} // verus!
