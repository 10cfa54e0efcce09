//! Quotients in decimal notation, with a fixed number of places.

use crate::text::{decimal, decimal_text, pad_left, padded};
use vstd::arithmetic::div_mod::{lemma_fundamental_div_mod, lemma_fundamental_div_mod_converse};
use vstd::prelude::*;

verus! {

/// The `n`-th power of ten.
pub open spec fn pow10(n: nat) -> nat
    decreases n,
{
    if n == 0 {
        1
    } else {
        10 * pow10((n - 1) as nat)
    }
}

/// `a / b` rounded to the nearest integer, halves to the even neighbour.
pub open spec fn round_half_even(a: nat, b: nat) -> nat {
    let q = a / b;
    let r = a % b;
    if 2 * r < b {
        q
    } else if 2 * r > b {
        q + 1
    } else {
        q + q % 2
    }
}

pub open spec fn magnitude(x: int) -> nat {
    if x < 0 {
        (-x) as nat
    } else {
        x as nat
    }
}

/// `scaled` tens-of-`places`-th parts, written with `places` digits after the point.
pub open spec fn fixed(scaled: nat, places: nat) -> Seq<char> {
    decimal(scaled / pow10(places)).push('.') + padded(
        decimal(scaled % pow10(places)),
        places,
        '0',
    )
}

/// The quotient `num / den` written with `places` digits after the point. A negative
/// quotient keeps its sign even where it rounds to zero. The exact quotient is rounded, and
/// what lies exactly between two neighbours goes to the even one: 0.05 with one place reads
/// `0.0`, where a binary fraction, which is not exactly 0.05, may read `0.1`.
pub open spec fn ratio_text(num: int, den: nat, places: nat) -> Seq<char> {
    let unsigned = fixed(round_half_even(magnitude(num) * pow10(places), den), places);
    if num < 0 {
        seq!['-'] + unsigned
    } else {
        unsigned
    }
}

pub proof fn lemma_pow10_positive(n: nat)
    ensures
        pow10(n) > 0,
    decreases n,
{
    if n > 0 {
        lemma_pow10_positive((n - 1) as nat);
    }
}

pub proof fn lemma_pow10_add(a: nat, b: nat)
    ensures
        pow10(a + b) == pow10(a) * pow10(b),
    decreases a,
{
    let q = pow10(b);
    if a == 0 {
        assert(1 * q == q);
    } else {
        let p = pow10((a - 1) as nat);
        lemma_pow10_add((a - 1) as nat, b);
        assert(((a + b) - 1) as nat == ((a - 1) as nat) + b);
        assert(pow10(a) == 10 * p);
        assert(10 * (p * q) == (10 * p) * q) by (nonlinear_arith);
    }
}

/// The first powers of ten.
pub proof fn lemma_pow10_small()
    ensures
        pow10(0) == 1,
        pow10(1) == 10,
        pow10(2) == 100,
        pow10(3) == 1000,
        pow10(9) == 1_000_000_000,
{
    reveal_with_fuel(pow10, 10);
}

pub proof fn lemma_pow10_monotone(a: nat, b: nat)
    requires
        a <= b,
    ensures
        pow10(a) <= pow10(b),
    decreases b,
{
    if a < b {
        lemma_pow10_monotone(a, (b - 1) as nat);
    }
}

/// Rounding depends on the quotient alone, not on how it is written as a fraction.
pub proof fn lemma_round_scale(k: nat, a: nat, b: nat)
    requires
        k > 0,
        b > 0,
    ensures
        round_half_even(k * a, k * b) == round_half_even(a, b),
{
    let q = a / b;
    let r = a % b;
    lemma_fundamental_div_mod(a as int, b as int);
    assert(k * a == q * (k * b) + k * r) by (nonlinear_arith)
        requires
            a == b * q + r,
    ;
    assert(0 <= k * r < k * b) by (nonlinear_arith)
        requires
            0 <= r < b,
            k > 0,
    ;
    lemma_fundamental_div_mod_converse((k * a) as int, (k * b) as int, q as int, (k * r) as int);
    assert(2 * r < b ==> 2 * (k * r) < k * b) by (nonlinear_arith)
        requires
            k > 0,
    ;
    assert(2 * r > b ==> 2 * (k * r) > k * b) by (nonlinear_arith)
        requires
            k > 0,
    ;
    assert(2 * r == b ==> 2 * (k * r) == k * b) by (nonlinear_arith);
}

/// The `n`-th power of ten, for the powers that fit.
pub fn power_of_ten(n: u32) -> (r: u128)
    requires
        n <= 38,
    ensures
        r == pow10(n as nat),
{
    let mut r: u128 = 1;
    let mut k: u32 = 0;
    proof {
        assert(pow10(38) == 100000000000000000000000000000000000000nat) by {
            reveal_with_fuel(pow10, 39);
        }
    }
    while k < n
        invariant
            k <= n <= 38,
            r == pow10(k as nat),
            pow10(38) == 100000000000000000000000000000000000000nat,
        decreases n - k,
    {
        proof {
            lemma_pow10_monotone((k + 1) as nat, 38);
        }
        r = r * 10;
        k = k + 1;
    }
    r
}

/// `a / b` rounded to the nearest integer, halves to the even neighbour.
pub fn round_div(a: u128, b: u128) -> (r: u128)
    requires
        b > 0,
    ensures
        r == round_half_even(a as nat, b as nat),
{
    let q: u128 = a / b;
    let rem: u128 = a % b;
    proof {
        lemma_fundamental_div_mod(a as int, b as int);
        assert(b > 1 ==> q < u128::MAX) by (nonlinear_arith)
            requires
                a == b * q + rem,
                rem >= 0,
                a <= u128::MAX,
        ;
    }
    let other: u128 = b - rem;
    if rem < other {
        q
    } else if rem > other {
        q + 1
    } else {
        q + q % 2
    }
}

pub fn abs_of(x: i128) -> (r: u128)
    ensures
        r == magnitude(x as int),
{
    if x < 0 {
        (-(x + 1)) as u128 + 1
    } else {
        x as u128
    }
}

fn fixed_text(scaled: u128, places: u32) -> (r: String)
    requires
        1 <= places <= 38,
    ensures
        r@ == fixed(scaled as nat, places as nat),
{
    let unit = power_of_ten(places);
    proof {
        lemma_pow10_positive(places as nat);
    }
    let whole = decimal_text(scaled / unit);
    let part = decimal_text(scaled % unit);
    let part = pad_left(part.as_str(), places as usize, '0');
    let mut r = whole;
    r.push('.');
    r.append(part.as_str());
    r
}

fn with_sign(negative: bool, unsigned: String) -> (r: String)
    ensures
        r@ == if negative {
            seq!['-'] + unsigned@
        } else {
            unsigned@
        },
{
    if negative {
        let mut r = String::new();
        r.push('-');
        assert(r@ == seq!['-']);
        r.append(unsigned.as_str());
        r
    } else {
        unsigned
    }
}

/// The quotient `num / den` with `places` digits after the point.
pub fn ratio_fixed(num: i128, den: u128, places: u32) -> (r: String)
    requires
        den > 0,
        1 <= places <= 38,
        magnitude(num as int) * pow10(places as nat) <= u128::MAX,
    ensures
        r@ == ratio_text(num as int, den as nat, places as nat),
{
    let unit = power_of_ten(places);
    let a = abs_of(num);
    let scaled = round_div(a * unit, den);
    with_sign(num < 0, fixed_text(scaled, places))
}

/// The distance of two numbers, and whether the first is the smaller one.
pub fn difference(a: i128, b: i128) -> (r: (bool, u128))
    ensures
        r.0 == (a < b),
        r.1 == magnitude(a - b),
{
    let low: i128 = if a < b {
        a
    } else {
        b
    };
    let high: i128 = if a < b {
        b
    } else {
        a
    };
    let size: u128 = if low >= 0 || high < 0 {
        (high - low) as u128
    } else {
        high as u128 + abs_of(low)
    };
    (a < b, size)
}

/// `size` parts, of which `unit * 10^places` make a whole, with `places` digits after the
/// point.
fn scaled_fixed(negative: bool, size: u128, unit: u128, places: u32) -> (r: String)
    requires
        unit > 0,
        1 <= places <= 38,
    ensures
        forall|num: int|
            magnitude(num) == size && (num < 0) == negative ==> #[trigger] ratio_text(
                num,
                unit as nat * pow10(places as nat),
                places as nat,
            ) == r@,
{
    proof {
        let k = pow10(places as nat);
        lemma_pow10_positive(places as nat);
        lemma_round_scale(k, size as nat, unit as nat);
        assert(k * (size as nat) == (size as nat) * k) by (nonlinear_arith);
        assert(k * (unit as nat) == (unit as nat) * k) by (nonlinear_arith);
    }
    let scaled = round_div(size, unit);
    with_sign(negative, fixed_text(scaled, places))
}

fn seconds_signed(negative: bool, size: u128, places: u32) -> (r: String)
    requires
        1 <= places <= 9,
    ensures
        forall|num: int|
            magnitude(num) == size && (num < 0) == negative ==> #[trigger] ratio_text(
                num,
                1_000_000_000,
                places as nat,
            ) == r@,
{
    let unit = power_of_ten(9 - places);
    proof {
        lemma_pow10_positive((9 - places) as nat);
        lemma_pow10_small();
        lemma_pow10_add((9 - places) as nat, places as nat);
        assert((9 - places) as nat + places as nat == 9nat);
    }
    scaled_fixed(negative, size, unit, places)
}

/// A length of time in nanoseconds, written in seconds with `places` digits after the
/// point.
pub fn seconds_fixed(nanos: i128, places: u32) -> (r: String)
    requires
        1 <= places <= 9,
    ensures
        r@ == ratio_text(nanos as int, 1_000_000_000, places as nat),
{
    seconds_signed(nanos < 0, abs_of(nanos), places)
}

/// The time from `b` to `a`, both in nanoseconds, written in seconds with `places` digits
/// after the point.
pub fn seconds_between(a: i128, b: i128, places: u32) -> (r: String)
    requires
        1 <= places <= 9,
    ensures
        r@ == ratio_text(a - b, 1_000_000_000, places as nat),
{
    let (negative, size) = difference(a, b);
    seconds_signed(negative, size, places)
}

/// A length of time in nanoseconds, written in minutes with one digit after the point.
pub fn minutes_fixed(nanos: i128) -> (r: String)
    ensures
        r@ == ratio_text(nanos as int, 60_000_000_000, 1),
{
    proof {
        lemma_pow10_small();
        assert(6_000_000_000nat * pow10(1) == 60_000_000_000nat);
    }
    scaled_fixed(nanos < 0, abs_of(nanos), 6_000_000_000, 1)
}

/// `num / (rate * 10^9)` with `places` digits after the point: a length of time in units of
/// a nanosecond divided by the sample rate, written in seconds.
pub fn rated_fixed(num: i128, rate: u32, places: u32) -> (r: String)
    requires
        rate > 0,
        1 <= places <= 9,
    ensures
        r@ == ratio_text(num as int, rate as nat * 1_000_000_000, places as nat),
{
    let power = power_of_ten(9 - places);
    proof {
        lemma_pow10_positive((9 - places) as nat);
        lemma_pow10_small();
        lemma_pow10_monotone((9 - places) as nat, 9);
        lemma_pow10_add((9 - places) as nat, places as nat);
        assert((9 - places) as nat + places as nat == 9nat);
        let k = pow10(places as nat);
        assert((rate * power) * k == rate * (power * k)) by (nonlinear_arith);
        assert(0 < rate * power <= 0xffff_ffff * 1_000_000_000) by (nonlinear_arith)
            requires
                0 < rate <= 0xffff_ffff,
                0 < power <= 1_000_000_000,
        ;
    }
    scaled_fixed(num < 0, abs_of(num), rate as u128 * power, places)
}

/// `num / (10^6 * rate * n)` with one digit after the point.
pub fn rated_share(num: i128, rate: u32, n: u64) -> (r: String)
    requires
        rate > 0,
        n > 0,
    ensures
        r@ == ratio_text(num as int, 1_000_000 * (rate as nat) * (n as nat), 1),
{
    proof {
        lemma_pow10_small();
        let a = 100_000 * rate;
        assert(0 < a * n <= 100_000 * 0xffff_ffff * 0xffff_ffff_ffff_ffff) by (nonlinear_arith)
            requires
                a == 100_000 * rate,
                0 < rate <= 0xffff_ffff,
                0 < n <= 0xffff_ffff_ffff_ffff,
        ;
        assert((a * n) * 10 == 1_000_000 * (rate as nat) * (n as nat)) by (nonlinear_arith)
            requires
                a == 100_000 * rate,
        ;
    }
    let unit: u128 = 100_000 * rate as u128 * n as u128;
    scaled_fixed(num < 0, abs_of(num), unit, 1)
}

/// The rounded quotient is the nearest integer: no farther from the quotient than a half, and
/// even where it is exactly that far.
pub proof fn law_rounding_is_to_the_nearest(a: nat, b: nat)
    requires
        b > 0,
    ensures
        ({
            let q = round_half_even(a, b);
            &&& -(b as int) <= 2 * (q * b - a) <= b
            &&& 2 * (q * b - a) == b || 2 * (q * b - a) == -(b as int) ==> q % 2 == 0
        }),
{
    lemma_fundamental_div_mod(a as int, b as int);
    let f = a / b;
    let q = round_half_even(a, b);
    assert(f * b == b * f) by (nonlinear_arith);
    assert((f + 1) * b == f * b + b) by (nonlinear_arith);
    assert(q == f || q == f + 1);
    assert(q == f ==> q * b == f * b);
    assert(q == f + 1 ==> q * b == f * b + b);
}

} // verus!
