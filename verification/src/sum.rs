//! Hours, minutes and seconds in decimal notation, added up exactly.
//!
//! The three numbers are added digit by digit. What is above the nanosecond is added from
//! the top down, and given up as soon as it is too large to come back; what is below is
//! added from the bottom up, with one digit and whether anything follows it.

use crate::decimal::{lemma_pow10_add, lemma_pow10_positive, magnitude, pow10};
use crate::numeral::{
    all_digits, clamp_i64, digit_value, digits_value, is_digit, lemma_digits_bound,
    lemma_digits_join, lemma_digits_split, lemma_zeros, shifted, Numeral, Term,
};
use vstd::arithmetic::div_mod::{lemma_fundamental_div_mod, lemma_fundamental_div_mod_converse};
use vstd::prelude::*;

verus! {

/// The lowest place that any of three numbers, or the nanosecond, has.
pub open spec fn lowest(h: Numeral, m: Numeral, s: Numeral) -> int {
    let a = if h.exponent < m.exponent {
        h.exponent
    } else {
        m.exponent
    };
    let b = if s.exponent < a {
        s.exponent
    } else {
        a
    };
    if b < -9 {
        b
    } else {
        -9
    }
}

/// A number in units of `10^low`.
pub open spec fn at_scale(n: Numeral, low: int) -> int {
    let size = (n.mantissa * pow10((n.exponent - low) as nat)) as int;
    if n.negative {
        -size
    } else {
        size
    }
}

/// Hours, minutes and seconds added up, in seconds of the lowest place.
pub open spec fn total(h: Numeral, m: Numeral, s: Numeral) -> int {
    let low = lowest(h, m, s);
    at_scale(h, low) * 3600 + at_scale(m, low) * 60 + at_scale(s, low)
}

/// `x * 10^shift`, rounded to the nearest integer with halves away from zero.
pub open spec fn rounded(x: int, shift: int) -> int {
    if x < 0 {
        -(shifted(magnitude(x), shift) as int)
    } else {
        shifted(magnitude(x), shift) as int
    }
}

/// The nanoseconds of hours, minutes and seconds: added up exactly, and rounded and held in
/// the 64-bit range once.
pub open spec fn nanoseconds(h: Numeral, m: Numeral, s: Numeral) -> int {
    clamp_i64(rounded(total(h, m, s), lowest(h, m, s) + 9))
}

/// The digit of a number that stands for `10^p`.
spec fn char_at(digits: Seq<char>, exponent: int, p: int) -> char {
    let k = digits.len() - 1 - (p - exponent);
    if 0 <= k < digits.len() {
        digits[k]
    } else {
        '0'
    }
}

/// The digits of a number from place `low + len - 1` down to place `low`.
spec fn word(t: Term, low: int, len: nat) -> Seq<char> {
    Seq::new(len, |i: int| char_at(t.digits@, t.exponent as int, low + len - 1 - i))
}

proof fn lemma_word(t: Term, low: int, len: nat)
    requires
        all_digits(t.digits@),
        low <= t.exponent,
        t.exponent + t.digits@.len() <= low + len,
    ensures
        all_digits(word(t, low, len)),
        digits_value(word(t, low, len)) == digits_value(t.digits@) * pow10(
            (t.exponent - low) as nat,
        ),
{
    let d = t.digits@;
    let b = (t.exponent - low) as nat;
    let a = (len - b - d.len()) as nat;
    let front = Seq::new(a, |i: int| '0');
    let back = Seq::new(b, |i: int| '0');
    lemma_zeros(front);
    lemma_zeros(back);
    lemma_digits_join(d, back);
    lemma_digits_join(front, d + back);
    assert(word(t, low, len) =~= front + (d + back));
    assert(0 * pow10((d + back).len()) == 0);
}

fn digit_at(t: &Term, p: i128) -> (r: i128)
    requires
        t.wf(),
        -0x1_0000_0000_0000_0000_0000 <= p <= 0x1_0000_0000_0000_0000_0000,
    ensures
        r == digit_value(char_at(t.digits@, t.exponent as int, p as int)),
        0 <= r <= 9,
{
    let n: usize = t.digits.len();
    let up: i128 = p - t.exponent;
    if up < 0 || up >= n as i128 {
        0
    } else {
        let k: usize = n - 1 - up as usize;
        let c = t.digits[k];
        assert(is_digit(t.digits@[k as int]));
        (c as u32 - '0' as u32) as i128
    }
}

/// A number with a weight and a sign.
spec fn weighed(negative: bool, weight: int, size: int) -> int {
    if negative {
        -(weight * size)
    } else {
        weight * size
    }
}

/// Three rows of digits, added up with their signs and weights.
spec fn mixed(a: Seq<char>, b: Seq<char>, c: Seq<char>, x: bool, y: bool, z: bool) -> int {
    weighed(x, 3600, digits_value(a) as int) + weighed(y, 60, digits_value(b) as int) + weighed(
        z,
        1,
        digits_value(c) as int,
    )
}

/// One column of three rows.
spec fn column(
    a: Seq<char>,
    b: Seq<char>,
    c: Seq<char>,
    x: bool,
    y: bool,
    z: bool,
    i: int,
) -> int {
    weighed(x, 3600, digit_value(a[i]) as int) + weighed(y, 60, digit_value(b[i]) as int)
        + weighed(z, 1, digit_value(c[i]) as int)
}

spec fn rows(a: Seq<char>, b: Seq<char>, c: Seq<char>) -> bool {
    &&& all_digits(a) && all_digits(b) && all_digits(c)
    &&& a.len() == b.len() == c.len()
}

proof fn lemma_scaled(x: bool, k: int, u: int, v: int, p: int, w: int)
    requires
        w == u * p + v,
    ensures
        weighed(x, k, w) == weighed(x, k, u) * p + weighed(x, k, v),
{
    assert(k * w == (k * u) * p + k * v && (-(k * u)) * p == -((k * u) * p)) by (nonlinear_arith)
        requires
            w == u * p + v,
    ;
}

/// The rows can be cut in two anywhere.
proof fn lemma_cut(a: Seq<char>, b: Seq<char>, c: Seq<char>, x: bool, y: bool, z: bool, i: int)
    requires
        rows(a, b, c),
        0 <= i <= a.len(),
    ensures
        mixed(a, b, c, x, y, z) == mixed(a.take(i), b.take(i), c.take(i), x, y, z) * pow10(
            (a.len() - i) as nat,
        ) + mixed(a.skip(i), b.skip(i), c.skip(i), x, y, z),
{
    let p = pow10((a.len() - i) as nat) as int;
    lemma_digits_split(a, i);
    lemma_digits_split(b, i);
    lemma_digits_split(c, i);
    let (a0, b0, c0) = (
        digits_value(a.take(i)) as int,
        digits_value(b.take(i)) as int,
        digits_value(c.take(i)) as int,
    );
    lemma_scaled(x, 3600, a0, digits_value(a.skip(i)) as int, p, digits_value(a) as int);
    lemma_scaled(y, 60, b0, digits_value(b.skip(i)) as int, p, digits_value(b) as int);
    lemma_scaled(z, 1, c0, digits_value(c.skip(i)) as int, p, digits_value(c) as int);
    let (u, v, w) = (weighed(x, 3600, a0), weighed(y, 60, b0), weighed(z, 1, c0));
    assert((u + v + w) * p == u * p + v * p + w * p) by (nonlinear_arith);
}

proof fn lemma_part_digits(s: Seq<char>, i: int, j: int)
    requires
        all_digits(s),
        0 <= i <= j <= s.len(),
    ensures
        all_digits(s.subrange(i, j)),
{
    assert forall|k: int| 0 <= k < j - i implies is_digit(#[trigger] s.subrange(i, j)[k]) by {
        assert(s.subrange(i, j)[k] == s[i + k]);
    }
}

/// From the top down, each column is ten times what was added before it and itself.
proof fn lemma_down(a: Seq<char>, b: Seq<char>, c: Seq<char>, x: bool, y: bool, z: bool, i: int)
    requires
        rows(a, b, c),
        0 <= i < a.len(),
    ensures
        mixed(a.take(i + 1), b.take(i + 1), c.take(i + 1), x, y, z) == 10 * mixed(
            a.take(i),
            b.take(i),
            c.take(i),
            x,
            y,
            z,
        ) + column(a, b, c, x, y, z, i),
        -32949 <= column(a, b, c, x, y, z, i) <= 32949,
{
    assert(a.take(i + 1).drop_last() =~= a.take(i));
    assert(b.take(i + 1).drop_last() =~= b.take(i));
    assert(c.take(i + 1).drop_last() =~= c.take(i));
    assert(is_digit(a[i]) && is_digit(b[i]) && is_digit(c[i]));
    let (a0, b0, c0) = (
        digits_value(a.take(i)) as int,
        digits_value(b.take(i)) as int,
        digits_value(c.take(i)) as int,
    );
    lemma_scaled(x, 3600, a0, digit_value(a[i]) as int, 10, 10 * a0 + digit_value(a[i]));
    lemma_scaled(y, 60, b0, digit_value(b[i]) as int, 10, 10 * b0 + digit_value(b[i]));
    lemma_scaled(z, 1, c0, digit_value(c[i]) as int, 10, 10 * c0 + digit_value(c[i]));
}

/// From the bottom up, each column stands above what was added below it.
proof fn lemma_up(a: Seq<char>, b: Seq<char>, c: Seq<char>, x: bool, y: bool, z: bool, i: int)
    requires
        rows(a, b, c),
        0 <= i < a.len(),
    ensures
        mixed(a.skip(i), b.skip(i), c.skip(i), x, y, z) == column(a, b, c, x, y, z, i) * pow10(
            (a.len() - i - 1) as nat,
        ) + mixed(a.skip(i + 1), b.skip(i + 1), c.skip(i + 1), x, y, z),
        -32949 <= column(a, b, c, x, y, z, i) <= 32949,
{
    let n = a.len() as int;
    lemma_part_digits(a, i, n);
    lemma_part_digits(b, i, n);
    lemma_part_digits(c, i, n);
    let (p, q, r) = (a.skip(i), b.skip(i), c.skip(i));
    assert(p =~= a.subrange(i, n) && q =~= b.subrange(i, n) && r =~= c.subrange(i, n));
    lemma_cut(p, q, r, x, y, z, 1);
    lemma_down(p, q, r, x, y, z, 0);
    assert(p.take(0) =~= Seq::empty() && q.take(0) =~= Seq::empty() && r.take(0) =~= Seq::empty());
    assert(p.skip(1) =~= a.skip(i + 1));
    assert(q.skip(1) =~= b.skip(i + 1));
    assert(r.skip(1) =~= c.skip(i + 1));
    assert(digits_value(Seq::empty()) == 0);
    assert(mixed(p.take(0), q.take(0), r.take(0), x, y, z) == 0);
}

/// What is added below a place is less than 3661 there.
proof fn lemma_below(a: Seq<char>, b: Seq<char>, c: Seq<char>, x: bool, y: bool, z: bool)
    requires
        rows(a, b, c),
    ensures
        -3661 * pow10(a.len()) <= mixed(a, b, c, x, y, z) <= 3661 * pow10(a.len()),
{
    lemma_digits_bound(a);
    lemma_digits_bound(b);
    lemma_digits_bound(c);
}

/// What is too large above the nanosecond stays too large, whatever is below.
proof fn lemma_out_of_range(
    a: Seq<char>,
    b: Seq<char>,
    c: Seq<char>,
    x: bool,
    y: bool,
    z: bool,
    i: int,
    k: nat,
)
    requires
        rows(a, b, c),
        0 <= i,
        i + k <= a.len(),
        magnitude(mixed(a.take(i), b.take(i), c.take(i), x, y, z))
            >= 1_000_000_000_000_000_000_000_000,
    ensures
        ({
            let top = mixed(a.take(i), b.take(i), c.take(i), x, y, z);
            let all = mixed(a, b, c, x, y, z);
            &&& top < 0 ==> clamp_i64(rounded(all, -(k as int))) == i64::MIN
            &&& top > 0 ==> clamp_i64(rounded(all, -(k as int))) == i64::MAX
        }),
{
    let n = a.len() as int;
    let r = (n - i) as nat;
    let top = mixed(a.take(i), b.take(i), c.take(i), x, y, z);
    let rest = mixed(a.skip(i), b.skip(i), c.skip(i), x, y, z);
    let all = mixed(a, b, c, x, y, z);
    lemma_cut(a, b, c, x, y, z, i);
    lemma_part_digits(a, i, n);
    lemma_part_digits(b, i, n);
    lemma_part_digits(c, i, n);
    assert(a.skip(i) =~= a.subrange(i, n));
    assert(b.skip(i) =~= b.subrange(i, n));
    assert(c.skip(i) =~= c.subrange(i, n));
    lemma_below(a.skip(i), b.skip(i), c.skip(i), x, y, z);
    let q = pow10((r - k) as nat) as int;
    let p = pow10(k) as int;
    lemma_pow10_add((r - k) as nat, k);
    lemma_pow10_positive((r - k) as nat);
    lemma_pow10_positive(k);
    assert((r - k) as nat + k == r);
    let bound: int = 100_000_000_000_000_000_000_000;
    let size = magnitude(all) as int;
    assert(size >= bound * p && (top < 0 ==> all < 0) && (top > 0 ==> all > 0))
        by (nonlinear_arith)
        requires
            all == top * (q * p) + rest,
            -3661 * (q * p) <= rest <= 3661 * (q * p),
            top >= 10 * bound || top <= -(10 * bound),
            bound == 100_000_000_000_000_000_000_000,
            q >= 1,
            p >= 1,
            size == all || size == -all,
            size >= 0,
    ;
    if k == 0 {
        assert(pow10(0) == 1);
        assert(size * 1 == size);
        assert(shifted(size as nat, 0) == size);
    } else {
        let half = 5 * pow10((k - 1) as nat);
        assert((size + half) / p >= bound) by (nonlinear_arith)
            requires
                size >= bound * p,
                half >= 0,
                p >= 1,
        ;
    }
}

/// Rounding with halves away from zero, by what stands above the point and what follows it.
proof fn lemma_rounded(x: int, whole: int, rest: int, k: nat)
    requires
        k >= 1,
        x == whole * pow10(k) + rest,
        0 <= rest < pow10(k),
    ensures
        ({
            let half = 5 * pow10((k - 1) as nat);
            rounded(x, -(k as int)) == if whole >= 0 {
                if rest >= half {
                    whole + 1
                } else {
                    whole
                }
            } else {
                if rest > half {
                    whole + 1
                } else {
                    whole
                }
            }
        }),
{
    let p = pow10(k) as int;
    let half = (5 * pow10((k - 1) as nat)) as int;
    lemma_pow10_positive((k - 1) as nat);
    assert(p == 2 * half);
    if whole >= 0 {
        assert(x >= 0) by (nonlinear_arith)
            requires
                x == whole * p + rest,
                whole >= 0,
                rest >= 0,
                p > 0,
        ;
        if rest >= half {
            assert(x + half == p * (whole + 1) + (rest - half)) by (nonlinear_arith)
                requires
                    x == whole * p + rest,
                    p == 2 * half,
            ;
            lemma_fundamental_div_mod_converse(x + half, p, whole + 1, rest - half);
        } else {
            assert(x + half == p * whole + (rest + half)) by (nonlinear_arith)
                requires
                    x == whole * p + rest,
            ;
            lemma_fundamental_div_mod_converse(x + half, p, whole, rest + half);
        }
    } else {
        assert(x < 0) by (nonlinear_arith)
            requires
                x == whole * p + rest,
                whole <= -1,
                rest < p,
                p > 0,
        ;
        if rest > half {
            assert(-x + half == p * (-whole - 1) + (p + half - rest)) by (nonlinear_arith)
                requires
                    x == whole * p + rest,
            ;
            lemma_fundamental_div_mod_converse(-x + half, p, -whole - 1, p + half - rest);
        } else {
            assert(-x + half == p * (-whole) + (half - rest)) by (nonlinear_arith)
                requires
                    x == whole * p + rest,
            ;
            lemma_fundamental_div_mod_converse(-x + half, p, -whole, half - rest);
        }
    }
}

/// Rounding once moves the exact sum by half a nanosecond at most.
pub proof fn law_sum_is_kept_to_half_a_nanosecond(h: Numeral, m: Numeral, s: Numeral)
    ensures
        ({
            let low = lowest(h, m, s);
            let unit = pow10((-9 - low) as nat);
            let sum = total(h, m, s);
            -(unit as int) <= 2 * (rounded(sum, low + 9) * unit - sum) <= unit
        }),
{
    let k = (-9 - lowest(h, m, s)) as nat;
    let p = pow10(k) as int;
    let x = total(h, m, s);
    lemma_pow10_positive(k);
    if k == 0 {
        assert(pow10(0) == 1);
        assert(magnitude(x) * 1 == magnitude(x));
        assert(x * 1 == x);
    } else {
        let whole = x / p;
        let rest = x % p;
        lemma_fundamental_div_mod(x, p);
        assert(p * whole == whole * p) by (nonlinear_arith);
        lemma_rounded(x, whole, rest, k);
        assert((whole + 1) * p == whole * p + p) by (nonlinear_arith);
        assert(p == 2 * (5 * pow10((k - 1) as nat)));
    }
}

fn clamp(x: i128) -> (r: i64)
    ensures
        r == clamp_i64(x as int),
{
    if x < i64::MIN as i128 {
        i64::MIN
    } else if x > i64::MAX as i128 {
        i64::MAX
    } else {
        x as i64
    }
}

fn column_at(h: &Term, m: &Term, s: &Term, p: i128) -> (r: i128)
    requires
        h.wf(),
        m.wf(),
        s.wf(),
        -0x1_0000_0000_0000_0000_0000 <= p <= 0x1_0000_0000_0000_0000_0000,
    ensures
        r == weighed(
            h.negative,
            3600,
            digit_value(char_at(h.digits@, h.exponent as int, p as int)) as int,
        ) + weighed(
            m.negative,
            60,
            digit_value(char_at(m.digits@, m.exponent as int, p as int)) as int,
        ) + weighed(
            s.negative,
            1,
            digit_value(char_at(s.digits@, s.exponent as int, p as int)) as int,
        ),
        -32949 <= r <= 32949,
{
    let a = digit_at(h, p) * 3600;
    let b = digit_at(m, p) * 60;
    let c = digit_at(s, p);
    let a: i128 = if h.negative {
        -a
    } else {
        a
    };
    let b: i128 = if m.negative {
        -b
    } else {
        b
    };
    let c: i128 = if s.negative {
        -c
    } else {
        c
    };
    a + b + c
}

/// What is above the nanosecond, added from the top down; or how it ends where it is too
/// large.
enum Above {
    Sum(i128),
    Beyond { negative: bool },
}

/// The digits of three numbers down from place `high`.
spec fn words(h: Term, m: Term, s: Term, low: int, high: int) -> (Seq<char>, Seq<char>, Seq<char>) {
    let len = (high - low) as nat;
    (word(h, low, len), word(m, low, len), word(s, low, len))
}

spec fn spans(t: Term, low: int, high: int) -> bool {
    low <= t.exponent && t.exponent + t.digits@.len() <= high
}

fn add_above(h: &Term, m: &Term, s: &Term, low: i128, high: i128) -> (r: Above)
    requires
        h.wf() && m.wf() && s.wf(),
        spans(*h, low as int, high as int),
        spans(*m, low as int, high as int),
        spans(*s, low as int, high as int),
        -0x1_0000_0000_0000_0000_0000 <= low <= -9 <= high <= 0x1_0000,
    ensures
        ({
            let (a, b, c) = words(*h, *m, *s, low as int, high as int);
            let (x, y, z) = (h.negative, m.negative, s.negative);
            let k = (-9 - low) as int;
            match r {
                Above::Sum(v) => {
                    &&& v == mixed(a.take(high + 9), b.take(high + 9), c.take(high + 9), x, y, z)
                    &&& -1_000_000_000_000_000_000_000_000 <= v
                        <= 1_000_000_000_000_000_000_000_000
                },
                Above::Beyond { negative } => clamp_i64(rounded(mixed(a, b, c, x, y, z), -k)) == (
                if negative {
                    i64::MIN as int
                } else {
                    i64::MAX as int
                }),
            }
        }),
{
    let ghost (a, b, c) = words(*h, *m, *s, low as int, high as int);
    let ghost (x, y, z) = (h.negative, m.negative, s.negative);
    let ghost k = (-9 - low) as nat;
    proof {
        lemma_word(*h, low as int, (high - low) as nat);
        lemma_word(*m, low as int, (high - low) as nat);
        lemma_word(*s, low as int, (high - low) as nat);
        assert(a.take(0) =~= Seq::empty() && b.take(0) =~= Seq::empty() && c.take(0)
            =~= Seq::empty());
        assert(digits_value(Seq::empty()) == 0);
    }
    let mut sum: i128 = 0;
    let mut i: i128 = 0;
    while i < high + 9
        invariant
            h.wf() && m.wf() && s.wf(),
            -0x1_0000_0000_0000_0000_0000 <= low <= -9 <= high <= 0x1_0000,
            (a, b, c) == words(*h, *m, *s, low as int, high as int),
            (x, y, z) == (h.negative, m.negative, s.negative),
            rows(a, b, c),
            a.len() == high - low,
            k == -9 - low,
            0 <= i <= high + 9,
            sum == mixed(a.take(i as int), b.take(i as int), c.take(i as int), x, y, z),
            -1_000_000_000_000_000_000_000_000 < sum < 1_000_000_000_000_000_000_000_000,
        decreases high + 9 - i,
    {
        proof {
            lemma_down(a, b, c, x, y, z, i as int);
        }
        let col = column_at(h, m, s, high - 1 - i);
        assert(col == column(a, b, c, x, y, z, i as int));
        sum = sum * 10 + col;
        i = i + 1;
        if sum >= 1_000_000_000_000_000_000_000_000 || sum <= -1_000_000_000_000_000_000_000_000 {
            proof {
                lemma_out_of_range(a, b, c, x, y, z, i as int, k);
            }
            return Above::Beyond { negative: sum < 0 };
        }
    }
    Above::Sum(sum)
}

/// What is below the nanosecond: the nanoseconds that it makes up, the digit behind them, and
/// whether anything follows.
struct Below {
    carry: i128,
    digit: i128,
    more: bool,
}

/// Whether `v` is `carry` wholes and `rest` parts, of which `10^k` make a whole; the first
/// digit of `rest` and whether anything follows it are known.
spec fn carries(v: int, b: Below, rest: int, k: nat) -> bool {
    let p = pow10((k - 1) as nat);
    &&& v == b.carry * pow10(k) + rest
    &&& k == 0 ==> rest == 0 && b.digit == 0 && !b.more
    &&& k > 0 ==> {
        &&& 0 <= b.digit <= 9
        &&& b.digit * p <= rest < b.digit * p + p
        &&& b.more == (rest > b.digit * p)
    }
    &&& -4000 <= b.carry <= 4000
}

proof fn lemma_carry(v: int, b: Below, rest: int, k: nat, col: int, n: Below) -> (r: int)
    requires
        carries(v, b, rest, k),
        -32949 <= col <= 32949,
        n.digit == (b.carry + col) % 10,
        n.carry == (b.carry + col) / 10,
        n.more == (b.more || b.digit > 0),
    ensures
        carries(col * pow10(k) + v, n, r, (k + 1) as nat),
{
    let p = pow10(k) as int;
    lemma_pow10_positive(k);
    let r = n.digit * p + rest;
    let c = b.carry + col;
    assert(col * p + v == n.carry * (10 * p) + r) by (nonlinear_arith)
        requires
            v == b.carry * p + rest,
            c == b.carry + col,
            c == 10 * n.carry + n.digit,
            r == n.digit * p + rest,
    ;
    if k > 0 {
        let q = pow10((k - 1) as nat) as int;
        lemma_pow10_positive((k - 1) as nat);
        assert(0 <= rest < p && (rest > 0 <==> b.more || b.digit > 0)) by (nonlinear_arith)
            requires
                0 <= b.digit <= 9,
                b.digit * q <= rest < b.digit * q + q,
                b.more == (rest > b.digit * q),
                p == 10 * q,
                q > 0,
        ;
    }
    r
}

fn add_below(h: &Term, m: &Term, s: &Term, low: i128, high: i128) -> (r: (Below, Ghost<int>))
    requires
        h.wf() && m.wf() && s.wf(),
        spans(*h, low as int, high as int),
        spans(*m, low as int, high as int),
        spans(*s, low as int, high as int),
        -0x1_0000_0000_0000_0000_0000 <= low <= -9 <= high <= 0x1_0000,
    ensures
        ({
            let (a, b, c) = words(*h, *m, *s, low as int, high as int);
            let n = high + 9;
            carries(
                mixed(a.skip(n), b.skip(n), c.skip(n), h.negative, m.negative, s.negative),
                r.0,
                r.1@,
                (-9 - low) as nat,
            )
        }),
{
    let ghost (a, b, c) = words(*h, *m, *s, low as int, high as int);
    let ghost (x, y, z) = (h.negative, m.negative, s.negative);
    let ghost n = high - low;
    proof {
        lemma_word(*h, low as int, (high - low) as nat);
        lemma_word(*m, low as int, (high - low) as nat);
        lemma_word(*s, low as int, (high - low) as nat);
        assert(a.skip(n) =~= Seq::empty() && b.skip(n) =~= Seq::empty() && c.skip(n)
            =~= Seq::empty());
        assert(digits_value(Seq::empty()) == 0);
    }
    let mut below = Below { carry: 0, digit: 0, more: false };
    let ghost mut rest: int = 0;
    let mut p: i128 = low;
    assert(pow10(0) == 1);
    assert(mixed(a.skip(n as int), b.skip(n as int), c.skip(n as int), x, y, z) == 0);
    while p < -9
        invariant
            h.wf() && m.wf() && s.wf(),
            -0x1_0000_0000_0000_0000_0000 <= low <= p <= -9 <= high <= 0x1_0000,
            (a, b, c) == words(*h, *m, *s, low as int, high as int),
            (x, y, z) == (h.negative, m.negative, s.negative),
            rows(a, b, c),
            n == high - low,
            a.len() == n,
            carries(
                mixed(a.skip(high - p), b.skip(high - p), c.skip(high - p), x, y, z),
                below,
                rest,
                (p - low) as nat,
            ),
        decreases -9 - p,
    {
        let ghost i = high - 1 - p;
        proof {
            lemma_up(a, b, c, x, y, z, i);
        }
        let col = column_at(h, m, s, p);
        assert(col == column(a, b, c, x, y, z, i));
        let sum: i128 = below.carry + col;
        let shift: i128 = sum + 40_000;
        let next = Below {
            carry: shift / 10 - 4_000,
            digit: shift % 10,
            more: below.more || below.digit > 0,
        };
        proof {
            rest = lemma_carry(
                mixed(a.skip(i + 1), b.skip(i + 1), c.skip(i + 1), x, y, z),
                below,
                rest,
                (p - low) as nat,
                col as int,
                next,
            );
        }
        below = next;
        p = p + 1;
    }
    (below, Ghost(rest))
}

fn top_of(t: &Term) -> (r: i128)
    requires
        t.wf(),
    ensures
        r == t.exponent + t.digits@.len(),
{
    t.exponent + t.digits.len() as i128
}

fn smaller(a: i128, b: i128) -> (r: i128)
    ensures
        r <= a && r <= b,
        r == a || r == b,
{
    if a < b {
        a
    } else {
        b
    }
}

fn larger(a: i128, b: i128) -> (r: i128)
    ensures
        r >= a && r >= b,
        r == a || r == b,
{
    if a > b {
        a
    } else {
        b
    }
}

/// The nanoseconds of hours, minutes and seconds.
pub fn add_up(h: &Term, m: &Term, s: &Term) -> (r: i64)
    requires
        h.wf(),
        m.wf(),
        s.wf(),
    ensures
        r == nanoseconds(h.numeral(), m.numeral(), s.numeral()),
{
    let low = smaller(smaller(h.exponent, m.exponent), smaller(s.exponent, -9));
    let high = larger(larger(top_of(h), top_of(m)), larger(top_of(s), -9));
    let ghost len = (high - low) as nat;
    let ghost (a, b, c) = words(*h, *m, *s, low as int, high as int);
    let ghost (x, y, z) = (h.negative, m.negative, s.negative);
    let ghost k = (-9 - low) as nat;
    let ghost all = total(h.numeral(), m.numeral(), s.numeral());
    proof {
        assert(h.digits.len() == h.digits@.len());
        assert(m.digits.len() == m.digits@.len());
        assert(s.digits.len() == s.digits@.len());
        assert(low == lowest(h.numeral(), m.numeral(), s.numeral()));
        lemma_word(*h, low as int, len);
        lemma_word(*m, low as int, len);
        lemma_word(*s, low as int, len);
        assert(all == mixed(a, b, c, x, y, z));
    }
    match add_above(h, m, s, low, high) {
        Above::Beyond { negative } => if negative {
            i64::MIN
        } else {
            i64::MAX
        },
        Above::Sum(sum) => {
            let (below, Ghost(rest)) = add_below(h, m, s, low, high);
            let whole: i128 = sum + below.carry;
            let up: bool = if whole >= 0 {
                below.digit >= 5
            } else {
                below.digit > 5 || (below.digit == 5 && below.more)
            };
            proof {
                lemma_cut(a, b, c, x, y, z, high + 9);
                let p = pow10(k) as int;
                assert(all == whole * p + rest) by (nonlinear_arith)
                    requires
                        all == sum * p + (below.carry * p + rest),
                        whole == sum + below.carry,
                ;
                if k == 0 {
                    assert(pow10(0) == 1);
                    assert(magnitude(all) * 1 == magnitude(all));
                } else {
                    let q = pow10((k - 1) as nat) as int;
                    lemma_pow10_positive((k - 1) as nat);
                    let d = below.digit as int;
                    assert(0 <= rest < p && (rest >= 5 * q <==> d >= 5) && (rest > 5 * q <==> d > 5
                        || (d == 5 && rest > d * q))) by (nonlinear_arith)
                        requires
                            0 <= d <= 9,
                            d * q <= rest < d * q + q,
                            p == 10 * q,
                            q > 0,
                    ;
                    lemma_rounded(all, whole as int, rest, k);
                }
            }
            clamp(if up { whole + 1 } else { whole })
        },
    }
}

/// The sum does not depend on the place to which the numbers are taken: for every place `low`
/// at or below the last digit of each and the nanosecond, three times with their signs, taken
/// 3600, 60 and once, come within half a nanosecond of the result, unless that is held at the
/// end of the range.
pub proof fn law_hours_minutes_and_seconds(h: Numeral, m: Numeral, s: Numeral, low: int)
    requires
        low <= h.exponent,
        low <= m.exponent,
        low <= s.exponent,
        low <= -9,
        i64::MIN < nanoseconds(h, m, s) < i64::MAX,
    ensures
        ({
            let x = (h.mantissa * pow10((h.exponent - low) as nat)) as int;
            let y = (m.mantissa * pow10((m.exponent - low) as nat)) as int;
            let z = (s.mantissa * pow10((s.exponent - low) as nat)) as int;
            let a = if h.negative {
                -3600 * x
            } else {
                3600 * x
            };
            let b = if m.negative {
                -60 * y
            } else {
                60 * y
            };
            let c = if s.negative {
                -z
            } else {
                z
            };
            let unit = pow10((-9 - low) as nat);
            -(unit as int) <= 2 * (nanoseconds(h, m, s) * unit - (a + b + c)) <= unit
        }),
{
    let l = lowest(h, m, s);
    law_sum_is_kept_to_half_a_nanosecond(h, m, s);
    let k = (l - low) as nat;
    let q = pow10(k) as int;
    lemma_pow10_positive(k);
    lemma_pow10_add((h.exponent - l) as nat, k);
    lemma_pow10_add((m.exponent - l) as nat, k);
    lemma_pow10_add((s.exponent - l) as nat, k);
    lemma_pow10_add((-9 - l) as nat, k);
    assert((h.exponent - l) as nat + k == (h.exponent - low) as nat);
    assert((m.exponent - l) as nat + k == (m.exponent - low) as nat);
    assert((s.exponent - l) as nat + k == (s.exponent - low) as nat);
    assert((-9 - l) as nat + k == (-9 - low) as nat);
    let (x, y, z) = (
        pow10((h.exponent - l) as nat) as int,
        pow10((m.exponent - l) as nat) as int,
        pow10((s.exponent - l) as nat) as int,
    );
    let (u, v, w) = (h.mantissa as int, m.mantissa as int, s.mantissa as int);
    assert(u * (x * q) == (u * x) * q) by (nonlinear_arith);
    assert(v * (y * q) == (v * y) * q) by (nonlinear_arith);
    assert(w * (z * q) == (w * z) * q) by (nonlinear_arith);
    let (a, b, c) = (at_scale(h, l), at_scale(m, l), at_scale(s, l));
    assert((-(u * x)) * q == -((u * x) * q)) by (nonlinear_arith);
    assert((-(v * y)) * q == -((v * y) * q)) by (nonlinear_arith);
    assert((-(w * z)) * q == -((w * z) * q)) by (nonlinear_arith);
    let t = total(h, m, s);
    assert(t * q == (a * q) * 3600 + (b * q) * 60 + c * q) by (nonlinear_arith)
        requires
            t == a * 3600 + b * 60 + c,
    ;
    let p = pow10((-9 - l) as nat) as int;
    let n = nanoseconds(h, m, s);
    let d = n * p - t;
    assert(n * (p * q) - t * q == d * q) by (nonlinear_arith)
        requires
            d == n * p - t,
    ;
    assert(-(p * q) <= 2 * (d * q) <= p * q) by (nonlinear_arith)
        requires
            -p <= 2 * d <= p,
            q > 0,
    ;
}

/// A result at an end of the range stands for a sum that lies there or beyond, but for half a
/// nanosecond.
pub proof fn law_ends_of_the_range(h: Numeral, m: Numeral, s: Numeral)
    ensures
        ({
            let unit = pow10((-9 - lowest(h, m, s)) as nat);
            let sum = total(h, m, s);
            &&& nanoseconds(h, m, s) == i64::MAX ==> 2 * sum >= (2 * i64::MAX - 1) * unit
            &&& nanoseconds(h, m, s) == i64::MIN ==> 2 * sum <= (2 * i64::MIN + 1) * unit
        }),
{
    law_sum_is_kept_to_half_a_nanosecond(h, m, s);
    let low = lowest(h, m, s);
    let unit = pow10((-9 - low) as nat) as int;
    let sum = total(h, m, s);
    let r = rounded(sum, low + 9);
    lemma_pow10_positive((-9 - low) as nat);
    if r >= i64::MAX {
        assert(2 * sum >= (2 * i64::MAX - 1) * unit) by (nonlinear_arith)
            requires
                2 * (r * unit - sum) <= unit,
                r >= i64::MAX,
                unit > 0,
        ;
    }
    if r <= i64::MIN {
        assert(2 * sum <= (2 * i64::MIN + 1) * unit) by (nonlinear_arith)
            requires
                2 * (r * unit - sum) >= -unit,
                r <= i64::MIN,
                unit > 0,
        ;
    }
}

} // verus!
