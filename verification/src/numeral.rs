//! Reading decimal numerals into integers of a chosen scale.

use crate::decimal::{
    fixed, law_rounding_is_to_the_nearest, lemma_pow10_add, lemma_pow10_monotone,
    lemma_pow10_positive, magnitude, pow10, ratio_text, round_half_even,
};
use crate::text::{chars_of, copy_range, decimal, digit_char, find, first_of, lemma_first_of, padded};
use vstd::arithmetic::div_mod::{lemma_fundamental_div_mod, lemma_fundamental_div_mod_converse};
use vstd::prelude::*;

verus! {

pub open spec fn is_digit(c: char) -> bool {
    '0' <= c && c <= '9'
}

pub open spec fn all_digits(s: Seq<char>) -> bool {
    forall|i: int| 0 <= i < s.len() ==> is_digit(#[trigger] s[i])
}

pub open spec fn digit_value(c: char) -> nat {
    (c as int - '0' as int) as nat
}

/// The number that a row of digits stands for.
pub open spec fn digits_value(s: Seq<char>) -> nat
    decreases s.len(),
{
    if s.len() == 0 {
        0
    } else {
        10 * digits_value(s.drop_last()) + digit_value(s.last())
    }
}

/// Whether `s` starts with a sign.
pub open spec fn signed(s: Seq<char>) -> bool {
    s.len() > 0 && (s[0] == '-' || s[0] == '+')
}

pub open spec fn negative(s: Seq<char>) -> bool {
    s.len() > 0 && s[0] == '-'
}

pub open spec fn unsigned_part(s: Seq<char>) -> Seq<char> {
    if signed(s) {
        s.skip(1)
    } else {
        s
    }
}

/// What follows the exponent mark: a row of digits with an optional sign.
pub open spec fn integer(s: Seq<char>) -> Option<int> {
    let digits = unsigned_part(s);
    if digits.len() > 0 && all_digits(digits) {
        Some(
            if negative(s) {
                -(digits_value(digits) as int)
            } else {
                digits_value(digits) as int
            },
        )
    } else {
        None
    }
}

/// A decimal numeral `(-1)^negative * mantissa * 10^exponent`.
pub struct Numeral {
    pub negative: bool,
    pub mantissa: nat,
    pub exponent: int,
}

/// The numeral that `s` spells: an optional sign, digits with at most one point among
/// them, and an optional exponent. At least one digit stands before the exponent.
pub open spec fn numeral(s: Seq<char>) -> Option<Numeral> {
    let body = unsigned_part(s);
    let mark = first_of(body, 'e', 'E') as int;
    let exponent = if mark < body.len() {
        integer(body.skip(mark + 1))
    } else {
        Some(0int)
    };
    let point = first_of(body.take(mark), '.', '.') as int;
    let whole = body.take(point);
    let part = if point < mark {
        body.subrange(point + 1, mark)
    } else {
        Seq::empty()
    };
    if exponent is Some && all_digits(whole + part) && (whole + part).len() > 0 {
        Some(
            Numeral {
                negative: negative(s),
                mantissa: digits_value(whole + part),
                exponent: exponent->0 - part.len(),
            },
        )
    } else {
        None
    }
}

/// `mantissa * 10^shift`, rounded to the nearest integer with halves upward.
pub open spec fn shifted(mantissa: nat, shift: int) -> nat {
    if shift >= 0 {
        mantissa * pow10(shift as nat)
    } else {
        (mantissa + 5 * pow10((-shift - 1) as nat)) / pow10((-shift) as nat)
    }
}

pub open spec fn clamp_i64(x: int) -> int {
    if x < i64::MIN {
        i64::MIN as int
    } else if x > i64::MAX {
        i64::MAX as int
    } else {
        x
    }
}

/// The value of a numeral in units of `10^-places`: rounded to the nearest unit, and
/// held at the ends of the 64-bit range.
pub open spec fn numeral_units(n: Numeral, places: nat) -> int {
    let size = shifted(n.mantissa, n.exponent + places) as int;
    clamp_i64(
        if n.negative {
            -size
        } else {
            size
        },
    )
}

/// What is written like a number and is none in the decimal system.
#[derive(Clone, Copy, Debug, PartialEq, Eq, Structural)]
pub enum Special {
    Infinity { negative: bool },
    NotANumber,
}

/// A letter in small.
pub open spec fn small(c: char) -> char {
    if 'A' <= c && c <= 'Z' {
        (c as u32 + 32) as char
    } else {
        c
    }
}

/// Whether `s` is `word`, in small or capital letters.
pub open spec fn spells(s: Seq<char>, word: Seq<char>) -> bool {
    &&& s.len() == word.len()
    &&& forall|i: int| 0 <= i < s.len() ==> small(#[trigger] s[i]) == word[i]
}

/// The special value that `s` spells: an infinity or what is not a number, with an optional
/// sign.
pub open spec fn special(s: Seq<char>) -> Option<Special> {
    let body = unsigned_part(s);
    if spells(body, seq!['i', 'n', 'f']) || spells(
        body,
        seq!['i', 'n', 'f', 'i', 'n', 'i', 't', 'y'],
    ) {
        Some(Special::Infinity { negative: negative(s) })
    } else if spells(body, seq!['n', 'a', 'n']) {
        Some(Special::NotANumber)
    } else {
        None
    }
}

/// The units for a special value: infinities are held at the ends of the 64-bit range, and
/// what is not a number counts as zero.
pub open spec fn special_units(x: Special) -> int {
    match x {
        Special::Infinity { negative: true } => i64::MIN as int,
        Special::Infinity { negative: false } => i64::MAX as int,
        Special::NotANumber => 0,
    }
}

/// The units that a text spells, if it is a numeral or a special value.
pub open spec fn decimal_units(s: Seq<char>, places: nat) -> Option<int> {
    match (special(s), numeral(s)) {
        (Some(x), _) => Some(special_units(x)),
        (None, Some(n)) => Some(numeral_units(n, places)),
        (None, None) => None,
    }
}

/// Large enough that everything beyond it is held at the end of the 64-bit range.
const LIMIT: u128 = 10_000_000_000_000_000_000;

spec fn capped(x: nat, limit: nat) -> nat {
    if x < limit {
        x
    } else {
        limit
    }
}

pub proof fn lemma_digits_bound(s: Seq<char>)
    requires
        all_digits(s),
    ensures
        digits_value(s) < pow10(s.len()),
    decreases s.len(),
{
    if s.len() > 0 {
        assert forall|i: int| 0 <= i < s.drop_last().len() implies is_digit(
            #[trigger] s.drop_last()[i],
        ) by {
            assert(s.drop_last()[i] == s[i]);
        }
        lemma_digits_bound(s.drop_last());
        assert(is_digit(s[s.len() - 1]));
    }
}

pub proof fn lemma_digits_split(s: Seq<char>, k: int)
    requires
        all_digits(s),
        0 <= k <= s.len(),
    ensures
        digits_value(s) == digits_value(s.take(k)) * pow10((s.len() - k) as nat) + digits_value(
            s.skip(k),
        ),
    decreases s.len() - k,
{
    if k == s.len() {
        assert(s.take(k) == s);
        assert(digits_value(s) * 1 == digits_value(s));
    } else {
        let front = s.drop_last();
        assert(all_digits(front));
        lemma_digits_split(front, k);
        assert(front.take(k) == s.take(k));
        assert(front.skip(k) == s.skip(k).drop_last());
        assert(s.skip(k).last() == s.last());
        let q = digits_value(s.take(k));
        let p = pow10((front.len() - k) as nat);
        assert(pow10((s.len() - k) as nat) == 10 * p);
        assert(10 * (q * p) == q * (10 * p)) by (nonlinear_arith);
    }
}

proof fn lemma_keep(s: Seq<char>, d: int)
    requires
        all_digits(s),
        1 <= d <= s.len(),
    ensures
        shifted(digits_value(s), -d) == digits_value(s.take(s.len() - d)) + (if digit_value(
            s[s.len() - d],
        ) >= 5 {
            1nat
        } else {
            0nat
        }),
{
    let k = s.len() - d;
    let q = digits_value(s.take(k));
    let tail = s.skip(k);
    assert(all_digits(tail));
    lemma_digits_split(s, k);
    lemma_digits_split(tail, 1);
    assert(tail.take(1).drop_last() =~= Seq::empty());
    assert(digits_value(tail.take(1)) == digit_value(s[k])) by {
        reveal_with_fuel(digits_value, 2);
    }
    assert(all_digits(tail.skip(1)));
    lemma_digits_bound(tail.skip(1));
    let p = pow10((d - 1) as nat);
    let g = digit_value(s[k]);
    let rest = digits_value(tail.skip(1));
    assert(is_digit(s[k]));
    assert(pow10(d as nat) == 10 * p);
    let m = digits_value(s);
    assert(m == q * (10 * p) + (g * p + rest));
    let up: int = if g >= 5 {
        1
    } else {
        0
    };
    let r = m + 5 * p - (q + up) * (10 * p);
    assert(0 <= r < 10 * p) by (nonlinear_arith)
        requires
            m == q * (10 * p) + (g * p + rest),
            r == m + 5 * p - (q + up) * (10 * p),
            0 <= rest < p,
            0 <= g <= 9,
            up == (if g >= 5 {
                1int
            } else {
                0int
            }),
    ;
    lemma_fundamental_div_mod_converse((m + 5 * p) as int, (10 * p) as int, q + up, r);
}

proof fn lemma_vanishes(s: Seq<char>, d: int)
    requires
        all_digits(s),
        d > s.len(),
    ensures
        shifted(digits_value(s), -d) == 0,
{
    lemma_digits_bound(s);
    lemma_pow10_add(s.len(), (d - 1 - s.len()) as nat);
    lemma_pow10_positive((d - 1 - s.len()) as nat);
    let p = pow10((d - 1) as nat);
    let a = pow10(s.len());
    let b = pow10((d - 1 - s.len()) as nat);
    assert(s.len() + (d - 1 - s.len()) as nat == (d - 1) as nat);
    assert(a <= a * b) by (nonlinear_arith)
        requires
            b >= 1,
    ;
    assert(pow10(d as nat) == 10 * p);
    let m = digits_value(s) + 5 * p;
    lemma_fundamental_div_mod_converse(m as int, (10 * p) as int, 0, m as int);
}

proof fn lemma_grows(m: nat, k: nat, shift: nat)
    requires
        m * pow10(k) >= LIMIT,
        k <= shift,
    ensures
        m * pow10(shift) >= LIMIT,
{
    lemma_pow10_add(k, (shift - k) as nat);
    lemma_pow10_positive((shift - k) as nat);
    let a = pow10(k);
    let b = pow10((shift - k) as nat);
    assert(k + (shift - k) as nat == shift);
    assert(m * (a * b) >= m * a) by (nonlinear_arith)
        requires
            b >= 1,
    ;
}

/// The value of a row of digits, held at `limit`.
fn capped_value(digits: &[char], upto: usize, limit: u128) -> (r: u128)
    requires
        upto <= digits.len(),
        all_digits(digits@),
        0 < limit <= 0x1_0000_0000_0000_0000_0000_0000,
    ensures
        r == capped(digits_value(digits@.take(upto as int)), limit as nat),
{
    let mut r: u128 = 0;
    for i in 0..upto
        invariant
            upto <= digits.len(),
            all_digits(digits@),
            0 < limit <= 0x1_0000_0000_0000_0000_0000_0000,
            r == capped(digits_value(digits@.take(i as int)), limit as nat),
    {
        let c = digits[i];
        assert(is_digit(digits@[i as int]));
        assert(digits@.take(i + 1).drop_last() == digits@.take(i as int));
        let next: u128 = r * 10 + (c as u32 - '0' as u32) as u128;
        r = if next < limit {
            next
        } else {
            limit
        };
    }
    r
}

fn digits_only(chars: &[char], from: usize, to: usize) -> (r: bool)
    requires
        from <= to <= chars.len(),
    ensures
        r == all_digits(chars@.subrange(from as int, to as int)),
{
    let mut k: usize = from;
    let ghost s = chars@.subrange(from as int, to as int);
    while k < to
        invariant
            from <= k <= to <= chars.len(),
            s == chars@.subrange(from as int, to as int),
            forall|i: int| 0 <= i < k - from ==> is_digit(#[trigger] s[i]),
        decreases to - k,
    {
        let c = chars[k];
        assert(s[k - from] == c);
        if c < '0' || c > '9' {
            return false;
        }
        k = k + 1;
    }
    true
}

/// Farther from zero than any exponent that a row of digits could make up for.
const FAR: u128 = 0x40_0000_0000_0000_0000;

spec fn near(x: int, y: int) -> bool {
    ||| x == y
    ||| y == FAR && x >= FAR
    ||| y == -FAR && x <= -FAR
}

/// The exponent that stands from `from` on, held within `FAR` of zero.
fn exponent_at(chars: &[char], from: usize) -> (r: Option<i128>)
    requires
        from <= chars.len(),
    ensures
        match r {
            Some(x) => {
                &&& integer(chars@.skip(from as int)) is Some
                &&& near(integer(chars@.skip(from as int))->0, x as int)
                &&& -FAR <= x <= FAR
            },
            None => integer(chars@.skip(from as int)) is None,
        },
{
    let ghost s = chars@.skip(from as int);
    let n: usize = chars.len();
    let has_sign: bool = from < n && (chars[from] == '-' || chars[from] == '+');
    let minus: bool = from < n && chars[from] == '-';
    proof {
        if from < n {
            assert(s[0] == chars@[from as int]);
        }
    }
    let start: usize = if has_sign {
        from + 1
    } else {
        from
    };
    assert(unsigned_part(s) == chars@.subrange(start as int, n as int));
    if start == n || !digits_only(chars, start, n) {
        return None;
    }
    let digits = copy_range(chars, start, n);
    let size = capped_value(digits.as_slice(), digits.len(), FAR);
    assert(digits@.take(digits@.len() as int) == digits@);
    if minus {
        Some(-(size as i128))
    } else {
        Some(size as i128)
    }
}

/// The size of `digits * 10^shift` in whole units, held at the limit.
fn shifted_size(digits: &[char], shift: i128) -> (r: u128)
    requires
        all_digits(digits@),
        -0x1_0000_0000_0000_0000_0000 <= shift <= 0x1_0000_0000_0000_0000_0000,
    ensures
        r == capped(shifted(digits_value(digits@), shift as int), LIMIT as nat),
{
    let n: usize = digits.len();
    assert(digits@.take(n as int) == digits@);
    if shift >= 0 {
        let mut r = capped_value(digits, n, LIMIT);
        let mut k: i128 = 0;
        let ghost m = digits_value(digits@);
        assert(pow10(0) == 1);
        assert(m * 1 == m);
        while k < shift && r != 0 && r < LIMIT
            invariant
                0 <= k <= shift,
                r == capped(m * pow10(k as nat), LIMIT as nat),
            decreases shift - k,
        {
            let next: u128 = r * 10;
            proof {
                assert(pow10((k + 1) as nat) == 10 * pow10(k as nat));
                let p = pow10(k as nat);
                assert(m * (10 * p) == 10 * (m * p)) by (nonlinear_arith);
            }
            r = if next < LIMIT {
                next
            } else {
                LIMIT
            };
            k = k + 1;
        }
        proof {
            if k < shift {
                if r == 0 {
                    lemma_pow10_positive(k as nat);
                    let p = pow10(k as nat);
                    assert(m == 0) by (nonlinear_arith)
                        requires
                            m * p == 0,
                            p > 0,
                    ;
                    assert(0 * pow10(shift as nat) == 0);
                } else {
                    lemma_grows(m, k as nat, shift as nat);
                }
            }
        }
        r
    } else {
        let drop: u128 = (-shift) as u128;
        if drop > n as u128 {
            proof {
                lemma_vanishes(digits@, -(shift as int));
            }
            0
        } else {
            let kept: usize = n - drop as usize;
            let q = capped_value(digits, kept, LIMIT);
            let c = digits[kept];
            proof {
                lemma_keep(digits@, drop as int);
                assert(is_digit(digits@[kept as int]));
            }
            if c >= '5' && q < LIMIT {
                q + 1
            } else {
                q
            }
        }
    }
}

/// A numeral taken apart: its sign, its digits without the point, and the power of ten
/// that the last digit stands for.
struct Parts {
    minus: bool,
    digits: Vec<char>,
    exponent: i128,
}

impl Parts {
    /// Whether these are the parts of `n`, up to an exponent too far off to matter.
    spec fn of(self, n: Numeral) -> bool {
        &&& self.minus == n.negative
        &&& all_digits(self.digits@)
        &&& n.mantissa == digits_value(self.digits@)
        &&& exists|part: nat|
            part <= usize::MAX && #[trigger] near(n.exponent + part, self.exponent + part)
        &&& -FAR - usize::MAX <= self.exponent <= FAR
    }
}

#[verifier::spinoff_prover]
#[verifier::rlimit(60)]
fn take_apart(text: &str) -> (r: Option<Parts>)
    ensures
        match r {
            Some(p) => numeral(text@) is Some && p.of(numeral(text@)->0),
            None => numeral(text@) is None,
        },
{
    let chars = chars_of(text);
    let n: usize = chars.len();
    let ghost s = text@;
    let has_sign: bool = n > 0 && (chars[0] == '-' || chars[0] == '+');
    let minus: bool = n > 0 && chars[0] == '-';
    let start: usize = if has_sign {
        1
    } else {
        0
    };
    let ghost body = unsigned_part(s);
    assert(body == s.subrange(start as int, n as int));
    let mark = find(chars.as_slice(), start, n, 'e', 'E');
    let mut exponent: i128 = 0;
    if mark < n {
        assert(body.skip(mark - start + 1) == s.skip(mark + 1));
        match exponent_at(chars.as_slice(), mark + 1) {
            Some(x) => {
                exponent = x;
            },
            None => {
                return None;
            },
        }
    }
    assert(body.take(mark - start) == s.subrange(start as int, mark as int));
    let point = find(chars.as_slice(), start, mark, '.', '.');
    let mut digits = copy_range(chars.as_slice(), start, point);
    let mut part_len: usize = 0;
    assert(body.take(point - start) == digits@);
    if point < mark {
        let mut part = copy_range(chars.as_slice(), point + 1, mark);
        part_len = part.len();
        assert(body.subrange(point - start + 1, mark - start) == part@);
        digits.append(&mut part);
    } else {
        assert(digits@ + Seq::<char>::empty() == digits@);
    }
    assert(digits@.subrange(0, digits@.len() as int) == digits@);
    if digits.len() == 0 || !digits_only(digits.as_slice(), 0, digits.len()) {
        return None;
    }
    let p = Parts { minus, digits, exponent: exponent - part_len as i128 };
    proof {
        let num = numeral(s)->0;
        assert(near(num.exponent + part_len as nat, p.exponent + part_len as nat));
    }
    Some(p)
}

fn small_of(c: char) -> (r: char)
    ensures
        r == small(c),
{
    if 'A' <= c && c <= 'Z' {
        (c as u8 + 32) as char
    } else {
        c
    }
}

fn spelled(chars: &[char], from: usize, word: &[char]) -> (r: bool)
    requires
        from <= chars.len(),
    ensures
        r == spells(chars@.skip(from as int), word@),
{
    let ghost s = chars@.skip(from as int);
    if chars.len() - from != word.len() {
        return false;
    }
    assert(chars.len() == chars@.len());
    for i in 0..word.len()
        invariant
            s == chars@.skip(from as int),
            from + word@.len() == chars@.len() <= usize::MAX,
            forall|k: int| 0 <= k < i ==> small(#[trigger] s[k]) == word@[k],
    {
        assert(s[i as int] == chars@[from + i]);
        if small_of(chars[from + i]) != word[i] {
            return false;
        }
    }
    true
}

/// Reads a special value.
pub fn read_special(text: &str) -> (r: Option<Special>)
    ensures
        r == special(text@),
{
    let chars = chars_of(text);
    let minus: bool = chars.len() > 0 && chars[0] == '-';
    let from: usize = if minus || (chars.len() > 0 && chars[0] == '+') {
        1
    } else {
        0
    };
    assert(unsigned_part(text@) =~= chars@.skip(from as int));
    let inf: [char; 3] = ['i', 'n', 'f'];
    let infinity: [char; 8] = ['i', 'n', 'f', 'i', 'n', 'i', 't', 'y'];
    let nan: [char; 3] = ['n', 'a', 'n'];
    assert(inf@ =~= seq!['i', 'n', 'f']);
    assert(infinity@ =~= seq!['i', 'n', 'f', 'i', 'n', 'i', 't', 'y']);
    assert(nan@ =~= seq!['n', 'a', 'n']);
    if spelled(chars.as_slice(), from, inf.as_slice()) || spelled(
        chars.as_slice(),
        from,
        infinity.as_slice(),
    ) {
        Some(Special::Infinity { negative: minus })
    } else if spelled(chars.as_slice(), from, nan.as_slice()) {
        Some(Special::NotANumber)
    } else {
        None
    }
}

/// Reads a decimal numeral or a special value in units of `10^-places`; `None` where the
/// text is neither.
pub fn read_units(text: &str, places: u32) -> (r: Option<i64>)
    ensures
        match r {
            Some(x) => decimal_units(text@, places as nat) == Some(x as int),
            None => decimal_units(text@, places as nat) is None,
        },
{
    match read_special(text) {
        Some(Special::Infinity { negative }) => {
            return Some(
                if negative {
                    i64::MIN
                } else {
                    i64::MAX
                },
            );
        },
        Some(Special::NotANumber) => {
            return Some(0);
        },
        None => {},
    }
    let parts = match take_apart(text) {
        Some(p) => p,
        None => {
            return None;
        },
    };
    let ghost num = numeral(text@)->0;
    let shift: i128 = parts.exponent + places as i128;
    let size = shifted_size(parts.digits.as_slice(), shift);
    proof {
        let true_shift = num.exponent + places;
        assert(parts.digits.len() == parts.digits@.len());
        let part = choose|part: nat|
            part <= usize::MAX && #[trigger] near(num.exponent + part, parts.exponent + part);
        if true_shift > shift {
            lemma_far_up(parts.digits@, shift as int, true_shift);
        } else if true_shift < shift {
            lemma_vanishes(parts.digits@, -(shift as int));
            lemma_vanishes(parts.digits@, -true_shift);
        }
        assert(size == capped(shifted(num.mantissa, true_shift), LIMIT as nat));
    }
    if parts.minus {
        if size >= 9_223_372_036_854_775_808 {
            Some(i64::MIN)
        } else {
            Some(-(size as i64))
        }
    } else {
        if size >= 9_223_372_036_854_775_808 {
            Some(i64::MAX)
        } else {
            Some(size as i64)
        }
    }
}

/// Whether a number is so large that a 64-bit binary fraction holds it as infinite:
/// `10^400` and more.
pub open spec fn huge(n: Numeral) -> bool {
    if n.exponent >= 400 {
        n.mantissa > 0
    } else {
        n.mantissa >= pow10((400 - n.exponent) as nat)
    }
}

/// Whether a number is so small that a 64-bit binary fraction holds it as zero: below
/// `10^-400`.
pub open spec fn tiny(n: Numeral) -> bool {
    if n.exponent >= -400 {
        n.mantissa == 0
    } else {
        n.mantissa < pow10((-400 - n.exponent) as nat)
    }
}

pub open spec fn zero() -> Numeral {
    Numeral { negative: false, mantissa: 0, exponent: 0 }
}

/// A number or a special value.
pub enum Part {
    Special(Special),
    Finite(Numeral),
}

/// What a text spells, if it is a numeral or a special value. What is far outside the range
/// of 64-bit binary fractions is infinite or zero.
pub open spec fn part(s: Seq<char>) -> Option<Part> {
    match (special(s), numeral(s)) {
        (Some(x), _) => Some(Part::Special(x)),
        (None, Some(n)) => Some(
            if huge(n) {
                Part::Special(Special::Infinity { negative: n.negative })
            } else if tiny(n) {
                Part::Finite(zero())
            } else {
                Part::Finite(n)
            },
        ),
        (None, None) => None,
    }
}

/// The digits of a finite number: where the last one stands, and the sign.
pub struct Term {
    pub negative: bool,
    pub digits: Vec<char>,
    pub exponent: i128,
}

impl Term {
    pub open spec fn numeral(self) -> Numeral {
        Numeral {
            negative: self.negative,
            mantissa: digits_value(self.digits@),
            exponent: self.exponent as int,
        }
    }

    /// What every term keeps: digits only, and none of them far from the point but by the
    /// number of digits.
    pub open spec fn wf(self) -> bool {
        &&& all_digits(self.digits@)
        &&& -400 <= self.exponent + self.digits@.len() <= 400
    }
}

/// A number or a special value that was read.
pub enum Reading {
    Special(Special),
    Finite(Term),
}

impl Reading {
    pub open spec fn wf(self) -> bool {
        self matches Reading::Finite(t) ==> t.wf()
    }

    pub open spec fn part(self) -> Part {
        match self {
            Reading::Special(x) => Part::Special(x),
            Reading::Finite(t) => Part::Finite(t.numeral()),
        }
    }
}

/// By how many digits a number has without leading zeros, it can be told whether it is huge
/// or tiny.
proof fn lemma_size_by_digits(s: Seq<char>, n: Numeral)
    requires
        all_digits(s),
        s.len() > 0,
        s[0] != '0',
        n.mantissa == digits_value(s),
    ensures
        huge(n) <==> n.exponent + s.len() > 400,
        tiny(n) <==> n.exponent + s.len() <= -400,
{
    let len = s.len();
    let d = digit_value(s[0]);
    assert(is_digit(s[0]));
    lemma_digits_bound(s);
    lemma_digits_split(s, 1);
    let first = s.take(1);
    assert(first.drop_last() =~= Seq::empty());
    assert(digits_value(first.drop_last()) == 0);
    assert(first.last() == s[0]);
    assert(digits_value(first) == d);
    let p = pow10((len - 1) as nat);
    lemma_pow10_positive((len - 1) as nat);
    assert(d * p >= p) by (nonlinear_arith)
        requires
            d >= 1,
    ;
    assert(p <= n.mantissa < pow10(len));
    if n.exponent < 400 {
        let k = (400 - n.exponent) as nat;
        if len <= k {
            lemma_pow10_monotone(len, k);
        } else {
            lemma_pow10_monotone(k, (len - 1) as nat);
        }
    }
    if n.exponent < -400 {
        let k = (-400 - n.exponent) as nat;
        if len <= k {
            lemma_pow10_monotone(len, k);
        } else {
            lemma_pow10_monotone(k, (len - 1) as nat);
        }
    }
}

proof fn lemma_skip_zeros(s: Seq<char>, k: int)
    requires
        all_digits(s),
        0 <= k <= s.len(),
        forall|i: int| 0 <= i < k ==> (#[trigger] s[i]) == '0',
    ensures
        all_digits(s.skip(k)),
        digits_value(s.skip(k)) == digits_value(s),
    decreases k,
{
    let rest = s.skip(k);
    assert forall|i: int| 0 <= i < rest.len() implies is_digit(#[trigger] rest[i]) by {
        assert(rest[i] == s[k + i]);
    }
    let front = s.take(k);
    assert(all_digits(front)) by {
        assert forall|i: int| 0 <= i < front.len() implies is_digit(#[trigger] front[i]) by {
            assert(front[i] == s[i]);
        }
    }
    assert forall|i: int| 0 <= i < front.len() implies #[trigger] front[i] == '0' by {
        assert(front[i] == s[i]);
    }
    lemma_zeros(front);
    lemma_digits_split(s, k);
    assert(0 * pow10((s.len() - k) as nat) == 0);
}

/// Zeros spell nothing.
pub proof fn lemma_zeros(s: Seq<char>)
    requires
        forall|i: int| 0 <= i < s.len() ==> (#[trigger] s[i]) == '0',
    ensures
        all_digits(s),
        digits_value(s) == 0,
    decreases s.len(),
{
    if s.len() > 0 {
        assert(s.last() == s[s.len() - 1]);
        assert forall|i: int| 0 <= i < s.drop_last().len() implies #[trigger] s.drop_last()[i]
            == '0' by {
            assert(s.drop_last()[i] == s[i]);
        }
        lemma_zeros(s.drop_last());
    }
}

/// A number of ordinary size is read as it is, or as zero where it is zero.
pub proof fn lemma_ordinary_part(s: Seq<char>, n: Numeral)
    requires
        special(s) is None,
        numeral(s) == Some(n),
        -9 <= n.exponent <= 0,
        n.mantissa <= 0x1_0000_0000_0000_0000,
    ensures
        part(s) == Some(
            Part::Finite(
                if n.mantissa == 0 {
                    zero()
                } else {
                    n
                },
            ),
        ),
{
    assert(pow10(20) > 0x1_0000_0000_0000_0000) by {
        reveal_with_fuel(pow10, 21);
    }
    lemma_pow10_monotone(20, (400 - n.exponent) as nat);
}

/// Reads a number or a special value.
pub fn read_part(text: &str) -> (r: Option<Reading>)
    ensures
        match r {
            Some(x) => part(text@) == Some(x.part()) && x.wf(),
            None => part(text@) is None,
        },
{
    if let Some(x) = read_special(text) {
        return Some(Reading::Special(x));
    }
    let parts = match take_apart(text) {
        Some(p) => p,
        None => {
            return None;
        },
    };
    let ghost num = numeral(text@)->0;
    let n: usize = parts.digits.len();
    let mut k: usize = 0;
    while k < n && parts.digits[k] == '0'
        invariant
            n == parts.digits@.len(),
            k <= n,
            forall|i: int| 0 <= i < k ==> (#[trigger] parts.digits@[i]) == '0',
        decreases n - k,
    {
        k = k + 1;
    }
    proof {
        lemma_skip_zeros(parts.digits@, k as int);
    }
    let digits = copy_range(parts.digits.as_slice(), k, n);
    assert(digits@ =~= parts.digits@.skip(k as int));
    if k == n {
        proof {
            assert(digits@ =~= Seq::empty());
            lemma_pow10_positive((-400 - num.exponent) as nat);
            lemma_pow10_positive((400 - num.exponent) as nat);
        }
        return Some(Reading::Finite(Term { negative: false, digits, exponent: 0 }));
    }
    let top: i128 = parts.exponent + (n - k) as i128;
    proof {
        assert(digits@[0] == parts.digits@[k as int]);
        lemma_size_by_digits(digits@, num);
        let part = choose|part: nat|
            part <= usize::MAX && #[trigger] near(num.exponent + part, parts.exponent + part);
        assert(near(num.exponent + part, parts.exponent + part));
    }
    if top > 400 {
        Some(Reading::Special(Special::Infinity { negative: parts.minus }))
    } else if top <= -400 {
        Some(Reading::Finite(Term { negative: false, digits: Vec::new(), exponent: 0 }))
    } else {
        Some(Reading::Finite(Term { negative: parts.minus, digits, exponent: parts.exponent }))
    }
}

/// Beyond a shift of twenty places the capped size no longer depends on the shift.
proof fn lemma_far_up(s: Seq<char>, a: int, b: int)
    requires
        20 <= a <= b,
    ensures
        capped(shifted(digits_value(s), a), LIMIT as nat) == capped(shifted(digits_value(s), b), LIMIT as nat),
{
    let m = digits_value(s);
    if m == 0 {
        assert(0 * pow10(a as nat) == 0);
        assert(0 * pow10(b as nat) == 0);
    } else {
        assert(pow10(20) >= LIMIT) by {
            reveal_with_fuel(pow10, 21);
        }
        let p = pow10(20);
        assert(m * p >= p) by (nonlinear_arith)
            requires
                m >= 1,
        ;
        lemma_grows(m, 20, a as nat);
        lemma_grows(m, 20, b as nat);
    }
}

/// The decimal notation of a number is read as that number.
pub proof fn lemma_decimal_digits(n: nat)
    ensures
        all_digits(decimal(n)),
        decimal(n).len() > 0,
        digits_value(decimal(n)) == n,
    decreases n,
{
    if n < 10 {
        let s = decimal(n);
        assert(s.drop_last() =~= Seq::empty());
        assert(digits_value(s.drop_last()) == 0);
    } else {
        lemma_decimal_digits(n / 10);
        let front = decimal(n / 10);
        let s = decimal(n);
        assert(s.drop_last() =~= front);
        assert forall|i: int| 0 <= i < s.len() implies is_digit(#[trigger] s[i]) by {
            if i < front.len() {
                assert(s[i] == front[i]);
            }
        }
    }
}

/// A number below a power of ten has no more digits than that.
pub proof fn lemma_decimal_len(n: nat, k: nat)
    requires
        n < pow10(k),
        k > 0,
    ensures
        decimal(n).len() <= k,
    decreases k,
{
    if n >= 10 {
        if k == 1 {
            reveal_with_fuel(pow10, 2);
        } else {
            lemma_decimal_len(n / 10, (k - 1) as nat);
        }
    }
}

/// Zeros in front change nothing.
pub proof fn lemma_leading_zeros(s: Seq<char>, width: nat)
    requires
        all_digits(s),
        s.len() <= width,
    ensures
        all_digits(padded(s, width, '0')),
        padded(s, width, '0').len() == width,
        digits_value(padded(s, width, '0')) == digits_value(s),
    decreases width,
{
    let t = padded(s, width, '0');
    if s.len() < width {
        let u = padded(s, (width - 1) as nat, '0');
        lemma_leading_zeros(s, (width - 1) as nat);
        assert(t =~= seq!['0'] + u);
        assert forall|i: int| 0 <= i < t.len() implies is_digit(#[trigger] t[i]) by {
            if i > 0 {
                assert(t[i] == u[i - 1]);
            }
        }
        lemma_digits_split(t, 1);
        assert(t.skip(1) =~= u);
        let zero = t.take(1);
        assert(zero.drop_last() =~= Seq::empty());
        assert(digits_value(zero.drop_last()) == 0);
        assert(digits_value(zero) == 0);
        assert(0 * pow10((width - 1) as nat) == 0);
    }
}

/// What starts with a digit is no special value.
proof fn lemma_digit_is_not_special(s: Seq<char>)
    requires
        unsigned_part(s).len() > 0,
        is_digit(unsigned_part(s)[0]),
    ensures
        special(s) is None,
{
    assert(small(unsigned_part(s)[0]) == unsigned_part(s)[0]);
}

pub proof fn lemma_digits_join(a: Seq<char>, b: Seq<char>)
    requires
        all_digits(a),
        all_digits(b),
    ensures
        all_digits(a + b),
        digits_value(a + b) == digits_value(a) * pow10(b.len()) + digits_value(b),
{
    let all = a + b;
    let n = a.len() as int;
    assert forall|i: int| 0 <= i < all.len() implies is_digit(#[trigger] all[i]) by {
        if i < n {
            assert(all[i] == a[i]);
        } else {
            assert(all[i] == b[i - n]);
        }
    }
    lemma_digits_split(all, n);
    assert(all.take(n) =~= a);
    assert(all.skip(n) =~= b);
}

/// The text of a number with digits before and after a point.
pub open spec fn pointed(negative: bool, whole: Seq<char>, part: Seq<char>) -> Seq<char> {
    let body = whole + seq!['.'] + part;
    if negative {
        seq!['-'] + body
    } else {
        body
    }
}

pub proof fn lemma_pointed_numeral(negative: bool, whole: Seq<char>, part: Seq<char>)
    requires
        all_digits(whole),
        all_digits(part),
        whole.len() > 0,
    ensures
        unsigned_part(pointed(negative, whole, part)) == whole + seq!['.'] + part,
        numeral(pointed(negative, whole, part)) == Some(
            Numeral { negative, mantissa: digits_value(whole + part), exponent: -(part.len() as int) },
        ),
{
    let text = pointed(negative, whole, part);
    let body = whole + seq!['.'] + part;
    assert(is_digit(whole[0]));
    assert(body[0] == whole[0]);
    assert(unsigned_part(text) =~= body);
    let n = whole.len() as int;
    let len = body.len() as int;
    assert forall|i: int| 0 <= i < len implies #[trigger] body[i] != 'e' && body[i] != 'E' by {
        if i < n {
            assert(is_digit(whole[i]));
        } else if i > n {
            assert(is_digit(part[i - n - 1]));
        }
    }
    lemma_first_of(body, 'e', 'E', len);
    assert(body.take(len) =~= body);
    assert forall|i: int| 0 <= i < n implies #[trigger] body[i] != '.' by {
        assert(is_digit(whole[i]));
    }
    lemma_first_of(body, '.', '.', n);
    assert(body.take(n) =~= whole);
    assert(body.subrange(n + 1, len) =~= part);
    lemma_digits_join(whole, part);
}

/// Digits with a point among them are read as the number that they spell.
pub proof fn lemma_pointed_reads(negative: bool, whole: Seq<char>, part: Seq<char>, read: nat)
    requires
        all_digits(whole),
        all_digits(part),
        whole.len() > 0,
        part.len() <= read,
    ensures
        special(pointed(negative, whole, part)) is None,
        decimal_units(pointed(negative, whole, part), read) == Some(
            clamp_i64(
                if negative {
                    -((digits_value(whole + part) * pow10((read - part.len()) as nat)) as int)
                } else {
                    (digits_value(whole + part) * pow10((read - part.len()) as nat)) as int
                },
            ),
        ),
{
    let text = pointed(negative, whole, part);
    lemma_pointed_numeral(negative, whole, part);
    assert(is_digit(whole[0]));
    assert(unsigned_part(text)[0] == whole[0]);
    lemma_digit_is_not_special(text);
}

/// Digits alone are read as the number that they spell.
pub proof fn lemma_digits_read(s: Seq<char>, read: nat)
    requires
        all_digits(s),
        s.len() > 0,
    ensures
        special(s) is None,
        numeral(s) == Some(
            Numeral { negative: false, mantissa: digits_value(s), exponent: 0 },
        ),
        decimal_units(s, read) == Some(clamp_i64((digits_value(s) * pow10(read)) as int)),
{
    assert(is_digit(s[0]));
    let len = s.len() as int;
    assert forall|i: int| 0 <= i < len implies #[trigger] s[i] != 'e' && s[i] != 'E' && s[i]
        != '.' by {
        assert(is_digit(s[i]));
    }
    lemma_first_of(s, 'e', 'E', len);
    assert(s.take(len) =~= s);
    lemma_first_of(s, '.', '.', len);
    assert(s + Seq::<char>::empty() =~= s);
    assert(unsigned_part(s) == s);
    lemma_digit_is_not_special(s);
    assert(numeral(s) == Some(
        Numeral { negative: false, mantissa: digits_value(s), exponent: 0 },
    ));
}

/// The digits before and after the point of what is written with a fixed number of places.
pub proof fn lemma_fixed_digits(scaled: nat, places: nat)
    requires
        places >= 1,
    ensures
        ({
            let whole = decimal(scaled / pow10(places));
            let part = padded(decimal(scaled % pow10(places)), places, '0');
            &&& fixed(scaled, places) == whole + seq!['.'] + part
            &&& all_digits(whole)
            &&& all_digits(part)
            &&& whole.len() > 0
            &&& part.len() == places
            &&& digits_value(whole + part) == scaled
            &&& digits_value(whole) == scaled / pow10(places)
            &&& digits_value(part) == scaled % pow10(places)
        }),
{
    let p = pow10(places);
    lemma_pow10_positive(places);
    let a = scaled / p;
    let b = scaled % p;
    lemma_fundamental_div_mod(scaled as int, p as int);
    let whole = decimal(a);
    let part = padded(decimal(b), places, '0');
    lemma_decimal_digits(a);
    lemma_decimal_digits(b);
    lemma_decimal_len(b, places);
    lemma_leading_zeros(decimal(b), places);
    assert(fixed(scaled, places) =~= whole + seq!['.'] + part);
    lemma_digits_join(whole, part);
    assert(a * p == p * a) by (nonlinear_arith);
}

/// What is written with a fixed number of places is read back exactly, wherever it fits.
pub proof fn law_fixed_reads_back(negative: bool, scaled: nat, written: nat, read: nat)
    requires
        1 <= written <= read,
    ensures
        decimal_units(
            if negative {
                seq!['-'] + fixed(scaled, written)
            } else {
                fixed(scaled, written)
            },
            read,
        ) == Some(
            clamp_i64(
                if negative {
                    -((scaled * pow10((read - written) as nat)) as int)
                } else {
                    (scaled * pow10((read - written) as nat)) as int
                },
            ),
        ),
{
    lemma_fixed_digits(scaled, written);
    let whole = decimal(scaled / pow10(written));
    let part = padded(decimal(scaled % pow10(written)), written, '0');
    lemma_pointed_reads(negative, whole, part, read);
}

/// A decimal number is written without leading zeros.
pub proof fn law_decimal_has_no_leading_zeros(n: nat)
    ensures
        decimal(n).len() > 1 ==> decimal(n)[0] != '0',
        all_digits(decimal(n)),
        digits_value(decimal(n)) == n,
    decreases n,
{
    lemma_decimal_digits(n);
    if n >= 10 {
        law_decimal_has_no_leading_zeros(n / 10);
        assert(decimal(n)[0] == decimal(n / 10)[0]);
        if n < 100 {
            assert(decimal(n / 10) =~= seq![digit_char(n / 10)]);
            assert(1 <= n / 10 <= 9);
            assert(digit_char(n / 10) as u32 == 48 + n / 10);
        } else {
            lemma_decimal_digits(n / 100);
            assert(n / 10 / 10 == n / 100);
            assert(decimal(n / 10).len() > 1);
        }
    }
}

/// A written quotient has a sign exactly if it is negative, digits without leading zeros, a
/// point, and so many digits behind it as were asked for; what they spell is the nearest to
/// the quotient that there is with so many digits.
pub proof fn law_quotient_is_written_to_the_nearest(num: int, den: nat, places: nat)
    requires
        den > 0,
        places >= 1,
    ensures
        ({
            let text = ratio_text(num, den, places);
            let scaled = round_half_even(magnitude(num) * pow10(places), den);
            let whole = decimal(scaled / pow10(places));
            let part = padded(decimal(scaled % pow10(places)), places, '0');
            &&& text == pointed(num < 0, whole, part)
            &&& all_digits(whole) && all_digits(part)
            &&& whole.len() > 0 && part.len() == places
            &&& whole.len() > 1 ==> whole[0] != '0'
            &&& -(den as int) <= 2 * (digits_value(whole + part) * den - magnitude(num) * pow10(
                places,
            )) <= den
        }),
{
    let scaled = round_half_even(magnitude(num) * pow10(places), den);
    lemma_fixed_digits(scaled, places);
    law_rounding_is_to_the_nearest(magnitude(num) * pow10(places), den);
    law_decimal_has_no_leading_zeros(scaled / pow10(places));
}

/// A numeral with an exponent is the numeral before it, moved by the exponent.
pub proof fn law_exponent_moves_the_point(s: Seq<char>, mark: char, e: Seq<char>)
    requires
        mark == 'e' || mark == 'E',
        !s.contains('e'),
        !s.contains('E'),
        numeral(s) is Some,
        integer(e) is Some,
    ensures
        numeral(s + seq![mark] + e) == Some(
            Numeral { exponent: (numeral(s)->0).exponent + integer(e)->0, ..numeral(s)->0 },
        ),
{
    let t = s + seq![mark] + e;
    let body = unsigned_part(s);
    assert(s.len() > 0);
    assert(t[0] == s[0]);
    assert(unsigned_part(t) =~= body + seq![mark] + e);
    let long = unsigned_part(t);
    let n = body.len() as int;
    assert forall|i: int| 0 <= i < n implies body[i] != 'e' && body[i] != 'E' by {
        if signed(s) {
            assert(body[i] == s[i + 1]);
        }
        assert(s.contains(body[i]));
    }
    lemma_first_of(body, 'e', 'E', n);
    lemma_first_of(long, 'e', 'E', n);
    assert(long.skip(n + 1) =~= e);
    assert(long.take(n) =~= body);
    assert(body.take(n) =~= body);
    let point = first_of(body, '.', '.') as int;
    lemma_first_of_at_most(body, '.');
    assert(long.take(point) =~= body.take(point));
    if point < n {
        assert(long.subrange(point + 1, n) =~= body.subrange(point + 1, n));
    }
}

proof fn lemma_first_of_at_most(s: Seq<char>, mark: char)
    ensures
        first_of(s, mark, mark) <= s.len(),
    decreases s.len(),
{
    if s.len() > 0 && s[0] != mark {
        lemma_first_of_at_most(s.skip(1), mark);
    }
}

/// A plus sign in front of digits changes nothing, and a minus sign changes the sign alone.
pub proof fn law_signs(s: Seq<char>)
    requires
        s.len() > 0,
        s[0] != '-',
        s[0] != '+',
    ensures
        numeral(seq!['+'] + s) == numeral(s),
        numeral(s) is Some ==> numeral(seq!['-'] + s) == Some(
            Numeral { negative: true, ..numeral(s)->0 },
        ) && !(numeral(s)->0).negative,
        numeral(s) is None ==> numeral(seq!['-'] + s) is None,
{
    assert(unsigned_part(seq!['+'] + s) =~= s);
    assert(unsigned_part(seq!['-'] + s) =~= s);
    assert(unsigned_part(s) == s);
}

/// Reading in smaller units is multiplying, and reading in larger ones is rounding to the
/// nearest, halves upward.
pub proof fn law_units_are_the_nearest(m: nat, k: nat)
    ensures
        shifted(m, k as int) == m * pow10(k),
        k > 0 ==> ({
            let q = shifted(m, -(k as int));
            let p = pow10(k) as int;
            &&& -p < 2 * (q * p - m) <= p
        }),
{
    if k > 0 {
        let p = pow10(k) as int;
        let half = (5 * pow10((k - 1) as nat)) as int;
        lemma_pow10_positive((k - 1) as nat);
        assert(p == 2 * half);
        let q = shifted(m, -(k as int)) as int;
        lemma_fundamental_div_mod(m + half, p);
        assert(p * q == q * p) by (nonlinear_arith);
    }
}

/// What is held in the 64-bit range is the nearest number in it.
pub proof fn law_clamping_is_the_nearest(x: int)
    ensures
        i64::MIN <= clamp_i64(x) <= i64::MAX,
        i64::MIN <= x <= i64::MAX ==> clamp_i64(x) == x,
        x < i64::MIN ==> clamp_i64(x) == i64::MIN,
        x > i64::MAX ==> clamp_i64(x) == i64::MAX,
{
}

/// A numeral is read as the number that it spells, whatever its size and sign, rounded to the
/// unit and held in the 64-bit range.
pub proof fn law_numerals_are_read_as_they_are(s: Seq<char>, places: nat)
    requires
        special(s) is None,
    ensures
        numeral(s) is None ==> decimal_units(s, places) is None && part(s) is None,
        numeral(s) matches Some(n) ==> decimal_units(s, places) == Some(
            clamp_i64(
                if n.negative {
                    -(shifted(n.mantissa, n.exponent + places) as int)
                } else {
                    shifted(n.mantissa, n.exponent + places) as int
                },
            ),
        ),
{
}

/// A number is taken as it is between the smallest and the largest that count: below `10^-400`
/// it is zero, and from `10^400` on it is infinite.
pub proof fn law_parts_are_taken_as_they_are(s: Seq<char>, n: Numeral)
    requires
        special(s) is None,
        numeral(s) == Some(n),
    ensures
        n.exponent >= 400 && n.mantissa > 0 ==> part(s) == Some(
            Part::Special(Special::Infinity { negative: n.negative }),
        ),
        -400 <= n.exponent < 400 && 0 < n.mantissa < pow10((400 - n.exponent) as nat) ==> part(s)
            == Some(Part::Finite(n)),
        -400 <= n.exponent < 400 && n.mantissa >= pow10((400 - n.exponent) as nat) ==> part(s)
            == Some(Part::Special(Special::Infinity { negative: n.negative })),
        n.exponent < -400 && pow10((-400 - n.exponent) as nat) <= n.mantissa < pow10(
            (400 - n.exponent) as nat,
        ) ==> part(s) == Some(Part::Finite(n)),
        n.exponent < -400 && n.mantissa < pow10((-400 - n.exponent) as nat) ==> part(s) == Some(
            Part::Finite(Numeral { negative: false, mantissa: 0, exponent: 0 }),
        ),
{
    if n.exponent < 400 {
        lemma_pow10_positive((400 - n.exponent) as nat);
    }
    if n.exponent < -400 {
        lemma_pow10_monotone((-400 - n.exponent) as nat, (400 - n.exponent) as nat);
    }
}

/// Special values are the words inf, infinity and nan, in small or capital letters, with an
/// optional sign; nothing with a digit or a point is one.
pub proof fn law_special_values_are_words(s: Seq<char>, i: int)
    requires
        special(s) is Some,
        0 <= i < s.len(),
    ensures
        s.len() - (if signed(s) {
            1int
        } else {
            0
        }) == 3 || s.len() - (if signed(s) {
            1int
        } else {
            0
        }) == 8,
        !is_digit(s[i]) && s[i] != '.',
        special(s) matches Some(Special::Infinity { negative }) ==> negative == (s[0] == '-'),
        special_units(Special::NotANumber) == 0,
        special_units(Special::Infinity { negative: true }) == i64::MIN,
        special_units(Special::Infinity { negative: false }) == i64::MAX,
{
    let body = unsigned_part(s);
    if signed(s) && i > 0 {
        assert(body[i - 1] == s[i]);
        assert(small(body[i - 1]) == small(s[i]));
    } else if !signed(s) {
        assert(body[i] == s[i]);
        assert(small(body[i]) == small(s[i]));
    }
}

} // verus!
