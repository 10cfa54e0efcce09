//! Strings as sequences of characters: the small operations that the rest of the
//! library builds its texts from.

use crate::counting::{chosen, lemma_chosen_finite, lemma_chosen_step, lemma_none_chosen};
use vstd::prelude::*;

verus! {

/// Trusted: `String::push` adds the character at the end of the string.
pub assume_specification[ String::push ](s: &mut String, c: char)
    ensures
        final(s)@ == old(s)@.push(c),
;

/// The characters of a string, in order.
pub fn chars_of(s: &str) -> (r: Vec<char>)
    ensures
        r@ == s@,
{
    let mut r: Vec<char> = Vec::new();
    for c in it: s.chars()
        invariant
            r@ == it.seq().take(it.index()),
            it.seq() == s@,
    {
        r.push(c);
        assert(it.seq().take(it.index() + 1) == it.seq().take(it.index()).push(c));
    }
    assert(s@.take(s@.len() as int) == s@);
    r
}

/// The string made of the given characters.
pub fn string_of(chars: &[char]) -> (r: String)
    ensures
        r@ == chars@,
{
    let mut r = String::new();
    for i in 0..chars.len()
        invariant
            r@ == chars@.take(i as int),
    {
        r.push(chars[i]);
        assert(chars@.take(i + 1) == chars@.take(i as int).push(chars[i as int]));
    }
    assert(chars@.take(chars@.len() as int) == chars@);
    r
}

/// The character of a decimal digit.
pub open spec fn digit_char(d: nat) -> char {
    (48 + d) as char
}

/// The decimal notation of a natural number, without leading zeros.
pub open spec fn decimal(n: nat) -> Seq<char>
    decreases n,
{
    if n < 10 {
        seq![digit_char(n)]
    } else {
        decimal(n / 10).push(digit_char(n % 10))
    }
}

/// `s` with `fill` put in front until it has `width` characters.
pub open spec fn padded(s: Seq<char>, width: nat, fill: char) -> Seq<char> {
    if s.len() < width {
        Seq::new((width - s.len()) as nat, |i: int| fill) + s
    } else {
        s
    }
}

fn digit(d: u128) -> (c: char)
    requires
        d < 10,
    ensures
        c == digit_char(d as nat),
{
    (48u8 + d as u8) as char
}

/// The decimal notation of `n`.
pub fn decimal_text(n: u128) -> (r: String)
    ensures
        r@ == decimal(n as nat),
    decreases n,
{
    if n < 10 {
        let mut r = String::new();
        r.push(digit(n));
        assert(r@ == decimal(n as nat));
        r
    } else {
        let mut r = decimal_text(n / 10);
        r.push(digit(n % 10));
        r
    }
}

/// `s` with `fill` put in front until it has `width` characters.
pub fn pad_left(s: &str, width: usize, fill: char) -> (r: String)
    ensures
        r@ == padded(s@, width as nat, fill),
{
    let len = s.unicode_len();
    let mut r = String::new();
    if len < width {
        let missing: usize = width - len;
        for i in 0..missing
            invariant
                r@ == Seq::new(i as nat, |k: int| fill),
        {
            r.push(fill);
            assert(r@ == Seq::new((i + 1) as nat, |k: int| fill));
        }
    }
    let ghost front = r@;
    r.append(s);
    assert(len >= width ==> front + s@ == s@);
    r
}

/// Where the first `a` or `b` stands in `s`, or the length of `s`.
pub open spec fn first_of(s: Seq<char>, a: char, b: char) -> nat
    decreases s.len(),
{
    if s.len() == 0 || s[0] == a || s[0] == b {
        0
    } else {
        1 + first_of(s.skip(1), a, b)
    }
}

pub proof fn lemma_first_of(s: Seq<char>, a: char, b: char, k: int)
    requires
        0 <= k <= s.len(),
        forall|i: int| 0 <= i < k ==> s[i] != a && s[i] != b,
        k < s.len() ==> s[k] == a || s[k] == b,
    ensures
        first_of(s, a, b) == k,
    decreases k,
{
    if k > 0 {
        assert forall|i: int| 0 <= i < k - 1 implies s.skip(1)[i] != a && s.skip(1)[i] != b by {
            assert(s.skip(1)[i] == s[i + 1]);
        }
        lemma_first_of(s.skip(1), a, b, k - 1);
    }
}

/// Where the first `a` or `b` stands between `from` and `to`, or `to`.
pub fn find(chars: &[char], from: usize, to: usize, a: char, b: char) -> (k: usize)
    requires
        from <= to <= chars.len(),
    ensures
        from <= k <= to,
        k - from == first_of(chars@.subrange(from as int, to as int), a, b),
{
    let mut k: usize = from;
    while k < to && chars[k] != a && chars[k] != b
        invariant
            from <= k <= to <= chars.len(),
            forall|i: int| from <= i < k ==> chars@[i] != a && chars@[i] != b,
        decreases to - k,
    {
        k = k + 1;
    }
    proof {
        lemma_first_of(chars@.subrange(from as int, to as int), a, b, k - from);
    }
    k
}

/// A copy of the characters between `from` and `to`.
pub fn copy_range(chars: &[char], from: usize, to: usize) -> (r: Vec<char>)
    requires
        from <= to <= chars.len(),
    ensures
        r@ == chars@.subrange(from as int, to as int),
{
    let mut r: Vec<char> = Vec::new();
    let mut k: usize = from;
    while k < to
        invariant
            from <= k <= to <= chars.len(),
            r@ == chars@.subrange(from as int, k as int),
        decreases to - k,
    {
        r.push(chars[k]);
        k = k + 1;
        assert(r@ == chars@.subrange(from as int, k as int));
    }
    r
}

/// The characters that count as white space.
pub open spec fn is_white(c: char) -> bool {
    let x = c as u32;
    ||| 9 <= x <= 13
    ||| x == 0x20
    ||| x == 0x85
    ||| x == 0xa0
    ||| x == 0x1680
    ||| 0x2000 <= x <= 0x200a
    ||| x == 0x2028
    ||| x == 0x2029
    ||| x == 0x202f
    ||| x == 0x205f
    ||| x == 0x3000
}

/// `s` without the white space at its start.
pub open spec fn trimmed_start(s: Seq<char>) -> Seq<char>
    decreases s.len(),
{
    if s.len() > 0 && is_white(s[0]) {
        trimmed_start(s.skip(1))
    } else {
        s
    }
}

/// `s` without the white space at its end.
pub open spec fn trimmed_end(s: Seq<char>) -> Seq<char>
    decreases s.len(),
{
    if s.len() > 0 && is_white(s.last()) {
        trimmed_end(s.drop_last())
    } else {
        s
    }
}

/// `s` without the white space at both ends.
pub open spec fn trimmed(s: Seq<char>) -> Seq<char> {
    trimmed_end(trimmed_start(s))
}

fn white(c: char) -> (r: bool)
    ensures
        r == is_white(c),
{
    let x = c as u32;
    (9 <= x && x <= 13) || x == 0x20 || x == 0x85 || x == 0xa0 || x == 0x1680 || (0x2000 <= x && x
        <= 0x200a) || x == 0x2028 || x == 0x2029 || x == 0x202f || x == 0x205f || x == 0x3000
}

/// `s` without the white space at both ends.
pub fn trim(s: &str) -> (r: String)
    ensures
        r@ == trimmed(s@),
{
    let chars = chars_of(s);
    let mut from: usize = 0;
    assert(s@.skip(0) == s@);
    while from < chars.len() && white(chars[from])
        invariant
            chars@ == s@,
            from <= chars.len(),
            trimmed_start(s@) == trimmed_start(s@.skip(from as int)),
        decreases chars.len() - from,
    {
        assert(s@.skip(from as int).skip(1) == s@.skip(from + 1));
        from = from + 1;
    }
    let ghost rest = s@.skip(from as int);
    let mut to: usize = chars.len();
    assert(rest == s@.subrange(from as int, to as int));
    while to > from && white(chars[to - 1])
        invariant
            chars@ == s@,
            from <= to <= chars.len(),
            trimmed_end(rest) == trimmed_end(s@.subrange(from as int, to as int)),
        decreases to,
    {
        assert(s@.subrange(from as int, to as int).drop_last() == s@.subrange(
            from as int,
            to - 1,
        ));
        to = to - 1;
    }
    string_of(copy_range(chars.as_slice(), from, to).as_slice())
}

/// The pieces of `s` between the occurrences of `mark`.
pub open spec fn pieces(s: Seq<char>, mark: char) -> Seq<Seq<char>>
    decreases s.len(),
{
    let k = first_of(s, mark, mark) as int;
    if k < s.len() {
        seq![s.take(k)] + pieces(s.skip(k + 1), mark)
    } else {
        seq![s]
    }
}

/// Three texts without the mark, with the mark between them, are the pieces.
pub proof fn lemma_three_pieces(a: Seq<char>, b: Seq<char>, c: Seq<char>, mark: char)
    requires
        !a.contains(mark),
        !b.contains(mark),
        !c.contains(mark),
    ensures
        pieces(a + seq![mark] + b + seq![mark] + c, mark) == seq![a, b, c],
{
    let whole = a + seq![mark] + b + seq![mark] + c;
    let rest = b + seq![mark] + c;
    assert forall|i: int| 0 <= i < a.len() implies whole[i] != mark by {
        assert(a.contains(a[i]));
    }
    lemma_first_of(whole, mark, mark, a.len() as int);
    assert(whole.take(a.len() as int) =~= a);
    assert(whole.skip(a.len() as int + 1) =~= rest);
    assert forall|i: int| 0 <= i < b.len() implies rest[i] != mark by {
        assert(b.contains(b[i]));
    }
    lemma_first_of(rest, mark, mark, b.len() as int);
    assert(rest.take(b.len() as int) =~= b);
    assert(rest.skip(b.len() as int + 1) =~= c);
    assert forall|i: int| 0 <= i < c.len() implies c[i] != mark by {
        assert(c.contains(c[i]));
    }
    lemma_first_of(c, mark, mark, c.len() as int);
    assert(pieces(c, mark) =~= seq![c]);
    assert(pieces(rest, mark) =~= seq![b, c]);
    assert(pieces(whole, mark) =~= seq![a, b, c]);
}

/// Whether strings hold the given texts, one by one.
pub open spec fn hold(strings: Seq<String>, texts: Seq<Seq<char>>) -> bool {
    &&& strings.len() == texts.len()
    &&& forall|i: int| 0 <= i < texts.len() ==> (#[trigger] strings[i])@ == texts[i]
}

/// Splits `s` at every `mark`.
pub fn split(s: &str, mark: char) -> (r: Vec<String>)
    ensures
        hold(r@, pieces(s@, mark)),
{
    let chars = chars_of(s);
    let n: usize = chars.len();
    let mut r: Vec<String> = Vec::new();
    let mut from: usize = 0;
    assert(s@.skip(0) == s@);
    let ghost all = pieces(s@, mark);
    assert(Seq::<Seq<char>>::empty() + all == all);
    loop
        invariant
            chars@ == s@,
            n == chars@.len(),
            from <= n,
            all == pieces(s@, mark),
            all == all.take(r@.len() as int) + pieces(s@.skip(from as int), mark),
            r@.len() <= all.len(),
            forall|i: int| 0 <= i < r@.len() ==> (#[trigger] r@[i])@ == all[i],
        decreases n - from,
    {
        let ghost rest = s@.skip(from as int);
        let k = find(chars.as_slice(), from, n, mark, mark);
        assert(rest == s@.subrange(from as int, n as int));
        let piece = string_of(copy_range(chars.as_slice(), from, k).as_slice());
        proof {
            assert(rest.take(k - from) == s@.subrange(from as int, k as int));
            let done = r@.len() as int;
            assert(pieces(rest, mark)[0] == piece@);
            assert(all[done] == piece@) by {
                assert(all[done] == (all.take(done) + pieces(rest, mark))[done]);
            }
            if k < n {
                assert(rest.skip(k - from + 1) == s@.skip(k + 1));
                assert(all =~= all.take(done + 1) + pieces(s@.skip(k + 1), mark)) by {
                    assert(pieces(rest, mark) == seq![rest.take(k - from)] + pieces(
                        s@.skip(k + 1),
                        mark,
                    ));
                    assert(all.take(done + 1) =~= all.take(done).push(piece@));
                }
            } else {
                assert(all.len() == done + 1);
            }
        }
        r.push(piece);
        if k == n {
            return r;
        }
        from = k + 1;
    }
}

/// `s` with every `from` replaced by `to`.
pub open spec fn replaced(s: Seq<char>, from: char, to: char) -> Seq<char> {
    s.map_values(
        |c: char|
            if c == from {
                to
            } else {
                c
            },
    )
}

/// `s` with every `from` replaced by `to`.
pub fn replace(s: &str, from: char, to: char) -> (r: String)
    ensures
        r@ == replaced(s@, from, to),
{
    let chars = chars_of(s);
    let mut r = String::new();
    for i in 0..chars.len()
        invariant
            chars@ == s@,
            r@ == replaced(s@, from, to).take(i as int),
    {
        if chars[i] == from {
            r.push(to);
        } else {
            r.push(chars[i]);
        }
        assert(r@ == replaced(s@, from, to).take(i + 1));
    }
    assert(r@ == replaced(s@, from, to));
    r
}

/// Whether `s` starts with `start`.
pub open spec fn begins(s: Seq<char>, start: Seq<char>) -> bool {
    start.len() <= s.len() && s.take(start.len() as int) == start
}

/// What follows `start` in `s`; nothing where `s` does not start with it.
pub fn after(s: &str, start: &str) -> (r: Option<String>)
    ensures
        match r {
            Some(t) => begins(s@, start@) && t@ == s@.skip(start@.len() as int),
            None => !begins(s@, start@),
        },
{
    let chars = chars_of(s);
    let want = chars_of(start);
    if matches_at(chars.as_slice(), want.as_slice(), 0) {
        assert(s@.take(start@.len() as int) =~= s@.subrange(0, start@.len() as int));
        let rest = copy_range(chars.as_slice(), want.len(), chars.len());
        assert(s@.skip(start@.len() as int) =~= rest@);
        Some(string_of(rest.as_slice()))
    } else {
        proof {
            if begins(s@, start@) {
                assert(s@.take(start@.len() as int) =~= s@.subrange(0, start@.len() as int));
            }
        }
        None
    }
}

/// Whether `part` stands somewhere in `s`.
pub open spec fn holds_part(s: Seq<char>, part: Seq<char>) -> bool {
    exists|k: int| stands_at(s, part, k)
}

/// Whether `part` stands in `s` at `k`.
pub open spec fn stands_at(s: Seq<char>, part: Seq<char>, k: int) -> bool {
    0 <= k && k + part.len() <= s.len() && s.subrange(k, k + part.len()) == part
}

fn matches_at(chars: &[char], part: &[char], k: usize) -> (r: bool)
    requires
        k <= chars@.len(),
    ensures
        r == stands_at(chars@, part@, k as int),
{
    if chars.len() - k < part.len() {
        return false;
    }
    let ghost here = chars@.subrange(k as int, k + part@.len());
    assert(chars.len() == chars@.len());
    for i in 0..part.len()
        invariant
            k + part@.len() <= chars@.len() <= usize::MAX,
            here == chars@.subrange(k as int, k + part@.len()),
            forall|j: int| 0 <= j < i ==> #[trigger] here[j] == part@[j],
    {
        assert(here[i as int] == chars@[k + i]);
        if chars[k + i] != part[i] {
            return false;
        }
    }
    assert(here =~= part@);
    true
}

/// Whether `part` stands somewhere in `s`.
pub fn contains(s: &str, part: &str) -> (r: bool)
    ensures
        r == holds_part(s@, part@),
{
    let chars = chars_of(s);
    let want = chars_of(part);
    let mut k: usize = 0;
    while k < chars.len()
        invariant
            chars@ == s@,
            want@ == part@,
            k <= chars.len(),
            forall|j: int| 0 <= j < k ==> !#[trigger] stands_at(s@, part@, j),
        decreases chars.len() - k,
    {
        if matches_at(chars.as_slice(), want.as_slice(), k) {
            return true;
        }
        k = k + 1;
    }
    matches_at(chars.as_slice(), want.as_slice(), k)
}

/// `s` without a carriage return at its end.
pub open spec fn uncarried(s: Seq<char>) -> Seq<char> {
    if s.len() > 0 && s.last() == '\r' {
        s.drop_last()
    } else {
        s
    }
}

/// The lines of a text: what stands before each line feed, or before a carriage return and
/// a line feed, and what follows the last one if there is anything.
pub open spec fn text_lines(s: Seq<char>) -> Seq<Seq<char>>
    decreases s.len(),
{
    let k = first_of(s, '\n', '\n') as int;
    if s.len() == 0 {
        Seq::empty()
    } else if k < s.len() {
        seq![uncarried(s.take(k))] + text_lines(s.skip(k + 1))
    } else {
        seq![s]
    }
}

/// Splits a text into lines.
pub fn lines(s: &str) -> (r: Vec<String>)
    ensures
        hold(r@, text_lines(s@)),
{
    let chars = chars_of(s);
    let n: usize = chars.len();
    let mut r: Vec<String> = Vec::new();
    let mut from: usize = 0;
    let ghost all = text_lines(s@);
    assert(s@.skip(0) =~= s@);
    assert(Seq::<Seq<char>>::empty() + all =~= all);
    while from < n
        invariant
            chars@ == s@,
            n == chars@.len(),
            from <= n,
            all == text_lines(s@),
            all == all.take(r@.len() as int) + text_lines(s@.skip(from as int)),
            r@.len() <= all.len(),
            forall|i: int| 0 <= i < r@.len() ==> (#[trigger] r@[i])@ == all[i],
        decreases n - from,
    {
        let ghost rest = s@.skip(from as int);
        let ghost done = r@.len() as int;
        let k = find(chars.as_slice(), from, n, '\n', '\n');
        assert(rest =~= s@.subrange(from as int, n as int));
        let end: usize = if k < n && k > from && chars[k - 1] == '\r' {
            k - 1
        } else {
            k
        };
        let line = string_of(copy_range(chars.as_slice(), from, end).as_slice());
        let next: usize = if k < n {
            k + 1
        } else {
            n
        };
        proof {
            let here = rest.take(k - from);
            assert(here =~= s@.subrange(from as int, k as int));
            if k < n {
                assert(uncarried(here) =~= line@);
                assert(rest.skip(k - from + 1) =~= s@.skip(next as int));
            } else {
                assert(line@ =~= rest);
                assert(s@.skip(next as int) =~= Seq::empty());
                assert(text_lines(s@.skip(next as int)) =~= Seq::empty());
            }
            assert(text_lines(rest) =~= seq![line@] + text_lines(s@.skip(next as int)));
            assert(all[done] == line@) by {
                assert(all[done] == (all.take(done) + text_lines(rest))[done]);
            }
            assert(all.take(done + 1) =~= all.take(done).push(line@));
            assert(all =~= all.take(done + 1) + text_lines(s@.skip(next as int)));
        }
        r.push(line);
        from = next;
    }
    assert(s@.skip(n as int) =~= Seq::empty());
    assert(text_lines(s@.skip(n as int)) =~= Seq::empty());
    assert(all.len() == r@.len());
    r
}

proof fn lemma_trimmed_start(s: Seq<char>) -> (k: int)
    ensures
        0 <= k <= s.len(),
        trimmed_start(s) == s.skip(k),
        forall|i: int| 0 <= i < k ==> is_white(#[trigger] s[i]),
        k < s.len() ==> !is_white(s[k]),
    decreases s.len(),
{
    if s.len() > 0 && is_white(s[0]) {
        let rest = s.skip(1);
        let k = lemma_trimmed_start(rest);
        assert(rest.skip(k) =~= s.skip(k + 1));
        assert forall|i: int| 0 <= i < k + 1 implies is_white(#[trigger] s[i]) by {
            if i > 0 {
                assert(rest[i - 1] == s[i]);
            }
        }
        k + 1
    } else {
        assert(s.skip(0) =~= s);
        0
    }
}

proof fn lemma_trimmed_end(s: Seq<char>) -> (k: int)
    ensures
        0 <= k <= s.len(),
        trimmed_end(s) == s.take(k),
        forall|i: int| k <= i < s.len() ==> is_white(#[trigger] s[i]),
        k > 0 ==> !is_white(s[k - 1]),
    decreases s.len(),
{
    if s.len() > 0 && is_white(s.last()) {
        let front = s.drop_last();
        let k = lemma_trimmed_end(front);
        assert(front.take(k) =~= s.take(k));
        assert forall|i: int| k <= i < s.len() implies is_white(#[trigger] s[i]) by {
            if i < front.len() {
                assert(front[i] == s[i]);
            }
        }
        k
    } else {
        assert(s.take(s.len() as int) =~= s);
        s.len() as int
    }
}

/// Trimming cuts a text down to a part of it: all that is cut off is white space, and the
/// part, unless it is empty, neither starts nor ends with any.
pub proof fn law_trimming_cuts_white_space(s: Seq<char>) -> (r: (int, int))
    ensures
        0 <= r.0 <= r.1 <= s.len(),
        trimmed(s) == s.subrange(r.0, r.1),
        forall|i: int| 0 <= i < r.0 || r.1 <= i < s.len() ==> is_white(#[trigger] s[i]),
        r.0 < r.1 ==> !is_white(s[r.0]) && !is_white(s[r.1 - 1]),
{
    let a = lemma_trimmed_start(s);
    let rest = s.skip(a);
    let b = lemma_trimmed_end(rest);
    assert(rest.take(b) =~= s.subrange(a, a + b));
    assert forall|i: int| 0 <= i < a || a + b <= i < s.len() implies is_white(#[trigger] s[i]) by {
        if i >= a + b {
            assert(rest[i - a] == s[i]);
        }
    }
    if b > 0 {
        assert(rest[b - 1] == s[a + b - 1]);
        assert(rest[0] == s[a]);
        if is_white(s[a]) {
            assert(a < s.len());
        }
    }
    (a, a + b)
}

/// No letter, digit, mark or ideograph is white space: only the blanks and separators up to
/// the ideographic space, and the line breaks.
pub proof fn law_white_space_is_blank(c: char)
    ensures
        is_white(c) ==> c as u32 <= 0x3000,
        '!' <= c && c <= '~' ==> !is_white(c),
        0xa1 <= c as u32 <= 0x167f ==> !is_white(c),
        0x1681 <= c as u32 <= 0x1fff ==> !is_white(c),
        0x200b <= c as u32 <= 0x2027 ==> !is_white(c),
        0x2060 <= c as u32 <= 0x2fff ==> !is_white(c),
        c == ' ' || c == '\n' || c == '\t' || c == '\r' ==> is_white(c),
        c as u32 == 0x3000 || c as u32 == 0xa0 || c as u32 == 0x2003 ==> is_white(c),
{
}

/// The given texts with the mark between them.
pub open spec fn rejoined(texts: Seq<Seq<char>>, mark: char) -> Seq<char>
    decreases texts.len(),
{
    if texts.len() == 0 {
        Seq::empty()
    } else if texts.len() == 1 {
        texts[0]
    } else {
        texts[0] + seq![mark] + rejoined(texts.skip(1), mark)
    }
}

/// The pieces of a text, with the mark between them, are the text, and no piece holds the
/// mark.
pub proof fn law_pieces_rejoin(s: Seq<char>, mark: char)
    ensures
        pieces(s, mark).len() > 0,
        rejoined(pieces(s, mark), mark) == s,
        forall|i: int, j: int|
            #![trigger pieces(s, mark)[i][j]]
            0 <= i < pieces(s, mark).len() && 0 <= j < pieces(s, mark)[i].len() ==> pieces(
                s,
                mark,
            )[i][j] != mark,
    decreases s.len(),
{
    let k = first_of(s, mark, mark) as int;
    lemma_first_of_is(s, mark);
    let all = pieces(s, mark);
    if k < s.len() {
        let rest = s.skip(k + 1);
        law_pieces_rejoin(rest, mark);
        assert(all.skip(1) =~= pieces(rest, mark));
        assert(s =~= s.take(k) + seq![mark] + rest);
        assert forall|i: int, j: int|
            #![trigger all[i][j]]
            0 <= i < all.len() && 0 <= j < all[i].len() implies all[i][j] != mark by {
            if i > 0 {
                assert(all[i] == pieces(rest, mark)[i - 1]);
                assert(pieces(rest, mark)[i - 1][j] != mark);
            }
        }
    }
}

/// Where the mark first stands it stands, and nowhere before.
proof fn lemma_first_of_is(s: Seq<char>, mark: char)
    ensures
        first_of(s, mark, mark) <= s.len(),
        first_of(s, mark, mark) < s.len() ==> s[first_of(s, mark, mark) as int] == mark,
        forall|i: int| 0 <= i < first_of(s, mark, mark) ==> (#[trigger] s[i]) != mark,
    decreases s.len(),
{
    if s.len() > 0 && s[0] != mark {
        let rest = s.skip(1);
        lemma_first_of_is(rest, mark);
        assert forall|i: int| 0 <= i < first_of(s, mark, mark) implies (#[trigger] s[i])
            != mark by {
            if i > 0 {
                assert(rest[i - 1] == s[i]);
            }
        }
        if first_of(s, mark, mark) < s.len() {
            assert(rest[first_of(rest, mark, mark) as int] == s[first_of(
                s,
                mark,
                mark,
            ) as int]);
        }
    }
}

/// The texts, each with a line feed behind it.
pub open spec fn with_feeds(texts: Seq<Seq<char>>) -> Seq<char>
    decreases texts.len(),
{
    if texts.len() == 0 {
        Seq::empty()
    } else {
        texts[0] + seq!['\n'] + with_feeds(texts.skip(1))
    }
}

/// The lines of a text without carriage returns, each with a line feed behind it, are the
/// text, with a line feed more where it does not end in one; and no line holds a line feed.
pub proof fn law_lines_make_up_the_text(s: Seq<char>)
    requires
        !s.contains('\r'),
    ensures
        with_feeds(text_lines(s)) == if s.len() == 0 || s.last() == '\n' {
            s
        } else {
            s.push('\n')
        },
        forall|i: int, j: int|
            #![trigger text_lines(s)[i][j]]
            0 <= i < text_lines(s).len() && 0 <= j < text_lines(s)[i].len() ==> text_lines(
                s,
            )[i][j] != '\n',
    decreases s.len(),
{
    let k = first_of(s, '\n', '\n') as int;
    lemma_first_of_is(s, '\n');
    let all = text_lines(s);
    if s.len() == 0 {
    } else if k < s.len() {
        let rest = s.skip(k + 1);
        assert forall|i: int| 0 <= i < rest.len() implies rest[i] != '\r' by {
            assert(rest[i] == s[k + 1 + i]);
            assert(s.contains(s[k + 1 + i]));
        }
        law_lines_make_up_the_text(rest);
        let here = s.take(k);
        if here.len() > 0 {
            assert(here.last() == s[k - 1]);
            assert(s.contains(s[k - 1]));
        }
        assert(all.skip(1) =~= text_lines(rest));
        assert(all[0] == here);
        assert(s =~= here + seq!['\n'] + rest);
        if rest.len() > 0 {
            assert(rest.last() == s.last());
        }
        assert(with_feeds(all) == here + seq!['\n'] + with_feeds(text_lines(rest)));
        assert(rest.len() > 0 && rest.last() != '\n' ==> here + seq!['\n'] + rest.push('\n')
            =~= s.push('\n'));
        assert forall|i: int, j: int|
            #![trigger all[i][j]]
            0 <= i < all.len() && 0 <= j < all[i].len() implies all[i][j] != '\n' by {
            if i > 0 {
                assert(all[i] == text_lines(rest)[i - 1]);
                assert(text_lines(rest)[i - 1][j] != '\n');
            }
        }
    } else {
        assert(s.last() == s[s.len() - 1]);
        assert(all =~= seq![s]);
        assert(all.skip(1) =~= Seq::empty());
        assert(with_feeds(all.skip(1)) =~= Seq::empty());
        assert(with_feeds(all) =~= s.push('\n'));
    }
}

/// A carriage return before a line feed belongs to the line feed.
pub proof fn law_carriage_returns_are_dropped(a: Seq<char>, b: Seq<char>)
    requires
        !a.contains('\n'),
        a.len() == 0 || a.last() != '\r',
    ensures
        text_lines(a + seq!['\r', '\n'] + b) == seq![a] + text_lines(b),
        text_lines(a + seq!['\n'] + b) == seq![a] + text_lines(b),
{
    let s = a + seq!['\r', '\n'] + b;
    let n = a.len() as int;
    assert forall|i: int| 0 <= i < n + 1 implies s[i] != '\n' by {
        if i < n {
            assert(a.contains(a[i]));
        }
    }
    lemma_first_of(s, '\n', '\n', n + 1);
    assert(s.take(n + 1) =~= a.push('\r'));
    assert(s.take(n + 1).drop_last() =~= a);
    assert(s.skip(n + 2) =~= b);
    let t = a + seq!['\n'] + b;
    assert forall|i: int| 0 <= i < n implies t[i] != '\n' by {
        assert(a.contains(a[i]));
    }
    lemma_first_of(t, '\n', '\n', n);
    assert(t.take(n) =~= a);
    assert(t.skip(n + 1) =~= b);
}

/// Padding puts as many fill characters in front as are missing, and changes nothing else.
pub proof fn law_padding_only_fills(s: Seq<char>, width: nat, fill: char)
    ensures
        ({
            let r = padded(s, width, fill);
            let n = r.len() - s.len();
            &&& r.len() == if s.len() < width {
                width
            } else {
                s.len()
            }
            &&& r.skip(n) == s
            &&& forall|i: int| 0 <= i < n ==> (#[trigger] r[i]) == fill
        }),
{
    let r = padded(s, width, fill);
    assert(r.skip(r.len() - s.len()) =~= s);
}

/// Replacing changes every occurrence of one character into another, and nothing else.
pub proof fn law_replacing_is_by_character(s: Seq<char>, from: char, to: char, i: int)
    requires
        0 <= i < s.len(),
    ensures
        replaced(s, from, to).len() == s.len(),
        s[i] == from ==> replaced(s, from, to)[i] == to,
        s[i] != from ==> replaced(s, from, to)[i] == s[i],
{
}

/// There is one piece more than there are marks.
pub proof fn law_pieces_are_counted_by_marks(s: Seq<char>, mark: char)
    ensures
        pieces(s, mark).len() == chosen(s.len() as int, |i: int| s[i] == mark).len() + 1,
    decreases s.len(),
{
    let k = first_of(s, mark, mark) as int;
    lemma_first_of_is(s, mark);
    let p = |i: int| s[i] == mark;
    if k < s.len() {
        let rest = s.skip(k + 1);
        law_pieces_are_counted_by_marks(rest, mark);
        lemma_marks_split(s, mark, k + 1, s.len() as int);
        lemma_chosen_step(k + 1, p);
        lemma_none_chosen(k, p);
    } else {
        lemma_none_chosen(s.len() as int, p);
    }
}

proof fn lemma_marks_split(s: Seq<char>, mark: char, k: int, n: int)
    requires
        0 <= k <= n <= s.len(),
    ensures
        chosen(n, |i: int| s[i] == mark).len() == chosen(k, |i: int| s[i] == mark).len() + chosen(
            n - k,
            |i: int| s.skip(k)[i] == mark,
        ).len(),
    decreases n - k,
{
    let p = |i: int| s[i] == mark;
    let q = |i: int| s.skip(k)[i] == mark;
    if n == k {
        lemma_chosen_finite(0, q);
    } else {
        lemma_marks_split(s, mark, k, n - 1);
        lemma_chosen_step(n, p);
        lemma_chosen_step(n - k, q);
        assert(s.skip(k)[n - k - 1] == s[n - 1]);
    }
}

/// A text starts with another exactly if it is that and something more.
pub proof fn law_starts_are_followed_by_the_rest(start: Seq<char>, rest: Seq<char>, s: Seq<char>)
    ensures
        begins(start + rest, start),
        (start + rest).skip(start.len() as int) == rest,
        begins(s, start) ==> s == start + s.skip(start.len() as int),
{
    assert((start + rest).take(start.len() as int) =~= start);
    assert((start + rest).skip(start.len() as int) =~= rest);
    if begins(s, start) {
        assert(s =~= start + s.skip(start.len() as int));
    }
}

} // verus!
