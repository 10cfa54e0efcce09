//! How documents are written as JSON text.

use crate::decimal::{fixed, pow10};
use crate::json::{lookup, Doc};
use crate::numeral::decimal_units;
use crate::text::{chars_of, decimal};
use vstd::prelude::*;

verus! {

/// One character as it stands inside a JSON string.
pub open spec fn escaped_char(c: char) -> Seq<char> {
    if c == '"' {
        seq!['\\', '"']
    } else if c == '\\' {
        seq!['\\', '\\']
    } else if c == '\n' {
        seq!['\\', 'n']
    } else {
        seq![c]
    }
}

/// A text with quotes, backslashes and line feeds escaped, every other character kept.
pub open spec fn escaped(s: Seq<char>) -> Seq<char>
    decreases s.len(),
{
    if s.len() == 0 {
        Seq::empty()
    } else {
        escaped(s.drop_last()) + escaped_char(s.last())
    }
}

/// Escapes a text for use between the quotes of a JSON string.
pub fn json_escape(s: &str) -> (r: String)
    ensures
        r@ == escaped(s@),
{
    let chars = chars_of(s);
    let mut r = String::new();
    for i in 0..chars.len()
        invariant
            chars@ == s@,
            r@ == escaped(s@.take(i as int)),
    {
        let c = chars[i];
        let ghost before = r@;
        if c == '"' {
            r.push('\\');
            r.push('"');
        } else if c == '\\' {
            r.push('\\');
            r.push('\\');
        } else if c == '\n' {
            r.push('\\');
            r.push('n');
        } else {
            r.push(c);
        }
        assert(r@ == before + escaped_char(c));
        assert(s@.take(i + 1).drop_last() == s@.take(i as int));
    }
    assert(s@.take(s@.len() as int) == s@);
    r
}

/// What an escaped text stands for.
pub open spec fn unescaped(s: Seq<char>) -> Seq<char>
    decreases s.len(),
{
    if s.len() == 0 {
        Seq::empty()
    } else if s[0] == '\\' && s.len() >= 2 {
        let c = if s[1] == 'n' {
            '\n'
        } else {
            s[1]
        };
        seq![c] + unescaped(s.skip(2))
    } else {
        seq![s[0]] + unescaped(s.skip(1))
    }
}

proof fn lemma_escaped_front(s: Seq<char>)
    requires
        s.len() > 0,
    ensures
        escaped(s) == escaped_char(s[0]) + escaped(s.skip(1)),
    decreases s.len(),
{
    let front = s.drop_last();
    if s.len() == 1 {
        assert(front =~= Seq::empty());
        assert(s.skip(1) =~= Seq::empty());
        assert(escaped(front) =~= Seq::empty());
        assert(escaped(s.skip(1)) =~= Seq::empty());
        assert(escaped(s) =~= escaped_char(s[0]) + escaped(s.skip(1)));
    } else {
        lemma_escaped_front(front);
        assert(front.skip(1) =~= s.skip(1).drop_last());
        assert(s.skip(1).last() == s.last());
        assert(escaped(s) =~= escaped_char(s[0]) + (escaped(front.skip(1)) + escaped_char(
            s.last(),
        )));
    }
}

/// Escaping loses nothing: the text can be read back from what was written.
pub proof fn law_escape_is_reversible(s: Seq<char>)
    ensures
        unescaped(escaped(s)) == s,
    decreases s.len(),
{
    if s.len() > 0 {
        lemma_escaped_front(s);
        law_escape_is_reversible(s.skip(1));
        let e = escaped(s);
        let rest = escaped(s.skip(1));
        if escaped_char(s[0]).len() == 2 {
            assert(e.skip(2) =~= rest);
        } else {
            assert(e.skip(1) =~= rest);
        }
        assert(seq![s[0]] + s.skip(1) =~= s);
    }
}

/// An escaped text stays on one line, so that it cannot break the file apart.
pub proof fn law_escape_stays_on_line(s: Seq<char>)
    ensures
        forall|i: int| 0 <= i < escaped(s).len() ==> #[trigger] escaped(s)[i] != '\n',
    decreases s.len(),
{
    if s.len() > 0 {
        law_escape_stays_on_line(s.drop_last());
        let front = escaped(s.drop_last());
        let last = escaped_char(s.last());
        assert forall|i: int| 0 <= i < escaped(s).len() implies #[trigger] escaped(s)[i]
            != '\n' by {
            if i < front.len() {
                assert(escaped(s)[i] == front[i]);
            } else {
                assert(escaped(s)[i] == last[i - front.len()]);
            }
        }
    }
}

pub open spec fn truth(b: bool) -> Seq<char> {
    if b {
        "true"@
    } else {
        "false"@
    }
}

/// The texts with `between` between them.
pub open spec fn joined(texts: Seq<Seq<char>>, between: Seq<char>) -> Seq<char>
    decreases texts.len(),
{
    if texts.len() == 0 {
        Seq::empty()
    } else if texts.len() == 1 {
        texts[0]
    } else {
        joined(texts.drop_last(), between) + between + texts.last()
    }
}

/// A text between quotes.
pub open spec fn quoted(s: Seq<char>) -> Seq<char> {
    "\""@ + escaped(s) + "\""@
}

/// The text of a document: arrays on one line, the entries of an object on lines of their
/// own.
pub open spec fn written(d: Doc) -> Seq<char>
    decreases d, 0nat,
{
    match d {
        Doc::Null => "null"@,
        Doc::Bool(b) => truth(b),
        Doc::Number(_, t) => t,
        Doc::Str(s) => quoted(s),
        Doc::Array(items) => "["@ + joined(items_written(items, items.len()), ", "@) + "]"@,
        Doc::Object(entries) => "{\n  "@ + joined(
            entries_written(entries, entries.len()),
            ",\n  "@,
        ) + "\n}\n"@,
    }
}

/// The texts of the first `n` items of an array.
pub open spec fn items_written(items: Seq<Doc>, n: nat) -> Seq<Seq<char>>
    decreases items, n,
{
    if 0 < n <= items.len() {
        items_written(items, (n - 1) as nat).push(written(items[n - 1]))
    } else {
        Seq::empty()
    }
}

/// The texts of the first `n` entries of an object.
pub open spec fn entries_written(entries: Seq<(Seq<char>, Doc)>, n: nat) -> Seq<Seq<char>>
    decreases entries, n,
{
    if 0 < n <= entries.len() {
        entries_written(entries, (n - 1) as nat).push(
            quoted(entries[n - 1].0) + ": "@ + written(entries[n - 1].1),
        )
    } else {
        Seq::empty()
    }
}

/// Adds a text to others that have `between` between them.
fn add_text(list: &mut String, first: bool, between: &str, text: &str, Ghost(texts): Ghost<
    Seq<Seq<char>>,
>)
    requires
        old(list)@ == joined(texts, between@),
        first == (texts.len() == 0),
    ensures
        final(list)@ == joined(texts.push(text@), between@),
{
    if !first {
        list.append(between);
    }
    list.append(text);
    proof {
        let all = texts.push(text@);
        assert(all.drop_last() =~= texts);
        assert(Seq::<char>::empty() + text@ =~= text@);
    }
}

/// Adds the text of item `k` of an array to those before it.
pub(crate) fn add_item(list: &mut String, k: usize, text: &str, Ghost(items): Ghost<Seq<Doc>>)
    requires
        k < items.len(),
        text@ == written(items[k as int]),
        old(list)@ == joined(items_written(items, k as nat), ", "@),
    ensures
        final(list)@ == joined(items_written(items, (k + 1) as nat), ", "@),
{
    proof {
        lemma_items_len(items, k as nat);
    }
    add_text(list, k == 0, ", ", text, Ghost(items_written(items, k as nat)));
}

proof fn lemma_items_len(items: Seq<Doc>, n: nat)
    requires
        n <= items.len(),
    ensures
        items_written(items, n).len() == n,
    decreases n,
{
    if n > 0 {
        lemma_items_len(items, (n - 1) as nat);
    }
}

/// Adds the text of entry `k` of an object to those before it.
pub(crate) fn add_entry(list: &mut String, k: usize, key: &str, value: &str, Ghost(entries): Ghost<
    Seq<(Seq<char>, Doc)>,
>)
    requires
        k < entries.len(),
        key@ == entries[k as int].0,
        value@ == written(entries[k as int].1),
        old(list)@ == joined(entries_written(entries, k as nat), ",\n  "@),
    ensures
        final(list)@ == joined(entries_written(entries, (k + 1) as nat), ",\n  "@),
{
    proof {
        lemma_entries_len(entries, k as nat);
    }
    let mut text = quote(key);
    text.append(": ");
    text.append(value);
    add_text(list, k == 0, ",\n  ", text.as_str(), Ghost(entries_written(entries, k as nat)));
}

proof fn lemma_entries_len(entries: Seq<(Seq<char>, Doc)>, n: nat)
    requires
        n <= entries.len(),
    ensures
        entries_written(entries, n).len() == n,
    decreases n,
{
    if n > 0 {
        lemma_entries_len(entries, (n - 1) as nat);
    }
}

/// Puts a text between quotes.
pub fn quote(s: &str) -> (r: String)
    ensures
        r@ == quoted(s@),
{
    let mut r = "\"".to_string();
    r.append(json_escape(s).as_str());
    r.append("\"");
    r
}

/// Whether a text is free of the control characters that may not stand in a JSON string.
pub open spec fn unbroken(s: Seq<char>) -> bool {
    forall|i: int| 0 <= i < s.len() ==> (#[trigger] s[i]) >= ' ' || s[i] == '\n'
}

/// Whether a text is `scaled` tens-of-`places`-th parts with a point, and with a sign
/// where they are negative.
pub open spec fn is_fixed(t: Seq<char>, negative: bool, scaled: nat, places: nat) -> bool {
    t == if negative {
        seq!['-'] + fixed(scaled, places)
    } else {
        fixed(scaled, places)
    }
}

/// Whether a text is a number with a point and so few digits that a 64-bit binary
/// fraction tells it apart from every other such number.
pub open spec fn short(t: Seq<char>) -> bool {
    exists|negative: bool, scaled: nat, places: nat|
        1 <= places <= 15 && scaled < pow10(15) && #[trigger] is_fixed(t, negative, scaled, places)
}

/// Whether the text of a document is JSON that every reader understands alike: numbers are
/// whole or short, keys are not repeated, and nothing is nested more than `depth` deep.
pub open spec fn plain(d: Doc, depth: nat) -> bool
    decreases depth,
{
    match d {
        Doc::Null => true,
        Doc::Bool(_) => true,
        Doc::Number(Some(n), t) => t == decimal(n as nat),
        Doc::Number(None, t) => short(t),
        Doc::Str(s) => unbroken(s),
        Doc::Array(items) => depth > 0 && forall|i: int|
            0 <= i < items.len() ==> plain(#[trigger] items[i], (depth - 1) as nat),
        Doc::Object(entries) => {
            &&& depth > 0
            &&& forall|i: int|
                0 <= i < entries.len() ==> unbroken((#[trigger] entries[i]).0) && plain(
                    entries[i].1,
                    (depth - 1) as nat,
                )
            &&& forall|i: int, j: int|
                0 <= i < j < entries.len() ==> (#[trigger] entries[i]).0 != (
                #[trigger] entries[j]).0
        },
    }
}

/// Whether two numerals stand for the same number.
pub open spec fn same_number(t: Seq<char>, u: Seq<char>) -> bool {
    forall|places: nat| decimal_units(t, places) == #[trigger] decimal_units(u, places)
}

/// Whether `d` says what `w` says: the same, but for the notation of numbers with a point
/// and for the order of the entries of an object.
pub open spec fn same(w: Doc, d: Doc) -> bool
    decreases w,
{
    match w {
        Doc::Number(None, t) => d matches Doc::Number(None, u) && same_number(t, u),
        Doc::Array(items) => {
            &&& d matches Doc::Array(others)
            &&& items.len() == others.len()
            &&& forall|i: int| 0 <= i < items.len() ==> same(#[trigger] items[i], others[i])
        },
        Doc::Object(entries) => {
            &&& d matches Doc::Object(others)
            &&& forall|i: int|
                0 <= i < entries.len() ==> same(
                    (#[trigger] entries[i]).1,
                    lookup(others, entries[i].0),
                )
        },
        _ => d == w,
    }
}

/// The room that the first `n` texts take up, each with `between` behind it.
pub open spec fn joined_room(texts: Seq<Seq<char>>, between: Seq<char>, n: int) -> int
    decreases n,
{
    if n <= 0 {
        0
    } else {
        joined_room(texts, between, n - 1) + texts[n - 1].len() + between.len()
    }
}

proof fn lemma_joined_room(a: Seq<Seq<char>>, b: Seq<Seq<char>>, between: Seq<char>, n: int)
    requires
        n <= a.len(),
        n <= b.len(),
        forall|i: int| 0 <= i < n ==> a[i] == b[i],
    ensures
        joined_room(a, between, n) == joined_room(b, between, n),
        joined_room(a, between, n) >= 0,
        n > 0 ==> joined_room(a, between, n) >= between.len(),
    decreases n,
{
    if n > 0 {
        lemma_joined_room(a, b, between, n - 1);
    }
}

/// Of texts that are joined, each stands behind those before it with `between` before it, and
/// there is nothing else.
pub proof fn law_joining_keeps_every_text(texts: Seq<Seq<char>>, between: Seq<char>, k: int)
    requires
        0 <= k < texts.len(),
    ensures
        ({
            let all = joined(texts, between);
            let at = joined_room(texts, between, k);
            let n = texts[k].len();
            let b = between.len();
            &&& all.len() == joined_room(texts, between, texts.len() as int) - b
            &&& 0 <= at
            &&& at + n <= all.len()
            &&& all.subrange(at, at + n) == texts[k]
            &&& k == 0 ==> at == 0
            &&& k > 0 ==> at >= b && all.subrange(at - b, at) == between
        }),
    decreases texts.len(),
{
    let all = joined(texts, between);
    let at = joined_room(texts, between, k);
    let n = texts[k].len();
    let b = between.len();
    lemma_joined_room(texts, texts, between, k);
    if texts.len() == 1 {
        reveal_with_fuel(joined_room, 2);
        assert(all.subrange(at, at + n) =~= texts[k]);
    } else {
        let front = texts.drop_last();
        let before = joined(front, between);
        let m = front.len() as int;
        lemma_joined_room(texts, front, between, m);
        lemma_joined_room(texts, front, between, k);
        law_joining_keeps_every_text(front, between, 0);
        if k < m {
            law_joining_keeps_every_text(front, between, k);
            assert(all.subrange(at, at + n) =~= before.subrange(at, at + n));
            if k > 0 {
                assert(all.subrange(at - b, at) =~= before.subrange(at - b, at));
            }
        } else {
            assert(at == before.len() + b);
            assert(all.subrange(at, at + n) =~= texts[k]);
            assert(all.subrange(at - b, at) =~= between);
        }
    }
}

/// Every item of an array is written, and every entry of an object with its key.
pub proof fn law_everything_is_written_out(
    items: Seq<Doc>,
    entries: Seq<(Seq<char>, Doc)>,
    n: nat,
    m: nat,
)
    requires
        n <= items.len(),
        m <= entries.len(),
    ensures
        items_written(items, n).len() == n,
        forall|i: int| 0 <= i < n ==> #[trigger] items_written(items, n)[i] == written(items[i]),
        entries_written(entries, m).len() == m,
        forall|i: int|
            0 <= i < m ==> #[trigger] entries_written(entries, m)[i] == "\""@ + escaped(entries[i].0)
                + "\""@ + ": "@ + written(entries[i].1),
    decreases n + m,
{
    if n > 0 {
        law_everything_is_written_out(items, entries, (n - 1) as nat, m);
    } else if m > 0 {
        law_everything_is_written_out(items, entries, n, (m - 1) as nat);
    }
    if m > 0 {
        let e = entries_written(entries, m);
        law_everything_is_written_out(items, entries, 0, (m - 1) as nat);
    }
}

/// How each kind of document is written.
pub proof fn law_forms_of_documents(
    b: bool,
    n: Option<u64>,
    t: Seq<char>,
    items: Seq<Doc>,
    entries: Seq<(Seq<char>, Doc)>,
)
    ensures
        written(Doc::Null) == "null"@,
        written(Doc::Bool(b)) == if b {
            "true"@
        } else {
            "false"@
        },
        written(Doc::Number(n, t)) == t,
        written(Doc::Str(t)) == "\""@ + escaped(t) + "\""@,
        written(Doc::Array(items)) == "["@ + joined(items_written(items, items.len()), ", "@)
            + "]"@,
        written(Doc::Object(entries)) == "{\n  "@ + joined(
            entries_written(entries, entries.len()),
            ",\n  "@,
        ) + "\n}\n"@,
{
}

/// Escaping works character by character: only quotes, backslashes and line feeds get a
/// backslash.
pub proof fn law_escaping_is_by_character(s: Seq<char>, c: char)
    ensures
        escaped(s.push(c)) == escaped(s) + if c == '"' || c == '\\' {
            seq!['\\', c]
        } else if c == '\n' {
            seq!['\\', 'n']
        } else {
            seq![c]
        },
        escaped(Seq::empty()).len() == 0,
{
    assert(s.push(c).drop_last() =~= s);
}

} // verus!
