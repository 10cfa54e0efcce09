//! What the command lines of the programs ask for.

use crate::numeral::{
    all_digits, digits_value, is_digit, lemma_decimal_digits, lemma_leading_zeros,
};
use crate::text::{after, begins, chars_of, decimal, padded};
use vstd::prelude::*;

verus! {

/// The texts of the arguments.
pub open spec fn words(args: Seq<String>) -> Seq<Seq<char>> {
    Seq::new(args.len(), |i: int| args[i]@)
}

/// Where `word` first stands among the arguments, or their number.
pub open spec fn place_of(args: Seq<Seq<char>>, word: Seq<char>) -> int
    decreases args.len(),
{
    if args.len() == 0 || args[0] == word {
        0
    } else {
        1 + place_of(args.skip(1), word)
    }
}

pub open spec fn given(args: Seq<Seq<char>>, word: Seq<char>) -> bool {
    place_of(args, word) < args.len()
}

/// What follows `key` in the first argument that starts with it.
pub open spec fn value_of(args: Seq<Seq<char>>, key: Seq<char>) -> Option<Seq<char>>
    decreases args.len(),
{
    if args.len() == 0 {
        None
    } else if begins(args[0], key) {
        Some(args[0].skip(key.len() as int))
    } else {
        value_of(args.skip(1), key)
    }
}

/// The first argument that is no option.
pub open spec fn operand(args: Seq<Seq<char>>) -> Option<Seq<char>>
    decreases args.len(),
{
    if args.len() == 0 {
        None
    } else if begins(args[0], "--"@) {
        operand(args.skip(1))
    } else {
        Some(args[0])
    }
}

/// A whole number that fits in 64 bits, with an optional plus sign.
pub open spec fn count(s: Seq<char>) -> Option<nat> {
    let digits = if s.len() > 0 && s[0] == '+' {
        s.skip(1)
    } else {
        s
    };
    if digits.len() > 0 && all_digits(digits) && digits_value(digits) <= u64::MAX {
        Some(digits_value(digits))
    } else {
        None
    }
}

proof fn lemma_digits_grow(s: Seq<char>, k: int)
    requires
        0 <= k <= s.len(),
    ensures
        digits_value(s.take(k)) <= digits_value(s),
    decreases s.len() - k,
{
    if k < s.len() {
        lemma_digits_grow(s, k + 1);
        assert(s.take(k + 1).drop_last() =~= s.take(k));
    } else {
        assert(s.take(k) =~= s);
    }
}

/// Reads a whole number.
pub fn parse_count(s: &str) -> (r: Option<u64>)
    ensures
        match r {
            Some(n) => count(s@) == Some(n as nat),
            None => count(s@) is None,
        },
{
    let chars = chars_of(s);
    let from: usize = if chars.len() > 0 && chars[0] == '+' {
        1
    } else {
        0
    };
    let ghost digits = s@.skip(from as int);
    assert(from == 0 ==> digits =~= s@);
    if from == chars.len() {
        return None;
    }
    let mut n: u64 = 0;
    let mut i: usize = from;
    while i < chars.len()
        invariant
            chars@ == s@,
            from <= i <= chars.len(),
            digits == s@.skip(from as int),
            from == 0 ==> digits == s@,
            from == (if s@.len() > 0 && s@[0] == '+' {
                1int
            } else {
                0int
            }),
            n == digits_value(digits.take(i - from)),
            forall|k: int| 0 <= k < i - from ==> is_digit(#[trigger] digits[k]),
        decreases chars.len() - i,
    {
        let c = chars[i];
        assert(digits[i - from] == c);
        if c < '0' || c > '9' {
            return None;
        }
        let d: u64 = c as u64 - '0' as u64;
        proof {
            assert(digits.take(i - from + 1).drop_last() =~= digits.take(i - from));
            lemma_digits_grow(digits, i - from + 1);
        }
        if n > (u64::MAX - d) / 10 {
            return None;
        }
        n = n * 10 + d;
        i = i + 1;
    }
    assert(digits.take(i - from) =~= digits);
    Some(n)
}

fn find_word(args: &[String], word: &str) -> (r: usize)
    ensures
        r == place_of(words(args@), word@),
        r <= args@.len(),
{
    let wanted = word.to_string();
    let mut k: usize = 0;
    assert(words(args@).skip(0) =~= words(args@));
    while k < args.len()
        invariant
            wanted@ == word@,
            k <= args@.len(),
            place_of(words(args@), word@) == k + place_of(words(args@).skip(k as int), word@),
        decreases args.len() - k,
    {
        let ghost rest = words(args@).skip(k as int);
        assert(rest[0] == args@[k as int]@);
        if args[k] == wanted {
            return k;
        }
        assert(rest.skip(1) =~= words(args@).skip(k + 1));
        k = k + 1;
    }
    k
}

fn find_value(args: &[String], key: &str) -> (r: Option<String>)
    ensures
        match r {
            Some(v) => value_of(words(args@), key@) == Some(v@),
            None => value_of(words(args@), key@) is None,
        },
{
    let mut k: usize = 0;
    assert(words(args@).skip(0) =~= words(args@));
    while k < args.len()
        invariant
            k <= args@.len(),
            value_of(words(args@), key@) == value_of(words(args@).skip(k as int), key@),
        decreases args.len() - k,
    {
        let ghost rest = words(args@).skip(k as int);
        assert(rest[0] == args@[k as int]@);
        if let Some(v) = after(args[k].as_str(), key) {
            return Some(v);
        }
        assert(rest.skip(1) =~= words(args@).skip(k + 1));
        k = k + 1;
    }
    None
}

fn is_option(arg: &str) -> (r: bool)
    ensures
        r == begins(arg@, "--"@),
{
    after(arg, "--").is_some()
}

fn find_operand(args: &[String]) -> (r: Option<String>)
    ensures
        match r {
            Some(v) => operand(words(args@)) == Some(v@),
            None => operand(words(args@)) is None,
        },
{
    let mut k: usize = 0;
    assert(words(args@).skip(0) =~= words(args@));
    while k < args.len()
        invariant
            k <= args@.len(),
            operand(words(args@)) == operand(words(args@).skip(k as int)),
        decreases args.len() - k,
    {
        let ghost rest = words(args@).skip(k as int);
        assert(rest[0] == args@[k as int]@);
        if !is_option(args[k].as_str()) {
            return Some(args[k].clone());
        }
        assert(rest.skip(1) =~= words(args@).skip(k + 1));
        k = k + 1;
    }
    None
}

/// What the recording program is asked to do.
pub enum Command {
    /// List the devices.
    List,
    /// Repair the file at this path.
    Repair(String),
    /// Repair a file, without saying which.
    RepairNothing,
    /// Record: for so many seconds or until stopped, from devices with these names.
    Record { secs: Option<u64>, mic: Option<String>, loopback: Option<String> },
}

/// The text of an optional string.
pub open spec fn text_of(s: Option<String>) -> Option<Seq<char>> {
    match s {
        Some(t) => Some(t@),
        None => None,
    }
}

impl Command {
    /// Whether this is what the arguments ask for. Listing comes before repairing, and
    /// repairing before recording. A length that is no number counts as none.
    pub open spec fn asked_by(self, args: Seq<Seq<char>>) -> bool {
        let repair = place_of(args, "--repair"@);
        match self {
            Command::List => given(args, "--list"@),
            Command::Repair(path) => {
                &&& !given(args, "--list"@)
                &&& repair + 1 < args.len()
                &&& path@ == args[repair + 1]
            },
            Command::RepairNothing => !given(args, "--list"@) && repair + 1 == args.len(),
            Command::Record { secs, mic, loopback } => {
                &&& !given(args, "--list"@)
                &&& !given(args, "--repair"@)
                &&& match secs {
                    Some(n) => operand(args) is Some && count(operand(args)->0) == Some(n as nat),
                    None => operand(args) is None || count(operand(args)->0) is None,
                }
                &&& text_of(mic) == value_of(args, "--mic="@)
                &&& text_of(loopback) == value_of(args, "--loopback="@)
            },
        }
    }

    /// Reads the arguments of the recording program.
    pub fn read(args: &[String]) -> (r: Command)
        ensures
            r.asked_by(words(args@)),
    {
        if find_word(args, "--list") < args.len() {
            return Command::List;
        }
        let repair = find_word(args, "--repair");
        if repair < args.len() {
            if args.len() - repair > 1 {
                return Command::Repair(args[repair + 1].clone());
            }
            return Command::RepairNothing;
        }
        let secs: Option<u64> = match find_operand(args) {
            Some(s) => parse_count(s.as_str()),
            None => None,
        };
        Command::Record {
            secs,
            mic: find_value(args, "--mic="),
            loopback: find_value(args, "--loopback="),
        }
    }
}

/// What the merging program is asked to do: which recording, and whether the lines tell how
/// they were moved.
pub struct MergeRequest {
    pub stem: String,
    pub debug: bool,
}

impl MergeRequest {
    /// Reads the arguments of the merging program. There must be the name of a recording.
    pub fn read(args: &[String]) -> (r: Option<MergeRequest>)
        ensures
            match r {
                Some(m) => {
                    &&& operand(words(args@)) == Some(m.stem@)
                    &&& m.debug == given(words(args@), "--debug"@)
                },
                None => operand(words(args@)) is None,
            },
    {
        let debug = find_word(args, "--debug") < args.len();
        match find_operand(args) {
            Some(stem) => Some(MergeRequest { stem, debug }),
            None => None,
        }
    }
}

/// Whether argument `i` is the value of the option before it.
pub open spec fn is_model_name(args: Seq<Seq<char>>, i: int) -> bool {
    0 < i < args.len() && args[i - 1] == "--model"@ && !begins(args[i], "--"@)
}

/// The model that argument `i` asks for: `--model=` with a name, or `--model` with a name as
/// the next argument.
pub open spec fn model_at(args: Seq<Seq<char>>, i: int) -> Option<Seq<char>> {
    if begins(args[i], "--model="@) {
        Some(args[i].skip("--model="@.len() as int))
    } else if args[i] == "--model"@ && is_model_name(args, i + 1) {
        Some(args[i + 1])
    } else {
        None
    }
}

/// The first model that the arguments from `i` on ask for.
pub open spec fn model_from(args: Seq<Seq<char>>, i: int) -> Option<Seq<char>>
    decreases args.len() - i,
{
    if i >= args.len() {
        None
    } else if model_at(args, i) is Some {
        model_at(args, i)
    } else {
        model_from(args, i + 1)
    }
}

/// The first argument from `i` on that is neither an option nor the name of a model.
pub open spec fn stem_from(args: Seq<Seq<char>>, i: int) -> Option<Seq<char>>
    decreases args.len() - i,
{
    if i >= args.len() {
        None
    } else if !begins(args[i], "--"@) && !is_model_name(args, i) {
        Some(args[i])
    } else {
        stem_from(args, i + 1)
    }
}

/// What the summarising program is asked to do: which recording, whether only to show what
/// would be sent, and with which model.
pub struct SummaryRequest {
    pub stem: String,
    pub dry_run: bool,
    pub model: Option<String>,
}

fn names_model(args: &[String], i: usize) -> (r: bool)
    requires
        i < args@.len(),
    ensures
        r == is_model_name(words(args@), i as int),
{
    if i == 0 {
        return false;
    }
    let option = "--model".to_string();
    let ghost w = words(args@);
    assert(w[i as int] == args@[i as int]@ && w[i - 1] == args@[i - 1]@);
    args[i - 1] == option && !is_option(args[i].as_str())
}

fn find_model(args: &[String]) -> (r: Option<String>)
    ensures
        text_of(r) == model_from(words(args@), 0),
{
    let ghost w = words(args@);
    let option = "--model".to_string();
    let mut k: usize = 0;
    while k < args.len()
        invariant
            w == words(args@),
            option@ == "--model"@,
            k <= args@.len(),
            model_from(w, 0) == model_from(w, k as int),
        decreases args.len() - k,
    {
        assert(w[k as int] == args@[k as int]@);
        if let Some(v) = after(args[k].as_str(), "--model=") {
            return Some(v);
        }
        if args[k] == option && args.len() - k > 1 {
            if names_model(args, k + 1) {
                return Some(args[k + 1].clone());
            }
        }
        k = k + 1;
    }
    None
}

fn find_stem(args: &[String]) -> (r: Option<String>)
    ensures
        text_of(r) == stem_from(words(args@), 0),
{
    let ghost w = words(args@);
    let mut k: usize = 0;
    while k < args.len()
        invariant
            w == words(args@),
            k <= args@.len(),
            stem_from(w, 0) == stem_from(w, k as int),
        decreases args.len() - k,
    {
        assert(w[k as int] == args@[k as int]@);
        if !is_option(args[k].as_str()) && !names_model(args, k) {
            return Some(args[k].clone());
        }
        k = k + 1;
    }
    None
}

impl SummaryRequest {
    /// Reads the arguments of the summarising program. There must be the name of a
    /// recording.
    pub fn read(args: &[String]) -> (r: Option<SummaryRequest>)
        ensures
            match r {
                Some(s) => {
                    &&& stem_from(words(args@), 0) == Some(s.stem@)
                    &&& s.dry_run == given(words(args@), "--dry-run"@)
                    &&& text_of(s.model) == model_from(words(args@), 0)
                },
                None => stem_from(words(args@), 0) is None,
            },
    {
        let dry_run = find_word(args, "--dry-run") < args.len();
        let model = find_model(args);
        match find_stem(args) {
            Some(stem) => Some(SummaryRequest { stem, dry_run, model }),
            None => None,
        }
    }
}

/// A word is found where it stands first, and given exactly if it stands anywhere.
pub proof fn law_words_are_found(args: Seq<Seq<char>>, word: Seq<char>)
    ensures
        0 <= place_of(args, word) <= args.len(),
        given(args, word) <==> args.contains(word),
        given(args, word) ==> args[place_of(args, word)] == word,
        forall|i: int| 0 <= i < place_of(args, word) ==> (#[trigger] args[i]) != word,
    decreases args.len(),
{
    if args.len() > 0 {
        if args[0] == word {
            assert(args.contains(args[0]));
        } else {
            let rest = args.skip(1);
            law_words_are_found(rest, word);
            assert forall|i: int| 0 <= i < place_of(args, word) implies (#[trigger] args[i])
                != word by {
                if i > 0 {
                    assert(rest[i - 1] == args[i]);
                }
            }
            if given(args, word) {
                assert(rest[place_of(rest, word)] == args[place_of(args, word)]);
            } else if args.contains(word) {
                let i = choose|i: int| 0 <= i < args.len() && args[i] == word;
                assert(rest[i - 1] == word);
            }
        }
    }
}

/// The value of an option is what follows it in the first argument that starts with it.
pub proof fn law_values_are_of_the_first(args: Seq<Seq<char>>, key: Seq<char>, k: int)
    requires
        0 <= k <= args.len(),
        forall|i: int| 0 <= i < k ==> !begins(#[trigger] args[i], key),
        k < args.len() ==> begins(args[k], key),
    ensures
        value_of(args, key) == if k < args.len() {
            Some(args[k].skip(key.len() as int))
        } else {
            None
        },
    decreases args.len(),
{
    if k > 0 {
        let rest = args.skip(1);
        assert(!begins(args[0], key));
        assert forall|i: int| 0 <= i < k - 1 implies !begins(#[trigger] rest[i], key) by {
            assert(rest[i] == args[i + 1]);
        }
        law_values_are_of_the_first(rest, key, k - 1);
    }
}

/// The operand is the first argument that does not start with two dashes.
pub proof fn law_operand_is_the_first_without_dashes(args: Seq<Seq<char>>, k: int)
    requires
        0 <= k <= args.len(),
        forall|i: int| 0 <= i < k ==> begins(#[trigger] args[i], seq!['-', '-']),
        k < args.len() ==> !begins(args[k], seq!['-', '-']),
    ensures
        operand(args) == if k < args.len() {
            Some(args[k])
        } else {
            None
        },
    decreases args.len(),
{
    reveal_strlit("--");
    assert("--"@ =~= seq!['-', '-']);
    if k > 0 {
        let rest = args.skip(1);
        assert(begins(args[0], seq!['-', '-']));
        assert forall|i: int| 0 <= i < k - 1 implies begins(
            #[trigger] rest[i],
            seq!['-', '-'],
        ) by {
            assert(rest[i] == args[i + 1]);
        }
        law_operand_is_the_first_without_dashes(rest, k - 1);
    }
}

/// Every number of 64 bits is read from its decimal notation, with leading zeros or a plus
/// sign too, and larger ones are not.
pub proof fn law_counts_are_read(n: nat, zeros: nat)
    ensures
        ({
            let text = padded(decimal(n), decimal(n).len() + zeros, '0');
            &&& n <= u64::MAX ==> count(text) == Some(n) && count(seq!['+'] + text) == Some(n)
            &&& n > u64::MAX ==> count(text) is None && count(seq!['+'] + text) is None
            &&& count(seq!['-'] + text) is None
        }),
{
    lemma_decimal_digits(n);
    let text = padded(decimal(n), decimal(n).len() + zeros, '0');
    lemma_leading_zeros(decimal(n), decimal(n).len() + zeros);
    assert(is_digit(text[0]));
    assert((seq!['+'] + text).skip(1) =~= text);
    let minus = seq!['-'] + text;
    assert(minus[0] == '-');
    assert(!is_digit(minus[0]));
}

/// What is read as a number is made of digits alone, but for a plus sign in front.
pub proof fn law_counts_are_digits(s: Seq<char>, i: int)
    requires
        count(s) is Some,
        0 <= i < s.len(),
    ensures
        is_digit(s[i]) || (i == 0 && s[0] == '+' && s.len() > 1),
{
    if s[0] == '+' {
        if i > 0 {
            assert(s.skip(1)[i - 1] == s[i]);
        }
    }
}

/// The model is that of the first argument that names one, after an equals sign or as the next
/// argument.
pub proof fn law_model_is_the_first_named(args: Seq<Seq<char>>, name: Seq<char>, k: int)
    requires
        0 <= k < args.len(),
        forall|i: int|
            0 <= i < k ==> !begins(#[trigger] args[i], "--model="@) && args[i] != "--model"@,
        args[k] == "--model="@ + name || (args[k] == "--model"@ && k + 1 < args.len() && args[k + 1]
            == name && !begins(name, "--"@)),
    ensures
        model_from(args, 0) == Some(name),
{
    reveal_strlit("--model=");
    reveal_strlit("--model");
    if args[k] == "--model="@ + name {
        assert(args[k].take("--model="@.len() as int) =~= "--model="@);
        assert(args[k].skip("--model="@.len() as int) =~= name);
    }
    lemma_model_skips(args, 0, k);
}

proof fn lemma_model_skips(args: Seq<Seq<char>>, i: int, k: int)
    requires
        0 <= i <= k < args.len(),
        forall|j: int|
            0 <= j < k ==> !begins(#[trigger] args[j], "--model="@) && args[j] != "--model"@,
    ensures
        model_from(args, i) == model_from(args, k),
    decreases k - i,
{
    if i < k {
        assert(!begins(args[i], "--model="@));
        lemma_model_skips(args, i + 1, k);
    }
}

/// Without an argument that speaks of a model there is none, and the recording is the first
/// argument without dashes.
pub proof fn law_without_model_the_stem_is_the_operand(args: Seq<Seq<char>>)
    requires
        forall|i: int|
            0 <= i < args.len() ==> !begins(#[trigger] args[i], "--model="@) && args[i]
                != "--model"@,
    ensures
        model_from(args, 0) is None,
        stem_from(args, 0) == operand(args),
{
    lemma_no_model(args, 0);
    assert(args.skip(0) =~= args);
}

proof fn lemma_no_model(args: Seq<Seq<char>>, i: int)
    requires
        0 <= i <= args.len(),
        forall|j: int|
            0 <= j < args.len() ==> !begins(#[trigger] args[j], "--model="@) && args[j]
                != "--model"@,
    ensures
        model_from(args, i) is None,
        stem_from(args, i) == operand(args.skip(i)),
    decreases args.len() - i,
{
    if i < args.len() {
        lemma_no_model(args, i + 1);
        assert(args.skip(i)[0] == args[i]);
        assert(args.skip(i).skip(1) =~= args.skip(i + 1));
        assert(!begins(args[i], "--model="@));
        if i > 0 {
            assert(args[i - 1] != "--model"@);
        }
    }
}

/// The recording is never the name of a model that follows its option: the first argument
/// that is neither that nor an option is taken.
pub proof fn law_stem_is_not_the_model(args: Seq<Seq<char>>, k: int)
    requires
        0 <= k < args.len(),
        forall|i: int|
            0 <= i < k ==> begins(#[trigger] args[i], "--"@) || (i > 0 && args[i - 1]
                == "--model"@),
        !begins(args[k], "--"@),
        k == 0 || args[k - 1] != "--model"@,
    ensures
        stem_from(args, 0) == Some(args[k]),
{
    lemma_stem_skips(args, 0, k);
}

proof fn lemma_stem_skips(args: Seq<Seq<char>>, i: int, k: int)
    requires
        0 <= i <= k < args.len(),
        forall|j: int|
            0 <= j < k ==> begins(#[trigger] args[j], "--"@) || (j > 0 && args[j - 1]
                == "--model"@),
        !begins(args[k], "--"@),
        k == 0 || args[k - 1] != "--model"@,
    ensures
        stem_from(args, i) == Some(args[k]),
    decreases k - i,
{
    if i < k {
        assert(begins(args[i], "--"@) || (i > 0 && args[i - 1] == "--model"@));
        lemma_stem_skips(args, i + 1, k);
    }
}

/// What is asked for follows from the arguments: a list wherever they hold `--list`; else a
/// repair wherever they hold `--repair`, of the argument behind the first one; and else a
/// recording, as long as the first argument without dashes says if that is a number, with the
/// names that follow `--mic=` and `--loopback=`.
pub proof fn law_command_follows_from_the_arguments(c: Command, args: Seq<Seq<char>>, k: int)
    requires
        c.asked_by(args),
        0 <= k < args.len() ==> args[k] == "--repair"@ && forall|i: int|
            0 <= i < k ==> (#[trigger] args[i]) != "--repair"@,
        k == args.len() ==> !args.contains("--repair"@),
        0 <= k <= args.len(),
    ensures
        c is List <==> args.contains("--list"@),
        !args.contains("--list"@) && k + 1 < args.len() ==> (c matches Command::Repair(path)
            && path@ == args[k + 1]),
        !args.contains("--list"@) && k + 1 == args.len() ==> c is RepairNothing,
        !args.contains("--list"@) && k == args.len() ==> (c matches Command::Record {
            secs,
            mic,
            loopback,
        } && (secs matches Some(n) ==> operand(args) is Some && count(operand(args)->0) == Some(
            n as nat,
        )) && (secs is None ==> operand(args) is None || count(operand(args)->0) is None) && (
        match mic {
            Some(v) => value_of(args, "--mic="@) == Some(v@),
            None => value_of(args, "--mic="@) is None,
        }) && (match loopback {
            Some(v) => value_of(args, "--loopback="@) == Some(v@),
            None => value_of(args, "--loopback="@) is None,
        })),
{
    law_words_are_found(args, "--list"@);
    law_words_are_found(args, "--repair"@);
    let p = place_of(args, "--repair"@);
    if k < args.len() {
        assert(args.contains(args[k]));
        if p < k {
            assert(args[p] != "--repair"@);
        }
        if k < p {
            assert(args[k] != "--repair"@);
        }
    }
}

/// The arguments are taken as they are, one text for each.
pub proof fn law_arguments_are_their_texts(args: Seq<String>, i: int)
    ensures
        words(args).len() == args.len(),
        0 <= i < args.len() ==> words(args)[i] == args[i]@,
{
}

} // verus!
