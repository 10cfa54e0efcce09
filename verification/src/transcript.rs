//! Two tracks of segments put together into one transcript.

use crate::counting::{chosen, lemma_chosen_finite, lemma_chosen_step};
use crate::decimal::{
    difference, fixed, lemma_pow10_small, magnitude, minutes_fixed, pow10, ratio_text,
    round_half_even, seconds_between, seconds_fixed,
};
use crate::numeral::{
    clamp_i64, digits_value, is_digit, lemma_decimal_digits, lemma_decimal_len, lemma_digits_join,
    lemma_digits_read, lemma_fixed_digits, lemma_leading_zeros, lemma_ordinary_part,
    lemma_pointed_numeral, lemma_pointed_reads, numeral, part, pointed, special, zero, Numeral,
};
use crate::order::{lemma_sort_rises, stable_sort, stably_sorted, Keyed};
use crate::text::{
    decimal, decimal_text, digit_char, lemma_three_pieces, pad_left, padded, replaced,
};
use crate::sum::{at_scale, lowest, nanoseconds, rounded, total};
use crate::track::{added, all_said, stamp, Said, Seg, Speaker, Track};
use vstd::prelude::*;

verus! {

/// Segments of one speaker that follow each other within this many nanoseconds stand on one
/// line.
pub const MERGE_GAP: u64 = 2_000_000_000;

/// By start; what starts at the same time is put with the other side first, so that the
/// reply follows what it replies to.
impl Keyed for Seg {
    open spec fn key(self) -> int {
        self.start * 2 + if self.speaker == Speaker::Me {
            1int
        } else {
            0int
        }
    }

    fn before(&self, other: &Self) -> (r: bool) {
        self.start < other.start || (self.start == other.start && self.speaker == Speaker::Other
            && other.speaker == Speaker::Me)
    }
}

/// Puts segments in the order in which they are read.
pub fn arrange(segs: Vec<Seg>) -> (r: Vec<Seg>)
    ensures
        stably_sorted(segs@, r@),
        forall|i: int, j: int|
            #![trigger r@[i], r@[j]]
            0 <= i < j < r@.len() ==> r@[i].start < r@[j].start || (r@[i].start == r@[j].start && !(
            r@[i].speaker == Speaker::Me && r@[j].speaker == Speaker::Other)),
{
    let r = stable_sort(segs);
    proof {
        lemma_sort_rises(segs@, r@);
        assert forall|i: int, j: int|
            #![trigger r@[i], r@[j]]
            0 <= i < j < r@.len() implies (r@[i].start < r@[j].start || (r@[i].start
            == r@[j].start && !(r@[i].speaker == Speaker::Me && r@[j].speaker
            == Speaker::Other))) by {
            assert(r@[i].key() <= r@[j].key());
        }
    }
    r
}

/// The time of day form of a time in nanoseconds: minutes and seconds with one place, with
/// the hours in front where there are any. Seconds are rounded by themselves, so that they
/// may read `60.0`; exactly between two tenths they go to the even one, so that 50
/// milliseconds read `00.0`.
pub open spec fn clock(t: int) -> Seq<char> {
    let t = if t < 0 {
        0
    } else {
        t
    };
    let h = t / 3_600_000_000_000;
    let m = t % 3_600_000_000_000 / 60_000_000_000;
    let s = t % 60_000_000_000;
    let rest = padded(decimal(m as nat), 2, '0') + ":"@ + padded(
        ratio_text(s, 1_000_000_000, 1),
        4,
        '0',
    );
    if h > 0 {
        decimal(h as nat) + ":"@ + rest
    } else {
        rest
    }
}

/// Writes a time in nanoseconds as minutes and seconds, or hours, minutes and seconds.
pub fn hhmmss(t: i128) -> (r: String)
    ensures
        r@ == clock(t as int),
{
    let t: i128 = if t < 0 {
        0
    } else {
        t
    };
    let h: i128 = t / 3_600_000_000_000;
    let m: i128 = t % 3_600_000_000_000 / 60_000_000_000;
    let s: i128 = t % 60_000_000_000;
    let mut rest = pad_left(decimal_text(m as u128).as_str(), 2, '0');
    rest.append(":");
    rest.append(pad_left(seconds_fixed(s, 1).as_str(), 4, '0').as_str());
    if h > 0 {
        let mut r = decimal_text(h as u128);
        r.append(":");
        r.append(rest.as_str());
        r
    } else {
        rest
    }
}

/// Whether `b`, coming after `a`, stands on the same line.
pub open spec fn joins(a: Said, b: Said) -> bool {
    a.speaker == b.speaker && b.start - a.end <= MERGE_GAP
}

/// Where the line that starts with segment `i` ends.
pub open spec fn line_end(segs: Seq<Said>, i: int) -> int
    decreases segs.len() - i,
{
    if i + 1 < segs.len() && joins(segs[i], segs[i + 1]) {
        line_end(segs, i + 1)
    } else {
        i + 1
    }
}

/// What segments `i` to `j` say, with a blank between them.
pub open spec fn said_between(segs: Seq<Said>, i: int, j: int) -> Seq<char>
    decreases j - i,
{
    if j <= i + 1 {
        segs[i].text
    } else {
        said_between(segs, i, j - 1).push(' ') + segs[j - 1].text
    }
}

/// The line of the segments `i` to `j`. With `debug` it tells where they stand in the file,
/// and by how much they were moved.
pub open spec fn line(segs: Seq<Said>, i: int, j: int, debug: bool) -> Seq<char> {
    let s = segs[i];
    let plain = "["@ + clock(s.start) + "] "@ + s.speaker.name() + ": "@ + said_between(segs, i, j)
        + "\n"@;
    if debug {
        plain + "        （WAV内 "@ + clock(s.wav_start) + " / 補正 +"@ + ratio_text(
            s.start - s.wav_start,
            1_000_000_000,
            2,
        ) + "秒）\n"@
    } else {
        plain
    }
}

/// The lines from segment `i` on: first and last segment of each.
pub open spec fn lines_from(segs: Seq<Said>, i: int) -> Seq<(int, int)>
    decreases segs.len() - i,
{
    if 0 <= i < segs.len() {
        proof {
            lemma_line_end(segs, i);
        }
        seq![(i, line_end(segs, i))] + lines_from(segs, line_end(segs, i))
    } else {
        Seq::empty()
    }
}

/// The text of a row of lines.
pub open spec fn lines_text(segs: Seq<Said>, lines: Seq<(int, int)>, debug: bool) -> Seq<char>
    decreases lines.len(),
{
    if lines.len() == 0 {
        Seq::empty()
    } else {
        lines_text(segs, lines.drop_last(), debug) + line(
            segs,
            lines.last().0,
            lines.last().1,
            debug,
        )
    }
}

/// The line of the header that describes a track.
pub open spec fn track_text(t: Track) -> Seq<char> {
    t.speaker.name() + ": "@ + t.device@ + " / "@ + decimal(t.rate as nat) + " Hz / 時刻補正 +"@
        + ratio_text(t.total_lag as int, 1_000_000_000, 2) + "秒（空白 "@ + decimal(
        t.steps@.len(),
    ) + " 箇所）\n"@
}

/// The lines of the header that describe the tracks.
pub open spec fn tracks_text(tracks: Seq<Track>) -> Seq<char>
    decreases tracks.len(),
{
    if tracks.len() == 0 {
        Seq::empty()
    } else {
        tracks_text(tracks.drop_last()) + track_text(tracks.last())
    }
}

/// The whole transcript.
pub open spec fn transcript_text(
    stem: Seq<char>,
    tracks: Seq<Track>,
    segs: Seq<Said>,
    debug: bool,
) -> Seq<char> {
    "会議トランスクリプト\n"@ + "録音: "@ + stem + "\n"@ + tracks_text(tracks)
        + "時刻は録音開始からの実時刻。WAV 内の時刻ではない（ADR-004）。\n\n"@ + lines_text(
        segs,
        lines_from(segs, 0),
        debug,
    )
}

/// A line goes on as long as segments join, and ends within the segments.
pub proof fn lemma_line_end(segs: Seq<Said>, i: int)
    requires
        0 <= i < segs.len(),
    ensures
        i < line_end(segs, i) <= segs.len(),
        forall|k: int| i < k < line_end(segs, i) ==> joins(segs[k - 1], #[trigger] segs[k]),
        line_end(segs, i) < segs.len() ==> !joins(
            segs[line_end(segs, i) - 1],
            segs[line_end(segs, i)],
        ),
    decreases segs.len() - i,
{
    if i + 1 < segs.len() && joins(segs[i], segs[i + 1]) {
        lemma_line_end(segs, i + 1);
    }
}

fn joins_on(a: &Seg, b: &Seg) -> (r: bool)
    ensures
        r == joins(a@, b@),
{
    if a.speaker == b.speaker {
        let (early, apart) = difference(b.start, a.end);
        early || apart <= MERGE_GAP as u128
    } else {
        false
    }
}

fn track_line(t: &Track) -> (r: String)
    ensures
        r@ == track_text(*t),
{
    let mut r = t.speaker.label().to_string();
    r.append(": ");
    r.append(t.device.as_str());
    r.append(" / ");
    r.append(decimal_text(t.rate as u128).as_str());
    r.append(" Hz / 時刻補正 +");
    r.append(seconds_fixed(t.total_lag, 2).as_str());
    r.append("秒（空白 ");
    r.append(decimal_text(t.steps.len() as u128).as_str());
    r.append(" 箇所）\n");
    r
}

fn text_line(first: &Seg, words: &str, debug: bool) -> (r: String)
    ensures
        forall|segs: Seq<Said>, i: int, j: int|
            segs[i] == first@ && said_between(segs, i, j) == words@ ==> #[trigger] line(
                segs,
                i,
                j,
                debug,
            ) == r@,
{
    let mut r = "[".to_string();
    r.append(hhmmss(first.start).as_str());
    r.append("] ");
    r.append(first.speaker.label());
    r.append(": ");
    r.append(words);
    r.append("\n");
    if debug {
        r.append("        （WAV内 ");
        r.append(hhmmss(first.wav_start as i128).as_str());
        r.append(" / 補正 +");
        r.append(seconds_between(first.start, first.wav_start as i128, 2).as_str());
        r.append("秒）\n");
    }
    r
}

/// Writes the lines of arranged segments.
#[verifier::spinoff_prover]
fn write_lines(segs: &[Seg], debug: bool) -> (r: String)
    ensures
        r@ == lines_text(all_said(segs@), lines_from(all_said(segs@), 0), debug),
{
    let ghost said = all_said(segs@);
    let ghost all = lines_from(said, 0);
    let ghost mut done: int = 0;
    let mut r = String::new();
    let mut i: usize = 0;
    assert(all.take(0) =~= Seq::empty());
    while i < segs.len()
        invariant
            said == all_said(segs@),
            all == lines_from(said, 0),
            i <= segs.len(),
            0 <= done <= all.len(),
            all =~= all.take(done) + lines_from(said, i as int),
            r@ == lines_text(said, all.take(done), debug),
        decreases segs.len() - i,
    {
        let mut words = segs[i].text.clone();
        let mut j: usize = i + 1;
        proof {
            lemma_line_end(said, i as int);
        }
        while j < segs.len() && joins_on(&segs[j - 1], &segs[j])
            invariant
                said == all_said(segs@),
                i < j <= segs.len(),
                words@ == said_between(said, i as int, j as int),
                line_end(said, i as int) == line_end(said, j - 1),
            decreases segs.len() - j,
        {
            words.push(' ');
            words.append(segs[j].text.as_str());
            j = j + 1;
        }
        r.append(text_line(&segs[i], words.as_str(), debug).as_str());
        proof {
            let end = line_end(said, i as int);
            assert(end == j);
            assert(lines_from(said, i as int) == seq![(i as int, end)] + lines_from(said, end));
            assert(all[done] == (i as int, end)) by {
                assert(all[done] == (all.take(done) + lines_from(said, i as int))[done]);
            }
            assert(all.len() >= done + 1);
            assert(all.take(done + 1).drop_last() =~= all.take(done));
            assert(all.take(done + 1) =~= all.take(done).push((i as int, end)));
            assert(all =~= all.take(done + 1) + lines_from(said, end));
            done = done + 1;
        }
        i = j;
    }
    assert(all.take(done) =~= all);
    r
}

/// Writes the transcript of arranged segments.
pub fn render(stem: &str, tracks: &[Track], segs: &[Seg], debug: bool) -> (r: String)
    ensures
        r@ == transcript_text(stem@, tracks@, all_said(segs@), debug),
{
    let mut heads = String::new();
    for i in 0..tracks.len()
        invariant
            heads@ == tracks_text(tracks@.take(i as int)),
    {
        heads.append(track_line(&tracks[i]).as_str());
        assert(tracks@.take(i + 1).drop_last() =~= tracks@.take(i as int));
    }
    assert(tracks@.take(tracks@.len() as int) =~= tracks@);
    let mut r = "会議トランスクリプト\n".to_string();
    r.append("録音: ");
    r.append(stem);
    r.append("\n");
    r.append(heads.as_str());
    r.append("時刻は録音開始からの実時刻。WAV 内の時刻ではない（ADR-004）。\n\n");
    r.append(write_lines(segs, debug).as_str());
    r
}

/// How long a speaker talks in the first `n` segments, in nanoseconds.
pub open spec fn talk(segs: Seq<Said>, speaker: Speaker, n: int) -> int
    decreases n,
{
    if n <= 0 {
        0
    } else if segs[n - 1].speaker == speaker {
        talk(segs, speaker, n - 1) + (segs[n - 1].end - segs[n - 1].start)
    } else {
        talk(segs, speaker, n - 1)
    }
}

/// Whether no length and no sum on the way leaves 128 bits.
pub open spec fn talk_fits(segs: Seq<Said>, speaker: Speaker) -> bool {
    forall|n: int|
        1 <= n <= segs.len() && segs[n - 1].speaker == speaker ==> {
            &&& i128::MIN <= #[trigger] talk(segs, speaker, n) <= i128::MAX
            &&& i128::MIN <= segs[n - 1].end - segs[n - 1].start <= i128::MAX
        }
}

/// How long a speaker talks, in nanoseconds; nothing where the sum leaves 128 bits.
#[verifier::spinoff_prover]
pub fn talk_time(segs: &[Seg], speaker: Speaker) -> (r: Option<i128>)
    ensures
        match r {
            Some(x) => {
                &&& talk_fits(all_said(segs@), speaker)
                &&& x == talk(all_said(segs@), speaker, segs@.len() as int)
            },
            None => !talk_fits(all_said(segs@), speaker),
        },
{
    let ghost said = all_said(segs@);
    let mut sum: i128 = 0;
    for i in 0..segs.len()
        invariant
            said == all_said(segs@),
            sum == talk(said, speaker, i as int),
            forall|n: int|
                1 <= n <= i && said[n - 1].speaker == speaker ==> {
                    &&& i128::MIN <= #[trigger] talk(said, speaker, n) <= i128::MAX
                    &&& i128::MIN <= said[n - 1].end - said[n - 1].start <= i128::MAX
                },
    {
        assert(said[i as int] == segs@[i as int]@);
        if segs[i].speaker == speaker {
            let len = match segs[i].end.checked_sub(segs[i].start) {
                Some(x) => x,
                None => {
                    assert(!(i128::MIN <= said[i as int].end - said[i as int].start <= i128::MAX));
                    assert(talk(said, speaker, i + 1) == sum + (said[i as int].end
                        - said[i as int].start));
                    return None;
                },
            };
            sum = match sum.checked_add(len) {
                Some(x) => x,
                None => {
                    assert(!(i128::MIN <= talk(said, speaker, i + 1) <= i128::MAX));
                    return None;
                },
            };
            assert(sum == talk(said, speaker, i + 1));
            assert(len == said[i as int].end - said[i as int].start);
        }
        assert forall|n: int|
            1 <= n <= i + 1 && said[n - 1].speaker == speaker implies {
            &&& i128::MIN <= #[trigger] talk(said, speaker, n) <= i128::MAX
            &&& i128::MIN <= said[n - 1].end - said[n - 1].start <= i128::MAX
        } by {
            if n == i + 1 {
                assert(said[i as int].speaker == speaker);
            }
        }
    }
    Some(sum)
}

/// What is told of how long a speaker talks: nothing of one who has no segment.
pub open spec fn talk_text(segs: Seq<Said>, speaker: Speaker) -> Seq<char> {
    if exists|i: int| 0 <= i < segs.len() && (#[trigger] segs[i]).speaker == speaker {
        "  "@ + speaker.name() + ": 発話 "@ + ratio_text(
            talk(segs, speaker, segs.len() as int),
            60_000_000_000,
            1,
        ) + " 分\n"@
    } else {
        Seq::empty()
    }
}

fn speaks(segs: &[Seg], speaker: Speaker) -> (r: bool)
    ensures
        r == exists|i: int|
            0 <= i < segs@.len() && (#[trigger] all_said(segs@)[i]).speaker == speaker,
{
    for i in 0..segs.len()
        invariant
            forall|k: int| 0 <= k < i ==> (#[trigger] all_said(segs@)[k]).speaker != speaker,
    {
        assert(all_said(segs@)[i as int] == segs@[i as int]@);
        if segs[i].speaker == speaker {
            return true;
        }
    }
    false
}

/// Tells how long a speaker talks; nothing where the sum leaves 128 bits.
pub fn talk_line(segs: &[Seg], speaker: Speaker) -> (r: Option<String>)
    ensures
        match r {
            Some(s) => {
                &&& talk_fits(all_said(segs@), speaker)
                &&& s@ == talk_text(all_said(segs@), speaker)
            },
            None => !talk_fits(all_said(segs@), speaker),
        },
{
    match talk_time(segs, speaker) {
        Some(sum) => {
            if speaks(segs, speaker) {
                let mut r = "  ".to_string();
                r.append(speaker.label());
                r.append(": 発話 ");
                r.append(minutes_fixed(sum).as_str());
                r.append(" 分\n");
                Some(r)
            } else {
                Some(String::new())
            }
        },
        None => None,
    }
}

/// The lines take up every segment once and in order: the first starts with the first
/// segment, each goes on where the one before ended, and the last ends with the last.
/// Within a line segments join; between lines they do not.
pub proof fn law_lines_take_up_all(segs: Seq<Said>, i: int)
    requires
        0 <= i <= segs.len(),
    ensures
        ({
            let lines = lines_from(segs, i);
            &&& i == segs.len() <==> lines.len() == 0
            &&& lines.len() > 0 ==> lines[0].0 == i && lines.last().1 == segs.len()
            &&& forall|k: int|
                0 <= k < lines.len() ==> (#[trigger] lines[k]).0 < lines[k].1 <= segs.len()
            &&& forall|k: int, l: int|
                0 <= k && l == k + 1 && l < lines.len() ==> (#[trigger] lines[k]).1 == (
                #[trigger] lines[l]).0
            &&& forall|k: int, m: int|
                #![trigger lines[k], segs[m]]
                0 <= k < lines.len() && lines[k].0 < m < lines[k].1 ==> joins(segs[m - 1], segs[m])
            &&& forall|k: int|
                0 <= k < lines.len() - 1 ==> !joins(
                    segs[(#[trigger] lines[k]).1 - 1],
                    segs[lines[k].1],
                )
        }),
    decreases segs.len() - i,
{
    if i < segs.len() {
        lemma_line_end(segs, i);
        let e = line_end(segs, i);
        law_lines_take_up_all(segs, e);
        let lines = lines_from(segs, i);
        let rest = lines_from(segs, e);
        assert(lines == seq![(i, e)] + rest);
        assert(forall|k: int| 1 <= k < lines.len() ==> #[trigger] lines[k] == rest[k - 1]);
        assert forall|k: int, l: int| 0 <= k && l == k + 1 && l < lines.len() implies (
        #[trigger] lines[k]).1 == (#[trigger] lines[l]).0 by {
            if k > 0 {
                assert(rest[k - 1].1 == rest[l - 1].0);
            }
        }
    }
}

/// Whether a text is made of digits and points.
spec fn numeric(s: Seq<char>) -> bool {
    forall|i: int| 0 <= i < s.len() ==> is_digit(#[trigger] s[i]) || s[i] == '.'
}

proof fn lemma_numeric_has_no_marks(s: Seq<char>)
    requires
        numeric(s),
    ensures
        !s.contains(':'),
        !s.contains(','),
{
}

/// Three numbers between colons are read as hours, minutes and seconds.
proof fn lemma_stamp_of_parts(a: Seq<char>, b: Seq<char>, c: Seq<char>)
    requires
        numeric(a),
        numeric(b),
        numeric(c),
        part(a) is Some,
        part(b) is Some,
        part(c) is Some,
    ensures
        stamp(a + seq![':'] + b + seq![':'] + c) == Some(added(part(a)->0, part(b)->0, part(c)->0)),
{
    let s = a + seq![':'] + b + seq![':'] + c;
    lemma_numeric_has_no_marks(a);
    lemma_numeric_has_no_marks(b);
    lemma_numeric_has_no_marks(c);
    lemma_three_pieces(a, b, c, ':');
    let r = replaced(s, ',', '.');
    assert forall|i: int| 0 <= i < s.len() implies r[i] == s[i] by {
        let n = a.len() as int;
        let k = b.len() as int;
        if i < n {
            assert(a.contains(a[i]));
        } else if n < i < n + 1 + k {
            assert(b.contains(b[i - n - 1]));
        } else if i > n + 1 + k {
            assert(c.contains(c[i - n - k - 2]));
        }
    }
    assert(r =~= s);
}

/// What is no number of ordinary size but zero adds nothing.
spec fn ordinary(n: Numeral) -> Numeral {
    if n.mantissa == 0 {
        zero()
    } else {
        n
    }
}

/// Whole hours and minutes and tenths of seconds are added up without rounding.
proof fn lemma_clock_adds_up(h: nat, m: nat, x: nat)
    ensures
        nanoseconds(
            ordinary(Numeral { negative: false, mantissa: h, exponent: 0 }),
            ordinary(Numeral { negative: false, mantissa: m, exponent: 0 }),
            ordinary(Numeral { negative: false, mantissa: x, exponent: -1 }),
        ) == clamp_i64(
            (h * 3_600_000_000_000 + m * 60_000_000_000 + x * 100_000_000) as int,
        ),
{
    lemma_pow10_small();
    assert(pow10(8) == 100_000_000) by {
        reveal_with_fuel(pow10, 9);
    }
    let a = ordinary(Numeral { negative: false, mantissa: h, exponent: 0 });
    let b = ordinary(Numeral { negative: false, mantissa: m, exponent: 0 });
    let c = ordinary(Numeral { negative: false, mantissa: x, exponent: -1 });
    assert(lowest(a, b, c) == -9);
    assert(at_scale(a, -9) == h * 1_000_000_000);
    assert(at_scale(b, -9) == m * 1_000_000_000);
    assert(x * pow10(8) == x * 100_000_000);
    assert(at_scale(c, -9) == x * 100_000_000) by {
        assert(x > 0 ==> (c.exponent + 9) as nat == 8nat);
        assert(0 * pow10(9) == 0);
    }
    let sum = total(a, b, c);
    assert(sum == h * 3_600_000_000_000 + m * 60_000_000_000 + x * 100_000_000);
    assert(magnitude(sum) * 1 == magnitude(sum));
    assert(rounded(sum, 0) == sum);
}

/// The seconds of a clock time, with a zero in front where there is one digit.
proof fn lemma_clock_seconds(s: int)
    requires
        0 <= s < 60_000_000_000,
    ensures
        ({
            let text = padded(ratio_text(s, 1_000_000_000, 1), 4, '0');
            let x = round_half_even((s * 10) as nat, 1_000_000_000);
            &&& numeric(text)
            &&& special(text) is None
            &&& numeral(text) == Some(Numeral { negative: false, mantissa: x, exponent: -1 })
            &&& x <= 600
            &&& -50_000_000 <= x * 100_000_000 - s <= 50_000_000
        }),
{
    let x = round_half_even(magnitude(s) * pow10(1), 1_000_000_000);
    lemma_pow10_small();
    lemma_fixed_digits(x, 1);
    let whole = decimal(x / 10);
    let part = padded(decimal(x % 10), 1, '0');
    let front = padded(whole, 2, '0');
    let text = padded(fixed(x, 1), 4, '0');
    assert(x <= 600);
    lemma_decimal_len(x / 10, 2);
    lemma_leading_zeros(whole, 2);
    assert(text =~= front + seq!['.'] + part);
    lemma_digits_join(front, part);
    lemma_digits_join(whole, part);
    lemma_pointed_reads(false, front, part, 9);
    lemma_pointed_numeral(false, front, part);
    assert(pointed(false, front, part) == text);
    assert(digits_value(front + part) == x);
    assert forall|i: int| 0 <= i < text.len() implies is_digit(#[trigger] text[i]) || text[i]
        == '.' by {
        if i < 2 {
            assert(text[i] == front[i]);
        } else if i > 2 {
            assert(text[i] == part[i - 3]);
        }
    }
}

/// A printed time is read back to the printed tenth of a second: below an hour with the
/// hours put in front.
pub proof fn law_printed_time_is_read_back(t: int)
    requires
        0 <= t <= i64::MAX,
    ensures
        ({
            let text = if t >= 3_600_000_000_000 {
                clock(t)
            } else {
                "0:"@ + clock(t)
            };
            &&& stamp(text) is Some
            &&& -50_000_000 <= stamp(text)->0 - t <= 50_000_000
        }),
{
    let h = t / 3_600_000_000_000;
    let m = t % 3_600_000_000_000 / 60_000_000_000;
    let s = t % 60_000_000_000;
    assert(t == h * 3_600_000_000_000 + m * 60_000_000_000 + s);
    let a = decimal(h as nat);
    let b = padded(decimal(m as nat), 2, '0');
    let c = padded(ratio_text(s, 1_000_000_000, 1), 4, '0');
    lemma_pow10_small();
    lemma_decimal_digits(h as nat);
    lemma_digits_read(a, 9);
    lemma_decimal_digits(m as nat);
    lemma_decimal_len(m as nat, 2);
    lemma_leading_zeros(decimal(m as nat), 2);
    lemma_digits_read(b, 9);
    lemma_clock_seconds(s);
    let x = round_half_even((s * 10) as nat, 1_000_000_000);
    lemma_ordinary_part(a, Numeral { negative: false, mantissa: h as nat, exponent: 0 });
    lemma_ordinary_part(b, Numeral { negative: false, mantissa: m as nat, exponent: 0 });
    lemma_ordinary_part(c, Numeral { negative: false, mantissa: x, exponent: -1 });
    lemma_stamp_of_parts(a, b, c);
    lemma_clock_adds_up(h as nat, m as nat, x);
    reveal_strlit(":");
    reveal_strlit("0:");
    assert(":"@ =~= seq![':']);
    let text = if t >= 3_600_000_000_000 {
        clock(t)
    } else {
        "0:"@ + clock(t)
    };
    if h == 0 {
        assert(a == seq![digit_char(0)]);
        assert("0:"@ =~= a + seq![':']);
    }
    assert(text =~= a + seq![':'] + b + seq![':'] + c);
}

/// Segments stand on one line exactly if they are of one speaker and no more than two seconds
/// lie between them.
pub proof fn law_pause_of_two_seconds(a: Said, b: Said)
    ensures
        joins(a, b) <==> a.speaker == b.speaker && b.start <= a.end + 2_000_000_000,
{
}

/// The room that the texts of segments `i` to `k` take up, with a blank behind each.
pub open spec fn room_before(segs: Seq<Said>, i: int, k: int) -> int
    decreases k - i,
{
    if k <= i {
        0
    } else {
        room_before(segs, i, k - 1) + segs[k - 1].text.len() + 1
    }
}

/// A line says everything that its segments say: the text of each stands in it behind those
/// of the segments before, with one blank between, and there is nothing else.
pub proof fn law_line_says_everything(segs: Seq<Said>, i: int, j: int, k: int)
    requires
        0 <= i <= k < j <= segs.len(),
    ensures
        ({
            let words = said_between(segs, i, j);
            let at = room_before(segs, i, k);
            let n = segs[k].text.len();
            &&& words.len() == room_before(segs, i, j) - 1
            &&& 0 <= at
            &&& at + n <= words.len()
            &&& words.subrange(at, at + n) == segs[k].text
            &&& k > i ==> at > 0 && words[at - 1] == ' '
            &&& k == i ==> at == 0
        }),
    decreases j - i,
{
    let words = said_between(segs, i, j);
    let at = room_before(segs, i, k);
    let n = segs[k].text.len();
    lemma_room_grows(segs, i, k);
    if j == i + 1 {
        assert(words.subrange(at, at + n) =~= segs[k].text);
        reveal_with_fuel(room_before, 2);
    } else {
        let before = said_between(segs, i, j - 1);
        law_line_says_everything(segs, i, j - 1, i);
        if k < j - 1 {
            law_line_says_everything(segs, i, j - 1, k);
            assert(words.subrange(at, at + n) =~= before.subrange(at, at + n));
        } else {
            assert(at == before.len() + 1);
            assert(words.subrange(at, at + n) =~= segs[k].text);
        }
    }
}

proof fn lemma_room_grows(segs: Seq<Said>, i: int, k: int)
    ensures
        room_before(segs, i, k) >= 0,
        k > i ==> room_before(segs, i, k) > 0,
    decreases k - i,
{
    if k > i {
        lemma_room_grows(segs, i, k - 1);
    }
}

/// A line starts with when it starts and who speaks, then come the words; with `debug` a line
/// follows that says where it stands in the file and by how much it was moved.
pub proof fn law_line_is_head_and_words(segs: Seq<Said>, i: int, j: int)
    ensures
        ({
            let head = "["@ + clock(segs[i].start) + "] "@ + segs[i].speaker.name() + ": "@;
            let words = said_between(segs, i, j);
            let plain = line(segs, i, j, false);
            let full = line(segs, i, j, true);
            let note = "        （WAV内 "@ + clock(segs[i].wav_start) + " / 補正 +"@ + ratio_text(
                segs[i].start - segs[i].wav_start,
                1_000_000_000,
                2,
            ) + "秒）\n"@;
            &&& plain.take(head.len() as int) == head
            &&& plain.skip(head.len() as int) == words + "\n"@
            &&& full.take(plain.len() as int) == plain
            &&& full.skip(plain.len() as int) == note
        }),
{
    let head = "["@ + clock(segs[i].start) + "] "@ + segs[i].speaker.name() + ": "@;
    let words = said_between(segs, i, j);
    let plain = line(segs, i, j, false);
    let full = line(segs, i, j, true);
    let note = "        （WAV内 "@ + clock(segs[i].wav_start) + " / 補正 +"@ + ratio_text(
        segs[i].start - segs[i].wav_start,
        1_000_000_000,
        2,
    ) + "秒）\n"@;
    assert(plain.take(head.len() as int) =~= head);
    assert(plain.skip(head.len() as int) =~= words + "\n"@);
    assert(full.take(plain.len() as int) =~= plain);
    assert(full.skip(plain.len() as int) =~= note);
}

/// The room that the first `n` lines take up.
pub open spec fn lines_room(segs: Seq<Said>, lines: Seq<(int, int)>, debug: bool, n: int) -> int
    decreases n,
{
    if n <= 0 {
        0
    } else {
        lines_room(segs, lines, debug, n - 1) + line(
            segs,
            lines[n - 1].0,
            lines[n - 1].1,
            debug,
        ).len()
    }
}

/// Every line stands in the text behind the lines before it, and there is nothing else.
pub proof fn law_text_holds_every_line(
    segs: Seq<Said>,
    lines: Seq<(int, int)>,
    debug: bool,
    k: int,
)
    requires
        0 <= k < lines.len(),
    ensures
        ({
            let text = lines_text(segs, lines, debug);
            let at = lines_room(segs, lines, debug, k);
            let here = line(segs, lines[k].0, lines[k].1, debug);
            &&& text.len() == lines_room(segs, lines, debug, lines.len() as int)
            &&& 0 <= at
            &&& at + here.len() <= text.len()
            &&& text.subrange(at, at + here.len()) == here
        }),
    decreases lines.len(),
{
    let front = lines.drop_last();
    let n = lines.len() as int;
    let text = lines_text(segs, lines, debug);
    let before = lines_text(segs, front, debug);
    let at = lines_room(segs, lines, debug, k);
    let here = line(segs, lines[k].0, lines[k].1, debug);
    lemma_lines_room(segs, lines, front, debug, n - 1);
    lemma_lines_room(segs, lines, front, debug, k);
    if n > 1 {
        law_text_holds_every_line(segs, front, debug, 0);
    } else {
        assert(front =~= Seq::empty());
    }
    assert(before.len() == lines_room(segs, front, debug, n - 1));
    if k < n - 1 {
        law_text_holds_every_line(segs, front, debug, k);
        assert(text.subrange(at, at + here.len()) =~= before.subrange(at, at + here.len()));
    } else {
        assert(text.subrange(at, at + here.len()) =~= here);
    }
}

proof fn lemma_lines_room(
    segs: Seq<Said>,
    a: Seq<(int, int)>,
    b: Seq<(int, int)>,
    debug: bool,
    n: int,
)
    requires
        n <= a.len(),
        n <= b.len(),
        forall|i: int| 0 <= i < n ==> a[i] == b[i],
    ensures
        lines_room(segs, a, debug, n) == lines_room(segs, b, debug, n),
        lines_room(segs, a, debug, n) >= 0,
    decreases n,
{
    if n > 0 {
        lemma_lines_room(segs, a, b, debug, n - 1);
    }
}

/// A transcript is a head, that names the recording and describes its tracks, and all lines.
pub proof fn law_transcript_is_head_and_lines(
    stem: Seq<char>,
    tracks: Seq<Track>,
    segs: Seq<Said>,
    debug: bool,
)
    ensures
        ({
            let text = transcript_text(stem, tracks, segs, debug);
            let body = lines_text(segs, lines_from(segs, 0), debug);
            let head = "会議トランスクリプト\n"@ + "録音: "@ + stem + "\n"@ + tracks_text(tracks)
                + "時刻は録音開始からの実時刻。WAV 内の時刻ではない（ADR-004）。\n\n"@;
            &&& text.take(head.len() as int) == head
            &&& text.skip(head.len() as int) == body
        }),
{
    let text = transcript_text(stem, tracks, segs, debug);
    let body = lines_text(segs, lines_from(segs, 0), debug);
    let head = "会議トランスクリプト\n"@ + "録音: "@ + stem + "\n"@ + tracks_text(tracks)
        + "時刻は録音開始からの実時刻。WAV 内の時刻ではない（ADR-004）。\n\n"@;
    assert(text.take(head.len() as int) =~= head);
    assert(text.skip(head.len() as int) =~= body);
}

/// Each track adds its line to the head: who it is of, the device, the sample rate, the lag in
/// all and the number of gaps.
pub proof fn law_head_describes_every_track(tracks: Seq<Track>, t: Track)
    ensures
        tracks_text(tracks.push(t)) == tracks_text(tracks) + (t.speaker.name() + ": "@ + t.device@
            + " / "@ + decimal(t.rate as nat) + " Hz / 時刻補正 +"@ + ratio_text(
            t.total_lag as int,
            1_000_000_000,
            2,
        ) + "秒（空白 "@ + decimal(t.steps@.len()) + " 箇所）\n"@),
        tracks_text(Seq::empty()) == Seq::<char>::empty(),
{
    assert(tracks.push(t).drop_last() =~= tracks);
}

proof fn lemma_talk_prefix(a: Seq<Said>, b: Seq<Said>, speaker: Speaker, n: int)
    requires
        n <= a.len(),
        n <= b.len(),
        forall|i: int| 0 <= i < n ==> a[i] == b[i],
    ensures
        talk(a, speaker, n) == talk(b, speaker, n),
    decreases n,
{
    if n > 0 {
        lemma_talk_prefix(a, b, speaker, n - 1);
    }
}

/// Talk is added up without exception: one more segment of the speaker adds exactly its
/// length, whatever that is, and one of the other side adds nothing.
pub proof fn law_talk_is_additive(segs: Seq<Said>, s: Said, speaker: Speaker)
    ensures
        talk(segs.push(s), speaker, segs.len() as int + 1) == talk(
            segs,
            speaker,
            segs.len() as int,
        ) + if s.speaker == speaker {
            s.end - s.start
        } else {
            0
        },
        talk(Seq::empty(), speaker, 0) == 0,
{
    lemma_talk_prefix(segs.push(s), segs, speaker, segs.len() as int);
}

/// Segments of one length add up to that length times the number of those that are the
/// speaker's.
pub proof fn law_equal_talk_multiplies(segs: Seq<Said>, speaker: Speaker, d: int)
    requires
        forall|i: int|
            0 <= i < segs.len() && (#[trigger] segs[i]).speaker == speaker ==> segs[i].end
                - segs[i].start == d,
    ensures
        talk(segs, speaker, segs.len() as int) == d * chosen(
            segs.len() as int,
            |i: int| segs[i].speaker == speaker,
        ).len(),
{
    lemma_equal_talk(segs, speaker, d, segs.len() as int);
}

proof fn lemma_equal_talk(segs: Seq<Said>, speaker: Speaker, d: int, n: int)
    requires
        0 <= n <= segs.len(),
        forall|i: int|
            0 <= i < segs.len() && (#[trigger] segs[i]).speaker == speaker ==> segs[i].end
                - segs[i].start == d,
    ensures
        talk(segs, speaker, n) == d * chosen(n, |i: int| segs[i].speaker == speaker).len(),
    decreases n,
{
    let p = |i: int| segs[i].speaker == speaker;
    if n == 0 {
        lemma_chosen_finite(0, p);
        assert(d * 0 == 0);
    } else {
        lemma_equal_talk(segs, speaker, d, n - 1);
        lemma_chosen_step(n, p);
        let c = chosen(n - 1, p).len() as int;
        assert(d * (c + 1) == d * c + d) by (nonlinear_arith);
        assert(segs[n - 1].speaker == speaker ==> segs[n - 1].end - segs[n - 1].start == d);
    }
}

/// How long a speaker talks in a row of segments is how long in its first part and how long in
/// the rest.
pub proof fn law_talk_splits(a: Seq<Said>, b: Seq<Said>, speaker: Speaker)
    ensures
        talk(a + b, speaker, (a + b).len() as int) == talk(a, speaker, a.len() as int) + talk(
            b,
            speaker,
            b.len() as int,
        ),
    decreases b.len(),
{
    if b.len() == 0 {
        assert(a + b =~= a);
    } else {
        let c = b.drop_last();
        law_talk_splits(a, c, speaker);
        assert((a + c).push(b.last()) =~= a + b);
        assert(c.push(b.last()) =~= b);
        law_talk_is_additive(a + c, b.last(), speaker);
        law_talk_is_additive(c, b.last(), speaker);
    }
}

/// What is told of the talk of a speaker is the sum in minutes; of one who says nothing,
/// nothing is told.
pub proof fn law_talk_is_told(segs: Seq<Said>, speaker: Speaker, k: int)
    requires
        0 <= k < segs.len(),
        segs[k].speaker == speaker,
    ensures
        talk_text(segs, speaker) == "  "@ + speaker.name() + ": 発話 "@ + ratio_text(
            talk(segs, speaker, segs.len() as int),
            60_000_000_000,
            1,
        ) + " 分\n"@,
        talk_text(Seq::empty(), speaker).len() == 0,
{
}

/// A clock time below an hour has two digits for the minutes and, up to the tenth, four
/// characters for the seconds; from an hour on the hours stand in front. Nothing before the
/// start is shown.
pub proof fn law_clock_keeps_its_form(t: int)
    ensures
        t < 0 ==> clock(t) == clock(0),
        0 <= t < 3_600_000_000_000 ==> clock(t).len() == 7 && clock(t)[2] == ':' && clock(t)[5]
            == '.',
        t >= 3_600_000_000_000 ==> ({
            let hours = decimal((t / 3_600_000_000_000) as nat);
            let n = hours.len() as int;
            &&& clock(t).len() == n + 8
            &&& clock(t).take(n) == hours
            &&& clock(t)[n] == ':'
            &&& clock(t).skip(n + 1) == clock(t % 3_600_000_000_000)
        }),
{
    reveal_strlit(":");
    if t >= 0 {
        let m = t % 3_600_000_000_000 / 60_000_000_000;
        let s = t % 60_000_000_000;
        lemma_pow10_small();
        lemma_decimal_len(m as nat, 2);
        lemma_decimal_digits(m as nat);
        lemma_leading_zeros(decimal(m as nat), 2);
        lemma_clock_seconds(s);
        lemma_seconds_form(s);
        let r = t % 3_600_000_000_000;
        if t >= 3_600_000_000_000 {
            assert(r / 3_600_000_000_000 == 0);
            assert(r % 3_600_000_000_000 == r);
            assert(r % 60_000_000_000 == s);
            let hours = decimal((t / 3_600_000_000_000) as nat);
            let n = hours.len() as int;
            assert(clock(t).take(n) =~= hours);
            assert(clock(t).skip(n + 1) =~= clock(r));
        }
    }
}

proof fn lemma_seconds_form(s: int)
    requires
        0 <= s < 60_000_000_000,
    ensures
        padded(ratio_text(s, 1_000_000_000, 1), 4, '0').len() == 4,
        padded(ratio_text(s, 1_000_000_000, 1), 4, '0')[2] == '.',
{
    let x = round_half_even(magnitude(s) * pow10(1), 1_000_000_000);
    lemma_pow10_small();
    lemma_fixed_digits(x, 1);
    let whole = decimal(x / 10);
    let part = padded(decimal(x % 10), 1, '0');
    assert(x <= 600);
    lemma_decimal_len(x / 10, 2);
    let front = padded(whole, 2, '0');
    assert(padded(fixed(x, 1), 4, '0') =~= front + seq!['.'] + part);
}

/// Segments are ordered by their start, and at equal starts the other side comes first.
pub proof fn law_order_of_segments(a: Seg, b: Seg)
    ensures
        a.key() < b.key() <==> a.start < b.start || (a.start == b.start && a.speaker
            == Speaker::Other && b.speaker == Speaker::Me),
{
}

/// Everything that is said stands in the transcript: for each segment there is a place in the
/// text at which its words stand.
pub proof fn law_everything_said_is_in_the_transcript(
    stem: Seq<char>,
    tracks: Seq<Track>,
    segs: Seq<Said>,
    debug: bool,
    k: int,
) -> (at: int)
    requires
        0 <= k < segs.len(),
    ensures
        0 <= at,
        at + segs[k].text.len() <= transcript_text(stem, tracks, segs, debug).len(),
        transcript_text(stem, tracks, segs, debug).subrange(at, at + segs[k].text.len())
            == segs[k].text,
{
    let lines = lines_from(segs, 0);
    law_lines_take_up_all(segs, 0);
    let l = lemma_line_of(segs, 0, k);
    let (i, j) = lines[l];
    let n = segs[k].text.len() as int;
    law_line_says_everything(segs, i, j, k);
    let in_words = room_before(segs, i, k);
    law_line_is_head_and_words(segs, i, j);
    let head = "["@ + clock(segs[i].start) + "] "@ + segs[i].speaker.name() + ": "@;
    let words = said_between(segs, i, j);
    let plain = line(segs, i, j, false);
    let here = line(segs, i, j, debug);
    let in_line = head.len() + in_words;
    assert(words.len() + head.len() <= plain.len()) by {
        assert(plain.skip(head.len() as int).len() == words.len() + "\n"@.len());
    }
    assert(plain.subrange(in_line, in_line + n) =~= segs[k].text) by {
        assert forall|x: int| 0 <= x < n implies plain[in_line + x] == segs[k].text[x] by {
            assert(plain[in_line + x] == plain.skip(head.len() as int)[in_words + x]);
            assert(words[in_words + x] == words.subrange(in_words, in_words + n)[x]);
        }
    }
    assert(here.len() >= plain.len());
    assert(here.subrange(in_line, in_line + n) =~= segs[k].text) by {
        assert forall|x: int| 0 <= x < n implies here[in_line + x] == segs[k].text[x] by {
            assert(here[in_line + x] == here.take(plain.len() as int)[in_line + x]);
            assert(here.take(plain.len() as int) == plain);
            assert(plain.subrange(in_line, in_line + n)[x] == plain[in_line + x]);
        }
    }
    law_text_holds_every_line(segs, lines, debug, l);
    let body = lines_text(segs, lines, debug);
    let in_body = lines_room(segs, lines, debug, l);
    let text = transcript_text(stem, tracks, segs, debug);
    law_transcript_is_head_and_lines(stem, tracks, segs, debug);
    let top = "会議トランスクリプト\n"@ + "録音: "@ + stem + "\n"@ + tracks_text(tracks)
        + "時刻は録音開始からの実時刻。WAV 内の時刻ではない（ADR-004）。\n\n"@;
    let at = top.len() + in_body + in_line;
    assert(text.len() == top.len() + body.len());
    assert(text.subrange(at, at + n) =~= segs[k].text) by {
        assert forall|x: int| 0 <= x < n implies text[at + x] == segs[k].text[x] by {
            assert(text[at + x] == text.skip(top.len() as int)[in_body + in_line + x]);
            assert(body[in_body + in_line + x] == body.subrange(
                in_body,
                in_body + here.len(),
            )[in_line + x]);
            assert(here.subrange(in_line, in_line + n)[x] == here[in_line + x]);
        }
    }
    at
}

/// Every segment stands on some line.
proof fn lemma_line_of(segs: Seq<Said>, i: int, k: int) -> (l: int)
    requires
        0 <= i <= k < segs.len(),
    ensures
        0 <= l < lines_from(segs, i).len(),
        0 <= lines_from(segs, i)[l].0 <= k < lines_from(segs, i)[l].1 <= segs.len(),
    decreases segs.len() - i,
{
    lemma_line_end(segs, i);
    let e = line_end(segs, i);
    let lines = lines_from(segs, i);
    assert(lines == seq![(i, e)] + lines_from(segs, e));
    if k < e {
        0
    } else {
        let l = lemma_line_of(segs, e, k);
        assert(lines[l + 1] == lines_from(segs, e)[l]);
        l + 1
    }
}

/// Talk of ordinary length can always be added up.
pub proof fn law_ordinary_talk_fits(segs: Seq<Said>, speaker: Speaker)
    requires
        segs.len() <= 0x7fff_ffff_ffff_ffff,
        forall|i: int|
            0 <= i < segs.len() ==> -0x7fff_ffff_ffff_ffff <= (#[trigger] segs[i]).end
                - segs[i].start <= 0x7fff_ffff_ffff_ffff,
    ensures
        talk_fits(segs, speaker),
{
    assert forall|n: int|
        1 <= n <= segs.len() && segs[n - 1].speaker == speaker implies {
        &&& i128::MIN <= #[trigger] talk(segs, speaker, n) <= i128::MAX
        &&& i128::MIN <= segs[n - 1].end - segs[n - 1].start <= i128::MAX
    } by {
        lemma_talk_bound(segs, speaker, n);
        assert(0x7fff_ffff_ffff_ffff * n <= 0x7fff_ffff_ffff_ffff * 0x7fff_ffff_ffff_ffff)
            by (nonlinear_arith)
            requires
                0 <= n <= 0x7fff_ffff_ffff_ffff,
        ;
    }
}

proof fn lemma_talk_bound(segs: Seq<Said>, speaker: Speaker, n: int)
    requires
        0 <= n <= segs.len(),
        forall|i: int|
            0 <= i < segs.len() ==> -0x7fff_ffff_ffff_ffff <= (#[trigger] segs[i]).end
                - segs[i].start <= 0x7fff_ffff_ffff_ffff,
    ensures
        -0x7fff_ffff_ffff_ffff * n <= talk(segs, speaker, n) <= 0x7fff_ffff_ffff_ffff * n,
    decreases n,
{
    if n > 0 {
        lemma_talk_bound(segs, speaker, n - 1);
        assert(segs[n - 1].end - segs[n - 1].start <= 0x7fff_ffff_ffff_ffff);
    }
}

/// A clock time below an hour is the whole minutes and, behind a colon, the seconds that are
/// left, to the tenth.
pub proof fn law_clock_is_minutes_and_seconds(m: nat, s: nat)
    requires
        m < 60,
        s < 60_000_000_000,
    ensures
        clock((m * 60_000_000_000 + s) as int) == padded(decimal(m), 2, '0') + ":"@ + padded(
            ratio_text(s as int, 1_000_000_000, 1),
            4,
            '0',
        ),
{
    let t = m * 60_000_000_000 + s;
    assert(t / 3_600_000_000_000 == 0);
    assert(t % 3_600_000_000_000 / 60_000_000_000 == m);
    assert(t % 60_000_000_000 == s);
}

} // verus!
