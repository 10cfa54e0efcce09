//! The metadata file that goes with each recorded track.

use crate::decimal::{
    lemma_pow10_small, magnitude, pow10, rated_fixed, ratio_fixed, ratio_text, round_half_even,
    seconds_fixed,
};
use crate::json::{lookup, Doc};
use crate::notation::{
    add_entry, add_item, entries_written, is_fixed, items_written, joined, plain, quote, same,
    same_number, short, truth, unbroken, written,
};
use crate::numeral::{clamp_i64, decimal_units, law_fixed_reads_back};
use crate::recorder::{Gap, Recorder};
use crate::text::{chars_of, copy_range, decimal, decimal_text, string_of};
use crate::track::{device_name, listed_gaps, sample_rate, seconds, Speaker};
use vstd::arithmetic::div_mod::lemma_fundamental_div_mod;
use vstd::prelude::*;

verus! {

/// What a recording has besides its samples. Times are nanoseconds from the start of the
/// recording; the levels are texts with one digit after the point.
pub struct Session {
    pub speaker: Speaker,
    pub device: String,
    pub path: String,
    /// Whether this is the track of what the computer played.
    pub loopback: bool,
    /// The length of buffer that was asked for, zero for the default.
    pub buffer_frames: u32,
    pub wall: u64,
    /// When samples were lost.
    pub underruns: Vec<u64>,
    /// When the first samples came.
    pub first_data: Option<u64>,
    /// The frames that had come in, once a second.
    pub timeline: Vec<(u64, u64)>,
    pub peak_dbfs: String,
    pub rms_dbfs: String,
}

/// A whole number.
pub open spec fn whole(n: nat) -> Doc {
    Doc::Number(Some(n as u64), decimal(n))
}

/// A quotient with three places.
pub open spec fn thousandths(num: int, den: nat) -> Doc {
    Doc::Number(None, ratio_text(num, den, 3))
}

/// A time in seconds.
pub open spec fn instant(nanos: u64) -> Doc {
    thousandths(nanos as int, 1_000_000_000)
}

/// By how much the recording is shorter than the time it took, in units of a nanosecond
/// divided by the sample rate.
pub open spec fn shortfall(r: Recorder, s: Session) -> int {
    s.wall * r.rate - r.frames_written * 1_000_000_000
}

/// A gap: when it was noticed, and how long it is.
pub open spec fn gap_doc(g: Gap, rate: nat) -> Doc {
    Doc::Array(seq![instant(g.at), thousandths(g.len as int, rate * 1_000_000_000)])
}

/// A point in time, and the frames that had come in by then.
pub open spec fn tick_doc(t: (u64, u64)) -> Doc {
    Doc::Array(seq![instant(t.0), whole(t.1 as nat)])
}

pub open spec fn underrun_docs(times: Seq<u64>) -> Seq<Doc> {
    Seq::new(times.len(), |i: int| instant(times[i]))
}

pub open spec fn gap_docs(gaps: Seq<Gap>, rate: nat) -> Seq<Doc> {
    Seq::new(gaps.len(), |i: int| gap_doc(gaps[i], rate))
}

pub open spec fn tick_docs(ticks: Seq<(u64, u64)>) -> Seq<Doc> {
    Seq::new(ticks.len(), |i: int| tick_doc(ticks[i]))
}

/// What the metadata of a track says.
pub open spec fn meta_entries(r: Recorder, s: Session) -> Seq<(Seq<char>, Doc)> {
    let rate = r.rate as nat;
    seq![
        ("label"@, Doc::Str(s.speaker.name())),
        ("device"@, Doc::Str(s.device@)),
        ("wav"@, Doc::Str(s.path@)),
        ("sample_rate"@, whole(rate)),
        ("channels_device"@, whole(r.channels_in as nat)),
        ("channels_written"@, whole(r.channels_out as nat)),
        ("buffer_frames_requested"@, whole(s.buffer_frames as nat)),
        ("downmixed"@, Doc::Bool(r.downmixed)),
        ("downmix_violations"@, whole(r.downmix_violations as nat)),
        ("frames_written"@, whole(r.frames_written as nat)),
        ("captured_sec"@, thousandths(r.frames_written as int, rate)),
        ("wall_elapsed_sec"@, instant(s.wall)),
        ("gap_sec"@, thousandths(shortfall(r, s), rate * 1_000_000_000)),
        (
            "first_data_sec"@,
            match s.first_data {
                Some(t) => instant(t),
                None => Doc::Null,
            },
        ),
        ("peak_dbfs"@, Doc::Number(None, s.peak_dbfs@)),
        ("rms_dbfs"@, Doc::Number(None, s.rms_dbfs@)),
        ("underrun_sec"@, Doc::Array(underrun_docs(s.underruns@))),
        ("drops_sec_len"@, Doc::Array(gap_docs(r.drops@, rate))),
        ("timeline_sec_frames"@, Doc::Array(tick_docs(s.timeline@))),
    ]
}

/// The metadata of a track as a document.
pub open spec fn meta_doc(r: Recorder, s: Session) -> Doc {
    Doc::Object(meta_entries(r, s))
}

/// The shortfall of a recording.
pub fn shortfall_of(r: &Recorder, s: &Session) -> (x: i128)
    ensures
        x == shortfall(*r, *s),
        -0x1_0000_0000_0000_0000_0000_0000 <= x <= 0x1_0000_0000_0000_0000_0000_0000,
{
    proof {
        let a = s.wall * r.rate;
        assert(0 <= a <= 0xffff_ffff_ffff_ffff * 0xffff_ffff) by (nonlinear_arith)
            requires
                a == s.wall * r.rate,
                0 <= s.wall <= 0xffff_ffff_ffff_ffff,
                0 <= r.rate <= 0xffff_ffff,
        ;
    }
    s.wall as i128 * r.rate as i128 - r.frames_written as i128 * 1_000_000_000
}

fn array_text(list: &str, Ghost(docs): Ghost<Seq<Doc>>) -> (r: String)
    requires
        list@ == joined(items_written(docs, docs.len()), ", "@),
    ensures
        r@ == written(Doc::Array(docs)),
{
    let mut r = "[".to_string();
    r.append(list);
    r.append("]");
    r
}

fn pair_text(a: &str, b: &str, Ghost(x): Ghost<Doc>, Ghost(y): Ghost<Doc>) -> (r: String)
    requires
        a@ == written(x),
        b@ == written(y),
    ensures
        r@ == written(Doc::Array(seq![x, y])),
{
    let ghost docs = seq![x, y];
    let mut list = String::new();
    add_item(&mut list, 0, a, Ghost(docs));
    add_item(&mut list, 1, b, Ghost(docs));
    array_text(list.as_str(), Ghost(docs))
}

fn underrun_list(times: &[u64]) -> (r: String)
    ensures
        r@ == written(Doc::Array(underrun_docs(times@))),
{
    let ghost docs = underrun_docs(times@);
    let mut list = String::new();
    for i in 0..times.len()
        invariant
            docs == underrun_docs(times@),
            list@ == joined(items_written(docs, i as nat), ", "@),
    {
        let item = seconds_fixed(times[i] as i128, 3);
        add_item(&mut list, i, item.as_str(), Ghost(docs));
    }
    array_text(list.as_str(), Ghost(docs))
}

fn gap_list(gaps: &[Gap], rate: u32) -> (r: String)
    requires
        rate > 0,
    ensures
        r@ == written(Doc::Array(gap_docs(gaps@, rate as nat))),
{
    let ghost docs = gap_docs(gaps@, rate as nat);
    let mut list = String::new();
    for i in 0..gaps.len()
        invariant
            rate > 0,
            docs == gap_docs(gaps@, rate as nat),
            list@ == joined(items_written(docs, i as nat), ", "@),
    {
        let at = seconds_fixed(gaps[i].at as i128, 3);
        let len = rated_fixed(gaps[i].len, rate, 3);
        let item = pair_text(
            at.as_str(),
            len.as_str(),
            Ghost(instant(gaps@[i as int].at)),
            Ghost(thousandths(gaps@[i as int].len as int, rate as nat * 1_000_000_000)),
        );
        add_item(&mut list, i, item.as_str(), Ghost(docs));
    }
    array_text(list.as_str(), Ghost(docs))
}

fn tick_list(ticks: &[(u64, u64)]) -> (r: String)
    ensures
        r@ == written(Doc::Array(tick_docs(ticks@))),
{
    let ghost docs = tick_docs(ticks@);
    let mut list = String::new();
    for i in 0..ticks.len()
        invariant
            docs == tick_docs(ticks@),
            list@ == joined(items_written(docs, i as nat), ", "@),
    {
        let at = seconds_fixed(ticks[i].0 as i128, 3);
        let frames = decimal_text(ticks[i].1 as u128);
        let item = pair_text(
            at.as_str(),
            frames.as_str(),
            Ghost(instant(ticks@[i as int].0)),
            Ghost(whole(ticks@[i as int].1 as nat)),
        );
        add_item(&mut list, i, item.as_str(), Ghost(docs));
    }
    array_text(list.as_str(), Ghost(docs))
}

fn truth_text(b: bool) -> (r: &'static str)
    ensures
        r@ == truth(b),
{
    if b {
        "true"
    } else {
        "false"
    }
}

/// The length of what was written, in seconds.
pub fn captured_text(r: &Recorder, places: u32) -> (t: String)
    requires
        r.rate > 0,
        1 <= places <= 3,
    ensures
        t@ == ratio_text(r.frames_written as int, r.rate as nat, places as nat),
{
    proof {
        lemma_pow10_small();
        let p = pow10(places as nat);
        assert(1 <= p <= 1000);
        let n = r.frames_written;
        assert(n * p <= 0xffff_ffff_ffff_ffff * 1000) by (nonlinear_arith)
            requires
                0 <= n <= 0xffff_ffff_ffff_ffff,
                1 <= p <= 1000,
        ;
    }
    ratio_fixed(r.frames_written as i128, r.rate as u128, places)
}

/// The whole numbers of the metadata, from the sample rate on.
fn add_format(m: &mut String, r: &Recorder, s: &Session)
    requires
        old(m)@ == joined(entries_written(meta_entries(*r, *s), 3), ",\n  "@),
    ensures
        final(m)@ == joined(entries_written(meta_entries(*r, *s), 10), ",\n  "@),
{
    let ghost e = meta_entries(*r, *s);
    add_entry(m, 3, "sample_rate", decimal_text(r.rate as u128).as_str(), Ghost(e));
    add_entry(m, 4, "channels_device", decimal_text(r.channels_in as u128).as_str(), Ghost(e));
    add_entry(m, 5, "channels_written", decimal_text(r.channels_out as u128).as_str(), Ghost(e));
    let buffer = decimal_text(s.buffer_frames as u128);
    add_entry(m, 6, "buffer_frames_requested", buffer.as_str(), Ghost(e));
    add_entry(m, 7, "downmixed", truth_text(r.downmixed), Ghost(e));
    let violations = decimal_text(r.downmix_violations as u128);
    add_entry(m, 8, "downmix_violations", violations.as_str(), Ghost(e));
    add_entry(m, 9, "frames_written", decimal_text(r.frames_written as u128).as_str(), Ghost(e));
}

/// The lengths and levels of the metadata.
fn add_measures(m: &mut String, r: &Recorder, s: &Session)
    requires
        r.rate > 0,
        old(m)@ == joined(entries_written(meta_entries(*r, *s), 10), ",\n  "@),
    ensures
        final(m)@ == joined(entries_written(meta_entries(*r, *s), 16), ",\n  "@),
{
    let ghost e = meta_entries(*r, *s);
    add_entry(m, 10, "captured_sec", captured_text(r, 3).as_str(), Ghost(e));
    add_entry(m, 11, "wall_elapsed_sec", seconds_fixed(s.wall as i128, 3).as_str(), Ghost(e));
    let gap = rated_fixed(shortfall_of(r, s), r.rate, 3);
    add_entry(m, 12, "gap_sec", gap.as_str(), Ghost(e));
    let first: String = match s.first_data {
        Some(t) => seconds_fixed(t as i128, 3),
        None => "null".to_string(),
    };
    add_entry(m, 13, "first_data_sec", first.as_str(), Ghost(e));
    add_entry(m, 14, "peak_dbfs", s.peak_dbfs.as_str(), Ghost(e));
    add_entry(m, 15, "rms_dbfs", s.rms_dbfs.as_str(), Ghost(e));
}

/// Writes the metadata file of a track.
pub fn meta_json(r: &Recorder, s: &Session) -> (t: String)
    requires
        r.rate > 0,
    ensures
        t@ == written(meta_doc(*r, *s)),
{
    let ghost e = meta_entries(*r, *s);
    let mut m = String::new();
    add_entry(&mut m, 0, "label", quote(s.speaker.label()).as_str(), Ghost(e));
    add_entry(&mut m, 1, "device", quote(s.device.as_str()).as_str(), Ghost(e));
    add_entry(&mut m, 2, "wav", quote(s.path.as_str()).as_str(), Ghost(e));
    add_format(&mut m, r, s);
    add_measures(&mut m, r, s);
    let underruns = underrun_list(s.underruns.as_slice());
    add_entry(&mut m, 16, "underrun_sec", underruns.as_str(), Ghost(e));
    let gaps = gap_list(r.drops.as_slice(), r.rate);
    add_entry(&mut m, 17, "drops_sec_len", gaps.as_str(), Ghost(e));
    let ticks = tick_list(s.timeline.as_slice());
    add_entry(&mut m, 18, "timeline_sec_frames", ticks.as_str(), Ghost(e));
    let mut t = "{\n  ".to_string();
    t.append(m.as_str());
    t.append("\n}\n");
    t
}

/// Where an entry of the metadata stands, by the length and the second letter of its key.
spec fn slot(key: Seq<char>) -> int {
    if key.len() == 5 && key[1] == 'a' {
        0
    } else if key.len() == 6 && key[1] == 'e' {
        1
    } else if key.len() == 3 && key[1] == 'a' {
        2
    } else if key.len() == 11 && key[1] == 'a' {
        3
    } else if key.len() == 15 && key[1] == 'h' {
        4
    } else if key.len() == 16 && key[1] == 'h' {
        5
    } else if key.len() == 23 && key[1] == 'u' {
        6
    } else if key.len() == 9 && key[1] == 'o' {
        7
    } else if key.len() == 18 && key[1] == 'o' {
        8
    } else if key.len() == 14 && key[1] == 'r' {
        9
    } else if key.len() == 12 && key[1] == 'a' {
        10
    } else if key.len() == 16 && key[1] == 'a' {
        11
    } else if key.len() == 7 && key[1] == 'a' {
        12
    } else if key.len() == 14 && key[1] == 'i' {
        13
    } else if key.len() == 9 && key[1] == 'e' {
        14
    } else if key.len() == 8 && key[1] == 'm' {
        15
    } else if key.len() == 12 && key[1] == 'n' {
        16
    } else if key.len() == 13 && key[1] == 'r' {
        17
    } else if key.len() == 19 && key[1] == 'i' {
        18
    } else {
        -1
    }
}

proof fn lemma_keys(r: Recorder, s: Session)
    ensures
        forall|i: int|
            0 <= i < 19 ==> unbroken((#[trigger] meta_entries(r, s)[i]).0) && slot(
                meta_entries(r, s)[i].0,
            ) == i,
{
    let e = meta_entries(r, s);
    reveal_strlit("label");
    reveal_strlit("device");
    reveal_strlit("wav");
    reveal_strlit("sample_rate");
    reveal_strlit("channels_device");
    reveal_strlit("channels_written");
    reveal_strlit("buffer_frames_requested");
    reveal_strlit("downmixed");
    reveal_strlit("downmix_violations");
    reveal_strlit("frames_written");
    reveal_strlit("captured_sec");
    reveal_strlit("wall_elapsed_sec");
    reveal_strlit("gap_sec");
    reveal_strlit("first_data_sec");
    reveal_strlit("peak_dbfs");
    reveal_strlit("rms_dbfs");
    reveal_strlit("underrun_sec");
    reveal_strlit("drops_sec_len");
    reveal_strlit("timeline_sec_frames");
    assert forall|i: int| 0 <= i < 19 implies unbroken((#[trigger] e[i]).0) && slot(e[i].0)
        == i by {
        if i == 0 {
            assert(e[0].0 == "label"@);
        } else if i == 1 {
            assert(e[1].0 == "device"@);
        } else if i == 2 {
            assert(e[2].0 == "wav"@);
        } else if i == 3 {
            assert(e[3].0 == "sample_rate"@);
        } else if i == 4 {
            assert(e[4].0 == "channels_device"@);
        } else if i == 5 {
            assert(e[5].0 == "channels_written"@);
        } else if i == 6 {
            assert(e[6].0 == "buffer_frames_requested"@);
        } else if i == 7 {
            assert(e[7].0 == "downmixed"@);
        } else if i == 8 {
            assert(e[8].0 == "downmix_violations"@);
        } else if i == 9 {
            assert(e[9].0 == "frames_written"@);
        } else if i == 10 {
            assert(e[10].0 == "captured_sec"@);
        } else if i == 11 {
            assert(e[11].0 == "wall_elapsed_sec"@);
        } else if i == 12 {
            assert(e[12].0 == "gap_sec"@);
        } else if i == 13 {
            assert(e[13].0 == "first_data_sec"@);
        } else if i == 14 {
            assert(e[14].0 == "peak_dbfs"@);
        } else if i == 15 {
            assert(e[15].0 == "rms_dbfs"@);
        } else if i == 16 {
            assert(e[16].0 == "underrun_sec"@);
        } else if i == 17 {
            assert(e[17].0 == "drops_sec_len"@);
        } else if i == 18 {
            assert(e[18].0 == "timeline_sec_frames"@);
        }
    }
}

/// Whether the metadata of a track is sure to be read back: the names hold no control
/// characters but line feeds, the levels are numbers, and nothing is longer than some three
/// thousand years.
pub open spec fn readable(r: Recorder, s: Session) -> bool {
    &&& r.rate > 0
    &&& unbroken(s.device@)
    &&& unbroken(s.path@)
    &&& short(s.peak_dbfs@)
    &&& short(s.rms_dbfs@)
    &&& r.frames_written <= r.rate * 100_000_000_000
    &&& forall|i: int|
        0 <= i < r.drops@.len() ==> magnitude((#[trigger] r.drops@[i]).len as int) <= r.rate
            * 100_000_000_000_000_000_000
}

/// A quotient in thousandths, halves to even, as a number of nanoseconds that is held at the
/// ends of the 64-bit range.
pub open spec fn to_millis(num: int, den: nat) -> i64 {
    let size = round_half_even(magnitude(num) * 1000, den) * 1_000_000;
    clamp_i64(
        if num < 0 {
            -size
        } else {
            size as int
        },
    ) as i64
}

/// The gaps of a recording in seconds, rounded to the millisecond: what the metadata keeps
/// of them.
pub open spec fn kept_gaps(gaps: Seq<Gap>, rate: nat) -> Seq<(i64, i64)> {
    Seq::new(
        gaps.len(),
        |i: int|
            (
                to_millis(gaps[i].at as int, 1_000_000_000),
                to_millis(gaps[i].len as int, rate * 1_000_000_000),
            ),
    )
}

proof fn lemma_thousandths_short(num: int, den: nat)
    requires
        den > 0,
        magnitude(num) <= den * 100_000_000_000,
    ensures
        short(ratio_text(num, den, 3)),
{
    lemma_pow10_small();
    let a = magnitude(num) * 1000;
    let scaled = round_half_even(a, den);
    lemma_fundamental_div_mod(a as int, den as int);
    let q = a / den;
    assert(q <= 100_000_000_000_000) by (nonlinear_arith)
        requires
            a == den * q + a % den,
            0 <= a % den,
            a <= den * 100_000_000_000_000,
            den > 0,
    ;
    assert(pow10(15) == 1_000_000_000_000_000) by {
        reveal_with_fuel(pow10, 16);
    }
    assert(is_fixed(ratio_text(num, den, 3), num < 0, scaled, 3));
}

proof fn lemma_instant_short(t: u64)
    ensures
        short(ratio_text(t as int, 1_000_000_000, 3)),
{
    lemma_thousandths_short(t as int, 1_000_000_000);
}

proof fn lemma_pair_plain(a: Doc, b: Doc)
    requires
        plain(a, 97),
        plain(b, 97),
    ensures
        plain(Doc::Array(seq![a, b]), 98),
{
}

/// The metadata of a readable recording is plain JSON.
pub proof fn law_metadata_is_plain(r: Recorder, s: Session)
    requires
        readable(r, s),
    ensures
        plain(meta_doc(r, s), 100),
{
    let e = meta_entries(r, s);
    let rate = r.rate as nat;
    lemma_keys(r, s);
    assert forall|i: int, j: int| 0 <= i < j < e.len() implies (#[trigger] e[i]).0 != (
    #[trigger] e[j]).0 by {
        assert(slot(e[i].0) == i && slot(e[j].0) == j);
    }
    reveal_strlit("自分");
    reveal_strlit("相手");
    lemma_thousandths_short(r.frames_written as int, rate);
    lemma_instant_short(s.wall);
    assert(magnitude(shortfall(r, s)) <= rate * 1_000_000_000 * 100_000_000_000)
        by (nonlinear_arith)
        requires
            shortfall(r, s) == s.wall * r.rate - r.frames_written * 1_000_000_000,
            magnitude(shortfall(r, s)) == shortfall(r, s) || magnitude(shortfall(r, s))
                == -shortfall(r, s),
            0 <= s.wall <= 0xffff_ffff_ffff_ffff,
            0 <= r.frames_written <= r.rate * 100_000_000_000,
            rate == r.rate,
            r.rate > 0,
    ;
    lemma_thousandths_short(shortfall(r, s), rate * 1_000_000_000);
    if s.first_data is Some {
        lemma_instant_short(s.first_data->0);
    }
    let underruns = underrun_docs(s.underruns@);
    assert forall|i: int| 0 <= i < underruns.len() implies plain(#[trigger] underruns[i], 98) by {
        lemma_instant_short(s.underruns@[i]);
    }
    let gaps = gap_docs(r.drops@, rate);
    assert forall|i: int| 0 <= i < gaps.len() implies plain(#[trigger] gaps[i], 98) by {
        let g = r.drops@[i];
        lemma_instant_short(g.at);
        lemma_thousandths_short(g.len as int, rate * 1_000_000_000);
        lemma_pair_plain(instant(g.at), thousandths(g.len as int, rate * 1_000_000_000));
    }
    let ticks = tick_docs(s.timeline@);
    assert forall|i: int| 0 <= i < ticks.len() implies plain(#[trigger] ticks[i], 98) by {
        let t = s.timeline@[i];
        lemma_instant_short(t.0);
        lemma_pair_plain(instant(t.0), whole(t.1 as nat));
    }
    assert(plain(Doc::Array(underruns), 99));
    assert(plain(Doc::Array(gaps), 99));
    assert(plain(Doc::Array(ticks), 99));
    assert forall|i: int| 0 <= i < e.len() implies unbroken((#[trigger] e[i]).0) && plain(
        e[i].1,
        99,
    ) by {
        assert(i < 19);
    }
}

proof fn lemma_thousandths_read(num: int, den: nat, d: Doc)
    requires
        same(thousandths(num, den), d),
    ensures
        seconds(d) == to_millis(num, den),
{
    lemma_pow10_small();
    let scaled = round_half_even(magnitude(num) * 1000, den);
    law_fixed_reads_back(num < 0, scaled, 3, 9);
    assert(pow10(6) == 1_000_000) by {
        reveal_with_fuel(pow10, 7);
    }
    let t = ratio_text(num, den, 3);
    let u = d->Number_1;
    assert(decimal_units(t, 9) == decimal_units(u, 9));
}

/// Whoever reads the metadata as the document that was written finds the sample rate, the
/// device, and the gaps to the millisecond.
pub proof fn law_metadata_is_read_back(r: Recorder, s: Session, d: Doc)
    requires
        same(meta_doc(r, s), d),
    ensures
        sample_rate(d) == Some(r.rate as u64),
        device_name(d) == s.device@,
        listed_gaps(d) == kept_gaps(r.drops@, r.rate as nat),
{
    let e = meta_entries(r, s);
    let rate = r.rate as nat;
    let others = d->Object_0;
    assert(same(e[1].1, lookup(others, e[1].0)));
    assert(same(e[3].1, lookup(others, e[3].0)));
    assert(same(e[17].1, lookup(others, e[17].0)));
    let gaps = gap_docs(r.drops@, rate);
    let found = d.member("drops_sec_len"@);
    assert(found is Array);
    let items = found->Array_0;
    assert forall|i: int| 0 <= i < items.len() implies seconds((#[trigger] items[i]).item(0))
        == to_millis(r.drops@[i].at as int, 1_000_000_000) && seconds(items[i].item(1))
        == to_millis(r.drops@[i].len as int, rate * 1_000_000_000) by {
        let g = r.drops@[i];
        assert(same(gaps[i], items[i]));
        let pair = seq![instant(g.at), thousandths(g.len as int, rate * 1_000_000_000)];
        assert(gaps[i] == Doc::Array(pair));
        assert(same(pair[0], items[i].item(0)));
        assert(same(pair[1], items[i].item(1)));
        lemma_thousandths_read(g.at as int, 1_000_000_000, items[i].item(0));
        lemma_thousandths_read(g.len as int, rate * 1_000_000_000, items[i].item(1));
    }
    assert(listed_gaps(d) =~= kept_gaps(r.drops@, rate));
}

/// Where the metadata of the track at `path` goes.
pub open spec fn meta_place(path: Seq<char>) -> Seq<char> {
    let n = path.len() - 4;
    if n >= 0 && path.skip(n) == ".wav"@ {
        path.take(n) + "-meta.json"@
    } else {
        path + "-meta.json"@
    }
}

/// Where the metadata of the track at `path` goes.
pub fn meta_path(path: &str) -> (r: String)
    ensures
        r@ == meta_place(path@),
{
    let chars = chars_of(path);
    let n: usize = chars.len();
    proof {
        reveal_strlit(".wav");
    }
    if n >= 4 && chars[n - 4] == '.' && chars[n - 3] == 'w' && chars[n - 2] == 'a' && chars[n - 1]
        == 'v' {
        assert(path@.skip(n - 4) =~= ".wav"@);
        let mut r = string_of(copy_range(chars.as_slice(), 0, n - 4).as_slice());
        assert(path@.take(n - 4) =~= path@.subrange(0, n - 4));
        r.append("-meta.json");
        r
    } else {
        proof {
            if n >= 4 && path@.skip(n - 4) == ".wav"@ {
                let tail = path@.skip(n - 4);
                assert(tail[0] == chars@[n - 4] && tail[1] == chars@[n - 3]);
                assert(tail[2] == chars@[n - 2] && tail[3] == chars@[n - 1]);
            }
        }
        let mut r = path.to_string();
        r.append("-meta.json");
        r
    }
}

/// Whoever reads the metadata as the document that was written finds everything in it: names
/// and counts as they are, and times and lengths to the millisecond.
pub proof fn law_metadata_tells_everything(r: Recorder, s: Session, d: Doc)
    requires
        same(meta_doc(r, s), d),
    ensures
        d.member("label"@) == Doc::Str(s.speaker.name()),
        d.member("device"@) == Doc::Str(s.device@),
        d.member("wav"@) == Doc::Str(s.path@),
        d.member("sample_rate"@) == Doc::Number(Some(r.rate as u64), decimal(r.rate as nat)),
        d.member("channels_device"@) == Doc::Number(
            Some(r.channels_in as u64),
            decimal(r.channels_in as nat),
        ),
        d.member("channels_written"@) == Doc::Number(
            Some(r.channels_out as u64),
            decimal(r.channels_out as nat),
        ),
        d.member("buffer_frames_requested"@) == Doc::Number(
            Some(s.buffer_frames as u64),
            decimal(s.buffer_frames as nat),
        ),
        d.member("downmixed"@) == Doc::Bool(r.downmixed),
        d.member("downmix_violations"@) == Doc::Number(
            Some(r.downmix_violations),
            decimal(r.downmix_violations as nat),
        ),
        d.member("frames_written"@) == Doc::Number(
            Some(r.frames_written),
            decimal(r.frames_written as nat),
        ),
        seconds(d.member("captured_sec"@)) == to_millis(r.frames_written as int, r.rate as nat),
        seconds(d.member("wall_elapsed_sec"@)) == to_millis(s.wall as int, 1_000_000_000),
        seconds(d.member("gap_sec"@)) == to_millis(
            s.wall * r.rate - r.frames_written * 1_000_000_000,
            r.rate as nat * 1_000_000_000,
        ),
        s.first_data is None ==> d.member("first_data_sec"@) == Doc::Null,
        s.first_data matches Some(t) ==> seconds(d.member("first_data_sec"@)) == to_millis(
            t as int,
            1_000_000_000,
        ),
        d.member("peak_dbfs"@) matches Doc::Number(_, u) && same_number(s.peak_dbfs@, u),
        d.member("rms_dbfs"@) matches Doc::Number(_, u) && same_number(s.rms_dbfs@, u),
{
    let e = meta_entries(r, s);
    let others = d->Object_0;
    assert(same(e[0].1, lookup(others, e[0].0)));
    assert(same(e[1].1, lookup(others, e[1].0)));
    assert(same(e[2].1, lookup(others, e[2].0)));
    assert(same(e[3].1, lookup(others, e[3].0)));
    assert(same(e[4].1, lookup(others, e[4].0)));
    assert(same(e[5].1, lookup(others, e[5].0)));
    assert(same(e[6].1, lookup(others, e[6].0)));
    assert(same(e[7].1, lookup(others, e[7].0)));
    assert(same(e[8].1, lookup(others, e[8].0)));
    assert(same(e[9].1, lookup(others, e[9].0)));
    assert(same(e[10].1, lookup(others, e[10].0)));
    assert(same(e[11].1, lookup(others, e[11].0)));
    assert(same(e[12].1, lookup(others, e[12].0)));
    assert(same(e[13].1, lookup(others, e[13].0)));
    assert(same(e[14].1, lookup(others, e[14].0)));
    assert(same(e[15].1, lookup(others, e[15].0)));
    lemma_thousandths_read(
        r.frames_written as int,
        r.rate as nat,
        d.member("captured_sec"@),
    );
    lemma_thousandths_read(s.wall as int, 1_000_000_000, d.member("wall_elapsed_sec"@));
    lemma_thousandths_read(
        shortfall(r, s),
        r.rate as nat * 1_000_000_000,
        d.member("gap_sec"@),
    );
    if let Some(t) = s.first_data {
        lemma_thousandths_read(t as int, 1_000_000_000, d.member("first_data_sec"@));
    }
}

/// The lists of the metadata hold every loss, every gap and every second, in order.
pub proof fn law_metadata_lists_everything(r: Recorder, s: Session, d: Doc, i: int)
    requires
        same(meta_doc(r, s), d),
    ensures
        d.member("underrun_sec"@) matches Doc::Array(u) && u.len() == s.underruns@.len() && (0 <= i
            < u.len() ==> seconds(u[i]) == to_millis(s.underruns@[i] as int, 1_000_000_000)),
        d.member("drops_sec_len"@) matches Doc::Array(g) && g.len() == r.drops@.len() && (0 <= i
            < g.len() ==> seconds(g[i].item(0)) == to_millis(r.drops@[i].at as int, 1_000_000_000)
            && seconds(g[i].item(1)) == to_millis(
            r.drops@[i].len as int,
            r.rate as nat * 1_000_000_000,
        )),
        d.member("timeline_sec_frames"@) matches Doc::Array(t) && t.len() == s.timeline@.len() && (
        0 <= i < t.len() ==> seconds(t[i].item(0)) == to_millis(
            s.timeline@[i].0 as int,
            1_000_000_000,
        ) && t[i].item(1) == Doc::Number(
            Some(s.timeline@[i].1),
            decimal(s.timeline@[i].1 as nat),
        )),
{
    let e = meta_entries(r, s);
    let others = d->Object_0;
    let rate = r.rate as nat;
    assert(same(e[16].1, lookup(others, e[16].0)));
    assert(same(e[17].1, lookup(others, e[17].0)));
    assert(same(e[18].1, lookup(others, e[18].0)));
    let under = underrun_docs(s.underruns@);
    let gaps = gap_docs(r.drops@, rate);
    let ticks = tick_docs(s.timeline@);
    let u = d.member("underrun_sec"@)->Array_0;
    let g = d.member("drops_sec_len"@)->Array_0;
    let t = d.member("timeline_sec_frames"@)->Array_0;
    if 0 <= i < u.len() {
        assert(same(under[i], u[i]));
        lemma_thousandths_read(s.underruns@[i] as int, 1_000_000_000, u[i]);
    }
    if 0 <= i < g.len() {
        let x = r.drops@[i];
        assert(same(gaps[i], g[i]));
        let pair = seq![instant(x.at), thousandths(x.len as int, rate * 1_000_000_000)];
        assert(gaps[i] == Doc::Array(pair));
        assert(same(pair[0], g[i].item(0)));
        assert(same(pair[1], g[i].item(1)));
        lemma_thousandths_read(x.at as int, 1_000_000_000, g[i].item(0));
        lemma_thousandths_read(x.len as int, rate * 1_000_000_000, g[i].item(1));
    }
    if 0 <= i < t.len() {
        let x = s.timeline@[i];
        assert(same(ticks[i], t[i]));
        let pair = seq![instant(x.0), whole(x.1 as nat)];
        assert(ticks[i] == Doc::Array(pair));
        assert(same(pair[0], t[i].item(0)));
        assert(same(pair[1], t[i].item(1)));
        lemma_thousandths_read(x.0 as int, 1_000_000_000, t[i].item(0));
    }
}

/// The metadata goes beside the sound: the ending is replaced where it is that of a WAV file,
/// and added to where it is not.
pub proof fn law_metadata_goes_beside_the_sound(path: Seq<char>)
    ensures
        meta_place(path + ".wav"@) == path + "-meta.json"@,
        path.len() < 4 || path.skip(path.len() - 4) != ".wav"@ ==> meta_place(path) == path
            + "-meta.json"@,
{
    reveal_strlit(".wav");
    let long = path + ".wav"@;
    assert(long.skip(long.len() - 4) =~= ".wav"@);
    assert(long.take(long.len() - 4) =~= path);
}

/// The metadata of an ordinary recording can be read back: names without control characters,
/// levels that are numbers with a point, and lengths below three thousand years.
pub proof fn law_ordinary_metadata_is_readable(r: Recorder, s: Session)
    requires
        r.rate > 0,
        forall|i: int| 0 <= i < s.device@.len() ==> (#[trigger] s.device@[i]) >= ' ',
        forall|i: int| 0 <= i < s.path@.len() ==> (#[trigger] s.path@[i]) >= ' ',
        short(s.peak_dbfs@),
        short(s.rms_dbfs@),
        r.frames_written <= r.rate * 100_000_000_000,
        forall|i: int|
            0 <= i < r.drops@.len() ==> 0 <= (#[trigger] r.drops@[i]).len <= r.rate
                * 100_000_000_000_000_000_000,
    ensures
        readable(r, s),
{
}

} // verus!
