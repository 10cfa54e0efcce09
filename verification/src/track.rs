//! One recorded track: what its metadata says, and the segments that speech recognition
//! found in it, put back to real time.

use crate::counting::{chosen, lemma_same_choice};
use crate::decimal::pow10;
use crate::json::{complaint, parsed, Doc, Json};
use crate::meta::{
    kept_gaps, law_metadata_is_plain, law_metadata_is_read_back, meta_doc, readable, Session,
};
use crate::notation::{same, written};
use crate::numeral::{
    decimal_units, lemma_decimal_digits, lemma_digits_read, part, read_part, read_units,
    special_units, Part, Reading, Special,
};
use crate::order::{rising, stably_sorted};
use crate::recorder::Recorder;
use crate::sum::{add_up, nanoseconds};
use crate::text::{
    decimal, law_pieces_are_counted_by_marks, lemma_three_pieces, pieces, replace, replaced, split, trim, trimmed,
};
use crate::timeline::{
    fitting, lag_after, law_lag_is_that_of_the_gaps_passed, orderly, place, placed, real_time,
    steps_from_drops, to_real,
};
use vstd::prelude::*;

verus! {

/// Who is heard on a track.
#[derive(Clone, Copy, Debug, PartialEq, Eq, Structural)]
pub enum Speaker {
    /// The person recording: the microphone.
    Me,
    /// Everyone else: what the computer played.
    Other,
}

impl Speaker {
    /// The name that stands in front of what was said.
    pub open spec fn name(self) -> Seq<char> {
        match self {
            Speaker::Me => "自分"@,
            Speaker::Other => "相手"@,
        }
    }

    /// The name that stands in front of what was said.
    pub fn label(self) -> (r: &'static str)
        ensures
            r@ == self.name(),
    {
        match self {
            Speaker::Me => "自分",
            Speaker::Other => "相手",
        }
    }
}

/// A track as its metadata describes it, with the steps of its lag.
pub struct Track {
    pub speaker: Speaker,
    pub device: String,
    pub rate: u64,
    pub steps: Vec<(i128, i128)>,
    pub total_lag: i128,
}

/// Something said: from when to when in real time, and where it stands in the file. All
/// times are nanoseconds.
pub struct Seg {
    pub start: i128,
    pub end: i128,
    pub speaker: Speaker,
    pub text: String,
    pub wav_start: i64,
}

/// Something said, over numbers and sequences.
pub struct Said {
    pub start: int,
    pub end: int,
    pub speaker: Speaker,
    pub text: Seq<char>,
    pub wav_start: int,
}

impl View for Seg {
    type V = Said;

    open spec fn view(&self) -> Said {
        Said {
            start: self.start as int,
            end: self.end as int,
            speaker: self.speaker,
            text: self.text@,
            wav_start: self.wav_start as int,
        }
    }
}

/// Several segments, over numbers and sequences.
pub open spec fn all_said(segs: Seq<Seg>) -> Seq<Said> {
    Seq::new(segs.len(), |i: int| segs[i]@)
}

pub enum MetaError {
    /// The metadata is not JSON; what the reader says about it.
    NotJson(String),
    /// There is no sample rate.
    NoSampleRate,
}

pub enum SegmentError {
    /// The transcription is not JSON; what the reader says about it.
    NotJson(String),
    /// There is no list of segments.
    NoTranscription,
    /// A segment has neither offsets nor time stamps.
    NoTimes,
}

/// A number in units of `10^-places`; nothing where it is no number.
pub open spec fn number_units(d: Doc, places: nat) -> Option<int> {
    match d {
        Doc::Number(_, t) => decimal_units(t, places),
        _ => None,
    }
}

/// A string; nothing where it is none.
pub open spec fn string(d: Doc) -> Option<Seq<char>> {
    match d {
        Doc::Str(s) => Some(s),
        _ => None,
    }
}

/// A number of seconds in nanoseconds; zero where it is no number.
pub open spec fn seconds(d: Doc) -> i64 {
    match number_units(d, 9) {
        Some(x) => x as i64,
        None => 0,
    }
}

/// The gaps that a metadata document lists.
pub open spec fn listed_gaps(d: Doc) -> Seq<(i64, i64)> {
    match d.member("drops_sec_len"@) {
        Doc::Array(items) => Seq::new(
            items.len(),
            |i: int| (seconds(items[i].item(0)), seconds(items[i].item(1))),
        ),
        _ => Seq::empty(),
    }
}

/// The sample rate that a metadata document gives.
pub open spec fn sample_rate(d: Doc) -> Option<u64> {
    match d.member("sample_rate"@) {
        Doc::Number(n, _) => n,
        _ => None,
    }
}

/// The device that a metadata document names.
pub open spec fn device_name(d: Doc) -> Seq<char> {
    match string(d.member("device"@)) {
        Some(s) => s,
        None => "(不明)"@,
    }
}

fn units_of(j: Option<&Json>, places: u32) -> (r: Option<i64>)
    ensures
        j matches Some(x) ==> match r {
            Some(n) => number_units(x.doc(), places as nat) == Some(n as int),
            None => number_units(x.doc(), places as nat) is None,
        },
        j is None ==> r is None,
{
    match j {
        Some(Json::Number(_, t)) => read_units(t.as_str(), places),
        _ => None,
    }
}

fn seconds_of(j: Option<&Json>) -> (r: i64)
    ensures
        j matches Some(x) ==> r == seconds(x.doc()),
        j is None ==> r == 0,
{
    match units_of(j, 9) {
        Some(x) => x,
        None => 0,
    }
}

fn string_of_doc<'a>(j: Option<&'a Json>) -> (r: Option<&'a str>)
    ensures
        j matches Some(x) ==> match r {
            Some(s) => string(x.doc()) == Some(s@),
            None => string(x.doc()) is None,
        },
        j is None ==> r is None,
{
    match j {
        Some(Json::Str(s)) => Some(s.as_str()),
        _ => None,
    }
}

fn gaps_of(doc: &Json) -> (r: Vec<(i64, i64)>)
    ensures
        r@ == listed_gaps(doc.doc()),
{
    let mut r: Vec<(i64, i64)> = Vec::new();
    match doc.member("drops_sec_len") {
        Some(Json::Array(items)) => {
            let ghost docs = Json::Array(*items).doc()->Array_0;
            assert(doc.doc().member("drops_sec_len"@) == Doc::Array(docs));
            for i in 0..items.len()
                invariant
                    doc.doc().member("drops_sec_len"@) == Doc::Array(docs),
                    docs == Json::Array(*items).doc()->Array_0,
                    docs.len() == items@.len(),
                    r@ == listed_gaps(doc.doc()).take(i as int),
            {
                let pair = &items[i];
                assert(docs[i as int] == pair.doc());
                let at = seconds_of(pair.item(0));
                let len = seconds_of(pair.item(1));
                r.push((at, len));
                assert(r@ == listed_gaps(doc.doc()).take(i + 1));
            }
            assert(r@ == listed_gaps(doc.doc()));
        },
        _ => {
            assert(r@ == listed_gaps(doc.doc()));
        },
    }
    r
}

impl Track {
    /// Whether this is the track that a metadata document describes.
    pub open spec fn described_by(self, d: Doc) -> bool {
        &&& sample_rate(d) == Some(self.rate)
        &&& self.device@ == device_name(d)
        &&& stably_sorted(placed(listed_gaps(d)), self.steps@)
        &&& self.total_lag == lag_after(listed_gaps(d), listed_gaps(d).len() as int)
    }

    /// What every track keeps: its steps are in order, and every time can be moved by
    /// them.
    pub open spec fn wf(self) -> bool {
        rising(self.steps@) && fitting(self.steps@)
    }

    /// The track that a metadata document describes.
    pub fn from_document(doc: &Json, speaker: Speaker) -> (r: Result<Track, MetaError>)
        ensures
            match r {
                Ok(t) => t.described_by(doc.doc()) && t.speaker == speaker && t.wf(),
                Err(MetaError::NoSampleRate) => sample_rate(doc.doc()) is None,
                Err(_) => false,
            },
    {
        let rate: u64 = match doc.member("sample_rate") {
            Some(Json::Number(Some(n), _)) => *n,
            _ => {
                return Err(MetaError::NoSampleRate);
            },
        };
        let device: String = match string_of_doc(doc.member("device")) {
            Some(s) => s.to_string(),
            None => "(不明)".to_string(),
        };
        let drops = gaps_of(doc);
        let (steps, total_lag) = steps_from_drops(drops.as_slice());
        Ok(Track { speaker, device, rate, steps, total_lag })
    }

    /// Whether this is the track that was recorded, with its gaps to the millisecond.
    pub open spec fn recalls(self, rec: Recorder, s: Session) -> bool {
        let gaps = kept_gaps(rec.drops@, rec.rate as nat);
        &&& self.rate == rec.rate
        &&& self.device@ == s.device@
        &&& stably_sorted(placed(gaps), self.steps@)
        &&& self.total_lag == lag_after(gaps, gaps.len() as int)
    }

    /// The track that a metadata file describes. What a recording has written is read back.
    pub fn from_meta(text: &str, speaker: Speaker) -> (r: Result<Track, MetaError>)
        ensures
            match r {
                Ok(t) => {
                    &&& parsed(text@) is Some
                    &&& t.described_by(parsed(text@)->0)
                    &&& t.speaker == speaker && t.wf()
                },
                Err(MetaError::NotJson(m)) => parsed(text@) is None && m@ == complaint(text@),
                Err(MetaError::NoSampleRate) => parsed(text@) is Some && sample_rate(
                    parsed(text@)->0,
                ) is None,
            },
            forall|rec: Recorder, s: Session|
                text@ == written(#[trigger] meta_doc(rec, s)) && readable(rec, s) ==> {
                    &&& r matches Ok(t)
                    &&& t.recalls(rec, s)
                },
    {
        let read = Json::parse(text);
        proof {
            assert forall|rec: Recorder, s: Session|
                text@ == written(#[trigger] meta_doc(rec, s)) && readable(rec, s) implies {
                &&& read matches Ok(doc)
                &&& same(meta_doc(rec, s), doc.doc())
                &&& sample_rate(doc.doc()) == Some(rec.rate as u64)
                &&& device_name(doc.doc()) == s.device@
                &&& listed_gaps(doc.doc()) == kept_gaps(rec.drops@, rec.rate as nat)
            } by {
                law_metadata_is_plain(rec, s);
                law_metadata_is_read_back(rec, s, read->Ok_0.doc());
            }
        }
        match read {
            Ok(doc) => Track::from_document(&doc, speaker),
            Err(e) => Err(MetaError::NotJson(e.message)),
        }
    }

    /// The real time of a time in the file.
    pub fn to_real(&self, t_wav: i64) -> (r: i128)
        requires
            self.wf(),
        ensures
            r == real_time(self.steps@, t_wav as int),
    {
        to_real(self.steps.as_slice(), t_wav)
    }
}

/// The special value that a sum has by one of its parts: an infinity, or what is not a
/// number where a part is none or where infinities of both signs meet.
pub open spec fn joint(a: Option<Special>, b: Option<Special>) -> Option<Special> {
    match (a, b) {
        (None, x) => x,
        (x, None) => x,
        (Some(x), Some(y)) => if x == y {
            Some(x)
        } else {
            Some(Special::NotANumber)
        },
    }
}

/// The special value of a part of a sum, if it has one.
pub open spec fn special_of(p: Part) -> Option<Special> {
    match p {
        Part::Special(x) => Some(x),
        Part::Finite(_) => None,
    }
}

/// Hours, minutes and seconds in nanoseconds. An infinity is held at the end of the 64-bit
/// range, and what is not a number counts as zero.
pub open spec fn added(h: Part, m: Part, s: Part) -> int {
    match joint(joint(special_of(h), special_of(m)), special_of(s)) {
        Some(x) => special_units(x),
        None => nanoseconds(h->Finite_0, m->Finite_0, s->Finite_0),
    }
}

/// The time that a stamp such as `00:01:07,860` or `00:01:07.860` stands for, in
/// nanoseconds: three numbers between colons, added up as hours, minutes and seconds. There
/// is no time where a part is anything else. The exact sum is rounded to the nanosecond and
/// held at the ends of the 64-bit range, some 292 years.
pub open spec fn stamp(s: Seq<char>) -> Option<int> {
    let parts = pieces(replaced(s, ',', '.'), ':');
    if parts.len() == 3 {
        match (part(parts[0]), part(parts[1]), part(parts[2])) {
            (Some(h), Some(m), Some(sec)) => Some(added(h, m, sec)),
            _ => None,
        }
    } else {
        None
    }
}

fn joint_of(a: Option<Special>, b: Option<Special>) -> (r: Option<Special>)
    ensures
        r == joint(a, b),
{
    match (a, b) {
        (None, x) => x,
        (x, None) => x,
        (Some(x), Some(y)) => if x == y {
            Some(x)
        } else {
            Some(Special::NotANumber)
        },
    }
}

fn special_in(r: &Reading) -> (x: Option<Special>)
    ensures
        x == special_of(r.part()),
{
    match r {
        Reading::Special(x) => Some(*x),
        Reading::Finite(_) => None,
    }
}

fn units_of_special(x: Special) -> (r: i64)
    ensures
        r == special_units(x),
{
    match x {
        Special::Infinity { negative } => if negative {
            i64::MIN
        } else {
            i64::MAX
        },
        Special::NotANumber => 0,
    }
}

/// Reads a time stamp.
pub fn parse_timestamp(s: &str) -> (r: Option<i64>)
    ensures
        match r {
            Some(t) => stamp(s@) == Some(t as int),
            None => stamp(s@) is None,
        },
{
    let dotted = replace(s, ',', '.');
    let parts = split(dotted.as_str(), ':');
    if parts.len() != 3 {
        return None;
    }
    let h = read_part(parts[0].as_str());
    let m = read_part(parts[1].as_str());
    let sec = read_part(parts[2].as_str());
    match (h, m, sec) {
        (Some(h), Some(m), Some(sec)) => {
            let hm = joint_of(special_in(&h), special_in(&m));
            if let Some(x) = joint_of(hm, special_in(&sec)) {
                return Some(units_of_special(x));
            }
            match (h, m, sec) {
                (Reading::Finite(h), Reading::Finite(m), Reading::Finite(sec)) => Some(
                    add_up(&h, &m, &sec),
                ),
                _ => None,
            }
        },
        _ => None,
    }
}

/// A time stamp in a document; nothing where it is none.
pub open spec fn stamp_of(d: Doc) -> Option<int> {
    match string(d) {
        Some(s) => stamp(s),
        None => stamp(Seq::empty()),
    }
}

/// From when to when a segment lasts in the file: its offsets in milliseconds, or else its
/// time stamps.
pub open spec fn times(item: Doc) -> Option<(int, int)> {
    let offsets = item.member("offsets"@);
    let stamps = item.member("timestamps"@);
    match (
        number_units(offsets.member("from"@), 6),
        number_units(offsets.member("to"@), 6),
    ) {
        (Some(f), Some(t)) => Some((f, t)),
        _ => match (stamp_of(stamps.member("from"@)), stamp_of(stamps.member("to"@))) {
            (Some(f), Some(t)) => Some((f, t)),
            _ => None,
        },
    }
}

/// What is said in a segment.
pub open spec fn words(item: Doc) -> Seq<char> {
    match string(item.member("text"@)) {
        Some(s) => trimmed(s),
        None => trimmed(Seq::empty()),
    }
}

/// The segments that a list of items holds: those in which something is said, moved to real
/// time. Nothing where one of them has no times.
pub open spec fn spoken(
    items: Seq<Doc>,
    steps: Seq<(i128, i128)>,
    speaker: Speaker,
) -> Option<Seq<Said>>
    decreases items.len(),
{
    if items.len() == 0 {
        Some(Seq::empty())
    } else {
        let item = items.last();
        match (spoken(items.drop_last(), steps, speaker), times(item)) {
            (Some(before), Some((f, t))) => if words(item).len() == 0 {
                Some(before)
            } else {
                Some(
                    before.push(
                        Said {
                            start: real_time(steps, f),
                            end: real_time(steps, t),
                            speaker,
                            text: words(item),
                            wav_start: f,
                        },
                    ),
                )
            },
            _ => None,
        }
    }
}

/// Whether every item of a list has its times.
pub open spec fn all_timed(items: Seq<Doc>) -> bool {
    forall|i: int| 0 <= i < items.len() ==> times(#[trigger] items[i]) is Some
}

/// A list can be read exactly if all its items have their times.
pub proof fn lemma_spoken_if_timed(items: Seq<Doc>, steps: Seq<(i128, i128)>, speaker: Speaker)
    ensures
        spoken(items, steps, speaker) is Some <==> all_timed(items),
    decreases items.len(),
{
    if items.len() > 0 {
        let front = items.drop_last();
        lemma_spoken_if_timed(front, steps, speaker);
        if all_timed(items) {
            assert(times(items[items.len() - 1]) is Some);
            assert forall|i: int| 0 <= i < front.len() implies times(
                #[trigger] front[i],
            ) is Some by {
                assert(front[i] == items[i]);
            }
        }
        if spoken(items, steps, speaker) is Some {
            assert forall|i: int| 0 <= i < items.len() implies times(
                #[trigger] items[i],
            ) is Some by {
                if i < front.len() {
                    assert(front[i] == items[i]);
                }
            }
        }
    }
}

/// One item without times spoils the list.
proof fn lemma_spoiled(items: Seq<Doc>, steps: Seq<(i128, i128)>, speaker: Speaker, k: int)
    requires
        0 <= k < items.len(),
        times(items[k]) is None,
    ensures
        spoken(items, steps, speaker) is None,
    decreases items.len(),
{
    if k < items.len() - 1 {
        lemma_spoiled(items.drop_last(), steps, speaker, k);
    }
}

fn inner<'a>(j: Option<&'a Json>, key: &str) -> (r: Option<&'a Json>)
    ensures
        j matches Some(x) ==> match r {
            Some(y) => y.doc() == x.doc().member(key@),
            None => x.doc().member(key@) == Doc::Null,
        },
        j is None ==> r is None,
{
    match j {
        Some(x) => x.member(key),
        None => None,
    }
}

fn stamp_in(j: Option<&Json>) -> (r: Option<i64>)
    ensures
        ({
            let d = match j {
                Some(x) => x.doc(),
                None => Doc::Null,
            };
            match r {
                Some(t) => stamp_of(d) == Some(t as int),
                None => stamp_of(d) is None,
            }
        }),
{
    match string_of_doc(j) {
        Some(s) => parse_timestamp(s),
        None => {
            let empty = String::new();
            parse_timestamp(empty.as_str())
        },
    }
}

fn times_of(item: &Json) -> (r: Option<(i64, i64)>)
    ensures
        match r {
            Some(p) => times(item.doc()) == Some((p.0 as int, p.1 as int)),
            None => times(item.doc()) is None,
        },
{
    let offsets = item.member("offsets");
    let f = units_of(inner(offsets, "from"), 6);
    let t = units_of(inner(offsets, "to"), 6);
    match (f, t) {
        (Some(f), Some(t)) => Some((f, t)),
        _ => {
            let stamps = item.member("timestamps");
            match (stamp_in(inner(stamps, "from")), stamp_in(inner(stamps, "to"))) {
                (Some(f), Some(t)) => Some((f, t)),
                _ => None,
            }
        },
    }
}

fn words_of(item: &Json) -> (r: String)
    ensures
        r@ == words(item.doc()),
{
    match string_of_doc(item.member("text")) {
        Some(s) => trim(s),
        None => {
            let empty = String::new();
            trim(empty.as_str())
        },
    }
}

impl Track {
    /// The segments in a transcription document, moved to real time.
    pub fn segments_in(&self, doc: &Json) -> (r: Result<Vec<Seg>, SegmentError>)
        requires
            self.wf(),
        ensures
            match (doc.doc().member("transcription"@), r) {
                (Doc::Array(items), Ok(segs)) => spoken(items, self.steps@, self.speaker) == Some(
                    all_said(segs@),
                ),
                (Doc::Array(items), Err(e)) => {
                    &&& e == SegmentError::NoTimes
                    &&& spoken(items, self.steps@, self.speaker) is None
                },
                (_, Ok(_)) => false,
                (_, Err(e)) => e == SegmentError::NoTranscription,
            },
    {
        match doc.member("transcription") {
            Some(Json::Array(items)) => {
                let ghost docs = Json::Array(*items).doc()->Array_0;
                let mut out: Vec<Seg> = Vec::new();
                assert(docs.take(0) =~= Seq::empty());
                assert(all_said(out@) =~= Seq::empty());
                for i in 0..items.len()
                    invariant
                        self.wf(),
                        docs == Json::Array(*items).doc()->Array_0,
                        docs.len() == items@.len(),
                        doc.doc().member("transcription"@) == Doc::Array(docs),
                        spoken(docs.take(i as int), self.steps@, self.speaker) == Some(
                            all_said(out@),
                        ),
                {
                    let item = &items[i];
                    assert(docs[i as int] == item.doc());
                    assert(docs.take(i + 1).drop_last() =~= docs.take(i as int));
                    match times_of(item) {
                        Some((f, t)) => {
                            let text = words_of(item);
                            if text.as_str().unicode_len() > 0 {
                                let ghost before = out@;
                                let start = self.to_real(f);
                                let end = self.to_real(t);
                                out.push(
                                    Seg { start, end, speaker: self.speaker, text, wav_start: f },
                                );
                                assert(all_said(out@) =~= all_said(before).push(out@.last()@));
                            }
                        },
                        None => {
                            proof {
                                lemma_spoiled(docs, self.steps@, self.speaker, i as int);
                            }
                            return Err(SegmentError::NoTimes);
                        },
                    }
                }
                assert(docs.take(docs.len() as int) =~= docs);
                Ok(out)
            },
            _ => Err(SegmentError::NoTranscription),
        }
    }

    /// The segments in a transcription file, moved to real time.
    pub fn segments(&self, text: &str) -> (r: Result<Vec<Seg>, SegmentError>)
        requires
            self.wf(),
        ensures
            match parsed(text@) {
                None => r matches Err(SegmentError::NotJson(m)) && m@ == complaint(text@),
                Some(d) => match (d.member("transcription"@), r) {
                    (Doc::Array(items), Ok(segs)) => spoken(items, self.steps@, self.speaker)
                        == Some(all_said(segs@)),
                    (Doc::Array(items), Err(e)) => {
                        &&& e == SegmentError::NoTimes
                        &&& spoken(items, self.steps@, self.speaker) is None
                    },
                    (_, Ok(_)) => false,
                    (_, Err(e)) => e == SegmentError::NoTranscription,
                },
            },
    {
        match Json::parse(text) {
            Ok(doc) => self.segments_in(&doc),
            Err(e) => Err(SegmentError::NotJson(e.message)),
        }
    }
}

/// Whether `said` is drawn from `items`: segment `i` from item `from[i]`, in order, each with
/// the real times of where it starts and of where it ends in the file; and every item with
/// words is drawn.
pub open spec fn drawn(
    items: Seq<Doc>,
    steps: Seq<(i128, i128)>,
    speaker: Speaker,
    said: Seq<Said>,
    from: Seq<int>,
) -> bool {
    &&& from.len() == said.len()
    &&& forall|i: int|
        #![trigger from[i]]
        0 <= i < from.len() ==> {
            &&& 0 <= from[i] < items.len()
            &&& words(items[from[i]]).len() > 0
            &&& said[i].text == words(items[from[i]])
            &&& said[i].speaker == speaker
            &&& times(items[from[i]]) matches Some((f, t))
            &&& said[i].wav_start == f
            &&& said[i].start == real_time(steps, f)
            &&& said[i].end == real_time(steps, t)
        }
    &&& forall|i: int, j: int| #![trigger from[i], from[j]] 0 <= i < j < from.len() ==> from[i] < from[j]
    &&& forall|k: int|
        0 <= k < items.len() && words(#[trigger] items[k]).len() > 0 ==> from.contains(k)
}

/// The segments are drawn from the items one by one and in order, none twice and none with
/// words left out, and both ends of each are moved by the lag at their own place in the file.
pub proof fn law_segments_are_drawn(
    items: Seq<Doc>,
    steps: Seq<(i128, i128)>,
    speaker: Speaker,
) -> (from: Seq<int>)
    requires
        spoken(items, steps, speaker) is Some,
    ensures
        drawn(items, steps, speaker, spoken(items, steps, speaker)->0, from),
    decreases items.len(),
{
    if items.len() == 0 {
        Seq::empty()
    } else {
        let front = items.drop_last();
        let n = front.len() as int;
        let before = law_segments_are_drawn(front, steps, speaker);
        let earlier = spoken(front, steps, speaker)->0;
        assert forall|k: int| 0 <= k < n implies #[trigger] items[k] == front[k] by {}
        let said = spoken(items, steps, speaker)->0;
        let from = if words(items.last()).len() == 0 {
            before
        } else {
            before.push(n)
        };
        assert forall|i: int| #![trigger from[i]] 0 <= i < from.len() implies {
            &&& 0 <= from[i] < items.len()
            &&& words(items[from[i]]).len() > 0
            &&& said[i].text == words(items[from[i]])
            &&& said[i].speaker == speaker
            &&& times(items[from[i]]) matches Some((f, t))
            &&& said[i].wav_start == f
            &&& said[i].start == real_time(steps, f)
            &&& said[i].end == real_time(steps, t)
        } by {
            if i < before.len() {
                assert(from[i] == before[i]);
                assert(said[i] == earlier[i]);
                assert(items[before[i]] == front[before[i]]);
            }
        }
        assert forall|i: int, j: int|
            #![trigger from[i], from[j]]
            0 <= i < j < from.len() implies from[i] < from[j] by {
            assert(from[i] == before[i]);
            if j < before.len() {
                assert(from[j] == before[j]);
            }
        }
        assert forall|k: int| 0 <= k < items.len() && words(#[trigger] items[k]).len() > 0 implies
            from.contains(k) by {
            if k < n {
                assert(items[k] == front[k]);
                assert(before.contains(k));
                let i = choose|i: int| 0 <= i < before.len() && before[i] == k;
                assert(from[i] == k);
            } else {
                assert(from[before.len() as int] == n);
            }
        }
        from
    }
}

/// A segment lasts as long as in the file, and as the gaps that stand in it: of gaps in order,
/// those that its end has passed and its start has not.
pub proof fn law_segment_spans_its_gaps(
    items: Seq<Doc>,
    drops: Seq<(i64, i64)>,
    steps: Seq<(i128, i128)>,
    speaker: Speaker,
    k: int,
    f: int,
    t: int,
    a: int,
    b: int,
)
    requires
        orderly(drops),
        stably_sorted(placed(drops), steps),
        spoken(items, steps, speaker) is Some,
        0 <= k < items.len(),
        words(items[k]).len() > 0,
        times(items[k]) == Some((f, t)),
        0 <= a <= drops.len(),
        0 <= b <= drops.len(),
        forall|i: int|
            0 <= i < drops.len() ==> (i < a <==> #[trigger] place(drops, i) <= f + 1_000),
        forall|i: int|
            0 <= i < drops.len() ==> (i < b <==> #[trigger] place(drops, i) <= t + 1_000),
    ensures
        exists|i: int|
            0 <= i < spoken(items, steps, speaker)->0.len() && ({
                let s = #[trigger] spoken(items, steps, speaker)->0[i];
                &&& s.text == words(items[k])
                &&& s.start == f + lag_after(drops, a)
                &&& s.end - s.start == (t - f) + (lag_after(drops, b) - lag_after(drops, a))
            }),
{
    let said = spoken(items, steps, speaker)->0;
    let from = law_segments_are_drawn(items, steps, speaker);
    assert(from.contains(k));
    let i = choose|i: int| 0 <= i < from.len() && from[i] == k;
    law_lag_is_that_of_the_gaps_passed(drops, steps, f, a);
    law_lag_is_that_of_the_gaps_passed(drops, steps, t, b);
    assert(said[i].start == real_time(steps, f));
}

/// Offsets are milliseconds: whole numbers of them are read as that many, whatever the time
/// stamps say.
pub proof fn law_offsets_are_milliseconds(item: Doc, f: nat, t: nat)
    requires
        item.member("offsets"@).member("from"@) matches Doc::Number(_, a) && a == decimal(f),
        item.member("offsets"@).member("to"@) matches Doc::Number(_, b) && b == decimal(t),
        f <= 9_000_000_000_000,
        t <= 9_000_000_000_000,
    ensures
        times(item) == Some(((f * 1_000_000) as int, (t * 1_000_000) as int)),
{
    lemma_decimal_digits(f);
    lemma_decimal_digits(t);
    lemma_digits_read(decimal(f), 6);
    lemma_digits_read(decimal(t), 6);
    assert(pow10(6) == 1_000_000) by {
        reveal_with_fuel(pow10, 7);
    }
}

/// Where an offset is missing, both times come from the stamps, and there are none where one
/// of them is no time.
pub proof fn law_stamps_stand_in_for_offsets(item: Doc, f: Seq<char>, t: Seq<char>)
    requires
        !(item.member("offsets"@).member("from"@) is Number) || !(item.member("offsets"@).member(
            "to"@,
        ) is Number),
        item.member("timestamps"@).member("from"@) == Doc::Str(f),
        item.member("timestamps"@).member("to"@) == Doc::Str(t),
    ensures
        stamp(f) is Some && stamp(t) is Some ==> times(item) == Some((stamp(f)->0, stamp(t)->0)),
        stamp(f) is None || stamp(t) is None ==> times(item) is None,
{
}

/// The words of a segment are its text without white space at the ends.
pub proof fn law_words_are_the_trimmed_text(item: Doc, text: Seq<char>)
    requires
        item.member("text"@) == Doc::Str(text),
    ensures
        words(item) == trimmed(text),
{
}

/// What the metadata says of the gaps is taken over one by one: as many as are listed, each
/// with its two numbers, zero where one is missing.
pub proof fn law_gaps_are_taken_over(d: Doc, items: Seq<Doc>, i: int)
    requires
        d.member("drops_sec_len"@) == Doc::Array(items),
        0 <= i < items.len(),
    ensures
        listed_gaps(d).len() == items.len(),
        items[i].item(0) matches Doc::Number(_, t) ==> (decimal_units(t, 9) is Some
            ==> listed_gaps(d)[i].0 == decimal_units(t, 9)->0 as i64),
        items[i].item(1) matches Doc::Number(_, t) ==> (decimal_units(t, 9) is Some
            ==> listed_gaps(d)[i].1 == decimal_units(t, 9)->0 as i64),
        !(items[i].item(0) is Number) ==> listed_gaps(d)[i].0 == 0,
        !(items[i].item(1) is Number) ==> listed_gaps(d)[i].1 == 0,
{
}

/// A sum with an infinity in it is that infinity, unless another part is not a number or
/// infinite the other way; then it is not a number.
pub proof fn law_special_parts_decide(a: Part, b: Part, c: Part)
    ensures
        ({
            let nan = Part::Special(Special::NotANumber);
            let plus = Part::Special(Special::Infinity { negative: false });
            let minus = Part::Special(Special::Infinity { negative: true });
            let some_nan = a == nan || b == nan || c == nan;
            let some_plus = a == plus || b == plus || c == plus;
            let some_minus = a == minus || b == minus || c == minus;
            &&& some_nan || (some_plus && some_minus) ==> added(a, b, c) == 0
            &&& !some_nan && some_plus && !some_minus ==> added(a, b, c) == i64::MAX
            &&& !some_nan && some_minus && !some_plus ==> added(a, b, c) == i64::MIN
        }),
        a is Finite && b is Finite && c is Finite ==> added(a, b, c) == nanoseconds(
            a->Finite_0,
            b->Finite_0,
            c->Finite_0,
        ),
{
}

/// A stamp is three parts between colons, and has a time exactly if each of them is a number or
/// a special value.
pub proof fn law_stamp_is_three_parts(a: Seq<char>, b: Seq<char>, c: Seq<char>)
    requires
        !a.contains(':') && !a.contains(','),
        !b.contains(':') && !b.contains(','),
        !c.contains(':') && !c.contains(','),
    ensures
        ({
            let s = a + seq![':'] + b + seq![':'] + c;
            &&& stamp(s) is Some <==> part(a) is Some && part(b) is Some && part(c) is Some
            &&& stamp(s) is Some ==> stamp(s)->0 == added(part(a)->0, part(b)->0, part(c)->0)
        }),
{
    let s = a + seq![':'] + b + seq![':'] + c;
    lemma_three_pieces(a, b, c, ':');
    let r = replaced(s, ',', '.');
    assert forall|i: int| 0 <= i < s.len() implies r[i] == s[i] by {
        let n = a.len() as int;
        let k = b.len() as int;
        if i < n {
            assert(a.contains(a[i]));
        } else if n < i < n + 1 + k {
            assert(b.contains(b[i - n - 1]));
        } else if i > n + 1 + k {
            assert(c.contains(c[i - n - k - 2]));
        }
    }
    assert(r =~= s);
}

/// A comma counts as a point, and a text without exactly two colons is no stamp.
pub proof fn law_stamp_takes_commas_for_points(s: Seq<char>)
    ensures
        stamp(s) == stamp(replaced(s, ',', '.')),
        chosen(s.len() as int, |i: int| s[i] == ':').len() != 2 ==> stamp(s) is None,
{
    let r = replaced(s, ',', '.');
    assert(replaced(r, ',', '.') =~= r);
    law_pieces_are_counted_by_marks(r, ':');
    let p = |i: int| s[i] == ':';
    let q = |i: int| r[i] == ':';
    assert forall|i: int| 0 <= i < s.len() implies #[trigger] p(i) == q(i) by {}
    lemma_same_choice(s.len() as int, p, q);
}

/// The names by which the two sides are told apart.
pub proof fn law_names_of_the_sides()
    ensures
        Speaker::Me.name() == "自分"@,
        Speaker::Other.name() == "相手"@,
        Speaker::Me.name() != Speaker::Other.name(),
{
    reveal_strlit("自分");
    reveal_strlit("相手");
    assert(Speaker::Me.name()[0] != Speaker::Other.name()[0]);
}

/// The sample rate and the device are what the metadata says under these names; a rate that is
/// no whole number is none.
pub proof fn law_metadata_names_rate_and_device(d: Doc)
    ensures
        d.member("sample_rate"@) matches Doc::Number(n, _) ==> sample_rate(d) == n,
        !(d.member("sample_rate"@) is Number) ==> sample_rate(d) is None,
        d.member("device"@) matches Doc::Str(s) ==> device_name(d) == s,
        !(d.member("device"@) is Str) ==> device_name(d) == "(不明)"@,
{
}

/// Segments are seen as they are, one for one.
pub proof fn law_segments_are_seen_as_they_are(segs: Seq<Seg>, i: int)
    requires
        0 <= i < segs.len(),
    ensures
        all_said(segs).len() == segs.len(),
        all_said(segs)[i].start == segs[i].start && all_said(segs)[i].end == segs[i].end,
        all_said(segs)[i].speaker == segs[i].speaker && all_said(segs)[i].text == segs[i].text@,
        all_said(segs)[i].wav_start == segs[i].wav_start,
{
}

/// A track that a document describes has its rate, its device, the steps of its gaps and the
/// sum of them all.
pub proof fn law_tracks_are_as_described(t: Track, d: Doc)
    requires
        t.described_by(d),
    ensures
        sample_rate(d) == Some(t.rate),
        t.device@ == device_name(d),
        stably_sorted(placed(listed_gaps(d)), t.steps@),
        t.steps@.len() == listed_gaps(d).len(),
        t.total_lag == lag_after(listed_gaps(d), listed_gaps(d).len() as int),
{
}

/// Offsets are taken as they are, to the nanosecond and in either order, whatever the time
/// stamps say.
pub proof fn law_offsets_are_taken_as_they_are(item: Doc, a: Seq<char>, b: Seq<char>)
    requires
        item.member("offsets"@).member("from"@) matches Doc::Number(_, x) && x == a,
        item.member("offsets"@).member("to"@) matches Doc::Number(_, y) && y == b,
        decimal_units(a, 6) is Some,
        decimal_units(b, 6) is Some,
    ensures
        times(item) == Some((decimal_units(a, 6)->0, decimal_units(b, 6)->0)),
{
}

} // verus!
