//! Putting the tracks of a recording together, from the files that are there.

use crate::counting::{chosen, lemma_chosen_finite, lemma_chosen_step, lemma_same_choice};
use crate::json::{complaint, parsed, Doc};
use crate::order::{lemma_sort_rises, stably_sorted, Keyed};
use crate::text::{decimal, decimal_text};
use crate::track::{
    all_said, all_timed, lemma_spoken_if_timed, sample_rate, spoken, times, MetaError, Said, Seg,
    SegmentError, Speaker, Track,
};
use crate::transcript::{
    arrange, render, talk_fits, talk_line, talk_text, transcript_text,
};
use vstd::prelude::*;

verus! {

/// The files of one track, as far as they exist.
pub struct Source {
    pub speaker: Speaker,
    pub meta: Option<String>,
    pub speech: Option<String>,
}

/// Why the tracks of a recording cannot be put together: the place of a source, and
/// what is wrong with it.
pub enum MergeError {
    Meta(usize, MetaError),
    Speech(usize, SegmentError),
    /// There is no track with all its files.
    NoTrack,
}

/// The segments that a text lists, if it lists any.
pub open spec fn listed_items(text: Seq<char>) -> Option<Seq<Doc>> {
    match parsed(text) {
        Some(d) => match d.member("transcription"@) {
            Doc::Array(items) => Some(items),
            _ => None,
        },
        None => None,
    }
}

impl Source {
    /// Whether metadata, where there is any, can be read.
    pub open spec fn meta_reads(self) -> bool {
        self.meta matches Some(m) ==> parsed(m@) is Some && sample_rate(parsed(m@)->0) is Some
    }

    /// Whether segments, where there are any, can be read.
    pub open spec fn speech_reads(self) -> bool {
        self.speech matches Some(t) ==> listed_items(t@) is Some && all_timed(listed_items(t@)->0)
    }

    /// Whether the track takes part.
    pub open spec fn complete(self) -> bool {
        self.meta is Some && self.speech is Some
    }

    /// Whether the track raises no error. Segments without metadata are not looked at.
    pub open spec fn reads(self) -> bool {
        self.meta_reads() && (self.complete() ==> self.speech_reads())
    }

    /// Whether `error` is what is wrong with the metadata.
    pub open spec fn bad_meta(self, error: MetaError) -> bool {
        self.meta matches Some(m) && match error {
            MetaError::NotJson(c) => parsed(m@) is None && c@ == complaint(m@),
            MetaError::NoSampleRate => parsed(m@) is Some && sample_rate(parsed(m@)->0) is None,
        }
    }

    /// Whether `error` is what is wrong with the segments.
    pub open spec fn bad_speech(self, error: SegmentError) -> bool {
        &&& self.meta is Some
        &&& self.meta_reads()
        &&& self.speech matches Some(t)
        &&& match error {
            SegmentError::NotJson(c) => parsed(t@) is None && c@ == complaint(t@),
            SegmentError::NoTranscription => parsed(t@) is Some && listed_items(t@) is None,
            SegmentError::NoTimes => listed_items(t@) is Some && !all_timed(listed_items(t@)->0),
        }
    }
}

/// Whether `tracks` are the complete ones among `sources`, and `said` is all that is said on
/// them, track by track.
pub open spec fn gathered(sources: Seq<Source>, tracks: Seq<Track>, said: Seq<Said>) -> bool
    decreases sources.len(),
{
    if sources.len() == 0 {
        tracks.len() == 0 && said.len() == 0
    } else {
        let s = sources.last();
        let front = sources.drop_last();
        if s.complete() {
            let t = tracks.last();
            let own = spoken(listed_items(s.speech->0@)->0, t.steps@, s.speaker)->0;
            let n = said.len() - own.len();
            &&& tracks.len() > 0
            &&& t.speaker == s.speaker
            &&& t.described_by(parsed(s.meta->0@)->0)
            &&& n >= 0
            &&& said.skip(n) == own
            &&& gathered(front, tracks.drop_last(), said.take(n))
        } else {
            gathered(front, tracks, said)
        }
    }
}

/// Reads the tracks of a recording and what is said on them. A track without metadata, or
/// without segments, is left out.
pub fn gather(sources: &[Source]) -> (r: Result<(Vec<Track>, Vec<Seg>), MergeError>)
    ensures
        match r {
            Ok((tracks, segs)) => {
                &&& forall|k: int| 0 <= k < sources@.len() ==> (#[trigger] sources@[k]).reads()
                &&& gathered(sources@, tracks@, all_said(segs@))
                &&& exists|k: int| 0 <= k < sources@.len() && (#[trigger] sources@[k]).complete()
            },
            Err(MergeError::Meta(track, error)) => {
                &&& track < sources@.len()
                &&& sources@[track as int].bad_meta(error)
                &&& forall|k: int| 0 <= k < track ==> (#[trigger] sources@[k]).reads()
            },
            Err(MergeError::Speech(track, error)) => {
                &&& track < sources@.len()
                &&& sources@[track as int].bad_speech(error)
                &&& forall|k: int| 0 <= k < track ==> (#[trigger] sources@[k]).reads()
            },
            Err(MergeError::NoTrack) => {
                &&& forall|k: int| 0 <= k < sources@.len() ==> (#[trigger] sources@[k]).reads()
                &&& forall|k: int| 0 <= k < sources@.len() ==> !(#[trigger] sources@[k]).complete()
            },
        },
{
    let mut tracks: Vec<Track> = Vec::new();
    let mut segs: Vec<Seg> = Vec::new();
    for i in 0..sources.len()
        invariant
            gathered(sources@.take(i as int), tracks@, all_said(segs@)),
            forall|k: int| 0 <= k < i ==> (#[trigger] sources@[k]).reads(),
            tracks@.len() > 0 <==> exists|k: int|
                0 <= k < i && (#[trigger] sources@[k]).complete(),
    {
        let s = &sources[i];
        proof {
            assert(sources@.take(i + 1).drop_last() =~= sources@.take(i as int));
            assert(sources@.take(i + 1).last() == *s);
        }
        if let Some(meta) = &s.meta {
            match Track::from_meta(meta.as_str(), s.speaker) {
                Ok(track) => {
                    if let Some(speech) = &s.speech {
                        match track.segments(speech.as_str()) {
                            Ok(own) => {
                                let mut own = own;
                                let ghost before = all_said(segs@);
                                let ghost mine = all_said(own@);
                                let ghost so_far = tracks@;
                                proof {
                                    lemma_spoken_if_timed(
                                        listed_items(speech@)->0,
                                        track.steps@,
                                        s.speaker,
                                    );
                                }
                                segs.append(&mut own);
                                tracks.push(track);
                                proof {
                                    let all = all_said(segs@);
                                    assert(all =~= before + mine);
                                    assert(all.skip(before.len() as int) =~= mine);
                                    assert(all.take(before.len() as int) =~= before);
                                    assert(tracks@.drop_last() =~= so_far);
                                    assert(sources@[i as int].complete());
                                }
                            },
                            Err(error) => {
                                proof {
                                    if let Some(items) = listed_items(speech@) {
                                        lemma_spoken_if_timed(items, track.steps@, s.speaker);
                                    }
                                }
                                return Err(MergeError::Speech(i, error));
                            },
                        }
                    }
                },
                Err(error) => {
                    return Err(MergeError::Meta(i, error));
                },
            }
        }
    }
    assert(sources@.take(sources@.len() as int) =~= sources@);
    if tracks.len() == 0 {
        Err(MergeError::NoTrack)
    } else {
        Ok((tracks, segs))
    }
}

/// A transcript, with what it was made from.
pub struct Merged {
    pub tracks: Vec<Track>,
    /// The segments in the order in which they are read.
    pub segs: Vec<Seg>,
    pub text: String,
}

/// Whether `segs` are those gathered from the sources, put in order.
pub open spec fn arranged_from(
    sources: Seq<Source>,
    tracks: Seq<Track>,
    segs: Seq<Seg>,
    found: Seq<Seg>,
) -> bool {
    gathered(sources, tracks, all_said(found)) && stably_sorted(found, segs)
}

/// Makes the transcript of a recording. It fails where `gather` does.
pub fn merge(stem: &str, sources: &[Source], debug: bool) -> (r: Result<Merged, MergeError>)
    ensures
        match r {
            Ok(m) => {
                &&& forall|k: int| 0 <= k < sources@.len() ==> (#[trigger] sources@[k]).reads()
                &&& exists|k: int| 0 <= k < sources@.len() && (#[trigger] sources@[k]).complete()
                &&& exists|found: Seq<Seg>| #[trigger]
                    arranged_from(sources@, m.tracks@, m.segs@, found)
                &&& m.text@ == transcript_text(stem@, m.tracks@, all_said(m.segs@), debug)
            },
            Err(MergeError::Meta(track, error)) => {
                &&& track < sources@.len()
                &&& sources@[track as int].bad_meta(error)
                &&& forall|k: int| 0 <= k < track ==> (#[trigger] sources@[k]).reads()
            },
            Err(MergeError::Speech(track, error)) => {
                &&& track < sources@.len()
                &&& sources@[track as int].bad_speech(error)
                &&& forall|k: int| 0 <= k < track ==> (#[trigger] sources@[k]).reads()
            },
            Err(MergeError::NoTrack) => {
                &&& forall|k: int| 0 <= k < sources@.len() ==> (#[trigger] sources@[k]).reads()
                &&& forall|k: int| 0 <= k < sources@.len() ==> !(#[trigger] sources@[k]).complete()
            },
        },
{
    match gather(sources) {
        Ok((tracks, found)) => {
            let ghost raw = found@;
            let segs = arrange(found);
            let text = render(stem, tracks.as_slice(), segs.as_slice(), debug);
            assert(arranged_from(sources@, tracks@, segs@, raw));
            Ok(Merged { tracks, segs, text })
        },
        Err(e) => Err(e),
    }
}

/// Tells why a track is left out, if it is, given the names of its files.
pub fn notice(source: &Source, meta: &str, speech: &str) -> (r: Option<String>)
    ensures
        match r {
            Some(t) => !source.complete() && t@ == (if source.meta is None {
                "  !! "@ + meta@ + " が無い。この系統は飛ばす。\n"@
            } else {
                "  !! "@ + speech@ + " が無い。whisper-cli -oj を通してから実行する。\n"@
            }),
            None => source.complete(),
        },
{
    let mut t = "  !! ".to_string();
    if source.meta.is_none() {
        t.append(meta);
        t.append(" が無い。この系統は飛ばす。\n");
        Some(t)
    } else if source.speech.is_none() {
        t.append(speech);
        t.append(" が無い。whisper-cli -oj を通してから実行する。\n");
        Some(t)
    } else {
        None
    }
}

/// What is told once the transcript is written: how many segments it has, and how long each
/// side talks. Nothing where a sum leaves 128 bits.
pub fn closing_text(dest: &str, segs: &[Seg]) -> (r: Option<String>)
    ensures
        ({
            let said = all_said(segs@);
            match r {
                Some(t) => {
                    &&& talk_fits(said, Speaker::Other) && talk_fits(said, Speaker::Me)
                    &&& t@ == dest@ + " を書いた（"@ + decimal(segs@.len()) + " セグメント）\n"@
                        + talk_text(said, Speaker::Other) + talk_text(said, Speaker::Me)
                },
                None => !(talk_fits(said, Speaker::Other) && talk_fits(said, Speaker::Me)),
            }
        }),
{
    match (talk_line(segs, Speaker::Other), talk_line(segs, Speaker::Me)) {
        (Some(other), Some(me)) => {
            let mut t = dest.to_string();
            t.append(" を書いた（");
            t.append(decimal_text(segs.len() as u128).as_str());
            t.append(" セグメント）\n");
            t.append(other.as_str());
            t.append(me.as_str());
            Some(t)
        },
        _ => None,
    }
}

impl MetaError {
    /// What is wrong with the metadata in the file at `path`.
    pub fn text(&self, path: &str) -> (r: String)
        ensures
            r@ == path@ + (match *self {
                MetaError::NotJson(_) => " が JSON として読めない"@,
                MetaError::NoSampleRate => ": sample_rate が無い"@,
            }),
    {
        let mut r = path.to_string();
        match self {
            MetaError::NotJson(_) => r.append(" が JSON として読めない"),
            MetaError::NoSampleRate => r.append(": sample_rate が無い"),
        }
        r
    }
}

impl SegmentError {
    /// What is wrong with the segments in the file at `path`.
    pub fn text(&self, path: &str) -> (r: String)
        ensures
            r@ == path@ + (match *self {
                SegmentError::NotJson(_) => " が JSON として読めない"@,
                SegmentError::NoTranscription =>
                    ": transcription が無い。whisper-cli -oj の出力か確認する"@,
                SegmentError::NoTimes => ": セグメントに offsets も timestamps も無い"@,
            }),
    {
        let mut r = path.to_string();
        match self {
            SegmentError::NotJson(_) => r.append(" が JSON として読めない"),
            SegmentError::NoTranscription => r.append(
                ": transcription が無い。whisper-cli -oj の出力か確認する",
            ),
            SegmentError::NoTimes => r.append(": セグメントに offsets も timestamps も無い"),
        }
        r
    }
}

/// Every complete track takes part: there is a track that its metadata describes, and what is
/// said on it stands together and in order in what was gathered.
pub proof fn law_every_complete_track_takes_part(
    sources: Seq<Source>,
    tracks: Seq<Track>,
    said: Seq<Said>,
    k: int,
) -> (r: (int, int))
    requires
        gathered(sources, tracks, said),
        0 <= k < sources.len(),
        sources[k].meta is Some,
        sources[k].speech is Some,
    ensures
        ({
            let (t, at) = r;
            let s = sources[k];
            let own = spoken(listed_items(s.speech->0@)->0, tracks[t].steps@, s.speaker)->0;
            &&& 0 <= t < tracks.len()
            &&& tracks[t].speaker == s.speaker
            &&& tracks[t].described_by(parsed(s.meta->0@)->0)
            &&& 0 <= at
            &&& at + own.len() <= said.len()
            &&& said.subrange(at, at + own.len()) == own
        }),
    decreases sources.len(),
{
    let s = sources.last();
    let front = sources.drop_last();
    if k == sources.len() - 1 {
        let t = tracks.len() - 1;
        let own = spoken(listed_items(s.speech->0@)->0, tracks[t].steps@, s.speaker)->0;
        let at = said.len() - own.len();
        assert(said.subrange(at, at + own.len()) =~= said.skip(at));
        (t, at)
    } else if s.complete() {
        let own = spoken(listed_items(s.speech->0@)->0, tracks.last().steps@, s.speaker)->0;
        let n = said.len() - own.len();
        let (t, at) = law_every_complete_track_takes_part(
            front,
            tracks.drop_last(),
            said.take(n),
            k,
        );
        assert(front[k] == sources[k]);
        assert(tracks.drop_last()[t] == tracks[t]);
        let mine = spoken(
            listed_items(sources[k].speech->0@)->0,
            tracks[t].steps@,
            sources[k].speaker,
        )->0;
        assert(said.subrange(at, at + mine.len()) =~= said.take(n).subrange(at, at + mine.len()));
        (t, at)
    } else {
        assert(front[k] == sources[k]);
        law_every_complete_track_takes_part(front, tracks, said, k)
    }
}

/// No other track takes part: there are as many tracks as complete sources.
pub proof fn law_only_complete_tracks_take_part(
    sources: Seq<Source>,
    tracks: Seq<Track>,
    said: Seq<Said>,
)
    requires
        gathered(sources, tracks, said),
    ensures
        tracks.len() == chosen(
            sources.len() as int,
            |i: int| sources[i].meta is Some && sources[i].speech is Some,
        ).len(),
    decreases sources.len(),
{
    let p = |i: int| sources[i].meta is Some && sources[i].speech is Some;
    let n = sources.len() as int;
    if n == 0 {
        lemma_chosen_finite(0, p);
    } else {
        let front = sources.drop_last();
        let s = sources.last();
        let q = |i: int| front[i].meta is Some && front[i].speech is Some;
        lemma_chosen_step(n, p);
        assert forall|i: int| 0 <= i < n - 1 implies #[trigger] p(i) == q(i) by {
            assert(front[i] == sources[i]);
        }
        lemma_same_choice(n - 1, p, q);
        if s.complete() {
            let own = spoken(listed_items(s.speech->0@)->0, tracks.last().steps@, s.speaker)->0;
            let k = said.len() - own.len();
            law_only_complete_tracks_take_part(front, tracks.drop_last(), said.take(k));
        } else {
            law_only_complete_tracks_take_part(front, tracks, said);
        }
    }
}

/// Of the two tracks of a recording, all that is said on the first comes before all that is
/// said on the second, and there is nothing else.
pub proof fn law_two_tracks_are_put_together(
    a: Source,
    b: Source,
    tracks: Seq<Track>,
    said: Seq<Said>,
)
    requires
        gathered(seq![a, b], tracks, said),
        a.meta is Some && a.speech is Some,
        b.meta is Some && b.speech is Some,
    ensures
        tracks.len() == 2,
        tracks[0].speaker == a.speaker && tracks[0].described_by(parsed(a.meta->0@)->0),
        tracks[1].speaker == b.speaker && tracks[1].described_by(parsed(b.meta->0@)->0),
        said == spoken(listed_items(a.speech->0@)->0, tracks[0].steps@, a.speaker)->0 + spoken(
            listed_items(b.speech->0@)->0,
            tracks[1].steps@,
            b.speaker,
        )->0,
{
    let sources = seq![a, b];
    let front = sources.drop_last();
    assert(front =~= seq![a]);
    assert(front.drop_last() =~= Seq::empty());
    let own = spoken(listed_items(b.speech->0@)->0, tracks.last().steps@, b.speaker)->0;
    let n = said.len() - own.len();
    let first = said.take(n);
    assert(gathered(front, tracks.drop_last(), first));
    let left = tracks.drop_last();
    let other = spoken(listed_items(a.speech->0@)->0, left.last().steps@, a.speaker)->0;
    let m = first.len() - other.len();
    assert(gathered(Seq::<Source>::empty(), left.drop_last(), first.take(m)));
    assert(left.drop_last().len() == 0);
    assert(first.take(m).len() == 0);
    assert(first.skip(m) =~= first);
    assert(said =~= first + said.skip(n));
}

/// A list of segments is that of the member `transcription` of the document.
pub proof fn law_items_are_those_of_the_transcription(text: Seq<char>)
    ensures
        parsed(text) is None ==> listed_items(text) is None,
        parsed(text) matches Some(d) ==> (d.member("transcription"@) matches Doc::Array(items)
            ==> listed_items(text) == Some(items)),
        parsed(text) matches Some(d) ==> (!(d.member("transcription"@) is Array)
            ==> listed_items(text) is None),
{
}

/// What is wrong with a track follows from its files: metadata that is no JSON, or has no
/// sample rate; and, where the metadata can be read, segments that are no JSON, or no list, or
/// of which one has no times. Nothing else is wrong, and segments without metadata are not
/// looked at.
pub proof fn law_errors_follow_from_the_files(
    s: Source,
    meta: Seq<char>,
    speech: Seq<char>,
    m: MetaError,
    t: SegmentError,
)
    requires
        s.meta matches Some(x) && x@ == meta,
        s.speech matches Some(x) && x@ == speech,
    ensures
        s.bad_meta(m) <==> match m {
            MetaError::NotJson(c) => parsed(meta) is None && c@ == complaint(meta),
            MetaError::NoSampleRate => parsed(meta) is Some && sample_rate(parsed(meta)->0) is None,
        },
        ({
            let readable = parsed(meta) is Some && sample_rate(parsed(meta)->0) is Some;
            let items = listed_items(speech);
            &&& s.bad_speech(t) <==> readable && match t {
                SegmentError::NotJson(c) => parsed(speech) is None && c@ == complaint(speech),
                SegmentError::NoTranscription => parsed(speech) is Some && items is None,
                SegmentError::NoTimes => items is Some && exists|i: int|
                    0 <= i < items->0.len() && times(#[trigger] items->0[i]) is None,
            }
            &&& s.reads() <==> readable && items is Some && forall|i: int|
                0 <= i < items->0.len() ==> times(#[trigger] items->0[i]) is Some
        }),
{
}

/// A track takes part exactly if it has both files.
pub proof fn law_both_files_are_needed(s: Source)
    ensures
        s.complete() <==> s.meta is Some && s.speech is Some,
        s.meta is None ==> s.reads(),
        s.meta is Some && s.speech is None ==> (s.reads() <==> parsed(s.meta->0@) is Some
            && sample_rate(parsed(s.meta->0@)->0) is Some),
{
}

/// The segments of a transcript are those gathered, each once, by their start.
pub proof fn law_segments_of_a_transcript_are_those_gathered(
    sources: Seq<Source>,
    tracks: Seq<Track>,
    segs: Seq<Seg>,
    found: Seq<Seg>,
)
    requires
        arranged_from(sources, tracks, segs, found),
    ensures
        gathered(sources, tracks, all_said(found)),
        segs.len() == found.len(),
        forall|i: int| 0 <= i < segs.len() ==> found.contains(#[trigger] segs[i]),
        forall|i: int| 0 <= i < found.len() ==> segs.contains(#[trigger] found[i]),
        forall|i: int, j: int|
            #![trigger segs[i], segs[j]]
            0 <= i < j < segs.len() ==> segs[i].start <= segs[j].start,
{
    lemma_sort_rises(found, segs);
    assert forall|i: int, j: int|
        #![trigger segs[i], segs[j]]
        0 <= i < j < segs.len() implies segs[i].start <= segs[j].start by {
        assert(segs[i].key() <= segs[j].key());
    }
}

} // verus!
