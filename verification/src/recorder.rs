//! What happens to the samples of one track between the audio callback and the WAV file.
//!
//! Chunks come in with their time of arrival. The first seconds are held back until it is
//! clear whether all channels carry the same sound; then the file is created, with one
//! channel if they do, and everything is written as it comes. Meanwhile the arrival times
//! are compared with the length of what has come in, held back or written, and every
//! stretch without packets is noted.

use crate::sample::{frame_is_uniform, is_loud, loud, raise, raised, uniform};
use vstd::prelude::*;
use vstd::slice::slice_subrange;

verus! {

/// One delivery of the audio callback: interleaved samples, and the nanoseconds from the
/// start of the recording to its arrival.
pub struct Chunk {
    pub samples: Vec<u32>,
    pub at: u64,
}

/// A stretch without packets: when it was noticed, in nanoseconds, and its length in
/// units of a nanosecond divided by the sample rate.
pub struct Gap {
    pub at: u64,
    pub len: i128,
}

/// What is to be done with the file.
pub enum Action {
    /// Nothing yet.
    Wait,
    /// Create the file with this many channels, and write the samples.
    Create { channels: u16, samples: Vec<u32> },
    /// Write the samples to the file.
    Write { samples: Vec<u32> },
}

/// The state of one track's recording.
pub struct Recorder {
    pub rate: u32,
    pub channels_in: u16,
    pub downmix_allowed: bool,
    /// Whether the file exists.
    pub created: bool,
    pub downmixed: bool,
    pub channels_out: u16,
    pub frames_written: u64,
    /// The loudest sample written, as a bit pattern without sign.
    pub peak: u32,
    /// Frames written with one channel although the channels differed.
    pub downmix_violations: u64,
    pub drops: Vec<Gap>,
    /// How far arrival was ahead of the length of what had come in, at the last chunk.
    pub last_lag: Option<i128>,
    /// Samples held back until the file exists.
    pub pending: Vec<u32>,
    pub pending_frames: u64,
    /// Frames held back that are not silent.
    pub probe_nonsilent: u64,
    /// Frames held back that are not silent and whose channels differ.
    pub probe_nonuniform: u64,
}

/// The state of a recording as numbers and sequences.
pub struct State {
    pub rate: nat,
    pub channels_in: nat,
    pub downmix_allowed: bool,
    pub created: bool,
    pub downmixed: bool,
    pub channels_out: nat,
    pub frames_written: nat,
    pub peak: u32,
    pub downmix_violations: nat,
    pub drops: Seq<Gap>,
    pub last_lag: Option<int>,
    pub pending: Seq<u32>,
    pub pending_frames: nat,
    pub probe_nonsilent: nat,
    pub probe_nonuniform: nat,
}

/// What is to be done with the file, over sequences.
pub enum Step {
    Wait,
    Create { channels: nat, samples: Seq<u32> },
    Write { samples: Seq<u32> },
}

impl View for Action {
    type V = Step;

    open spec fn view(&self) -> Step {
        match *self {
            Action::Wait => Step::Wait,
            Action::Create { channels, samples } => Step::Create {
                channels: channels as nat,
                samples: samples@,
            },
            Action::Write { samples } => Step::Write { samples: samples@ },
        }
    }
}

impl View for Recorder {
    type V = State;

    open spec fn view(&self) -> State {
        State {
            rate: self.rate as nat,
            channels_in: self.channels_in as nat,
            downmix_allowed: self.downmix_allowed,
            created: self.created,
            downmixed: self.downmixed,
            channels_out: self.channels_out as nat,
            frames_written: self.frames_written as nat,
            peak: self.peak,
            downmix_violations: self.downmix_violations as nat,
            drops: self.drops@,
            last_lag: match self.last_lag {
                Some(x) => Some(x as int),
                None => None,
            },
            pending: self.pending@,
            pending_frames: self.pending_frames as nat,
            probe_nonsilent: self.probe_nonsilent as nat,
            probe_nonuniform: self.probe_nonuniform as nat,
        }
    }
}

/// How many channels a frame has: at least one.
pub open spec fn width(channels: nat) -> nat {
    if channels == 0 {
        1
    } else {
        channels
    }
}

/// The whole frames in a row of samples.
pub open spec fn frame_count(samples: Seq<u32>, w: nat) -> nat {
    samples.len() / w
}

/// Frame `i` of a row of samples.
pub open spec fn frame(samples: Seq<u32>, w: nat, i: int) -> Seq<u32> {
    samples.subrange(i * w, (i + 1) * w)
}

/// Whether some channel of a frame is louder than silence.
pub open spec fn sounds(f: Seq<u32>) -> bool {
    exists|i: int| 0 <= i < f.len() && is_loud(#[trigger] f[i])
}

/// The frames that sound, among the first `n`.
pub open spec fn sounding(samples: Seq<u32>, w: nat, n: nat) -> nat
    decreases n,
{
    if n == 0 {
        0
    } else {
        sounding(samples, w, (n - 1) as nat) + if sounds(frame(samples, w, n - 1)) {
            1nat
        } else {
            0nat
        }
    }
}

/// The frames that sound and whose channels differ, among the first `n`.
pub open spec fn sounding_apart(samples: Seq<u32>, w: nat, n: nat) -> nat
    decreases n,
{
    if n == 0 {
        0
    } else {
        let f = frame(samples, w, n - 1);
        sounding_apart(samples, w, (n - 1) as nat) + if sounds(f) && !uniform(f) {
            1nat
        } else {
            0nat
        }
    }
}

/// The frames whose channels differ, among the first `n`.
pub open spec fn apart(samples: Seq<u32>, w: nat, n: nat) -> nat
    decreases n,
{
    if n == 0 {
        0
    } else {
        apart(samples, w, (n - 1) as nat) + if !uniform(frame(samples, w, n - 1)) {
            1nat
        } else {
            0nat
        }
    }
}

/// What is written of a row of samples: its whole frames, or the first channel of each.
pub open spec fn kept(samples: Seq<u32>, w: nat, downmixed: bool) -> Seq<u32> {
    if downmixed {
        Seq::new(frame_count(samples, w), |i: int| samples[i * w])
    } else {
        samples.take((frame_count(samples, w) * w) as int)
    }
}

/// The peak after a row of samples.
pub open spec fn peak_after(peak: u32, samples: Seq<u32>) -> u32
    decreases samples.len(),
{
    if samples.len() == 0 {
        peak
    } else {
        raised(peak_after(peak, samples.drop_last()), samples.last())
    }
}

impl State {
    pub open spec fn width(self) -> nat {
        width(self.channels_in)
    }

    /// The frames that have come in so far: those written, or held back until the file
    /// exists.
    pub open spec fn arrived(self) -> nat {
        self.frames_written + if self.created {
            0
        } else {
            self.pending_frames
        }
    }

    /// How far arrival at `at` is ahead of the length of what has come in so far, in units
    /// of a nanosecond divided by the sample rate.
    pub open spec fn lag(self, at: nat) -> int {
        at * self.rate - self.arrived() * 1_000_000_000
    }

    /// Takes note of an arrival. A rise of the lag by more than a fifth of a second is a
    /// gap, and so is any lag at the first chunk.
    pub open spec fn noted(self, at: u64) -> State {
        let now = self.lag(at as nat);
        let gap: Option<int> = match self.last_lag {
            Some(last) => if now - last > 200_000_000 * self.rate {
                Some(now - last)
            } else {
                None
            },
            None => if now > 0 {
                Some(now)
            } else {
                None
            },
        };
        State {
            last_lag: Some(now),
            drops: match gap {
                Some(len) => self.drops.push(Gap { at, len: len as i128 }),
                None => self.drops,
            },
            ..self
        }
    }

    /// Holds samples back and looks at them.
    pub open spec fn held(self, samples: Seq<u32>) -> State {
        let n = frame_count(samples, self.width());
        State {
            pending: self.pending + samples,
            pending_frames: self.pending_frames + n,
            probe_nonsilent: self.probe_nonsilent + sounding(samples, self.width(), n),
            probe_nonuniform: self.probe_nonuniform + sounding_apart(samples, self.width(), n),
            ..self
        }
    }

    /// Whether a fifth of a second of sound has been looked at.
    pub open spec fn heard(self) -> bool {
        self.probe_nonsilent >= self.rate / 5
    }

    /// Whether it is too early to decide: under two seconds, or too little sound and
    /// under five seconds.
    pub open spec fn undecided(self) -> bool {
        !(self.heard() && self.pending_frames >= self.rate * 2) && self.pending_frames < self.rate
            * 5
    }

    /// Whether one channel is enough: it may be dropped to one, there are several,
    /// there was enough sound to tell, and none of it differed between the channels.
    pub open spec fn one_is_enough(self) -> bool {
        self.downmix_allowed && self.width() > 1 && self.heard() && self.probe_nonuniform == 0
    }

    /// Creates the file.
    pub open spec fn opened(self) -> State {
        State {
            created: true,
            downmixed: self.one_is_enough(),
            channels_out: if self.one_is_enough() {
                1
            } else {
                self.channels_in
            },
            pending: Seq::empty(),
            ..self
        }
    }

    /// Writes the whole frames of a row of samples.
    pub open spec fn wrote(self, samples: Seq<u32>) -> State {
        let n = frame_count(samples, self.width());
        State {
            frames_written: self.frames_written + n,
            downmix_violations: self.downmix_violations + if self.downmixed {
                apart(samples, self.width(), n)
            } else {
                0
            },
            peak: peak_after(self.peak, kept(samples, self.width(), self.downmixed)),
            ..self
        }
    }

    /// Creates the file and writes what was held back.
    pub open spec fn flushed(self) -> (State, Step) {
        let o = self.opened();
        (
            o.wrote(self.pending),
            Step::Create {
                channels: o.channels_out,
                samples: kept(self.pending, self.width(), o.downmixed),
            },
        )
    }

    /// A chunk comes in.
    pub open spec fn received(self, samples: Seq<u32>, at: u64) -> (State, Step) {
        if samples.len() == 0 {
            (self, Step::Wait)
        } else if self.created {
            (
                self.noted(at).wrote(samples),
                Step::Write { samples: kept(samples, self.width(), self.downmixed) },
            )
        } else if self.noted(at).held(samples).undecided() {
            (self.noted(at).held(samples), Step::Wait)
        } else {
            self.noted(at).held(samples).flushed()
        }
    }

    /// The recording ends.
    pub open spec fn closed(self) -> (State, Step) {
        if self.created {
            (self, Step::Write { samples: Seq::empty() })
        } else {
            self.flushed()
        }
    }
}

/// A recording before its first chunk.
pub open spec fn fresh(rate: nat, channels_in: nat, downmix_allowed: bool) -> State {
    State {
        rate,
        channels_in,
        downmix_allowed,
        created: false,
        downmixed: false,
        channels_out: channels_in,
        frames_written: 0,
        peak: 0,
        downmix_violations: 0,
        drops: Seq::empty(),
        last_lag: None,
        pending: Seq::empty(),
        pending_frames: 0,
        probe_nonsilent: 0,
        probe_nonuniform: 0,
    }
}

pub proof fn lemma_frame_bounds(len: nat, w: nat, i: int)
    requires
        w > 0,
        0 <= i < len / w,
    ensures
        0 <= i * w,
        i * w < (i + 1) * w,
        (i + 1) * w == i * w + w,
        (i + 1) * w <= (len / w) * w <= len,
{
    vstd::arithmetic::div_mod::lemma_fundamental_div_mod(len as int, w as int);
    let n = len / w;
    assert((i + 1) * w == i * w + w) by (nonlinear_arith);
    assert((i + 1) * w <= n * w) by (nonlinear_arith)
        requires
            i + 1 <= n,
            w > 0,
    ;
    assert(n * w == w * n) by (nonlinear_arith);
    assert(0 <= i * w) by (nonlinear_arith)
        requires
            i >= 0,
            w > 0,
    ;
}

fn frame_sounds(f: &[u32]) -> (r: bool)
    ensures
        r == sounds(f@),
{
    for i in 0..f.len()
        invariant
            forall|k: int| 0 <= k < i ==> !is_loud(#[trigger] f@[k]),
    {
        if loud(f[i]) {
            assert(is_loud(f@[i as int]));
            return true;
        }
    }
    false
}

/// Counts the frames that sound, and those among them whose channels differ.
fn probe(samples: &[u32], w: usize) -> (r: (u64, u64))
    requires
        w > 0,
        samples.len() <= u64::MAX,
    ensures
        r.0 == sounding(samples@, w as nat, frame_count(samples@, w as nat)),
        r.1 == sounding_apart(samples@, w as nat, frame_count(samples@, w as nat)),
        r.1 <= r.0 <= frame_count(samples@, w as nat),
{
    let n: usize = samples.len() / w;
    let mut nonsilent: u64 = 0;
    let mut nonuniform: u64 = 0;
    let mut start: usize = 0;
    assert(samples.len() == samples@.len());
    assert(0 * w == 0);
    for i in 0..n
        invariant
            w > 0,
            n == samples@.len() / w as nat,
            samples@.len() <= u64::MAX,
            samples@.len() <= usize::MAX,
            start == i * w,
            nonsilent == sounding(samples@, w as nat, i as nat),
            nonuniform == sounding_apart(samples@, w as nat, i as nat),
            nonuniform <= nonsilent <= i,
    {
        proof {
            lemma_frame_bounds(samples@.len(), w as nat, i as int);
        }
        let f = slice_subrange(samples, start, start + w);
        assert(f@ == frame(samples@, w as nat, i as int));
        if frame_sounds(f) {
            nonsilent = nonsilent + 1;
            if !frame_is_uniform(f) {
                nonuniform = nonuniform + 1;
            }
        }
        start = start + w;
    }
    (nonsilent, nonuniform)
}

impl Recorder {
    /// What every recorder keeps: its counts stay within what has come in, and nothing is
    /// held back once the file exists.
    pub open spec fn wf(&self) -> bool {
        &&& self.rate > 0
        &&& self.downmix_violations <= self.frames_written
        &&& self.probe_nonuniform <= self.probe_nonsilent <= self.pending_frames
        &&& self.frames_written + self.pending@.len() <= u64::MAX
        &&& self.created ==> self.pending@.len() == 0
        &&& self.last_lag matches Some(x) ==> -0x2_0000_0000_0000_0000_0000_0000 <= x
            <= 0x2_0000_0000_0000_0000_0000_0000
    }

    /// Whether the counters can take `n` more samples.
    pub open spec fn room(&self, n: nat) -> bool {
        &&& self.frames_written + self.pending@.len() + n <= u64::MAX
        &&& self.pending_frames + n <= u64::MAX
        &&& self.pending@.len() + n <= usize::MAX
    }

    /// A recorder for a device that delivers `channels_in` channels at `rate` frames per
    /// second.
    pub fn new(rate: u32, channels_in: u16, downmix_allowed: bool) -> (r: Recorder)
        requires
            rate > 0,
        ensures
            r.wf(),
            r@ == fresh(rate as nat, channels_in as nat, downmix_allowed),
    {
        Recorder {
            rate,
            channels_in,
            downmix_allowed,
            created: false,
            downmixed: false,
            channels_out: channels_in,
            frames_written: 0,
            peak: 0,
            downmix_violations: 0,
            drops: Vec::new(),
            last_lag: None,
            pending: Vec::new(),
            pending_frames: 0,
            probe_nonsilent: 0,
            probe_nonuniform: 0,
        }
    }

    /// A recorder for one side of a meeting. What the computer plays is a mixture of which
    /// nobody knows that it is the same on all channels, so that track always keeps them.
    pub fn for_track(rate: u32, channels_in: u16, loopback: bool) -> (r: Recorder)
        requires
            rate > 0,
        ensures
            r.wf(),
            r@ == fresh(rate as nat, channels_in as nat, !loopback),
    {
        Recorder::new(rate, channels_in, !loopback)
    }

    /// Whether the counters can take `n` more samples.
    pub fn has_room(&self, n: usize) -> (r: bool)
        ensures
            r == self.room(n as nat),
    {
        let held: u128 = self.pending.len() as u128 + n as u128;
        self.frames_written as u128 + held <= u64::MAX as u128 && self.pending_frames as u128
            + n as u128 <= u64::MAX as u128 && held <= usize::MAX as u128
    }

    fn channel_width(&self) -> (w: usize)
        ensures
            w == self@.width(),
            w > 0,
    {
        if self.channels_in == 0 {
            1
        } else {
            self.channels_in as usize
        }
    }

    fn note(&mut self, at: u64)
        requires
            old(self).wf(),
        ensures
            final(self).wf(),
            final(self)@ == old(self)@.noted(at),
            final(self).channels_in == old(self).channels_in,
    {
        proof {
            assert(at * self.rate <= 0xffff_ffff_ffff_ffff * 0xffff_ffff) by (nonlinear_arith)
                requires
                    at <= 0xffff_ffff_ffff_ffff,
                    self.rate <= 0xffff_ffff,
            ;
            assert(0 <= at * self.rate) by (nonlinear_arith);
        }
        let held: u64 = if self.created {
            0
        } else {
            self.pending_frames
        };
        let arrived: i128 = self.frames_written as i128 + held as i128;
        let now: i128 = at as i128 * self.rate as i128 - arrived * 1_000_000_000;
        let gap: Option<i128> = match self.last_lag {
            Some(last) => if now - last > 200_000_000 * self.rate as i128 {
                Some(now - last)
            } else {
                None
            },
            None => if now > 0 {
                Some(now)
            } else {
                None
            },
        };
        match gap {
            Some(len) => {
                self.drops.push(Gap { at, len });
            },
            None => {},
        }
        self.last_lag = Some(now);
    }

    fn hold(&mut self, samples: Vec<u32>)
        requires
            old(self).wf(),
            !old(self).created,
            old(self).room(samples@.len()),
        ensures
            final(self).wf(),
            final(self)@ == old(self)@.held(samples@),
    {
        let w = self.channel_width();
        let (nonsilent, nonuniform) = probe(samples.as_slice(), w);
        let frames: usize = samples.len() / w;
        proof {
            vstd::arithmetic::div_mod::lemma_div_is_ordered_by_denominator(
                samples@.len() as int,
                1,
                w as int,
            );
        }
        self.probe_nonsilent = self.probe_nonsilent + nonsilent;
        self.probe_nonuniform = self.probe_nonuniform + nonuniform;
        self.pending_frames = self.pending_frames + frames as u64;
        let mut more = samples;
        self.pending.append(&mut more);
    }

    /// Counts and returns what is written of a row of samples.
    fn write(&mut self, samples: &[u32]) -> (out: Vec<u32>)
        requires
            old(self).wf(),
            old(self).frames_written + old(self).pending@.len() + samples@.len() <= u64::MAX,
        ensures
            final(self).wf(),
            final(self)@ == old(self)@.wrote(samples@),
            out@ == kept(samples@, old(self)@.width(), old(self).downmixed),
    {
        let w = self.channel_width();
        let n: usize = samples.len() / w;
        let mut out: Vec<u32> = Vec::new();
        let mut peak: u32 = self.peak;
        let mut differing: u64 = 0;
        let mut start: usize = 0;
        let downmixed: bool = self.downmixed;
        let ghost whole = kept(samples@, w as nat, downmixed);
        assert(samples@.take(0) =~= Seq::<u32>::empty());
        assert(samples.len() == samples@.len());
        assert(0 * w == 0);
        for i in 0..n
            invariant
                w > 0,
                n == samples@.len() / w as nat,
                samples@.len() <= u64::MAX,
                samples@.len() <= usize::MAX,
                start == i * w,
                differing == if downmixed {
                    apart(samples@, w as nat, i as nat)
                } else {
                    0
                },
                differing <= i,
                out@ == if downmixed {
                    Seq::new(i as nat, |k: int| samples@[k * w])
                } else {
                    samples@.take(i * w)
                },
                peak == peak_after(self.peak, out@),
        {
            proof {
                lemma_frame_bounds(samples@.len(), w as nat, i as int);
            }
            let f = slice_subrange(samples, start, start + w);
            assert(f@ == frame(samples@, w as nat, i as int));
            if downmixed {
                if !frame_is_uniform(f) {
                    differing = differing + 1;
                }
                let ghost before = out@;
                peak = raise(peak, f[0]);
                out.push(f[0]);
                assert(out@.drop_last() == before);
                assert(out@ == Seq::new((i + 1) as nat, |k: int| samples@[k * w]));
            } else {
                for j in 0..w
                    invariant
                        f@.len() == w,
                        0 <= i * w,
                        (i + 1) * w == i * w + w,
                        (i + 1) * w <= samples@.len(),
                        f@ == samples@.subrange(i * w, (i + 1) * w),
                        out@ == samples@.take(i * w + j),
                        peak == peak_after(self.peak, out@),
                {
                    let ghost before = out@;
                    peak = raise(peak, f[j]);
                    out.push(f[j]);
                    assert(out@.drop_last() == before);
                    assert(out@ == samples@.take(i * w + j + 1));
                }
            }
            start = start + w;
        }
        assert(out@ == whole);
        proof {
            vstd::arithmetic::div_mod::lemma_div_is_ordered_by_denominator(
                samples@.len() as int,
                1,
                w as int,
            );
        }
        self.peak = peak;
        self.frames_written = self.frames_written + n as u64;
        self.downmix_violations = self.downmix_violations + differing;
        out
    }

    /// Creates the file and writes what was held back.
    fn flush(&mut self) -> (action: Action)
        requires
            old(self).wf(),
            !old(self).created,
        ensures
            final(self).wf(),
            (final(self)@, action@) == old(self)@.flushed(),
    {
        let heard: bool = self.probe_nonsilent >= (self.rate / 5) as u64;
        let one: bool = self.downmix_allowed && self.channel_width() > 1 && heard
            && self.probe_nonuniform == 0;
        self.created = true;
        self.downmixed = one;
        self.channels_out = if one {
            1
        } else {
            self.channels_in
        };
        let mut held: Vec<u32> = Vec::new();
        held.append(&mut self.pending);
        assert(Seq::<u32>::empty() + old(self).pending@ == old(self).pending@);
        assert(self@ == old(self)@.opened());
        let samples = self.write(held.as_slice());
        Action::Create { channels: self.channels_out, samples }
    }

    /// Takes in one chunk and says what is to be done.
    pub fn receive(&mut self, chunk: Chunk) -> (action: Action)
        requires
            old(self).wf(),
            old(self).room(chunk.samples@.len()),
        ensures
            final(self).wf(),
            (final(self)@, action@) == old(self)@.received(chunk.samples@, chunk.at),
    {
        if chunk.samples.len() == 0 {
            return Action::Wait;
        }
        self.note(chunk.at);
        if self.created {
            let samples = self.write(chunk.samples.as_slice());
            Action::Write { samples }
        } else {
            self.hold(chunk.samples);
            let enough: bool = self.probe_nonsilent >= (self.rate / 5) as u64
                && self.pending_frames >= self.rate as u64 * 2;
            if !enough && self.pending_frames < self.rate as u64 * 5 {
                Action::Wait
            } else {
                self.flush()
            }
        }
    }

    /// Ends the recording: a file that does not exist yet is created even where nothing
    /// came in.
    pub fn close(&mut self) -> (action: Action)
        requires
            old(self).wf(),
        ensures
            final(self).wf(),
            final(self).created,
            (final(self)@, action@) == old(self)@.closed(),
    {
        if self.created {
            Action::Write { samples: Vec::new() }
        } else {
            self.flush()
        }
    }
}

/// A recorder, seen as numbers and sequences, is as it is.
pub proof fn law_recorder_is_seen_as_it_is(r: Recorder)
    ensures
        r@.rate == r.rate && r@.channels_in == r.channels_in,
        r@.downmix_allowed == r.downmix_allowed && r@.created == r.created,
        r@.downmixed == r.downmixed && r@.channels_out == r.channels_out,
        r@.frames_written == r.frames_written && r@.peak == r.peak,
        r@.downmix_violations == r.downmix_violations && r@.drops == r.drops@,
        r@.pending == r.pending@ && r@.pending_frames == r.pending_frames,
        r@.probe_nonsilent == r.probe_nonsilent && r@.probe_nonuniform == r.probe_nonuniform,
        r.last_lag is None ==> r@.last_lag is None,
        r.last_lag matches Some(x) ==> r@.last_lag == Some(x as int),
{
}

/// What is to be done is seen as it is: the samples and the channels.
pub proof fn law_action_is_seen_as_it_is(a: Action)
    ensures
        a is Wait <==> a@ is Wait,
        a matches Action::Create { channels, samples } ==> a@ == (Step::Create {
            channels: channels as nat,
            samples: samples@,
        }),
        a matches Action::Write { samples } ==> a@ == (Step::Write { samples: samples@ }),
{
}

/// There is room for everything that can be counted and held.
pub proof fn law_room_is_what_can_be_counted(r: Recorder, n: nat)
    ensures
        r.room(n) <==> r.frames_written + r.pending@.len() + n <= u64::MAX && r.pending_frames + n
            <= u64::MAX && r.pending@.len() + n <= usize::MAX,
{
}

/// A recording starts with nothing: no file, no frames, no gaps, nothing held back.
pub proof fn law_a_recording_starts_with_nothing(
    rate: nat,
    channels_in: nat,
    downmix_allowed: bool,
)
    ensures
        ({
            let s = fresh(rate, channels_in, downmix_allowed);
            &&& s.rate == rate && s.channels_in == channels_in
            &&& s.downmix_allowed == downmix_allowed
            &&& !s.created && !s.downmixed && s.frames_written == 0 && s.peak == 0
            &&& s.downmix_violations == 0 && s.drops.len() == 0 && s.last_lag is None
            &&& s.pending.len() == 0 && s.pending_frames == 0
            &&& s.probe_nonsilent == 0 && s.probe_nonuniform == 0
        }),
{
}

} // verus!
