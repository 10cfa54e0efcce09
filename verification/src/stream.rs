//! One running input stream: how it is opened, and what its callbacks leave behind.

use crate::decimal::{ratio_text, seconds_fixed};
use crate::text::{decimal, decimal_text, pad_left, padded};
use crate::track::Speaker;
use vstd::prelude::*;

verus! {

/// How far the opening of a stream has come.
#[derive(Clone, Copy, Debug, PartialEq, Eq, Structural)]
pub enum Opening {
    /// To be opened with a buffer of this many frames.
    Long(u32),
    /// To be opened with the default buffer.
    Default,
    /// Open; the frames asked for, zero for the default.
    Open(u32),
    /// It cannot be opened.
    Failed,
}

impl Opening {
    /// The first attempt: a buffer of one second, which delays nothing and leaves time
    /// before samples are lost.
    pub fn start(rate: u32) -> (r: Opening)
        ensures
            r == Opening::Long(rate),
    {
        Opening::Long(rate)
    }

    /// What comes of an attempt: where the long buffer does not go, the default does.
    pub fn after(self, opened: bool) -> (r: Opening)
        ensures
            r == match self {
                Opening::Long(n) => if opened {
                    Opening::Open(n)
                } else {
                    Opening::Default
                },
                Opening::Default => if opened {
                    Opening::Open(0)
                } else {
                    Opening::Failed
                },
                _ => self,
            },
    {
        match self {
            Opening::Long(n) => if opened {
                Opening::Open(n)
            } else {
                Opening::Default
            },
            Opening::Default => if opened {
                Opening::Open(0)
            } else {
                Opening::Failed
            },
            _ => self,
        }
    }
}

/// What has come in on a stream. Times are nanoseconds from the start of the recording.
pub struct Arrivals {
    pub channels: u16,
    /// The frames delivered.
    pub frames: u64,
    /// When the first samples came.
    pub first_data: Option<u64>,
    /// When samples were lost.
    pub underruns: Vec<u64>,
    /// The frames delivered, once a second.
    pub timeline: Vec<(u64, u64)>,
}

/// The frames in a row of samples; a stream without channels counts samples.
pub open spec fn frames_in(samples: nat, channels: u16) -> nat {
    samples / (if channels == 0 {
        1
    } else {
        channels as nat
    })
}

/// What has come in on a stream, over numbers and sequences.
pub struct Seen {
    pub channels: u16,
    pub frames: nat,
    pub first_data: Option<u64>,
    pub underruns: Seq<u64>,
    pub timeline: Seq<(u64, u64)>,
}

impl View for Arrivals {
    type V = Seen;

    open spec fn view(&self) -> Seen {
        Seen {
            channels: self.channels,
            frames: self.frames as nat,
            first_data: self.first_data,
            underruns: self.underruns@,
            timeline: self.timeline@,
        }
    }
}

/// A stream before anything has come in.
pub open spec fn nothing_seen(channels: u16) -> Seen {
    Seen {
        channels,
        frames: 0,
        first_data: None,
        underruns: Seq::empty(),
        timeline: Seq::empty(),
    }
}

impl Seen {
    /// After a packet of samples. An empty one leaves no trace; the count of frames wraps
    /// around.
    pub open spec fn delivered(self, at: u64, samples: nat) -> Seen {
        if samples == 0 {
            self
        } else {
            Seen {
                frames: (self.frames + frames_in(samples, self.channels)) % 0x1_0000_0000_0000_0000,
                first_data: match self.first_data {
                    Some(t) => Some(t),
                    None => Some(at),
                },
                ..self
            }
        }
    }

    /// After a loss of samples.
    pub open spec fn lost(self, at: u64) -> Seen {
        Seen { underruns: self.underruns.push(at), ..self }
    }

    /// After the frames have been written down.
    pub open spec fn ticked(self, at: u64) -> Seen {
        Seen { timeline: self.timeline.push((at, self.frames as u64)), ..self }
    }
}

impl Arrivals {
    pub fn new(channels: u16) -> (r: Arrivals)
        ensures
            r@ == nothing_seen(channels),
    {
        Arrivals {
            channels,
            frames: 0,
            first_data: None,
            underruns: Vec::new(),
            timeline: Vec::new(),
        }
    }

    /// Takes note of a packet of samples, and tells whether there is anything to hand on.
    pub fn delivered(&mut self, at: u64, samples: usize) -> (r: bool)
        ensures
            r == (samples > 0),
            final(self)@ == old(self)@.delivered(at, samples as nat),
    {
        if samples == 0 {
            return false;
        }
        if self.first_data.is_none() {
            self.first_data = Some(at);
        }
        let width: usize = if self.channels == 0 {
            1
        } else {
            self.channels as usize
        };
        let n: usize = samples / width;
        self.frames = self.frames.wrapping_add(n as u64);
        true
    }

    /// Takes note of lost samples, and tells whether it is the first time.
    pub fn lost(&mut self, at: u64) -> (r: bool)
        ensures
            r == (old(self)@.underruns.len() == 0),
            final(self)@ == old(self)@.lost(at),
    {
        let first = self.underruns.len() == 0;
        self.underruns.push(at);
        first
    }

    /// Takes note of the frames delivered so far, and returns them.
    pub fn tick(&mut self, at: u64) -> (r: u64)
        ensures
            r == old(self)@.frames,
            final(self)@ == old(self)@.ticked(at),
    {
        let n = self.frames;
        self.timeline.push((at, n));
        n
    }
}

/// What can happen on a stream.
pub enum Event {
    Packet { at: u64, samples: nat },
    Loss { at: u64 },
    Tick { at: u64 },
}

impl Event {
    /// Whether samples come in.
    pub open spec fn brings_data(self) -> bool {
        self matches Event::Packet { samples, .. } && samples > 0
    }

    pub open spec fn time(self) -> u64 {
        match self {
            Event::Packet { at, .. } => at,
            Event::Loss { at } => at,
            Event::Tick { at } => at,
        }
    }
}

/// A stream after a row of events.
pub open spec fn seen_after(channels: u16, events: Seq<Event>) -> Seen
    decreases events.len(),
{
    if events.len() == 0 {
        nothing_seen(channels)
    } else {
        let s = seen_after(channels, events.drop_last());
        match events.last() {
            Event::Packet { at, samples } => s.delivered(at, samples),
            Event::Loss { at } => s.lost(at),
            Event::Tick { at } => s.ticked(at),
        }
    }
}

/// The frames of all packets.
pub open spec fn frames_of(channels: u16, events: Seq<Event>) -> nat
    decreases events.len(),
{
    if events.len() == 0 {
        0
    } else {
        frames_of(channels, events.drop_last()) + match events.last() {
            Event::Packet { samples, .. } => frames_in(samples, channels),
            _ => 0,
        }
    }
}

/// The times of all losses.
pub open spec fn losses_of(events: Seq<Event>) -> Seq<u64>
    decreases events.len(),
{
    if events.len() == 0 {
        Seq::empty()
    } else {
        match events.last() {
            Event::Loss { at } => losses_of(events.drop_last()).push(at),
            _ => losses_of(events.drop_last()),
        }
    }
}

/// What a row of events leaves behind: the frames of all packets, each loss with its time,
/// and the time of the first packet that is not empty.
pub proof fn law_events_add_up(channels: u16, events: Seq<Event>)
    ensures
        ({
            let s = seen_after(channels, events);
            &&& s.channels == channels
            &&& s.frames == frames_of(channels, events) % 0x1_0000_0000_0000_0000
            &&& s.underruns == losses_of(events)
            &&& match s.first_data {
                Some(at) => exists|k: int|
                    0 <= k < events.len() && (#[trigger] events[k]).brings_data()
                        && events[k].time() == at && forall|j: int|
                        0 <= j < k ==> !(#[trigger] events[j]).brings_data(),
                None => forall|j: int|
                    0 <= j < events.len() ==> !(#[trigger] events[j]).brings_data(),
            }
        }),
    decreases events.len(),
{
    if events.len() > 0 {
        let front = events.drop_last();
        law_events_add_up(channels, front);
        let before = seen_after(channels, front);
        let n = events.len() - 1;
        assert forall|j: int| 0 <= j < n implies #[trigger] events[j] == front[j] by {}
        match before.first_data {
            Some(at) => {
                let k = choose|k: int|
                    0 <= k < front.len() && (#[trigger] front[k]).brings_data()
                        && front[k].time() == at && forall|j: int|
                        0 <= j < k ==> !(#[trigger] front[j]).brings_data();
                assert(events[k].brings_data());
                assert forall|j: int| 0 <= j < k implies !(#[trigger] events[j]).brings_data() by {
                    assert(events[j] == front[j]);
                }
            },
            None => {
                assert forall|j: int| 0 <= j < n implies !(
                #[trigger] events[j]).brings_data() by {
                    assert(events[j] == front[j]);
                }
                if events.last().brings_data() {
                    assert(events[n].brings_data());
                }
            },
        }
        match events.last() {
            Event::Packet { at, samples } => {
                assert(frames_in(0, channels) == 0) by (nonlinear_arith);
            },
            _ => {},
        }
    }
}

/// As time goes on, the first time stays, and the count of frames does not fall until it
/// wraps around.
pub proof fn law_arrivals_only_grow(channels: u16, events: Seq<Event>, k: int)
    requires
        0 <= k <= events.len(),
    ensures
        ({
            let early = seen_after(channels, events.take(k));
            let late = seen_after(channels, events);
            &&& early.first_data is Some ==> late.first_data == early.first_data
            &&& frames_of(channels, events.take(k)) <= frames_of(channels, events)
            &&& frames_of(channels, events) <= u64::MAX ==> early.frames <= late.frames
        }),
    decreases events.len(),
{
    if k == events.len() {
        assert(events.take(k) =~= events);
    } else {
        let front = events.drop_last();
        assert(front.take(k) =~= events.take(k));
        law_arrivals_only_grow(channels, front, k);
    }
    law_events_add_up(channels, events);
    law_events_add_up(channels, events.take(k));
}

/// Announces a track: the device, its format, and the file.
pub fn opening_text(
    speaker: Speaker,
    device: &str,
    rate: u32,
    channels: u16,
    format: &str,
    path: &str,
) -> (r: String)
    ensures
        r@ == "  ["@ + speaker.name() + "] "@ + device@ + "\n          "@ + decimal(rate as nat)
            + " Hz / "@ + decimal(channels as nat) + " ch / "@ + format@ + " → "@ + path@ + "\n"@,
{
    let mut r = "  [".to_string();
    r.append(speaker.label());
    r.append("] ");
    r.append(device);
    r.append("\n          ");
    r.append(decimal_text(rate as u128).as_str());
    r.append(" Hz / ");
    r.append(decimal_text(channels as u128).as_str());
    r.append(" ch / ");
    r.append(format);
    r.append(" → ");
    r.append(path);
    r.append("\n");
    r
}

/// Tells of the first loss of samples.
pub fn loss_text(speaker: Speaker, at: u64, what: &str) -> (r: String)
    ensures
        r@ == "  !! ["@ + speaker.name() + "] 録音エラー ("@ + ratio_text(
            at as int,
            1_000_000_000,
            2,
        ) + "秒): "@ + what@ + "\n"@,
{
    let mut r = "  !! [".to_string();
    r.append(speaker.label());
    r.append("] 録音エラー (");
    r.append(seconds_fixed(at as i128, 2).as_str());
    r.append("秒): ");
    r.append(what);
    r.append("\n");
    r
}

/// The frames of a track in a column; a dash where there is no track.
pub open spec fn frames_column(frames: Option<u64>) -> Seq<char> {
    match frames {
        Some(n) => padded(decimal(n as nat), 10, ' '),
        None => padded("-"@, 10, ' '),
    }
}

/// What is told once a second: the time and the frames of both tracks.
pub fn tick_line(at: u64, me: Option<u64>, other: u64) -> (r: String)
    ensures
        r@ == "  "@ + padded(ratio_text(at as int, 1_000_000_000, 1), 7, ' ') + "秒  自分 "@
            + frames_column(me) + "  相手 "@ + frames_column(Some(other)) + "\n"@,
{
    let mut r = "  ".to_string();
    r.append(pad_left(seconds_fixed(at as i128, 1).as_str(), 7, ' ').as_str());
    r.append("秒  自分 ");
    match me {
        Some(n) => r.append(pad_left(decimal_text(n as u128).as_str(), 10, ' ').as_str()),
        None => r.append(pad_left("-", 10, ' ').as_str()),
    }
    r.append("  相手 ");
    r.append(pad_left(decimal_text(other as u128).as_str(), 10, ' ').as_str());
    r.append("\n");
    r
}

/// Whether a recording goes on after `ticks` seconds.
pub fn keeps_going(running: bool, secs: Option<u64>, ticks: u64) -> (r: bool)
    ensures
        r == (running && match secs {
            Some(n) => ticks < n,
            None => true,
        }),
{
    running && match secs {
        Some(n) => ticks < n,
        None => true,
    }
}

/// The frames of a packet are as many as its samples make up, one sample to a channel; a stream
/// without channels counts each sample as one.
pub proof fn law_frames_make_up_the_packet(samples: nat, channels: u16)
    ensures
        ({
            let n = frames_in(samples, channels);
            &&& channels > 0 ==> n * channels <= samples < (n + 1) * channels
            &&& channels == 0 ==> n == samples
        }),
{
    if channels > 0 {
        let n = frames_in(samples, channels);
        let c = channels as int;
        vstd::arithmetic::div_mod::lemma_fundamental_div_mod(samples as int, c);
        assert(n * c <= samples && samples < (n + 1) * c) by (nonlinear_arith)
            requires
                samples == c * n + samples % (c as nat),
                0 <= samples % (c as nat) < c,
        ;
    }
}

/// Once a second, and only then, the time and the frames so far are written down.
pub proof fn law_every_second_is_written_down(channels: u16, events: Seq<Event>, e: Event)
    ensures
        ({
            let before = seen_after(channels, events);
            let after = seen_after(channels, events.push(e));
            &&& e matches Event::Tick { at } ==> after.timeline == before.timeline.push(
                (at, before.frames as u64),
            ) && after.frames == before.frames
            &&& !(e is Tick) ==> after.timeline == before.timeline
        }),
{
    assert(events.push(e).drop_last() =~= events);
}

/// What has come in is seen as it is, and before anything comes in there is nothing.
pub proof fn law_arrivals_are_seen_as_they_are(a: Arrivals, channels: u16)
    ensures
        a@.channels == a.channels && a@.frames == a.frames && a@.first_data == a.first_data,
        a@.underruns == a.underruns@ && a@.timeline == a.timeline@,
        nothing_seen(channels).channels == channels && nothing_seen(channels).frames == 0,
        nothing_seen(channels).first_data is None,
        nothing_seen(channels).underruns.len() == 0 && nothing_seen(channels).timeline.len() == 0,
{
}

/// The frames stand at the right of a column of ten, whole even where they need more.
pub proof fn law_columns_are_right_aligned(n: u64)
    ensures
        ({
            let c = frames_column(Some(n));
            let d = decimal(n as nat);
            &&& c.len() >= 10 && c.skip(c.len() - d.len()) == d
            &&& forall|i: int| 0 <= i < c.len() - d.len() ==> (#[trigger] c[i]) == ' '
        }),
        frames_column(None).len() == 10 && frames_column(None)[9] == '-',
{
    reveal_strlit("-");
    let c = frames_column(Some(n));
    let d = decimal(n as nat);
    assert(c.skip(c.len() - d.len()) =~= d);
}

} // verus!
