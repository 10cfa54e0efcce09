//! What holds of a whole recording, from its first chunk to its end.

use crate::recorder::{
    apart, frame, frame_count, fresh, kept, lemma_frame_bounds, peak_after, width, State, Step,
};
use crate::sample::{pcm, quantise, same_value, uniform};
use crate::stream::{frames_in, frames_of, law_events_add_up, seen_after, Event};
use vstd::arithmetic::div_mod::{
    lemma_div_by_multiple, lemma_fundamental_div_mod, lemma_fundamental_div_mod_converse,
};
use vstd::prelude::*;

verus! {

/// The samples that a step writes.
pub open spec fn output(step: Step) -> Seq<u32> {
    match step {
        Step::Wait => Seq::empty(),
        Step::Create { samples, .. } => samples,
        Step::Write { samples } => samples,
    }
}

/// A recorder after a row of chunks, each with its time of arrival, and all that has been
/// written.
pub open spec fn run(start: State, chunks: Seq<(Seq<u32>, u64)>) -> (State, Seq<u32>)
    decreases chunks.len(),
{
    if chunks.len() == 0 {
        (start, Seq::empty())
    } else {
        let (before, out) = run(start, chunks.drop_last());
        let (after, step) = before.received(chunks.last().0, chunks.last().1);
        (after, out + output(step))
    }
}

/// The same, once the recording has ended.
pub open spec fn finished(start: State, chunks: Seq<(Seq<u32>, u64)>) -> (State, Seq<u32>) {
    let (before, out) = run(start, chunks);
    let (after, step) = before.closed();
    (after, out + output(step))
}

/// All samples that came in, in order.
pub open spec fn all_samples(chunks: Seq<(Seq<u32>, u64)>) -> Seq<u32>
    decreases chunks.len(),
{
    if chunks.len() == 0 {
        Seq::empty()
    } else {
        all_samples(chunks.drop_last()) + chunks.last().0
    }
}

/// Whether every chunk holds whole frames, as an audio callback delivers them.
pub open spec fn whole_frames(chunks: Seq<(Seq<u32>, u64)>, w: nat) -> bool {
    forall|i: int| 0 <= i < chunks.len() ==> (#[trigger] chunks[i]).0.len() % w == 0
}

pub proof fn lemma_aligned(a: nat, b: nat, w: nat)
    requires
        w > 0,
        a % w == 0,
    ensures
        (a + b) / w == a / w + b / w,
        (a + b) % w == b % w,
        a / w * w == a,
{
    lemma_fundamental_div_mod(a as int, w as int);
    lemma_fundamental_div_mod(b as int, w as int);
    let q = a / w;
    let p = b / w;
    assert(a + b == (q + p) * w + b % w) by (nonlinear_arith)
        requires
            a == w * q + 0,
            b == w * p + b % w,
    ;
    assert(q * w == w * q) by (nonlinear_arith);
    lemma_fundamental_div_mod_converse((a + b) as int, w as int, (q + p) as int, (b % w) as int);
}

pub proof fn lemma_frame_left(a: Seq<u32>, b: Seq<u32>, w: nat, i: int)
    requires
        w > 0,
        0 <= i < frame_count(a, w),
    ensures
        frame(a + b, w, i) == frame(a, w, i),
        (a + b)[i * w] == a[i * w],
{
    lemma_frame_bounds(a.len(), w, i);
    assert(frame(a + b, w, i) =~= frame(a, w, i));
}

pub proof fn lemma_frame_right(a: Seq<u32>, b: Seq<u32>, w: nat, i: int)
    requires
        w > 0,
        a.len() % w == 0,
        0 <= i < frame_count(b, w),
    ensures
        frame(a + b, w, frame_count(a, w) + i) == frame(b, w, i),
        (a + b)[(frame_count(a, w) + i) * w] == b[i * w],
{
    lemma_aligned(a.len(), b.len(), w);
    lemma_frame_bounds(b.len(), w, i);
    let n = frame_count(a, w) as int;
    assert((n + i) * w == n * w + i * w) by (nonlinear_arith);
    assert((n + i + 1) * w == n * w + (i + 1) * w) by (nonlinear_arith);
    assert(frame(a + b, w, n + i) =~= frame(b, w, i));
}

/// What is kept of two rows, the first of whole frames, is what is kept of each.
proof fn lemma_kept_joins(a: Seq<u32>, b: Seq<u32>, w: nat, downmixed: bool)
    requires
        w > 0,
        a.len() % w == 0,
    ensures
        kept(a + b, w, downmixed) == kept(a, w, downmixed) + kept(b, w, downmixed),
        frame_count(a + b, w) == frame_count(a, w) + frame_count(b, w),
{
    lemma_aligned(a.len(), b.len(), w);
    let whole = kept(a + b, w, downmixed);
    let parts = kept(a, w, downmixed) + kept(b, w, downmixed);
    let n = frame_count(a, w) as int;
    let m = frame_count(b, w) as int;
    if downmixed {
        assert forall|i: int| 0 <= i < n + m implies whole[i] == parts[i] by {
            if i < n {
                lemma_frame_left(a, b, w, i);
            } else {
                lemma_frame_right(a, b, w, i - n);
            }
        }
    } else {
        assert((n + m) * w == n * w + m * w) by (nonlinear_arith);
        lemma_fundamental_div_mod(b.len() as int, w as int);
        assert(m * w <= b.len()) by (nonlinear_arith)
            requires
                b.len() == w * m + b.len() % w,
                b.len() % w >= 0,
        ;
        assert(0 <= m * w) by (nonlinear_arith)
            requires
                m >= 0,
                w > 0,
        ;
    }
    assert(whole =~= parts);
}

proof fn lemma_apart_left(a: Seq<u32>, b: Seq<u32>, w: nat, n: nat)
    requires
        w > 0,
        n <= frame_count(a, w),
    ensures
        apart(a + b, w, n) == apart(a, w, n),
    decreases n,
{
    if n > 0 {
        lemma_apart_left(a, b, w, (n - 1) as nat);
        lemma_frame_left(a, b, w, n - 1);
    }
}

proof fn lemma_apart_joins(a: Seq<u32>, b: Seq<u32>, w: nat, m: nat)
    requires
        w > 0,
        a.len() % w == 0,
        m <= frame_count(b, w),
    ensures
        apart(a + b, w, frame_count(a, w) + m) == apart(a, w, frame_count(a, w)) + apart(b, w, m),
    decreases m,
{
    if m == 0 {
        lemma_apart_left(a, b, w, frame_count(a, w));
    } else {
        lemma_apart_joins(a, b, w, (m - 1) as nat);
        lemma_frame_right(a, b, w, m - 1);
        let n = frame_count(a, w);
        assert((n + m - 1) as nat == n + (m - 1) as nat);
    }
}

proof fn lemma_peak_joins(peak: u32, a: Seq<u32>, b: Seq<u32>)
    ensures
        peak_after(peak, a + b) == peak_after(peak_after(peak, a), b),
    decreases b.len(),
{
    if b.len() == 0 {
        assert(a + b =~= a);
    } else {
        lemma_peak_joins(peak, a, b.drop_last());
        assert((a + b).drop_last() =~= a + b.drop_last());
    }
}

/// What is known of a recorder while chunks of whole frames come in.
spec fn accounts(s: State, out: Seq<u32>, all: Seq<u32>) -> bool {
    let w = s.width();
    if s.created {
        &&& out == kept(all, w, s.downmixed)
        &&& s.frames_written == frame_count(all, w)
        &&& s.peak == peak_after(0, out)
        &&& s.downmix_violations == if s.downmixed {
            apart(all, w, frame_count(all, w))
        } else {
            0
        }
    } else {
        &&& out.len() == 0
        &&& s.pending == all
        &&& s.frames_written == 0
        &&& s.peak == 0
        &&& s.downmix_violations == 0
    }
}

proof fn lemma_flush_accounts(s: State, all: Seq<u32>)
    requires
        !s.created,
        accounts(s, Seq::empty(), all),
    ensures
        accounts(s.flushed().0, output(s.flushed().1), all),
        s.flushed().0.created,
{
}

proof fn lemma_run_accounts(start: State, chunks: Seq<(Seq<u32>, u64)>)
    requires
        start == fresh(start.rate, start.channels_in, start.downmix_allowed),
        whole_frames(chunks, start.width()),
    ensures
        accounts(run(start, chunks).0, run(start, chunks).1, all_samples(chunks)),
        run(start, chunks).0.channels_in == start.channels_in,
        all_samples(chunks).len() % start.width() == 0,
    decreases chunks.len(),
{
    let w = start.width();
    if chunks.len() == 0 {
        assert(0nat % w == 0) by (nonlinear_arith)
            requires
                w > 0,
        ;
    } else {
        let front = chunks.drop_last();
        assert forall|i: int| 0 <= i < front.len() implies (#[trigger] front[i]).0.len() % w
            == 0 by {
            assert(front[i] == chunks[i]);
        }
        lemma_run_accounts(start, front);
        let (s, out) = run(start, front);
        let (samples, at) = chunks.last();
        let all = all_samples(front);
        assert(chunks[chunks.len() - 1].0.len() % w == 0);
        lemma_aligned(all.len(), samples.len(), w);
        if samples.len() == 0 {
            assert(all + samples =~= all);
            assert(out + Seq::<u32>::empty() =~= out);
        } else if s.created {
            lemma_kept_joins(all, samples, w, s.downmixed);
            lemma_apart_joins(all, samples, w, frame_count(samples, w));
            lemma_peak_joins(0, out, kept(samples, w, s.downmixed));
        } else {
            let h = s.noted(at).held(samples);
            assert(accounts(h, Seq::empty(), all + samples));
            assert(out =~= Seq::empty());
            if h.undecided() {
                assert(out + Seq::<u32>::empty() =~= out);
            } else {
                lemma_flush_accounts(h, all + samples);
                assert(out + output(h.flushed().1) =~= output(h.flushed().1));
            }
        }
    }
}

/// Nothing is lost: where chunks of whole frames come in, the file ends up with all that
/// came in, or with the first channel of every frame; and the counts reported are those of
/// what came in.
pub proof fn law_everything_is_written(
    rate: nat,
    channels_in: nat,
    downmix_allowed: bool,
    chunks: Seq<(Seq<u32>, u64)>,
)
    requires
        whole_frames(chunks, width(channels_in)),
    ensures
        ({
            let (end, out) = finished(fresh(rate, channels_in, downmix_allowed), chunks);
            let all = all_samples(chunks);
            let w = width(channels_in);
            &&& end.created
            &&& end.downmixed ==> out == Seq::new(all.len() / w, |i: int| all[i * w])
            &&& !end.downmixed ==> out == all
            &&& end.frames_written == all.len() / w
            &&& end.peak == peak_after(0, out)
            &&& end.downmix_violations == if end.downmixed {
                apart(all, w, all.len() / w)
            } else {
                0
            }
        }),
{
    let start = fresh(rate, channels_in, downmix_allowed);
    let w = width(channels_in);
    lemma_run_accounts(start, chunks);
    let (s, out) = run(start, chunks);
    let all = all_samples(chunks);
    if s.created {
        assert(out + Seq::<u32>::empty() =~= out);
    } else {
        assert(out =~= Seq::empty());
        lemma_flush_accounts(s, all);
        assert(out + output(s.flushed().1) =~= output(s.flushed().1));
    }
    lemma_aligned(all.len(), 0, w);
    assert(all.take(all.len() as int) =~= all);
}

proof fn lemma_none_apart(samples: Seq<u32>, w: nat, n: nat, i: int)
    requires
        apart(samples, w, n) == 0,
        0 <= i < n,
    ensures
        uniform(frame(samples, w, i)),
    decreases n,
{
    if i < n - 1 {
        lemma_none_apart(samples, w, (n - 1) as nat, i);
    }
}

/// Dropping to one channel loses nothing where no violation is counted: every channel of
/// every frame has the value that was written for the frame.
pub proof fn law_clean_downmix_loses_nothing(
    rate: nat,
    channels_in: nat,
    downmix_allowed: bool,
    chunks: Seq<(Seq<u32>, u64)>,
    i: int,
    c: int,
)
    requires
        whole_frames(chunks, width(channels_in)),
        finished(fresh(rate, channels_in, downmix_allowed), chunks).0.downmixed,
        finished(fresh(rate, channels_in, downmix_allowed), chunks).0.downmix_violations == 0,
        0 <= i < all_samples(chunks).len() / width(channels_in),
        0 < c < width(channels_in),
    ensures
        ({
            let out = finished(fresh(rate, channels_in, downmix_allowed), chunks).1;
            let all = all_samples(chunks);
            i < out.len() && same_value(out[i], all[i * width(channels_in) + c])
        }),
{
    law_everything_is_written(rate, channels_in, downmix_allowed, chunks);
    let all = all_samples(chunks);
    let w = width(channels_in);
    let n = all.len() / w;
    lemma_none_apart(all, w, n, i);
    let f = frame(all, w, i);
    lemma_fundamental_div_mod(all.len() as int, w as int);
    assert(0 <= i * w && (i + 1) * w == i * w + w && (i + 1) * w <= all.len()) by (nonlinear_arith)
        requires
            0 <= i < n,
            all.len() == w * n + all.len() % w,
            all.len() % w >= 0,
            w > 0,
    ;
    assert(f.len() == w);
    assert(f[0] == all[i * w]);
    assert(f[c] == all[i * w + c]);
}

/// A track that may not be dropped to one channel keeps its channels, whatever it carries;
/// so does a track with a single channel.
pub proof fn law_channels_are_kept(
    rate: nat,
    channels_in: nat,
    downmix_allowed: bool,
    chunks: Seq<(Seq<u32>, u64)>,
)
    requires
        !downmix_allowed || channels_in <= 1,
    ensures
        !finished(fresh(rate, channels_in, downmix_allowed), chunks).0.downmixed,
        finished(fresh(rate, channels_in, downmix_allowed), chunks).0.channels_out == channels_in,
        finished(fresh(rate, channels_in, downmix_allowed), chunks).0.downmix_violations == 0,
{
    let start = fresh(rate, channels_in, downmix_allowed);
    lemma_channels_kept(start, chunks);
}

/// The 16-bit samples for a row of bit patterns.
pub open spec fn all_pcm(samples: Seq<u32>) -> Seq<i16> {
    Seq::new(samples.len(), |i: int| pcm(samples[i]) as i16)
}

/// Quantises a row of samples.
pub fn quantise_all(samples: &[u32]) -> (r: Vec<i16>)
    ensures
        r@ == all_pcm(samples@),
{
    let mut r: Vec<i16> = Vec::new();
    for i in 0..samples.len()
        invariant
            r@ == all_pcm(samples@).take(i as int),
    {
        r.push(quantise(samples[i]));
        assert(r@ =~= all_pcm(samples@).take(i + 1));
    }
    assert(r@ =~= all_pcm(samples@));
    r
}

/// A track that may not be dropped to one channel is copied: the file holds what came in,
/// sample by sample, however the sound was cut into chunks, and the peak is that of what came
/// in.
pub proof fn law_track_is_copied(
    rate: nat,
    channels_in: nat,
    downmix_allowed: bool,
    chunks: Seq<(Seq<u32>, u64)>,
    cut_otherwise: Seq<(Seq<u32>, u64)>,
)
    requires
        !downmix_allowed || channels_in <= 1,
        whole_frames(chunks, width(channels_in)),
        whole_frames(cut_otherwise, width(channels_in)),
        all_samples(chunks) == all_samples(cut_otherwise),
    ensures
        ({
            let (end, out) = finished(fresh(rate, channels_in, downmix_allowed), chunks);
            let (end2, out2) = finished(fresh(rate, channels_in, downmix_allowed), cut_otherwise);
            &&& !end.downmixed && end.downmix_violations == 0 && end.channels_out == channels_in
            &&& out == all_samples(chunks)
            &&& all_pcm(out) == all_pcm(all_samples(chunks))
            &&& end.peak == peak_after(0, all_samples(chunks))
            &&& out2 == out
            &&& end2.peak == end.peak && end2.frames_written == end.frames_written
        }),
{
    law_everything_is_written(rate, channels_in, downmix_allowed, chunks);
    law_channels_are_kept(rate, channels_in, downmix_allowed, chunks);
    law_everything_is_written(rate, channels_in, downmix_allowed, cut_otherwise);
    law_channels_are_kept(rate, channels_in, downmix_allowed, cut_otherwise);
}

/// The deliveries of a stream as events.
pub open spec fn packets(chunks: Seq<(Seq<u32>, u64)>) -> Seq<Event> {
    Seq::new(
        chunks.len(),
        |i: int| Event::Packet { at: chunks[i].1, samples: chunks[i].0.len() },
    )
}

/// The deliveries that are handed on: those that are not empty.
pub open spec fn handed_on(chunks: Seq<(Seq<u32>, u64)>) -> Seq<(Seq<u32>, u64)>
    decreases chunks.len(),
{
    if chunks.len() == 0 {
        Seq::empty()
    } else if chunks.last().0.len() == 0 {
        handed_on(chunks.drop_last())
    } else {
        handed_on(chunks.drop_last()).push(chunks.last())
    }
}

/// A recorder makes the same of what is handed on as it would of everything.
pub proof fn law_empty_chunks_leave_no_trace(start: State, chunks: Seq<(Seq<u32>, u64)>)
    ensures
        run(start, handed_on(chunks)) == run(start, chunks),
        all_samples(handed_on(chunks)) == all_samples(chunks),
    decreases chunks.len(),
{
    if chunks.len() > 0 {
        let front = chunks.drop_last();
        law_empty_chunks_leave_no_trace(start, front);
        if chunks.last().0.len() == 0 {
            let out = run(start, front).1;
            assert(out + Seq::<u32>::empty() =~= out);
            assert(all_samples(front) + chunks.last().0 =~= all_samples(front));
        } else {
            let more = handed_on(chunks);
            assert(more.drop_last() =~= handed_on(front));
            assert(more.last() == chunks.last());
        }
    }
}

proof fn lemma_packet_frames(channels: u16, chunks: Seq<(Seq<u32>, u64)>)
    requires
        whole_frames(chunks, width(channels as nat)),
    ensures
        all_samples(chunks).len() == frames_of(channels, packets(chunks)) * width(
            channels as nat,
        ),
    decreases chunks.len(),
{
    let w = width(channels as nat);
    if chunks.len() == 0 {
        assert(0 * w == 0) by (nonlinear_arith);
    } else {
        let front = chunks.drop_last();
        assert forall|i: int| 0 <= i < front.len() implies (#[trigger] front[i]).0.len() % w
            == 0 by {
            assert(front[i] == chunks[i]);
        }
        lemma_packet_frames(channels, front);
        assert(packets(chunks).drop_last() =~= packets(front));
        let samples = chunks.last().0;
        assert(chunks[chunks.len() - 1].0.len() % w == 0);
        lemma_fundamental_div_mod(samples.len() as int, w as int);
        let a = frames_of(channels, packets(front));
        let n = frames_in(samples.len(), channels);
        assert(a * w + n * w == (a + n) * w && w * n == n * w) by (nonlinear_arith);
    }
}

/// The frames counted as they arrive are the frames that end up in the file and in the
/// report: nothing that came in before the stop is missing.
pub proof fn law_frames_counted_are_written(
    rate: nat,
    channels_in: u16,
    downmix_allowed: bool,
    chunks: Seq<(Seq<u32>, u64)>,
)
    requires
        whole_frames(chunks, width(channels_in as nat)),
        all_samples(chunks).len() / width(channels_in as nat) <= u64::MAX,
    ensures
        ({
            let start = fresh(rate, channels_in as nat, downmix_allowed);
            let written = finished(start, handed_on(chunks)).0.frames_written;
            &&& written == seen_after(channels_in, packets(chunks)).frames
            &&& written == all_samples(chunks).len() / width(channels_in as nat)
        }),
{
    let start = fresh(rate, channels_in as nat, downmix_allowed);
    let w = width(channels_in as nat);
    law_empty_chunks_leave_no_trace(start, chunks);
    law_everything_is_written(rate, channels_in as nat, downmix_allowed, chunks);
    lemma_packet_frames(channels_in, chunks);
    law_events_add_up(channels_in, packets(chunks));
    let n = frames_of(channels_in, packets(chunks));
    lemma_div_by_multiple(n as int, w as int);
}

proof fn lemma_channels_kept(start: State, chunks: Seq<(Seq<u32>, u64)>)
    requires
        start == fresh(start.rate, start.channels_in, start.downmix_allowed),
        !start.downmix_allowed || start.channels_in <= 1,
    ensures
        !run(start, chunks).0.downmixed,
        run(start, chunks).0.downmix_violations == 0,
        run(start, chunks).0.channels_out == start.channels_in,
        run(start, chunks).0.channels_in == start.channels_in,
        run(start, chunks).0.downmix_allowed == start.downmix_allowed,
    decreases chunks.len(),
{
    if chunks.len() > 0 {
        lemma_channels_kept(start, chunks.drop_last());
    }
}

/// Once the file exists its format stands: no later chunk, and not the end, changes it.
pub proof fn law_format_is_final(s: State, samples: Seq<u32>, at: u64)
    requires
        s.created,
    ensures
        ({
            let (t, step) = s.received(samples, at);
            &&& t.created && t.downmixed == s.downmixed && t.channels_out == s.channels_out
            &&& !(step is Create)
        }),
        s.closed() == (s, Step::Write { samples: Seq::empty() }),
{
}

/// Of a chunk that comes in when the file exists, every whole frame is written and counted,
/// and a broken one at its end is not.
pub proof fn law_whole_frames_are_written_at_once(s: State, samples: Seq<u32>, at: u64)
    requires
        s.created,
        samples.len() > 0,
    ensures
        ({
            let w = s.width();
            let n = samples.len() / w;
            let (t, step) = s.received(samples, at);
            &&& t.frames_written == s.frames_written + n
            &&& !s.downmixed ==> output(step) == samples.take((n * w) as int)
            &&& s.downmixed ==> output(step).len() == n && forall|i: int|
                0 <= i < n ==> #[trigger] output(step)[i] == samples[i * w]
            &&& t.created && t.pending == s.pending
        }),
{
}

/// What comes in before the file exists is held back whole, frame for frame and beyond, until
/// everything is written at once.
pub proof fn law_nothing_is_lost_while_holding_back(s: State, samples: Seq<u32>, at: u64)
    requires
        !s.created,
        samples.len() > 0,
    ensures
        ({
            let w = s.width();
            let all = s.pending + samples;
            let n = all.len() / w;
            let (t, step) = s.received(samples, at);
            &&& !t.created ==> t.pending == all && output(step).len() == 0 && t.frames_written
                == s.frames_written
            &&& t.created ==> t.pending.len() == 0 && t.frames_written == s.frames_written + n
            &&& t.created && !t.downmixed ==> output(step) == all.take((n * w) as int)
            &&& t.created && t.downmixed ==> output(step).len() == n && forall|i: int|
                0 <= i < n ==> #[trigger] output(step)[i] == all[i * w]
            &&& t.created ==> (step matches Step::Create { channels, .. } && channels
                == t.channels_out)
        }),
        ({
            let w = s.width();
            let n = s.pending.len() / w;
            let (t, step) = s.closed();
            &&& t.created && t.frames_written == s.frames_written + n
            &&& !t.downmixed ==> output(step) == s.pending.take((n * w) as int)
            &&& step matches Step::Create { channels, .. } && channels == t.channels_out
        }),
{
}

/// An empty chunk changes nothing.
pub proof fn law_an_empty_chunk_changes_nothing(s: State, at: u64)
    ensures
        s.received(Seq::empty(), at) == (s, Step::Wait),
{
}

/// Rows of samples are quantised one by one.
pub proof fn law_rows_are_quantised_one_by_one(samples: Seq<u32>, i: int)
    requires
        0 <= i < samples.len(),
    ensures
        all_pcm(samples).len() == samples.len(),
        all_pcm(samples)[i] == pcm(samples[i]) as i16,
{
}

} // verus!
