//! When a recording decides on its channels, and what has to be heard for it to drop to one.
//!
//! Everything here is said of the samples that came in, channel by channel.

use crate::counting::{chosen, lemma_chosen_finite, lemma_chosen_step, lemma_none_chosen};
use crate::recorder::{
    apart, frame, frame_count, fresh, lemma_frame_bounds, peak_after, sounding, sounding_apart,
    sounds, width, State,
};
use crate::recording::{
    all_samples, finished, law_everything_is_written, lemma_aligned, lemma_frame_left,
    lemma_frame_right, run, whole_frames,
};
use crate::sample::{
    equal_patterns, is_loud, law_loud_by_pattern, law_peak_takes_the_larger,
    law_uniform_by_pattern, uniform,
};
use vstd::prelude::*;

verus! {

/// Whether a pattern is that of a number louder than 1e-4.
pub open spec fn loud_pattern(bits: u32) -> bool {
    0x38d1_b717 < bits % 0x8000_0000 <= 0x7f80_0000
}

/// Whether some channel of frame `i` is louder than 1e-4.
pub open spec fn some_channel_sounds(samples: Seq<u32>, w: nat, i: int) -> bool {
    exists|c: int| 0 <= c < w && loud_pattern(#[trigger] samples[i * w + c])
}

/// Whether all channels of frame `i` have the same value.
pub open spec fn all_channels_agree(samples: Seq<u32>, w: nat, i: int) -> bool {
    forall|c: int, d: int|
        0 <= c < d < w ==> equal_patterns(
            #[trigger] samples[i * w + c],
            #[trigger] samples[i * w + d],
        )
}

/// How many frames sound on some channel.
pub open spec fn heard_frames(samples: Seq<u32>, w: nat) -> nat {
    chosen((samples.len() / w) as int, |i: int| some_channel_sounds(samples, w, i)).len()
}

/// How many frames have channels that differ.
pub open spec fn torn_frames(samples: Seq<u32>, w: nat) -> nat {
    chosen((samples.len() / w) as int, |i: int| !all_channels_agree(samples, w, i)).len()
}

/// Whether there is enough to decide by: two seconds with a fifth of a second of sound, or
/// five seconds of anything.
pub open spec fn enough(samples: Seq<u32>, w: nat, rate: nat) -> bool {
    let frames = samples.len() / w;
    (frames >= 2 * rate && heard_frames(samples, w) >= rate / 5) || frames >= 5 * rate
}

/// Whether one channel stands for all: a fifth of a second of sound was heard, and wherever
/// any channel sounds, all channels have the same value.
pub open spec fn one_stands_for_all(samples: Seq<u32>, w: nat, rate: nat) -> bool {
    &&& heard_frames(samples, w) >= rate / 5
    &&& forall|i: int|
        0 <= i < samples.len() / w && some_channel_sounds(samples, w, i) ==>
            #[trigger] all_channels_agree(samples, w, i)
}

/// With how many chunks the decision is made: the first row of chunks, the last of them not
/// empty, that is enough.
pub open spec fn decided_after(chunks: Seq<(Seq<u32>, u64)>, w: nat, rate: nat) -> Option<int>
    decreases chunks.len(),
{
    if chunks.len() == 0 {
        None
    } else if decided_after(chunks.drop_last(), w, rate) is Some {
        decided_after(chunks.drop_last(), w, rate)
    } else if chunks.last().0.len() > 0 && enough(all_samples(chunks), w, rate) {
        Some(chunks.len() as int)
    } else {
        None
    }
}

/// The samples by which the decision is made: those of the chunks until then, or all of them
/// where the recording ends before.
pub open spec fn judged(chunks: Seq<(Seq<u32>, u64)>, w: nat, rate: nat) -> Seq<u32> {
    match decided_after(chunks, w, rate) {
        Some(k) => all_samples(chunks.take(k)),
        None => all_samples(chunks),
    }
}

proof fn lemma_frame_by_channels(samples: Seq<u32>, w: nat, i: int)
    requires
        w > 0,
        0 <= i < samples.len() / w,
    ensures
        sounds(frame(samples, w, i)) == some_channel_sounds(samples, w, i),
        uniform(frame(samples, w, i)) == all_channels_agree(samples, w, i),
{
    lemma_frame_bounds(samples.len(), w, i);
    let f = frame(samples, w, i);
    assert(f.len() == w);
    assert forall|c: int| 0 <= c < w implies #[trigger] f[c] == samples[i * w + c] by {}
    if sounds(f) {
        let c = choose|c: int| 0 <= c < f.len() && is_loud(#[trigger] f[c]);
        law_loud_by_pattern(f[c]);
        assert(loud_pattern(samples[i * w + c]));
    }
    if some_channel_sounds(samples, w, i) {
        let c = choose|c: int| 0 <= c < w && loud_pattern(#[trigger] samples[i * w + c]);
        law_loud_by_pattern(f[c]);
        assert(is_loud(f[c]));
    }
    law_uniform_by_pattern(f);
    if uniform(f) {
        assert forall|c: int, d: int| 0 <= c < d < w implies equal_patterns(
            #[trigger] samples[i * w + c],
            #[trigger] samples[i * w + d],
        ) by {
            assert(equal_patterns(f[c], f[d]));
        }
    }
    if all_channels_agree(samples, w, i) {
        assert forall|c: int, d: int| 0 <= c < d < f.len() implies equal_patterns(
            #[trigger] f[c],
            #[trigger] f[d],
        ) by {
            assert(equal_patterns(samples[i * w + c], samples[i * w + d]));
        }
    }
}

proof fn lemma_sounding_counts(samples: Seq<u32>, w: nat, n: nat)
    requires
        w > 0,
        n <= samples.len() / w,
    ensures
        sounding(samples, w, n) == chosen(
            n as int,
            |i: int| some_channel_sounds(samples, w, i),
        ).len(),
        sounding_apart(samples, w, n) == chosen(
            n as int,
            |i: int| some_channel_sounds(samples, w, i) && !all_channels_agree(samples, w, i),
        ).len(),
        apart(samples, w, n) == chosen(
            n as int,
            |i: int| !all_channels_agree(samples, w, i),
        ).len(),
    decreases n,
{
    let p = |i: int| some_channel_sounds(samples, w, i);
    let q = |i: int| some_channel_sounds(samples, w, i) && !all_channels_agree(samples, w, i);
    let r = |i: int| !all_channels_agree(samples, w, i);
    if n == 0 {
        lemma_chosen_finite(0, p);
        lemma_chosen_finite(0, q);
        lemma_chosen_finite(0, r);
    } else {
        lemma_sounding_counts(samples, w, (n - 1) as nat);
        lemma_frame_by_channels(samples, w, n - 1);
        lemma_chosen_step(n as int, p);
        lemma_chosen_step(n as int, q);
        lemma_chosen_step(n as int, r);
    }
}

proof fn lemma_sounding_left(a: Seq<u32>, b: Seq<u32>, w: nat, n: nat)
    requires
        w > 0,
        n <= frame_count(a, w),
    ensures
        sounding(a + b, w, n) == sounding(a, w, n),
        sounding_apart(a + b, w, n) == sounding_apart(a, w, n),
    decreases n,
{
    if n > 0 {
        lemma_sounding_left(a, b, w, (n - 1) as nat);
        lemma_frame_left(a, b, w, n - 1);
    }
}

proof fn lemma_sounding_joins(a: Seq<u32>, b: Seq<u32>, w: nat, m: nat)
    requires
        w > 0,
        a.len() % w == 0,
        m <= frame_count(b, w),
    ensures
        sounding(a + b, w, frame_count(a, w) + m) == sounding(a, w, frame_count(a, w)) + sounding(
            b,
            w,
            m,
        ),
        sounding_apart(a + b, w, frame_count(a, w) + m) == sounding_apart(a, w, frame_count(a, w))
            + sounding_apart(b, w, m),
    decreases m,
{
    if m == 0 {
        lemma_sounding_left(a, b, w, frame_count(a, w));
    } else {
        lemma_sounding_joins(a, b, w, (m - 1) as nat);
        lemma_frame_right(a, b, w, m - 1);
        let n = frame_count(a, w);
        assert((n + m - 1) as nat == n + (m - 1) as nat);
    }
}

/// What is known of a recorder while it holds back.
spec fn holds_back(s: State, all: Seq<u32>) -> bool {
    let w = s.width();
    let n = frame_count(all, w);
    &&& s.pending_frames == n
    &&& s.probe_nonsilent == sounding(all, w, n)
    &&& s.probe_nonuniform == sounding_apart(all, w, n)
}

/// What the decision is, by what was held back.
proof fn lemma_decision(s: State, all: Seq<u32>)
    requires
        holds_back(s, all),
    ensures
        s.undecided() == !enough(all, s.width(), s.rate),
        s.one_is_enough() == (s.downmix_allowed && s.width() > 1 && one_stands_for_all(
            all,
            s.width(),
            s.rate,
        )),
{
    let w = s.width();
    let n = frame_count(all, w);
    lemma_sounding_counts(all, w, n);
    let q = |i: int| some_channel_sounds(all, w, i) && !all_channels_agree(all, w, i);
    lemma_none_chosen(n as int, q);
    if s.probe_nonuniform == 0 {
        assert forall|i: int|
            0 <= i < all.len() / w && some_channel_sounds(all, w, i) implies
            #[trigger] all_channels_agree(all, w, i) by {
            assert(!q(i));
        }
    }
    if one_stands_for_all(all, w, s.rate) {
        assert forall|i: int| 0 <= i < n implies !(#[trigger] q(i)) by {
            if some_channel_sounds(all, w, i) {
                assert(all_channels_agree(all, w, i));
            }
        }
    }
}

proof fn lemma_run_decides(start: State, chunks: Seq<(Seq<u32>, u64)>)
    requires
        start == fresh(start.rate, start.channels_in, start.downmix_allowed),
        whole_frames(chunks, start.width()),
    ensures
        ({
            let s = run(start, chunks).0;
            let all = all_samples(chunks);
            let w = start.width();
            let d = decided_after(chunks, w, start.rate);
            &&& s.rate == start.rate
            &&& s.channels_in == start.channels_in
            &&& s.downmix_allowed == start.downmix_allowed
            &&& all.len() % w == 0
            &&& s.created == (d is Some)
            &&& d matches Some(k) ==> 0 < k <= chunks.len()
            &&& !s.created ==> holds_back(s, all)
            &&& s.created ==> s.downmixed == (start.downmix_allowed && w > 1
                && one_stands_for_all(judged(chunks, w, start.rate), w, start.rate))
        }),
    decreases chunks.len(),
{
    let w = start.width();
    if chunks.len() == 0 {
        assert(0nat % w == 0) by (nonlinear_arith)
            requires
                w > 0,
        ;
        assert(0nat / w == 0) by (nonlinear_arith)
            requires
                w > 0,
        ;
        assert(frame_count(all_samples(chunks), w) == 0);
    } else {
        let front = chunks.drop_last();
        assert forall|i: int| 0 <= i < front.len() implies (#[trigger] front[i]).0.len() % w
            == 0 by {
            assert(front[i] == chunks[i]);
        }
        lemma_run_decides(start, front);
        let s = run(start, front).0;
        let (samples, at) = chunks.last();
        let all = all_samples(front);
        assert(chunks[chunks.len() - 1].0.len() % w == 0);
        lemma_aligned(all.len(), samples.len(), w);
        if s.created {
            let k = decided_after(front, w, start.rate)->0;
            assert(front.take(k) =~= chunks.take(k));
        } else if samples.len() == 0 {
            assert(all + samples =~= all);
        } else {
            let h = s.noted(at).held(samples);
            lemma_sounding_joins(all, samples, w, frame_count(samples, w));
            assert(holds_back(h, all + samples));
            lemma_decision(h, all + samples);
            assert(chunks.take(chunks.len() as int) =~= chunks);
        }
    }
}

/// The file is created with the first chunk that makes enough to decide by, and not before.
pub proof fn law_decision_comes_in_time(
    rate: nat,
    channels_in: nat,
    downmix_allowed: bool,
    chunks: Seq<(Seq<u32>, u64)>,
)
    requires
        whole_frames(chunks, width(channels_in)),
    ensures
        run(fresh(rate, channels_in, downmix_allowed), chunks).0.created <==> exists|k: int|
            0 < k <= chunks.len() && (#[trigger] chunks[k - 1]).0.len() > 0 && enough(
                all_samples(chunks.take(k)),
                width(channels_in),
                rate,
            ),
{
    lemma_run_decides(fresh(rate, channels_in, downmix_allowed), chunks);
    lemma_decided(chunks, width(channels_in), rate);
}

proof fn lemma_decided(chunks: Seq<(Seq<u32>, u64)>, w: nat, rate: nat)
    ensures
        decided_after(chunks, w, rate) is Some <==> exists|k: int|
            0 < k <= chunks.len() && (#[trigger] chunks[k - 1]).0.len() > 0 && enough(
                all_samples(chunks.take(k)),
                w,
                rate,
            ),
    decreases chunks.len(),
{
    if chunks.len() > 0 {
        let front = chunks.drop_last();
        let n = chunks.len() as int;
        lemma_decided(front, w, rate);
        assert(chunks.take(n) =~= chunks);
        assert(chunks[n - 1] == chunks.last());
        assert forall|k: int| 0 < k < n implies front.take(k) == chunks.take(k) && front[k - 1]
            == #[trigger] chunks[k - 1] by {
            assert(front.take(k) =~= chunks.take(k));
        }
        if decided_after(front, w, rate) is Some {
            let k = choose|k: int|
                0 < k <= front.len() && (#[trigger] front[k - 1]).0.len() > 0 && enough(
                    all_samples(front.take(k)),
                    w,
                    rate,
                );
            assert(chunks[k - 1].0.len() > 0);
        } else if exists|k: int|
            0 < k <= chunks.len() && (#[trigger] chunks[k - 1]).0.len() > 0 && enough(
                all_samples(chunks.take(k)),
                w,
                rate,
            ) {
            let k = choose|k: int|
                0 < k <= chunks.len() && (#[trigger] chunks[k - 1]).0.len() > 0 && enough(
                    all_samples(chunks.take(k)),
                    w,
                    rate,
                );
            if k < n {
                assert(front[k - 1].0.len() > 0);
            }
        }
    }
}

/// A recording is dropped to one channel exactly if that is allowed, there are several, and
/// one stands for all in the samples by which it was decided: enough of them sound, and in
/// every frame in which any channel sounds, all channels have the same value. The file then
/// has one channel, and else those of the device.
pub proof fn law_downmix_is_justified(
    rate: nat,
    channels_in: nat,
    downmix_allowed: bool,
    chunks: Seq<(Seq<u32>, u64)>,
)
    requires
        whole_frames(chunks, width(channels_in)),
    ensures
        ({
            let end = finished(fresh(rate, channels_in, downmix_allowed), chunks).0;
            &&& end.downmixed <==> downmix_allowed && channels_in > 1 && one_stands_for_all(
                judged(chunks, width(channels_in), rate),
                width(channels_in),
                rate,
            )
            &&& end.channels_out == if end.downmixed {
                1
            } else {
                channels_in
            }
        }),
{
    let start = fresh(rate, channels_in, downmix_allowed);
    lemma_run_decides(start, chunks);
    let s = run(start, chunks).0;
    if !s.created {
        lemma_decision(s, all_samples(chunks));
    }
    lemma_format(start, chunks);
}

proof fn lemma_format(start: State, chunks: Seq<(Seq<u32>, u64)>)
    requires
        start == fresh(start.rate, start.channels_in, start.downmix_allowed),
    ensures
        ({
            let s = run(start, chunks).0;
            &&& s.channels_in == start.channels_in
            &&& s.channels_out == if s.downmixed {
                1
            } else {
                start.channels_in
            }
        }),
    decreases chunks.len(),
{
    if chunks.len() > 0 {
        lemma_format(start, chunks.drop_last());
    }
}

/// The violations that are reported are the frames whose channels differ although one of
/// them was taken for all.
pub proof fn law_violations_are_torn_frames(
    rate: nat,
    channels_in: nat,
    downmix_allowed: bool,
    chunks: Seq<(Seq<u32>, u64)>,
)
    requires
        whole_frames(chunks, width(channels_in)),
    ensures
        ({
            let end = finished(fresh(rate, channels_in, downmix_allowed), chunks).0;
            end.downmix_violations == if end.downmixed {
                torn_frames(all_samples(chunks), width(channels_in))
            } else {
                0
            }
        }),
{
    let all = all_samples(chunks);
    let w = width(channels_in);
    law_everything_is_written(rate, channels_in, downmix_allowed, chunks);
    lemma_sounding_counts(all, w, all.len() / w);
}

/// The peak of a row of samples is the largest pattern without sign among the numbers in it,
/// and zero where there is none.
pub proof fn law_peak_is_the_loudest(samples: Seq<u32>)
    ensures
        forall|i: int|
            0 <= i < samples.len() && (#[trigger] samples[i]) % 0x8000_0000 <= 0x7f80_0000 ==>
                samples[i] % 0x8000_0000 <= peak_after(0, samples),
        peak_after(0, samples) == 0 || exists|i: int|
            0 <= i < samples.len() && (#[trigger] samples[i]) % 0x8000_0000 <= 0x7f80_0000
                && samples[i] % 0x8000_0000 == peak_after(0, samples),
    decreases samples.len(),
{
    if samples.len() > 0 {
        let front = samples.drop_last();
        law_peak_is_the_loudest(front);
        let before = peak_after(0, front);
        let n = samples.len() - 1;
        law_peak_takes_the_larger(before, samples[n]);
        assert forall|i: int| 0 <= i < n implies #[trigger] samples[i] == front[i] by {}
        let after = peak_after(0, samples);
        if after == before && before != 0 {
            let i = choose|i: int|
                0 <= i < front.len() && (#[trigger] front[i]) % 0x8000_0000 <= 0x7f80_0000
                    && front[i] % 0x8000_0000 == before;
            assert(samples[i] % 0x8000_0000 == after);
        } else if after != before {
            assert(samples[n] % 0x8000_0000 == after);
        }
    }
}

/// While samples are held back, their whole frames are counted, those that sound on some
/// channel, and among these those whose channels differ.
pub proof fn law_held_frames_are_counted(s: State, samples: Seq<u32>, at: u64)
    requires
        !s.created,
        samples.len() > 0,
        !s.received(samples, at).0.created,
    ensures
        ({
            let t = s.received(samples, at).0;
            let w = s.width();
            let n = samples.len() / w;
            &&& t.pending_frames == s.pending_frames + n
            &&& t.probe_nonsilent == s.probe_nonsilent + chosen(
                n as int,
                |i: int| some_channel_sounds(samples, w, i),
            ).len()
            &&& t.probe_nonuniform == s.probe_nonuniform + chosen(
                n as int,
                |i: int|
                    some_channel_sounds(samples, w, i) && !all_channels_agree(samples, w, i),
            ).len()
        }),
{
    let w = s.width();
    lemma_sounding_counts(samples, w, samples.len() / w);
}

} // verus!
