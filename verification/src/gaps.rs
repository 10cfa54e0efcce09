//! The gaps that a recording notes, and how they account for the time of its sound.

use crate::recorder::{frame_count, fresh, Gap, State};
use crate::recording::{all_samples, finished, run, whole_frames};
use vstd::arithmetic::div_mod::lemma_fundamental_div_mod;
use vstd::prelude::*;

verus! {

/// The lengths of the first `n` gaps added up, in units of a nanosecond divided by the
/// sample rate.
pub open spec fn gaps_before(drops: Seq<Gap>, n: int) -> int
    decreases n,
{
    if n <= 0 {
        0
    } else {
        gaps_before(drops, n - 1) + drops[n - 1].len
    }
}

/// The time at which gap `i` was noticed less all gaps up to it, in the same units. How this
/// relates to the sound in the file is told by `law_gap_stands_at_its_chunk`.
pub open spec fn gap_place(drops: Seq<Gap>, rate: nat, i: int) -> int {
    drops[i].at * rate - gaps_before(drops, i + 1)
}

/// Whether chunks come in one after the other.
pub open spec fn in_time(chunks: Seq<(Seq<u32>, u64)>) -> bool {
    forall|i: int, j: int|
        0 <= i < j < chunks.len() ==> (#[trigger] chunks[i]).1 <= (#[trigger] chunks[j]).1
}

/// The samples of as many frames as can be counted, on as many channels as there can be.
pub const MOST_SAMPLES: u128 = 0xffff_ffff_ffff_ffff_0000;

/// Whether a recording is no longer than what can be counted.
pub open spec fn within_range(start: State, chunks: Seq<(Seq<u32>, u64)>) -> bool {
    &&& start.rate <= u32::MAX
    &&& all_samples(chunks).len() <= MOST_SAMPLES
}

/// The first chunk that is not empty, or the number of chunks.
pub open spec fn first_sound(chunks: Seq<(Seq<u32>, u64)>) -> int
    decreases chunks.len(),
{
    if chunks.len() == 0 {
        0
    } else {
        let f = first_sound(chunks.drop_last());
        if f == chunks.len() - 1 && chunks.last().0.len() == 0 {
            f + 1
        } else {
            f
        }
    }
}

/// Whether the last of a row of chunks is noted as the end of a gap.
pub open spec fn ends_gap(start: State, chunks: Seq<(Seq<u32>, u64)>) -> bool {
    run(start, chunks).0.drops.len() > run(start, chunks.drop_last()).0.drops.len()
}

/// The chunks that are noted as the ends of gaps.
pub open spec fn noted_at(start: State, chunks: Seq<(Seq<u32>, u64)>) -> Seq<int>
    decreases chunks.len(),
{
    if chunks.len() == 0 {
        Seq::empty()
    } else if ends_gap(start, chunks) {
        noted_at(start, chunks.drop_last()).push(chunks.len() - 1)
    } else {
        noted_at(start, chunks.drop_last())
    }
}

/// The lag at the last chunk of a row that is not empty, zero before the first.
pub open spec fn last_lag(start: State, chunks: Seq<(Seq<u32>, u64)>) -> int {
    match run(start, chunks).0.last_lag {
        Some(x) => x,
        None => 0,
    }
}

/// The changes of the lag that were no gap, added up.
pub open spec fn unnoted(start: State, chunks: Seq<(Seq<u32>, u64)>) -> int
    decreases chunks.len(),
{
    if chunks.len() == 0 {
        0
    } else {
        unnoted(start, chunks.drop_last()) + if ends_gap(start, chunks) {
            0
        } else {
            last_lag(start, chunks) - last_lag(start, chunks.drop_last())
        }
    }
}

/// The frames that come in before chunk `c`.
pub open spec fn frames_before(chunks: Seq<(Seq<u32>, u64)>, c: int, w: nat) -> nat {
    all_samples(chunks.take(c)).len() / w
}

proof fn lemma_gaps_before_push(drops: Seq<Gap>, g: Gap, n: int)
    requires
        0 <= n <= drops.len(),
    ensures
        gaps_before(drops.push(g), n) == gaps_before(drops, n),
    decreases n,
{
    if n > 0 {
        lemma_gaps_before_push(drops, g, n - 1);
    }
}

proof fn lemma_gaps_before_take(drops: Seq<Gap>, m: int, n: int)
    requires
        0 <= n <= m <= drops.len(),
    ensures
        gaps_before(drops.take(m), n) == gaps_before(drops, n),
    decreases n,
{
    if n > 0 {
        lemma_gaps_before_take(drops, m, n - 1);
    }
}

proof fn lemma_frame_total(samples: Seq<u32>, w: nat)
    requires
        w > 0,
    ensures
        frame_count(samples, w) <= samples.len(),
{
    lemma_fundamental_div_mod(samples.len() as int, w as int);
    let n = frame_count(samples, w);
    assert(n <= samples.len()) by (nonlinear_arith)
        requires
            samples.len() == w * n + samples.len() % w,
            samples.len() % w >= 0,
            w >= 1,
    ;
}

/// What is known of the counts of a recorder, `count` being the samples that came in.
spec fn counts(s: State, count: nat) -> bool {
    &&& s.rate <= u32::MAX
    &&& s.frames_written + s.pending.len() <= count
    &&& s.created ==> s.pending.len() == 0
    &&& !s.created ==> s.frames_written == 0 && s.pending_frames * s.width() <= s.pending.len()
    &&& s.arrived() <= count
}

/// What has come in only grows, and the writing changes nothing that was noted.
proof fn lemma_arrived_grows(s: State, count: nat, samples: Seq<u32>, at: u64)
    requires
        counts(s, count),
        samples.len() > 0,
    ensures
        ({
            let t = s.received(samples, at).0;
            &&& t.drops == s.noted(at).drops
            &&& t.last_lag == s.noted(at).last_lag
            &&& t.rate == s.rate
            &&& t.channels_in == s.channels_in
            &&& t.arrived() >= s.arrived()
            &&& counts(t, count + samples.len())
        }),
{
    let w = s.width();
    lemma_frame_total(samples, w);
    if !s.created {
        let all = s.pending + samples;
        let n = frame_count(samples, w);
        let held = s.pending_frames + n;
        lemma_frame_total(all, w);
        lemma_fundamental_div_mod(samples.len() as int, w as int);
        lemma_fundamental_div_mod(all.len() as int, w as int);
        assert(held * w <= all.len() && held <= all.len() / w) by (nonlinear_arith)
            requires
                held == s.pending_frames + n,
                s.pending_frames * w <= s.pending.len(),
                samples.len() == w * n + samples.len() % w,
                samples.len() % w >= 0,
                all.len() == s.pending.len() + samples.len(),
                all.len() == w * (all.len() / w) + all.len() % w,
                all.len() % w < w,
                w > 0,
        ;
        assert(held <= all.len()) by (nonlinear_arith)
            requires
                held * w <= all.len(),
                w >= 1,
                held >= 0,
        ;
    }
}

/// What is known of the gaps after a row of chunks.
spec fn gaps_known(start: State, chunks: Seq<(Seq<u32>, u64)>) -> bool {
    let s = run(start, chunks).0;
    let g = noted_at(start, chunks);
    let n = s.drops.len() as int;
    let f = first_sound(chunks);
    &&& s.rate == start.rate
    &&& s.channels_in == start.channels_in
    &&& counts(s, all_samples(chunks).len())
    &&& 0 <= f <= chunks.len()
    &&& s.last_lag is Some <==> f < chunks.len()
    &&& f == chunks.len() ==> s.arrived() == 0
    &&& f < chunks.len() ==> chunks[f].0.len() > 0
    &&& last_lag(start, chunks) == gaps_before(s.drops, n) + unnoted(start, chunks)
    &&& -0x1_0000_0000_0000_0000_0000_0000_0000 <= last_lag(start, chunks)
        <= 0x1_0000_0000_0000_0000_0000_0000_0000
    &&& g.len() == n
    &&& forall|i: int|
        #![trigger g[i]]
        0 <= i < n ==> {
            &&& f <= g[i] < chunks.len()
            &&& chunks[g[i]].0.len() > 0
            &&& s.drops[i].at == chunks[g[i]].1
            &&& g[i] == f ==> s.drops[i].len == chunks[f].1 * start.rate
            &&& g[i] > f ==> s.drops[i].len > 200_000_000 * start.rate
        }
    &&& forall|i: int, j: int| #![trigger g[i], g[j]] 0 <= i < j < n ==> g[i] < g[j]
    &&& f < chunks.len() && chunks[f].1 * start.rate > 0 ==> n > 0 && g[0] == f
    &&& f < chunks.len() && chunks[f].1 * start.rate == 0 ==> (n > 0 ==> g[0] > f)
}

proof fn lemma_gaps_known(start: State, chunks: Seq<(Seq<u32>, u64)>)
    requires
        start == fresh(start.rate, start.channels_in, start.downmix_allowed),
        within_range(start, chunks),
    ensures
        gaps_known(start, chunks),
    decreases chunks.len(),
{
    if chunks.len() == 0 {
        assert(counts(run(start, chunks).0, 0));
    } else {
        let front = chunks.drop_last();
        lemma_gaps_known(start, front);
        let s = run(start, front).0;
        let t = run(start, chunks).0;
        let (samples, at) = chunks.last();
        let n = s.drops.len() as int;
        let g = noted_at(start, front);
        if samples.len() > 0 {
            lemma_arrived_grows(s, all_samples(front).len(), samples, at);
            let now = s.lag(at as nat);
            assert(0 <= at * s.rate <= 0xffff_ffff_ffff_ffff * 0xffff_ffff) by (nonlinear_arith)
                requires
                    0 <= at <= 0xffff_ffff_ffff_ffff,
                    0 <= s.rate <= 0xffff_ffff,
            ;
            if t.drops != s.drops {
                let gap = t.drops.last();
                assert(t.drops == s.drops.push(gap));
                lemma_gaps_before_push(s.drops, gap, n);
            }
        }
        let h = noted_at(start, chunks);
        assert forall|i: int| #![trigger h[i]] 0 <= i < n implies h[i] == g[i] by {}
        let f = first_sound(chunks);
        let m = t.drops.len() as int;
        assert(counts(t, all_samples(chunks).len()));
        assert(last_lag(start, chunks) == gaps_before(t.drops, m) + unnoted(start, chunks));
        assert forall|i: int|
            #![trigger h[i]]
            0 <= i < m implies {
            &&& f <= h[i] < chunks.len()
            &&& chunks[h[i]].0.len() > 0
            &&& t.drops[i].at == chunks[h[i]].1
            &&& h[i] == f ==> t.drops[i].len == chunks[f].1 * start.rate
            &&& h[i] > f ==> t.drops[i].len > 200_000_000 * start.rate
        } by {
            if i < n {
                assert(h[i] == g[i]);
            }
        }
        assert forall|i: int, j: int| #![trigger h[i], h[j]] 0 <= i < j < m implies h[i] < h[j] by {
            assert(h[i] == g[i]);
        }
    }
}

/// The gaps of a recording are the late start, if the first sound comes late, and every rise
/// of the lag by more than a fifth of a second. Each is stamped with the arrival of the
/// chunk that ends it; no chunk ends two, and they stand in the order of the chunks.
pub proof fn law_gaps_of_a_recording(
    rate: nat,
    channels_in: nat,
    downmix_allowed: bool,
    chunks: Seq<(Seq<u32>, u64)>,
)
    requires
        within_range(fresh(rate, channels_in, downmix_allowed), chunks),
    ensures
        ({
            let start = fresh(rate, channels_in, downmix_allowed);
            let drops = finished(start, chunks).0.drops;
            let g = noted_at(start, chunks);
            let f = first_sound(chunks);
            &&& 0 <= f <= chunks.len()
            &&& g.len() == drops.len()
            &&& forall|i: int|
                #![trigger g[i]]
                0 <= i < g.len() ==> {
                    &&& f <= g[i] < chunks.len()
                    &&& chunks[g[i]].0.len() > 0
                    &&& drops[i].at == chunks[g[i]].1
                    &&& g[i] == f ==> drops[i].len == chunks[f].1 * rate
                    &&& g[i] > f ==> drops[i].len > 200_000_000 * rate
                }
            &&& forall|i: int, j: int|
                #![trigger g[i], g[j]]
                0 <= i < j < g.len() ==> g[i] < g[j]
            &&& f < chunks.len() && chunks[f].1 * rate > 0 ==> g.len() > 0 && g[0] == f
            &&& f < chunks.len() && chunks[f].1 * rate == 0 && g.len() > 0 ==> g[0] > f
        }),
{
    lemma_gaps_known(fresh(rate, channels_in, downmix_allowed), chunks);
}

/// A recording whose first sound comes late starts with a gap as long as the time until
/// then, at the very start of the file.
pub proof fn law_leading_gap_is_noted(
    rate: nat,
    channels_in: nat,
    downmix_allowed: bool,
    chunks: Seq<(Seq<u32>, u64)>,
)
    requires
        within_range(fresh(rate, channels_in, downmix_allowed), chunks),
        rate > 0,
        first_sound(chunks) < chunks.len(),
        chunks[first_sound(chunks)].1 > 0,
    ensures
        ({
            let drops = finished(fresh(rate, channels_in, downmix_allowed), chunks).0.drops;
            let at = chunks[first_sound(chunks)].1;
            &&& drops.len() > 0
            &&& drops[0].at == at
            &&& drops[0].len == at * rate
            &&& gap_place(drops, rate, 0) == 0
        }),
{
    let start = fresh(rate, channels_in, downmix_allowed);
    lemma_gaps_known(start, chunks);
    let at = chunks[first_sound(chunks)].1;
    assert(at * rate > 0) by (nonlinear_arith)
        requires
            at > 0,
            rate > 0,
    ;
    let drops = finished(start, chunks).0.drops;
    assert(noted_at(start, chunks)[0] == first_sound(chunks));
    reveal_with_fuel(gaps_before, 2);
    assert(gaps_before(drops, 1) == drops[0].len);
}

/// Whether gaps stand in order: none before the start of the file, and later ones no
/// earlier.
pub open spec fn gaps_orderly(drops: Seq<Gap>, rate: nat) -> bool {
    &&& forall|i: int| 0 <= i < drops.len() ==> 0 <= #[trigger] gap_place(drops, rate, i)
    &&& forall|i: int, j: int|
        0 <= i < j < drops.len() ==> #[trigger] gap_place(drops, rate, i) <= #[trigger] gap_place(
            drops,
            rate,
            j,
        )
}

/// How a recorder stands to its gaps at the time `last` of the last arrival.
spec fn in_order(s: State, last: int) -> bool {
    let total = gaps_before(s.drops, s.drops.len() as int);
    &&& gaps_orderly(s.drops, s.rate)
    &&& s.last_lag is None ==> s.drops.len() == 0 && s.arrived() == 0
    &&& s.last_lag is Some ==> {
        &&& last * s.rate - s.arrived() * 1_000_000_000 <= s.last_lag->0 <= last * s.rate
        &&& last * s.rate - total >= 0
        &&& s.drops.len() > 0 ==> gap_place(s.drops, s.rate, s.drops.len() - 1) <= last * s.rate
            - total
    }
}

proof fn lemma_noted_in_order(s: State, last: int, count: nat, at: u64)
    requires
        counts(s, count),
        in_order(s, last),
        0 <= last <= at,
        count <= MOST_SAMPLES,
    ensures
        in_order(s.noted(at), at as int),
{
    let t = s.noted(at);
    let now = s.lag(at as nat);
    assert(0 <= last * s.rate <= at * s.rate <= 0xffff_ffff_ffff_ffff * 0xffff_ffff)
        by (nonlinear_arith)
        requires
            0 <= last <= at <= 0xffff_ffff_ffff_ffff,
            0 <= s.rate <= 0xffff_ffff,
    ;
    if t.drops != s.drops {
        let g = t.drops.last();
        let n = s.drops.len() as int;
        assert(t.drops == s.drops.push(g));
        let jump = match s.last_lag {
            Some(x) => now - x,
            None => now,
        };
        assert(0 <= jump <= 0x4_0000_0000_0000_0000_0000_0000_0000);
        assert(g.len == jump);
        assert forall|i: int| 0 <= i < n implies #[trigger] gap_place(t.drops, s.rate, i)
            == gap_place(s.drops, s.rate, i) by {
            lemma_gaps_before_push(s.drops, g, i + 1);
        }
        lemma_gaps_before_push(s.drops, g, n);
        assert(gaps_before(t.drops, n + 1) == gaps_before(s.drops, n) + jump);
        assert(gap_place(t.drops, s.rate, n) == at * s.rate - gaps_before(s.drops, n) - jump);
        assert forall|i: int| 0 <= i < n + 1 implies 0 <= #[trigger] gap_place(
            t.drops,
            s.rate,
            i,
        ) by {
            if i < n {
                assert(0 <= gap_place(s.drops, s.rate, i));
            }
        }
        assert forall|i: int, j: int| 0 <= i < j < n + 1 implies #[trigger] gap_place(
            t.drops,
            s.rate,
            i,
        ) <= #[trigger] gap_place(t.drops, s.rate, j) by {
            if i < n - 1 {
                assert(gap_place(s.drops, s.rate, i) <= gap_place(s.drops, s.rate, n - 1));
            }
            if j < n {
                assert(gap_place(s.drops, s.rate, i) <= gap_place(s.drops, s.rate, j));
            }
        }
    }
}

proof fn lemma_run_in_order(start: State, chunks: Seq<(Seq<u32>, u64)>) -> (last: int)
    requires
        start == fresh(start.rate, start.channels_in, start.downmix_allowed),
        in_time(chunks),
        within_range(start, chunks),
    ensures
        in_order(run(start, chunks).0, last),
        0 <= last,
        chunks.len() > 0 ==> last <= chunks.last().1,
        chunks.len() == 0 ==> last == 0,
    decreases chunks.len(),
{
    if chunks.len() == 0 {
        0
    } else {
        let front = chunks.drop_last();
        let before = lemma_run_in_order(start, front);
        lemma_gaps_known(start, front);
        let s = run(start, front).0;
        let (samples, at) = chunks.last();
        if front.len() > 0 {
            assert(chunks[front.len() - 1].1 <= chunks[chunks.len() - 1].1);
        }
        if samples.len() == 0 {
            before
        } else {
            let count = all_samples(front).len();
            lemma_noted_in_order(s, before, count, at);
            lemma_arrived_grows(s, count, samples, at);
            at as int
        }
    }
}

/// The gaps that a recording notes are in order for the way back to real time: none stands
/// before the start of the file, and later gaps stand no earlier in it.
pub proof fn law_noted_gaps_are_orderly(
    rate: nat,
    channels_in: nat,
    downmix_allowed: bool,
    chunks: Seq<(Seq<u32>, u64)>,
)
    requires
        in_time(chunks),
        within_range(fresh(rate, channels_in, downmix_allowed), chunks),
    ensures
        gaps_orderly(finished(fresh(rate, channels_in, downmix_allowed), chunks).0.drops, rate),
{
    let start = fresh(rate, channels_in, downmix_allowed);
    lemma_gaps_known(start, chunks);
    let last = lemma_run_in_order(start, chunks);
}

/// Of a shorter row, a recorder has noted the first gaps of the longer one.
#[verifier::spinoff_prover]
#[verifier::rlimit(80)]
proof fn lemma_gaps_of_a_part(start: State, chunks: Seq<(Seq<u32>, u64)>, k: int)
    requires
        start == fresh(start.rate, start.channels_in, start.downmix_allowed),
        within_range(start, chunks),
        0 <= k <= chunks.len(),
    ensures
        within_range(start, chunks.take(k)),
        ({
            let m = run(start, chunks.take(k)).0.drops.len() as int;
            let drops = run(start, chunks).0.drops;
            let g = noted_at(start, chunks);
            &&& m <= drops.len()
            &&& run(start, chunks.take(k)).0.drops == drops.take(m)
            &&& noted_at(start, chunks.take(k)) == g.take(m)
            &&& forall|i: int| m <= i < drops.len() ==> #[trigger] g[i] >= k
        }),
    decreases chunks.len(),
{
    lemma_gaps_known(start, chunks);
    let drops = run(start, chunks).0.drops;
    let g = noted_at(start, chunks);
    if k == chunks.len() {
        assert(chunks.take(k) =~= chunks);
        assert(drops.take(drops.len() as int) =~= drops);
        assert(g.take(g.len() as int) =~= g);
    } else {
        let front = chunks.drop_last();
        assert(front.take(k) =~= chunks.take(k));
        lemma_gaps_of_a_part(start, front, k);
        lemma_gaps_known(start, front);
        let before = run(start, front).0;
        let (samples, at) = chunks.last();
        if samples.len() > 0 {
            lemma_arrived_grows(before, all_samples(front).len(), samples, at);
        }
        let m = run(start, chunks.take(k)).0.drops.len() as int;
        let n = before.drops.len() as int;
        let h = noted_at(start, front);
        assert(drops.take(n) =~= before.drops);
        assert(g.take(n) =~= h);
        assert(drops.take(m) =~= before.drops.take(m));
        assert(g.take(m) =~= h.take(m));
        assert forall|i: int| m <= i < drops.len() implies #[trigger] g[i] >= k by {
            if i < n {
                assert(g[i] == h[i]);
            }
        }
    }
}

/// Where chunks hold whole frames, every frame that came in is counted once.
proof fn lemma_arrived_is_all(start: State, chunks: Seq<(Seq<u32>, u64)>)
    requires
        start == fresh(start.rate, start.channels_in, start.downmix_allowed),
        whole_frames(chunks, start.width()),
    ensures
        ({
            let s = run(start, chunks).0;
            let all = all_samples(chunks).len();
            let w = start.width();
            &&& s.channels_in == start.channels_in
            &&& all == s.arrived() * w
            &&& !s.created ==> s.frames_written == 0 && s.pending.len() == all
        }),
    decreases chunks.len(),
{
    let w = start.width();
    if chunks.len() > 0 {
        let front = chunks.drop_last();
        assert forall|i: int| 0 <= i < front.len() implies (#[trigger] front[i]).0.len() % w
            == 0 by {
            assert(front[i] == chunks[i]);
        }
        lemma_arrived_is_all(start, front);
        let s = run(start, front).0;
        let samples = chunks.last().0;
        assert(chunks[chunks.len() - 1].0.len() % w == 0);
        let n = frame_count(samples, w);
        lemma_fundamental_div_mod(samples.len() as int, w as int);
        let a = s.arrived();
        assert(a * w + samples.len() == (a + n) * w) by (nonlinear_arith)
            requires
                samples.len() == w * n,
        ;
        vstd::arithmetic::div_mod::lemma_div_by_multiple((a + n) as int, w as int);
    } else {
        assert(0nat * w == 0) by (nonlinear_arith);
    }
}

/// The time of every chunk is accounted for: its arrival is the length of the sound before
/// it, plus the gaps noted until then, plus the changes of the lag that were no gap.
pub proof fn law_arrival_is_accounted_for(
    rate: nat,
    channels_in: nat,
    downmix_allowed: bool,
    chunks: Seq<(Seq<u32>, u64)>,
    c: int,
)
    requires
        within_range(fresh(rate, channels_in, downmix_allowed), chunks),
        whole_frames(chunks, fresh(rate, channels_in, downmix_allowed).width()),
        0 <= c < chunks.len(),
        chunks[c].0.len() > 0,
    ensures
        ({
            let start = fresh(rate, channels_in, downmix_allowed);
            let drops = finished(start, chunks).0.drops;
            let part = chunks.take(c + 1);
            let n = noted_at(start, part).len() as int;
            &&& n <= drops.len()
            &&& noted_at(start, part) == noted_at(start, chunks).take(n)
            &&& forall|i: int|
                n <= i < drops.len() ==> #[trigger] noted_at(start, chunks)[i] > c
            &&& chunks[c].1 * rate == frames_before(chunks, c, start.width()) * 1_000_000_000
                + gaps_before(drops, n) + unnoted(start, part)
        }),
{
    let start = fresh(rate, channels_in, downmix_allowed);
    let w = start.width();
    let part = chunks.take(c + 1);
    let front = part.drop_last();
    let drops = finished(start, chunks).0.drops;
    lemma_gaps_of_a_part(start, chunks, c + 1);
    lemma_gaps_known(start, part);
    lemma_gaps_known(start, front);
    let n = noted_at(start, part).len() as int;
    lemma_gaps_before_take(drops, n, n);
    assert(front =~= chunks.take(c));
    assert forall|i: int| 0 <= i < front.len() implies (#[trigger] front[i]).0.len() % w == 0 by {
        assert(front[i] == chunks[i]);
    }
    lemma_arrived_is_all(start, front);
    let s = run(start, front).0;
    let a = s.arrived();
    vstd::arithmetic::div_mod::lemma_div_by_multiple(a as int, w as int);
    lemma_arrived_grows(s, all_samples(front).len(), chunks[c].0, chunks[c].1);
    assert(part.last() == chunks[c]);
    assert(last_lag(start, part) == s.lag(chunks[c].1 as nat));
}

/// A gap stands where the chunk that ends it stands in the file, moved by the changes of the
/// lag that were no gap.
pub proof fn law_gap_stands_at_its_chunk(
    rate: nat,
    channels_in: nat,
    downmix_allowed: bool,
    chunks: Seq<(Seq<u32>, u64)>,
    i: int,
)
    requires
        within_range(fresh(rate, channels_in, downmix_allowed), chunks),
        whole_frames(chunks, fresh(rate, channels_in, downmix_allowed).width()),
        0 <= i < finished(fresh(rate, channels_in, downmix_allowed), chunks).0.drops.len(),
    ensures
        ({
            let start = fresh(rate, channels_in, downmix_allowed);
            let drops = finished(start, chunks).0.drops;
            let c = noted_at(start, chunks)[i];
            &&& 0 <= c < chunks.len()
            &&& gap_place(drops, rate, i) == frames_before(chunks, c, start.width())
                * 1_000_000_000 + unnoted(start, chunks.take(c + 1))
        }),
{
    let start = fresh(rate, channels_in, downmix_allowed);
    lemma_gaps_known(start, chunks);
    let g = noted_at(start, chunks);
    let c = g[i];
    law_arrival_is_accounted_for(rate, channels_in, downmix_allowed, chunks, c);
    let part = chunks.take(c + 1);
    lemma_gaps_of_a_part(start, chunks, c + 1);
    lemma_gaps_known(start, part);
    let h = noted_at(start, part);
    let n = h.len() as int;
    if n <= i {
        assert(g[i] > c);
    }
    if i + 1 < n {
        assert(h[i] == g[i] && h[i + 1] == g[i + 1]);
        assert(h[i + 1] < part.len());
    }
    assert(n == i + 1);
}

/// By how much more time than sound passes between the arrivals of chunks `p` and `c`, in
/// units of a nanosecond divided by the sample rate.
pub open spec fn shortage(chunks: Seq<(Seq<u32>, u64)>, rate: nat, w: nat, p: int, c: int) -> int {
    (chunks[c].1 - chunks[p].1) * rate - (frames_before(chunks, c, w) - frames_before(chunks, p, w))
        * 1_000_000_000
}

proof fn lemma_lag_at(start: State, chunks: Seq<(Seq<u32>, u64)>, c: int)
    requires
        start == fresh(start.rate, start.channels_in, start.downmix_allowed),
        within_range(start, chunks),
        whole_frames(chunks, start.width()),
        0 <= c < chunks.len(),
        chunks[c].0.len() > 0,
    ensures
        run(start, chunks.take(c + 1)).0.last_lag == Some(
            chunks[c].1 * start.rate - frames_before(chunks, c, start.width()) * 1_000_000_000,
        ),
        within_range(start, chunks.take(c)),
        run(start, chunks.take(c)).0.rate == start.rate,
        run(start, chunks.take(c)).0.lag(chunks[c].1 as nat) == chunks[c].1 * start.rate
            - frames_before(chunks, c, start.width()) * 1_000_000_000,
{
    let w = start.width();
    let part = chunks.take(c + 1);
    let front = part.drop_last();
    assert(front =~= chunks.take(c));
    assert(part.last() == chunks[c]);
    lemma_gaps_of_a_part(start, chunks, c);
    lemma_gaps_known(start, front);
    assert forall|i: int| 0 <= i < front.len() implies (#[trigger] front[i]).0.len() % w == 0 by {
        assert(front[i] == chunks[i]);
    }
    lemma_arrived_is_all(start, front);
    let s = run(start, front).0;
    vstd::arithmetic::div_mod::lemma_div_by_multiple(s.arrived() as int, w as int);
    lemma_arrived_grows(s, all_samples(front).len(), chunks[c].0, chunks[c].1);
}

/// Chunks without samples change nothing.
proof fn lemma_empty_between(start: State, chunks: Seq<(Seq<u32>, u64)>, p: int, c: int)
    requires
        0 <= p <= c <= chunks.len(),
        forall|k: int| p <= k < c ==> (#[trigger] chunks[k]).0.len() == 0,
    ensures
        run(start, chunks.take(c)).0 == run(start, chunks.take(p)).0,
    decreases c - p,
{
    if p < c {
        lemma_empty_between(start, chunks, p, c - 1);
        let part = chunks.take(c);
        assert(part.drop_last() =~= chunks.take(c - 1));
        assert(part.last() == chunks[c - 1]);
    }
}

/// A gap is noted exactly where more than a fifth of a second more time than sound passes
/// between a chunk and the one before it, and it is as long as that.
pub proof fn law_every_gap_is_noted(
    rate: nat,
    channels_in: nat,
    downmix_allowed: bool,
    chunks: Seq<(Seq<u32>, u64)>,
    p: int,
    c: int,
)
    requires
        within_range(fresh(rate, channels_in, downmix_allowed), chunks),
        whole_frames(chunks, fresh(rate, channels_in, downmix_allowed).width()),
        0 <= p < c < chunks.len(),
        chunks[p].0.len() > 0,
        chunks[c].0.len() > 0,
        forall|k: int| p < k < c ==> (#[trigger] chunks[k]).0.len() == 0,
    ensures
        ({
            let start = fresh(rate, channels_in, downmix_allowed);
            let drops = finished(start, chunks).0.drops;
            let g = noted_at(start, chunks);
            let d = shortage(chunks, rate, start.width(), p, c);
            &&& d > 200_000_000 * rate <==> exists|i: int| 0 <= i < g.len() && #[trigger] g[i] == c
            &&& forall|i: int|
                0 <= i < g.len() && #[trigger] g[i] == c ==> drops[i].len == d && drops[i].at
                    == chunks[c].1
        }),
{
    let start = fresh(rate, channels_in, downmix_allowed);
    let w = start.width();
    let drops = finished(start, chunks).0.drops;
    let g = noted_at(start, chunks);
    let d = shortage(chunks, rate, w, p, c);
    lemma_gaps_known(start, chunks);
    lemma_lag_at(start, chunks, p);
    lemma_lag_at(start, chunks, c);
    lemma_empty_between(start, chunks, p + 1, c);
    let part = chunks.take(c + 1);
    let front = part.drop_last();
    assert(front =~= chunks.take(c));
    assert(part.last() == chunks[c]);
    let s = run(start, front).0;
    let t = run(start, part).0;
    assert((chunks[c].1 - chunks[p].1) * rate == chunks[c].1 * rate - chunks[p].1 * rate)
        by (nonlinear_arith);
    let now = s.lag(chunks[c].1 as nat);
    assert(now - s.last_lag->0 == d);
    lemma_gaps_of_a_part(start, chunks, c);
    lemma_gaps_of_a_part(start, chunks, c + 1);
    lemma_gaps_known(start, part);
    lemma_gaps_known(start, front);
    lemma_arrived_grows(s, all_samples(front).len(), chunks[c].0, chunks[c].1);
    let m = s.drops.len() as int;
    let n = t.drops.len() as int;
    let h = noted_at(start, part);
    assert(h == g.take(n));
    if d > 200_000_000 * rate {
        assert(n == m + 1);
        assert(h[m] == c);
        assert(g[m] == c);
        assert(t.drops[m] == drops[m]);
        assert(-0x4_0000_0000_0000_0000_0000_0000_0000 <= d
            <= 0x4_0000_0000_0000_0000_0000_0000_0000);
        assert(t.drops[m].len == d);
    } else {
        assert(n == m);
    }
    assert forall|i: int| 0 <= i < g.len() && #[trigger] g[i] == c implies n == m + 1 && i == m by {
        if i >= n {
            assert(g[i] >= c + 1);
        }
        if i < m {
            assert(noted_at(start, front)[i] == g[i]);
            assert(noted_at(start, front)[i] < front.len());
        }
    }
}

/// The sum of the gaps grows by exactly the length of each gap that is added, whatever it is.
pub proof fn law_gaps_add_up(drops: Seq<Gap>, g: Gap)
    ensures
        gaps_before(drops.push(g), drops.len() as int + 1) == gaps_before(
            drops,
            drops.len() as int,
        ) + g.len,
        gaps_before(Seq::empty(), 0) == 0,
{
    lemma_gaps_before_push(drops, g, drops.len() as int);
}

} // verus!
