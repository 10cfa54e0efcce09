//! The way from a recording over its metadata back to real time.
//!
//! The metadata keeps the gaps of a recording to the millisecond. What follows says how
//! close the kept gaps bring the sound to the time at which it arrived.

use crate::decimal::{magnitude, round_half_even};
use crate::gaps::{
    frames_before, gap_place, gaps_before, gaps_orderly, in_time, law_arrival_is_accounted_for,
    law_gap_stands_at_its_chunk, law_gaps_of_a_recording, law_noted_gaps_are_orderly, noted_at,
    unnoted, within_range,
};
use crate::meta::{kept_gaps, to_millis};
use crate::order::stably_sorted;
use crate::recorder::{fresh, Gap};
use crate::recording::{finished, whole_frames};
use crate::timeline::{
    lag_after, law_gap_end_is_restored, lemma_lag_between, orderly, place, placed, real_time,
    TOLERANCE,
};
use vstd::arithmetic::div_mod::lemma_fundamental_div_mod;
use vstd::prelude::*;

verus! {

/// Whether times and lengths are such that the metadata keeps them: none is negative, and
/// none reaches the end of the 64-bit range, some 292 years.
pub open spec fn keepable(drops: Seq<Gap>, rate: nat) -> bool {
    &&& rate > 0
    &&& drops.len() <= usize::MAX
    &&& forall|i: int|
        0 <= i < drops.len() ==> (#[trigger] drops[i]).at <= 9_000_000_000_000_000_000 && 0
            <= drops[i].len <= drops[i].at * rate
}

/// Keeping a quotient to the millisecond moves it by half a millisecond at most.
proof fn lemma_to_millis(num: int, den: nat)
    requires
        den > 0,
        0 <= num <= den * 9_000_000_000,
    ensures
        ({
            let m = to_millis(num, den) as int;
            &&& m % 1_000_000 == 0
            &&& -500_000 * den <= m * den - num * 1_000_000_000 <= 500_000 * den
        }),
{
    let a = magnitude(num) * 1000;
    let q = round_half_even(a, den);
    lemma_fundamental_div_mod(a as int, den as int);
    let f = a / den;
    let r = a % den;
    assert(q == f || q == f + 1);
    assert(q == f ==> q * den == f * den);
    assert(q == f + 1 ==> q * den == f * den + den) by (nonlinear_arith);
    assert(f * den == den * f) by (nonlinear_arith);
    assert(-(den as int) <= 2 * (q * den - a) <= den);
    assert(f <= 9_000_000_000_000) by (nonlinear_arith)
        requires
            a == den * f + r,
            r >= 0,
            a <= den * 9_000_000_000_000,
            den > 0,
    ;
    let m = to_millis(num, den) as int;
    assert(m == q * 1_000_000);
    assert((q * 1_000_000) * den == 1_000_000 * (q * den)) by (nonlinear_arith);
}

proof fn lemma_kept_gap(drops: Seq<Gap>, rate: nat, i: int)
    requires
        keepable(drops, rate),
        0 <= i < drops.len(),
    ensures
        ({
            let (at, len) = kept_gaps(drops, rate)[i];
            &&& at as int % 1_000_000 == 0
            &&& len as int % 1_000_000 == 0
            &&& -500_000 <= at - drops[i].at <= 500_000
            &&& -500_000 * rate <= len * rate - drops[i].len <= 500_000 * rate
        }),
{
    let g = drops[i];
    lemma_to_millis(g.at as int, 1_000_000_000);
    let den = rate * 1_000_000_000;
    assert(g.at * rate <= 9_000_000_000_000_000_000 * rate) by (nonlinear_arith)
        requires
            g.at <= 9_000_000_000_000_000_000,
            rate > 0,
    ;
    lemma_to_millis(g.len as int, den);
    let m = to_millis(g.len as int, den) as int;
    assert(m * den == (m * rate) * 1_000_000_000) by (nonlinear_arith)
        requires
            den == rate * 1_000_000_000,
    ;
}

proof fn lemma_kept_sum(drops: Seq<Gap>, rate: nat, n: int)
    requires
        keepable(drops, rate),
        0 <= n <= drops.len(),
    ensures
        ({
            let sum = lag_after(kept_gaps(drops, rate), n);
            &&& sum % 1_000_000 == 0
            &&& -(500_000 * (n * rate)) <= sum * rate - gaps_before(drops, n) <= 500_000 * (n
                * rate)
        }),
    decreases n,
{
    if n == 0 {
        assert(0 * rate == 0) by (nonlinear_arith);
    } else {
        lemma_kept_sum(drops, rate, n - 1);
        lemma_kept_gap(drops, rate, n - 1);
        let sum = lag_after(kept_gaps(drops, rate), n - 1);
        let len = kept_gaps(drops, rate)[n - 1].1 as int;
        assert((sum + len) * rate == sum * rate + len * rate) by (nonlinear_arith);
        assert(n * rate == (n - 1) * rate + rate) by (nonlinear_arith);
    }
}

/// A kept gap stands where the gap stood, to half a millisecond for its time and for each
/// gap up to it.
pub proof fn law_kept_gap_stands_close(drops: Seq<Gap>, rate: nat, i: int)
    requires
        keepable(drops, rate),
        0 <= i < drops.len(),
    ensures
        ({
            let t = place(kept_gaps(drops, rate), i);
            &&& t % 1_000_000 == 0
            &&& -(500_000 * ((i + 2) * rate)) <= t * rate - gap_place(drops, rate, i) <= 500_000
                * ((i + 2) * rate)
        }),
{
    lemma_kept_gap(drops, rate, i);
    lemma_kept_sum(drops, rate, i + 1);
    let at = kept_gaps(drops, rate)[i].0 as int;
    let sum = lag_after(kept_gaps(drops, rate), i + 1);
    assert((at - sum) * rate == at * rate - sum * rate) by (nonlinear_arith);
    let off = at - drops[i].at;
    assert(at * rate - drops[i].at * rate == off * rate) by (nonlinear_arith)
        requires
            off == at - drops[i].at,
    ;
    assert(-500_000 * rate <= off * rate <= 500_000 * rate) by (nonlinear_arith)
        requires
            -500_000 <= off <= 500_000,
            rate > 0,
    ;
    assert((i + 2) * rate == (i + 1) * rate + rate) by (nonlinear_arith);
}

/// Whether each gap stands more than a millisecond and a half behind the one before, which is
/// the rounding of two times and a length.
pub open spec fn spaced(drops: Seq<Gap>, rate: nat) -> bool {
    forall|i: int, j: int|
        0 <= i && j == i + 1 && j < drops.len() ==> #[trigger] gap_place(drops, rate, i)
            + 1_500_000 * rate < #[trigger] gap_place(drops, rate, j)
}

proof fn lemma_kept_step(drops: Seq<Gap>, rate: nat, i: int)
    requires
        keepable(drops, rate),
        spaced(drops, rate),
        0 <= i,
        i + 1 < drops.len(),
    ensures
        place(kept_gaps(drops, rate), i) < place(kept_gaps(drops, rate), i + 1),
{
    let kept = kept_gaps(drops, rate);
    lemma_kept_gap(drops, rate, i);
    lemma_kept_gap(drops, rate, i + 1);
    assert(gap_place(drops, rate, i) + 1_500_000 * rate < gap_place(drops, rate, i + 1));
    let a = kept[i].0 as int;
    let b = kept[i + 1].0 as int;
    let len = kept[i + 1].1 as int;
    let d = place(kept, i + 1) - place(kept, i);
    assert(d == b - a - len);
    let x = drops[i].at as int;
    let y = drops[i + 1].at as int;
    assert(d > 0) by (nonlinear_arith)
        requires
            d == b - a - len,
            b >= y - 500_000,
            a <= x + 500_000,
            len * rate <= drops[i + 1].len + 500_000 * rate,
            y * rate - x * rate - drops[i + 1].len > 1_500_000 * rate,
            rate > 0,
    ;
}

/// Rounding is monotone.
proof fn lemma_round_rises(a: nat, b: nat, den: nat)
    requires
        a <= b,
        den > 0,
    ensures
        round_half_even(a, den) <= round_half_even(b, den),
{
    lemma_fundamental_div_mod(a as int, den as int);
    lemma_fundamental_div_mod(b as int, den as int);
    let p = a / den;
    let q = b / den;
    assert(p <= q) by (nonlinear_arith)
        requires
            a == den * p + a % den,
            b == den * q + b % den,
            a <= b,
            a % den >= 0,
            b % den < den,
            den > 0,
    ;
    if p == q {
        assert(den * p == den * q);
    }
}

/// Gaps that are in order and spaced are still in order as the metadata keeps them, and no
/// two of them are kept at one place.
pub proof fn law_spaced_gaps_stay_orderly(drops: Seq<Gap>, rate: nat)
    requires
        keepable(drops, rate),
        gaps_orderly(drops, rate),
        spaced(drops, rate),
    ensures
        orderly(kept_gaps(drops, rate)),
        forall|i: int, j: int|
            0 <= i < j < drops.len() ==> #[trigger] place(kept_gaps(drops, rate), i)
                < #[trigger] place(kept_gaps(drops, rate), j),
{
    let kept = kept_gaps(drops, rate);
    assert forall|j: int| 0 <= j < drops.len() implies 0 <= #[trigger] place(kept, j) by {
        lemma_kept_rises(drops, rate, 0, j);
        lemma_first_place(drops, rate);
    }
    assert forall|i: int, j: int| 0 <= i < j < drops.len() implies #[trigger] place(kept, i)
        < #[trigger] place(kept, j) by {
        lemma_kept_rises(drops, rate, i, j);
    }
}

proof fn lemma_kept_rises(drops: Seq<Gap>, rate: nat, i: int, j: int)
    requires
        keepable(drops, rate),
        spaced(drops, rate),
        0 <= i <= j < drops.len(),
    ensures
        place(kept_gaps(drops, rate), i) <= place(kept_gaps(drops, rate), j),
        i < j ==> place(kept_gaps(drops, rate), i) < place(kept_gaps(drops, rate), j),
    decreases j - i,
{
    if i < j {
        lemma_kept_rises(drops, rate, i, j - 1);
        lemma_kept_step(drops, rate, j - 1);
    }
}

/// The first gap, which is no longer than the time until it, is kept no longer than that.
proof fn lemma_first_place(drops: Seq<Gap>, rate: nat)
    requires
        keepable(drops, rate),
        drops.len() > 0,
    ensures
        place(kept_gaps(drops, rate), 0) >= 0,
{
    let g = drops[0];
    let kept = kept_gaps(drops, rate);
    reveal_with_fuel(lag_after, 2);
    assert(lag_after(kept, 1) == kept[0].1);
    let num = (g.at * rate) as nat;
    let den = rate * 1_000_000_000;
    assert(num * 1000 == rate * ((g.at as nat) * 1000)) by (nonlinear_arith)
        requires
            num == g.at * rate,
    ;
    crate::decimal::lemma_round_scale(rate, (g.at as nat) * 1000, 1_000_000_000);
    lemma_round_rises((g.len as nat) * 1000, num * 1000, den);
    lemma_kept_gap(drops, rate, 0);
    assert(round_half_even((g.len as nat) * 1000, den) <= round_half_even(
        (g.at as nat) * 1000,
        1_000_000_000,
    ));
}

/// Whether a recording is over before the 64-bit range of nanoseconds is.
pub open spec fn lasting(chunks: Seq<(Seq<u32>, u64)>) -> bool {
    forall|c: int| 0 <= c < chunks.len() ==> (#[trigger] chunks[c]).1 <= 9_000_000_000_000_000_000
}

proof fn lemma_sum_holds_each(drops: Seq<Gap>, n: int, i: int)
    requires
        0 <= i < n <= drops.len(),
        forall|k: int| 0 <= k < drops.len() ==> (#[trigger] drops[k]).len >= 0,
    ensures
        gaps_before(drops, n) >= drops[i].len,
        gaps_before(drops, n) >= 0,
    decreases n,
{
    assert(drops[n - 1].len >= 0);
    assert(gaps_before(drops, 0) == 0);
    if i < n - 1 {
        lemma_sum_holds_each(drops, n - 1, i);
    } else if n > 1 {
        assert(drops[0].len >= 0);
        lemma_sum_holds_each(drops, n - 1, 0);
    }
}

/// The gaps of a recording can be kept.
pub proof fn law_noted_gaps_are_keepable(
    rate: nat,
    channels_in: nat,
    downmix_allowed: bool,
    chunks: Seq<(Seq<u32>, u64)>,
)
    requires
        rate > 0,
        in_time(chunks),
        lasting(chunks),
        within_range(fresh(rate, channels_in, downmix_allowed), chunks),
        finished(fresh(rate, channels_in, downmix_allowed), chunks).0.drops.len() <= usize::MAX,
    ensures
        keepable(finished(fresh(rate, channels_in, downmix_allowed), chunks).0.drops, rate),
{
    let start = fresh(rate, channels_in, downmix_allowed);
    let drops = finished(start, chunks).0.drops;
    let g = noted_at(start, chunks);
    law_gaps_of_a_recording(rate, channels_in, downmix_allowed, chunks);
    law_noted_gaps_are_orderly(rate, channels_in, downmix_allowed, chunks);
    assert forall|k: int| 0 <= k < drops.len() implies (#[trigger] drops[k]).len >= 0 by {
        let c = g[k];
        assert(chunks[c].1 * rate >= 0) by (nonlinear_arith);
    }
    assert forall|i: int| 0 <= i < drops.len() implies (#[trigger] drops[i]).at
        <= 9_000_000_000_000_000_000 && 0 <= drops[i].len <= drops[i].at * rate by {
        let c = g[i];
        assert(chunks[c].1 <= 9_000_000_000_000_000_000);
        lemma_sum_holds_each(drops, i + 1, i);
        assert(0 <= gap_place(drops, rate, i));
    }
}

/// The list of gaps in the metadata alone restores real time. The end of a gap comes back at
/// the arrival of the chunk that ends it, to half a millisecond; and the place that comes
/// back there is the place of that chunk in the file, but for the changes of the lag that
/// were no gap and half a millisecond for the time and for each gap up to it. (Where the
/// metadata keeps later gaps at the same place, that place belongs to the last of them.)
pub proof fn law_metadata_restores_real_time(
    rate: nat,
    channels_in: nat,
    downmix_allowed: bool,
    chunks: Seq<(Seq<u32>, u64)>,
    steps: Seq<(i128, i128)>,
    i: int,
)
    requires
        rate > 0,
        in_time(chunks),
        lasting(chunks),
        whole_frames(chunks, fresh(rate, channels_in, downmix_allowed).width()),
        within_range(fresh(rate, channels_in, downmix_allowed), chunks),
        ({
            let drops = finished(fresh(rate, channels_in, downmix_allowed), chunks).0.drops;
            let kept = kept_gaps(drops, rate);
            &&& drops.len() <= usize::MAX
            &&& stably_sorted(placed(kept), steps)
            &&& 0 <= i < drops.len()
            &&& place(kept, i) >= 0
            &&& forall|k: int|
                i < k < drops.len() ==> #[trigger] place(kept, k) != place(kept, i) && (place(
                    kept,
                    k,
                ) >= 0 || place(kept, i) > 0)
        }),
    ensures
        ({
            let start = fresh(rate, channels_in, downmix_allowed);
            let kept = kept_gaps(finished(start, chunks).0.drops, rate);
            let c = noted_at(start, chunks)[i];
            let t = place(kept, i);
            let sound = frames_before(chunks, c, start.width()) * 1_000_000_000;
            let drift = unnoted(start, chunks.take(c + 1));
            &&& -500_000 <= real_time(steps, t) - chunks[c].1 <= 500_000
            &&& -(500_000 * ((i + 2) * rate)) <= t * rate - (sound + drift) <= 500_000 * ((i + 2)
                * rate)
        }),
{
    let start = fresh(rate, channels_in, downmix_allowed);
    let drops = finished(start, chunks).0.drops;
    let kept = kept_gaps(drops, rate);
    law_noted_gaps_are_keepable(rate, channels_in, downmix_allowed, chunks);
    law_gaps_of_a_recording(rate, channels_in, downmix_allowed, chunks);
    law_gap_stands_at_its_chunk(rate, channels_in, downmix_allowed, chunks, i);
    law_kept_gap_stands_close(drops, rate, i);
    lemma_kept_gap(drops, rate, i);
    assert(drops[i].at == chunks[noted_at(start, chunks)[i]].1);
    assert forall|k: int|
        0 <= k < kept.len() && #[trigger] place(kept, k) > place(kept, i) implies place(kept, k)
        > place(kept, i) + TOLERANCE by {
        law_kept_gap_stands_close(drops, rate, k);
    }
    law_gap_end_is_restored(kept, steps, i);
}

/// The same of every gap at once, where the gaps of the recording are spaced.
pub proof fn law_spaced_recording_is_restored(
    rate: nat,
    channels_in: nat,
    downmix_allowed: bool,
    chunks: Seq<(Seq<u32>, u64)>,
    steps: Seq<(i128, i128)>,
    i: int,
)
    requires
        rate > 0,
        in_time(chunks),
        lasting(chunks),
        whole_frames(chunks, fresh(rate, channels_in, downmix_allowed).width()),
        within_range(fresh(rate, channels_in, downmix_allowed), chunks),
        ({
            let drops = finished(fresh(rate, channels_in, downmix_allowed), chunks).0.drops;
            &&& drops.len() <= usize::MAX
            &&& spaced(drops, rate)
            &&& stably_sorted(placed(kept_gaps(drops, rate)), steps)
            &&& 0 <= i < drops.len()
        }),
    ensures
        ({
            let start = fresh(rate, channels_in, downmix_allowed);
            let kept = kept_gaps(finished(start, chunks).0.drops, rate);
            let c = noted_at(start, chunks)[i];
            let t = place(kept, i);
            let sound = frames_before(chunks, c, start.width()) * 1_000_000_000;
            let drift = unnoted(start, chunks.take(c + 1));
            &&& orderly(kept)
            &&& -500_000 <= real_time(steps, t) - chunks[c].1 <= 500_000
            &&& -(500_000 * ((i + 2) * rate)) <= t * rate - (sound + drift) <= 500_000 * ((i + 2)
                * rate)
        }),
{
    let drops = finished(fresh(rate, channels_in, downmix_allowed), chunks).0.drops;
    let kept = kept_gaps(drops, rate);
    law_noted_gaps_are_keepable(rate, channels_in, downmix_allowed, chunks);
    law_noted_gaps_are_orderly(rate, channels_in, downmix_allowed, chunks);
    law_spaced_gaps_stay_orderly(drops, rate);
    assert(0 <= place(kept, i));
    assert forall|k: int| i < k < drops.len() implies #[trigger] place(kept, k) != place(kept, i)
        && (place(kept, k) >= 0 || place(kept, i) > 0) by {
        assert(place(kept, i) < place(kept, k));
    }
    law_metadata_restores_real_time(rate, channels_in, downmix_allowed, chunks, steps, i);
}

/// Every chunk comes back close to its arrival. A time `t` in the file that lies behind the
/// gaps noted up to the chunk and before those noted later is put where the chunk arrived,
/// moved by as much as `t` lies behind the start of the chunk, but for the changes of the lag
/// that were no gap and half a millisecond for each gap.
pub proof fn law_sound_is_restored(
    rate: nat,
    channels_in: nat,
    downmix_allowed: bool,
    chunks: Seq<(Seq<u32>, u64)>,
    steps: Seq<(i128, i128)>,
    c: int,
    t: int,
)
    requires
        rate > 0,
        in_time(chunks),
        lasting(chunks),
        whole_frames(chunks, fresh(rate, channels_in, downmix_allowed).width()),
        within_range(fresh(rate, channels_in, downmix_allowed), chunks),
        0 <= c < chunks.len(),
        chunks[c].0.len() > 0,
        ({
            let start = fresh(rate, channels_in, downmix_allowed);
            let drops = finished(start, chunks).0.drops;
            let kept = kept_gaps(drops, rate);
            let n = noted_at(start, chunks.take(c + 1)).len() as int;
            &&& orderly(kept)
            &&& stably_sorted(placed(kept), steps)
            &&& n > 0 ==> place(kept, n - 1) <= t + TOLERANCE
            &&& n < drops.len() ==> place(kept, n) > t + TOLERANCE
        }),
    ensures
        ({
            let start = fresh(rate, channels_in, downmix_allowed);
            let n = noted_at(start, chunks.take(c + 1)).len() as int;
            let sound = frames_before(chunks, c, start.width()) * 1_000_000_000;
            let drift = unnoted(start, chunks.take(c + 1));
            let due = chunks[c].1 * rate + (t * rate - sound);
            -(500_000 * (n * rate)) <= real_time(steps, t) * rate - (due - drift) <= 500_000 * (n
                * rate)
        }),
{
    let start = fresh(rate, channels_in, downmix_allowed);
    let drops = finished(start, chunks).0.drops;
    let kept = kept_gaps(drops, rate);
    let n = noted_at(start, chunks.take(c + 1)).len() as int;
    law_noted_gaps_are_keepable(rate, channels_in, downmix_allowed, chunks);
    law_arrival_is_accounted_for(rate, channels_in, downmix_allowed, chunks, c);
    lemma_lag_between(kept, steps, n, t);
    lemma_kept_sum(drops, rate, n);
    let sum = lag_after(kept, n);
    assert((t + sum) * rate == t * rate + sum * rate) by (nonlinear_arith);
}

/// What is kept to the millisecond is a whole number of milliseconds, no more than half of one
/// from the quotient; the opposite of a quotient is kept as the opposite.
pub proof fn law_milliseconds_are_the_nearest(num: int, den: nat)
    requires
        den > 0,
        0 <= num <= den * 9_000_000_000,
    ensures
        to_millis(num, den) as int % 1_000_000 == 0,
        -500_000 * den <= to_millis(num, den) * den - num * 1_000_000_000 <= 500_000 * den,
        to_millis(-num, den) == -to_millis(num, den),
{
    lemma_to_millis(num, den);
    let m = to_millis(num, den) as int;
    assert(m <= 9_000_000_000_000_500_000) by (nonlinear_arith)
        requires
            m * den - num * 1_000_000_000 <= 500_000 * den,
            num <= den * 9_000_000_000,
            den > 0,
    ;
    assert(magnitude(-num) == magnitude(num));
    let size = round_half_even(magnitude(num) * 1000, den) * 1_000_000;
    assert(size == m);
    if num == 0 {
        assert(m <= 500_000) by (nonlinear_arith)
            requires
                m * den <= 500_000 * den,
                den > 0,
        ;
    }
}

} // verus!
