//! From the time inside a WAV file to real time.
//!
//! A recorded track holds no samples for the stretches in which no packet came, so its
//! own time runs ahead by the sum of those stretches. The list of gaps, each with the
//! real time at which it was noticed and its length, is enough to undo this:
//!
//! * the lag after gap `i` is the sum of the lengths up to and including `i`;
//! * gap `i` stands in the file at its real time minus that lag;
//! * real time is file time plus the lag of the last gap that stands at or before it.
//!
//! All times are nanoseconds.

use crate::order::{
    lemma_onto, lemma_sort_keeps_order, lemma_sort_rises, precedes, rising, sorted_from,
    stable_sort, stably_sorted, Keyed,
};
use vstd::prelude::*;

verus! {

/// A gap counts as reached when file time is at most this much short of it: one
/// microsecond, far below the ten milliseconds in which segments are cut.
pub const TOLERANCE: i64 = 1_000;

/// A place in the file and the lag that holds from there on.
impl Keyed for (i128, i128) {
    open spec fn key(self) -> int {
        self.0 as int
    }

    fn before(&self, other: &Self) -> (r: bool) {
        self.0 < other.0
    }
}

/// The lengths of the first `n` gaps, added up.
pub open spec fn lag_after(drops: Seq<(i64, i64)>, n: int) -> int
    decreases n,
{
    if n <= 0 {
        0
    } else {
        lag_after(drops, n - 1) + drops[n - 1].1
    }
}

/// Where gap `i` stands in the file.
pub open spec fn place(drops: Seq<(i64, i64)>, i: int) -> int {
    drops[i].0 - lag_after(drops, i + 1)
}

/// The steps of the lag in the order of the gaps: where each stands, no earlier than the
/// start of the file, and the lag from there on.
pub open spec fn placed(drops: Seq<(i64, i64)>) -> Seq<(i128, i128)> {
    Seq::new(
        drops.len(),
        |i: int|
            (
                if place(drops, i) < 0 {
                    0i128
                } else {
                    place(drops, i) as i128
                },
                lag_after(drops, i + 1) as i128,
            ),
    )
}

/// How many steps in a row from the first are reached at file time `t`.
pub open spec fn reached(steps: Seq<(i128, i128)>, t: int) -> nat
    decreases steps.len(),
{
    if steps.len() > 0 && steps[0].0 <= t + TOLERANCE {
        1 + reached(steps.skip(1), t)
    } else {
        0
    }
}

/// The lag at file time `t`: that of the last step reached, none before the first.
pub open spec fn lag(steps: Seq<(i128, i128)>, t: int) -> int {
    let k = reached(steps, t) as int;
    if k == 0 {
        0
    } else {
        steps[k - 1].1 as int
    }
}

/// The real time of file time `t`.
pub open spec fn real_time(steps: Seq<(i128, i128)>, t: int) -> int {
    t + lag(steps, t)
}

/// Whether a 64-bit time can be moved by every lag of the steps.
pub open spec fn fitting(steps: Seq<(i128, i128)>) -> bool {
    forall|i: int|
        0 <= i < steps.len() ==> i128::MIN - i64::MIN <= (#[trigger] steps[i]).1 <= i128::MAX
            - i64::MAX
}

/// The sums of a list of 64-bit lengths fit in 128 bits, with room for one more time.
proof fn lemma_lag_bound(drops: Seq<(i64, i64)>, n: int)
    requires
        0 <= n <= drops.len(),
    ensures
        -0x8000_0000_0000_0000 * n <= lag_after(drops, n) <= 0x7fff_ffff_ffff_ffff * n,
    decreases n,
{
    if n > 0 {
        lemma_lag_bound(drops, n - 1);
    }
}

/// The places and lags of `placed` are the exact sums: none is cut off by its type.
pub proof fn lemma_placed_exact(drops: Seq<(i64, i64)>, i: int)
    requires
        0 <= i < drops.len() <= usize::MAX,
    ensures
        placed(drops)[i].0 == (if place(drops, i) < 0 {
            0
        } else {
            place(drops, i)
        }),
        placed(drops)[i].1 == lag_after(drops, i + 1),
        i128::MIN - i64::MIN <= lag_after(drops, i + 1) <= i128::MAX - i64::MAX,
{
    lemma_lag_bound(drops, i + 1);
}

/// Turns a list of gaps, each a pair of real time and length, into the steps of the lag
/// and the total lag.
pub fn steps_from_drops(drops: &[(i64, i64)]) -> (r: (Vec<(i128, i128)>, i128))
    ensures
        stably_sorted(placed(drops@), r.0@),
        rising(r.0@),
        fitting(r.0@),
        r.1 == lag_after(drops@, drops@.len() as int),
{
    let mut steps: Vec<(i128, i128)> = Vec::new();
    let mut acc: i128 = 0;
    assert(drops.len() == drops@.len());
    for i in 0..drops.len()
        invariant
            acc == lag_after(drops@, i as int),
            steps@ == placed(drops@).take(i as int),
            drops@.len() <= usize::MAX,
    {
        proof {
            lemma_lag_bound(drops@, i as int);
            lemma_lag_bound(drops@, i + 1);
            lemma_placed_exact(drops@, i as int);
        }
        let (at, len) = drops[i];
        acc = acc + len as i128;
        let at: i128 = at as i128 - acc;
        steps.push((if at < 0 { 0 } else { at }, acc));
        assert(steps@ == placed(drops@).take(i + 1));
    }
    assert(placed(drops@).take(drops@.len() as int) == placed(drops@));
    let sorted = stable_sort(steps);
    proof {
        lemma_sort_rises(placed(drops@), sorted@);
        assert forall|i: int| 0 <= i < sorted@.len() implies i128::MIN - i64::MIN <= (
        #[trigger] sorted@[i]).1 <= i128::MAX - i64::MAX by {
            assert(placed(drops@).contains(sorted@[i]));
            let k = choose|k: int| 0 <= k < drops@.len() && placed(drops@)[k] == sorted@[i];
            lemma_placed_exact(drops@, k);
        }
    }
    (sorted, acc)
}

/// The lag at file time `t_wav`.
pub fn lag_at(steps: &[(i128, i128)], t_wav: i64) -> (r: i128)
    ensures
        r == lag(steps@, t_wav as int),
{
    let limit: i128 = t_wav as i128 + TOLERANCE as i128;
    let mut lag_here: i128 = 0;
    let mut k: usize = 0;
    assert(steps@.skip(0) == steps@);
    while k < steps.len() && steps[k].0 <= limit
        invariant
            k <= steps.len(),
            limit == t_wav + TOLERANCE,
            reached(steps@, t_wav as int) == k + reached(steps@.skip(k as int), t_wav as int),
            lag_here == (if k == 0 {
                0
            } else {
                steps@[k - 1].1 as int
            }),
        decreases steps.len() - k,
    {
        assert(steps@.skip(k as int)[0] == steps@[k as int]);
        assert(steps@.skip(k as int).skip(1) == steps@.skip(k + 1));
        lag_here = steps[k].1;
        k = k + 1;
    }
    proof {
        if k < steps.len() {
            assert(steps@.skip(k as int)[0] == steps@[k as int]);
        }
    }
    lag_here
}

/// The real time of file time `t_wav`.
pub fn to_real(steps: &[(i128, i128)], t_wav: i64) -> (r: i128)
    requires
        fitting(steps@),
    ensures
        r == real_time(steps@, t_wav as int),
{
    proof {
        lemma_reached(steps@, t_wav as int);
    }
    let here = lag_at(steps, t_wav);
    t_wav as i128 + here
}

/// `reached` counts the steps before the first one that is not reached.
pub proof fn lemma_reached(steps: Seq<(i128, i128)>, t: int)
    ensures
        reached(steps, t) <= steps.len(),
        forall|i: int| 0 <= i < reached(steps, t) ==> (#[trigger] steps[i]).0 <= t + TOLERANCE,
        reached(steps, t) < steps.len() ==> steps[reached(steps, t) as int].0 > t + TOLERANCE,
    decreases steps.len(),
{
    if steps.len() > 0 && steps[0].0 <= t + TOLERANCE {
        let rest = steps.skip(1);
        lemma_reached(rest, t);
        assert forall|i: int| 0 <= i < reached(steps, t) implies (#[trigger] steps[i]).0 <= t
            + TOLERANCE by {
            if i > 0 {
                assert(rest[i - 1] == steps[i]);
            }
        }
        if reached(steps, t) < steps.len() {
            assert(rest[reached(rest, t) as int] == steps[reached(steps, t) as int]);
        }
    }
}

/// Of steps in order, exactly those within the tolerance are reached.
proof fn lemma_reached_is(steps: Seq<(i128, i128)>, t: int, k: int)
    requires
        0 <= k <= steps.len(),
        forall|i: int| 0 <= i < k ==> (#[trigger] steps[i]).0 <= t + TOLERANCE,
        k < steps.len() ==> steps[k].0 > t + TOLERANCE,
    ensures
        reached(steps, t) == k,
{
    lemma_reached(steps, t);
    let r = reached(steps, t) as int;
    if r < k {
        assert(steps[r].0 <= t + TOLERANCE);
    }
    if k < r {
        assert(steps[k].0 <= t + TOLERANCE);
    }
}

/// A list of gaps as a recording leaves it: none stands before the start of the file, and
/// later gaps stand no earlier in the file.
pub open spec fn orderly(drops: Seq<(i64, i64)>) -> bool {
    &&& drops.len() <= usize::MAX
    &&& forall|i: int| 0 <= i < drops.len() ==> 0 <= #[trigger] place(drops, i)
    &&& forall|i: int, j: int|
        0 <= i < j < drops.len() ==> #[trigger] place(drops, i) <= #[trigger] place(drops, j)
}

/// The steps of an orderly list keep the order of the gaps.
pub proof fn lemma_orderly_steps(drops: Seq<(i64, i64)>, steps: Seq<(i128, i128)>)
    requires
        orderly(drops),
        stably_sorted(placed(drops), steps),
    ensures
        steps == placed(drops),
{
    assert forall|i: int, j: int|
        #![trigger placed(drops)[i], placed(drops)[j]]
        0 <= i < j < placed(drops).len() implies placed(drops)[i].key() <= placed(
        drops,
    )[j].key() by {
        lemma_placed_exact(drops, i);
        lemma_placed_exact(drops, j);
        assert(place(drops, i) <= place(drops, j));
    }
    lemma_sort_keeps_order(placed(drops), steps);
}

/// The end of a gap is put back at the real time at which the gap was noticed: the list
/// of gaps alone restores real time. Where later gaps stand at the same place in the file,
/// that place belongs to the last of them; and no gap may stand within the tolerance behind
/// it.
pub proof fn law_gap_end_is_restored(drops: Seq<(i64, i64)>, steps: Seq<(i128, i128)>, i: int)
    requires
        drops.len() <= usize::MAX,
        stably_sorted(placed(drops), steps),
        0 <= i < drops.len(),
        place(drops, i) >= 0,
        forall|k: int|
            0 <= k < drops.len() && #[trigger] place(drops, k) > place(drops, i) ==> place(drops, k)
                > place(drops, i) + TOLERANCE,
        forall|k: int|
            i < k < drops.len() ==> #[trigger] place(drops, k) != place(drops, i) && (place(
                drops,
                k,
            ) >= 0 || place(drops, i) > 0),
    ensures
        lag(steps, place(drops, i)) == lag_after(drops, i + 1),
        real_time(steps, place(drops, i)) == drops[i].0,
{
    let before = placed(drops);
    let from = choose|from: Seq<int>| sorted_from(before, steps, from);
    lemma_sort_rises(before, steps);
    lemma_onto(before, steps, from, i);
    let p = choose|p: int| 0 <= p < from.len() && from[p] == i;
    let t = place(drops, i);
    lemma_placed_exact(drops, i);
    assert(steps[p] == before[from[p]]);
    assert forall|q: int| 0 <= q < p + 1 implies (#[trigger] steps[q]).0 <= t + TOLERANCE by {
        if q < p {
            assert(steps[q].key() <= steps[p].key());
        }
    }
    if p + 1 < steps.len() {
        let k = from[p + 1];
        assert(steps[p + 1] == before[k]);
        assert(steps[p].key() <= steps[p + 1].key());
        lemma_placed_exact(drops, k);
        assert(precedes(steps[p].key(), from[p], steps[p + 1].key(), from[p + 1]));
        assert(place(drops, k) > t ==> place(drops, k) > t + TOLERANCE);
        if steps[p + 1].0 == t {
            assert(i < k);
            assert(place(drops, k) != t);
        }
    }
    lemma_reached_is(steps, t, p + 1);
}

/// Between one gap and the next, the lag is the sum of the gaps so far.
pub proof fn lemma_lag_between(
    drops: Seq<(i64, i64)>,
    steps: Seq<(i128, i128)>,
    n: int,
    t: int,
)
    requires
        orderly(drops),
        stably_sorted(placed(drops), steps),
        0 <= n <= drops.len(),
        n > 0 ==> place(drops, n - 1) <= t + TOLERANCE,
        n < drops.len() ==> place(drops, n) > t + TOLERANCE,
    ensures
        lag(steps, t) == lag_after(drops, n),
{
    lemma_orderly_steps(drops, steps);
    assert forall|k: int| 0 <= k < n implies (#[trigger] steps[k]).0 <= t + TOLERANCE by {
        lemma_placed_exact(drops, k);
        assert(place(drops, k) <= place(drops, n - 1));
        assert(0 <= place(drops, k));
    }
    if n < drops.len() {
        lemma_placed_exact(drops, n);
    }
    lemma_reached_is(steps, t, n);
    if n > 0 {
        lemma_placed_exact(drops, n - 1);
    }
}

/// Real time never runs backwards along the file, so segments of one track keep their
/// order.
pub proof fn law_real_time_rises(
    drops: Seq<(i64, i64)>,
    steps: Seq<(i128, i128)>,
    t: int,
    u: int,
)
    requires
        orderly(drops),
        forall|i: int| 0 <= i < drops.len() ==> (#[trigger] drops[i]).1 >= 0,
        stably_sorted(placed(drops), steps),
        t <= u,
    ensures
        lag(steps, t) <= lag(steps, u),
        real_time(steps, t) <= real_time(steps, u),
{
    lemma_orderly_steps(drops, steps);
    lemma_reached(steps, t);
    lemma_reached(steps, u);
    let a = reached(steps, t) as int;
    let b = reached(steps, u) as int;
    if b < a {
        assert(steps[b].0 <= t + TOLERANCE);
    }
    lemma_lag_grows(drops, a, b);
    if a > 0 {
        lemma_placed_exact(drops, a - 1);
    }
    if b > 0 {
        lemma_placed_exact(drops, b - 1);
    }
}

proof fn lemma_lag_grows(drops: Seq<(i64, i64)>, a: int, b: int)
    requires
        forall|i: int| 0 <= i < drops.len() ==> (#[trigger] drops[i]).1 >= 0,
        0 <= a <= b <= drops.len(),
    ensures
        lag_after(drops, a) <= lag_after(drops, b),
    decreases b,
{
    if a < b {
        lemma_lag_grows(drops, a, b - 1);
        assert(drops[b - 1].1 >= 0);
    }
}

/// From the last gap on, the lag is the total lag.
pub proof fn law_total_lag_after_last_gap(
    drops: Seq<(i64, i64)>,
    steps: Seq<(i128, i128)>,
    t: int,
)
    requires
        orderly(drops),
        stably_sorted(placed(drops), steps),
        drops.len() > 0,
        t >= place(drops, drops.len() - 1),
    ensures
        lag(steps, t) == lag_after(drops, drops.len() as int),
{
    lemma_orderly_steps(drops, steps);
    let n = drops.len() as int;
    assert forall|k: int| 0 <= k < n implies (#[trigger] steps[k]).0 <= t + TOLERANCE by {
        lemma_placed_exact(drops, k);
        assert(k < n - 1 ==> place(drops, k) <= place(drops, n - 1));
    }
    lemma_reached_is(steps, t, n);
    lemma_placed_exact(drops, n - 1);
}

/// Without gaps nothing is corrected.
pub proof fn law_no_gaps_no_correction(steps: Seq<(i128, i128)>, t: int)
    requires
        stably_sorted(placed(Seq::<(i64, i64)>::empty()), steps),
    ensures
        real_time(steps, t) == t,
        lag_after(Seq::<(i64, i64)>::empty(), 0) == 0,
{
}

/// A gap at the start alone, noticed when as much time had passed as it is long, is a
/// constant offset over the whole file.
pub proof fn law_leading_gap_is_constant(len: i64, steps: Seq<(i128, i128)>, t: int)
    requires
        stably_sorted(placed(seq![(len, len)]), steps),
        t >= 0,
    ensures
        real_time(steps, t) == t + len,
{
    let drops = seq![(len, len)];
    reveal_with_fuel(lag_after, 2);
    assert(lag_after(drops, 1) == len);
    assert(orderly(drops));
    law_total_lag_after_last_gap(drops, steps, t);
}

proof fn lemma_lag_after_push(drops: Seq<(i64, i64)>, g: (i64, i64), n: int)
    requires
        0 <= n <= drops.len(),
    ensures
        lag_after(drops.push(g), n) == lag_after(drops, n),
    decreases n,
{
    if n > 0 {
        lemma_lag_after_push(drops, g, n - 1);
    }
}

/// Each gap adds exactly its own length to the lag, whatever it is.
pub proof fn law_lag_adds_up(drops: Seq<(i64, i64)>, at: i64, len: i64)
    ensures
        lag_after(drops.push((at, len)), drops.len() as int + 1) == lag_after(
            drops,
            drops.len() as int,
        ) + len,
        lag_after(Seq::empty(), 0) == 0,
{
    lemma_lag_after_push(drops, (at, len), drops.len() as int);
}

/// Gaps of one length make a lag of that length times their number.
pub proof fn law_equal_gaps_multiply(drops: Seq<(i64, i64)>, len: i64, n: int)
    requires
        0 <= n <= drops.len(),
        forall|i: int| 0 <= i < n ==> (#[trigger] drops[i]).1 == len,
    ensures
        lag_after(drops, n) == n * len,
    decreases n,
{
    if n > 0 {
        law_equal_gaps_multiply(drops, len, n - 1);
        assert(drops[n - 1].1 == len);
        assert(n * len == (n - 1) * len + len) by (nonlinear_arith);
    } else {
        assert(0 * len == 0);
    }
}

/// One gap moves everything from its place on, a microsecond before it included, by its
/// length, and nothing before that. It stands at its time less its length, or at the start of
/// the file where that is before it.
pub proof fn law_one_gap(at: i64, len: i64, steps: Seq<(i128, i128)>, t: int)
    requires
        stably_sorted(placed(seq![(at, len)]), steps),
    ensures
        ({
            let from = if at < len {
                0
            } else {
                at - len
            };
            real_time(steps, t) == if t + 1_000 >= from {
                t + len
            } else {
                t
            }
        }),
{
    let drops = seq![(at, len)];
    reveal_with_fuel(lag_after, 2);
    assert(lag_after(drops, 1) == len);
    let before = placed(drops);
    lemma_sort_rises(before, steps);
    lemma_placed_exact(drops, 0);
    assert(steps.len() == 1);
    assert(before.contains(steps[0]));
    assert(steps[0] == before[0]);
    reveal_with_fuel(reached, 2);
}

/// What is moved depends on the gaps that stand at or before a time alone: of gaps in order,
/// exactly those whose place is at most a microsecond ahead are added up.
pub proof fn law_lag_is_that_of_the_gaps_passed(
    drops: Seq<(i64, i64)>,
    steps: Seq<(i128, i128)>,
    t: int,
    n: int,
)
    requires
        orderly(drops),
        stably_sorted(placed(drops), steps),
        0 <= n <= drops.len(),
        forall|i: int| 0 <= i < n ==> #[trigger] place(drops, i) <= t + 1_000,
        forall|i: int| n <= i < drops.len() ==> #[trigger] place(drops, i) > t + 1_000,
    ensures
        real_time(steps, t) == t + lag_after(drops, n),
{
    lemma_lag_between(drops, steps, n, t);
}

} // verus!
