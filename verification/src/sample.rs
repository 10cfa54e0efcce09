//! Audio samples as 32-bit floating-point bit patterns.
//!
//! The operations here work on the bit patterns alone and are stated over the numbers
//! that the patterns stand for: a finite pattern stands for plus or minus `level` times
//! `2^-149`.

use crate::decimal::{law_rounding_is_to_the_nearest, round_div, round_half_even};
use vstd::arithmetic::div_mod::{lemma_basic_div, lemma_div_denominator, lemma_fundamental_div_mod};
use vstd::arithmetic::power2::{
    lemma2_to64, lemma_pow2_adds, lemma_pow2_pos, lemma_pow2_strictly_increases, lemma_pow2_unfold,
    pow2,
};
use vstd::bits::lemma_u64_shr_is_div;
use vstd::prelude::*;

verus! {

/// What counts as sound when channels are compared: 1e-4, about -80 dBFS.
pub const SILENCE: u32 = 0x38d1_b717;

/// Below this peak, 0.001, a recording is as good as silent.
pub const FAINT: u32 = 0x3a83_126f;

/// Full scale, 1.0.
pub const FULL_SCALE: u32 = 0x3f80_0000;

/// The sign bit.
pub open spec fn is_negative(bits: u32) -> bool {
    bits >= 0x8000_0000
}

/// The pattern without its sign bit.
pub open spec fn size_of_bits(bits: u32) -> nat {
    (bits % 0x8000_0000) as nat
}

pub open spec fn is_nan(bits: u32) -> bool {
    size_of_bits(bits) > 0x7f80_0000
}

/// The significand of a pattern without its sign bit.
pub open spec fn significand(size: nat) -> nat {
    if size / 0x80_0000 == 0 {
        size
    } else {
        size % 0x80_0000 + 0x80_0000
    }
}

/// The exponent field, counted so that the value is `significand * 2^(scale - 150)`.
pub open spec fn scale(size: nat) -> nat {
    if size / 0x80_0000 == 0 {
        1
    } else {
        size / 0x80_0000
    }
}

/// The absolute value in units of `2^-149`.
pub open spec fn level(size: nat) -> nat {
    significand(size) * pow2((scale(size) - 1) as nat)
}

/// The value in units of `2^-149`.
pub open spec fn signed_level(bits: u32) -> int {
    if is_negative(bits) {
        -(level(size_of_bits(bits)) as int)
    } else {
        level(size_of_bits(bits)) as int
    }
}

/// Whether two samples are equal as numbers; what is not a number equals nothing.
pub open spec fn same_value(a: u32, b: u32) -> bool {
    !is_nan(a) && !is_nan(b) && signed_level(a) == signed_level(b)
}

/// Whether a sample is louder than the silence threshold.
pub open spec fn is_loud(bits: u32) -> bool {
    !is_nan(bits) && level(size_of_bits(bits)) > level(SILENCE as nat)
}

/// Whether all channels of a frame hold the same value.
pub open spec fn uniform(frame: Seq<u32>) -> bool {
    forall|i: int, j: int|
        0 <= i < j < frame.len() ==> same_value(#[trigger] frame[i], #[trigger] frame[j])
}

/// Larger patterns stand for larger values.
pub proof fn lemma_level_order(a: nat, b: nat)
    requires
        a < b,
    ensures
        level(a) < level(b),
{
    let ea = (scale(a) - 1) as nat;
    let eb = (scale(b) - 1) as nat;
    let sa = significand(a);
    let sb = significand(b);
    lemma_pow2_pos(ea);
    lemma_pow2_pos(eb);
    if a / 0x80_0000 == b / 0x80_0000 {
        let p = pow2(ea);
        assert(sa * p < sb * p) by (nonlinear_arith)
            requires
                sa < sb,
                p > 0,
        ;
    } else if ea == eb {
        let p = pow2(ea);
        assert(sa < sb);
        assert(sa * p < sb * p) by (nonlinear_arith)
            requires
                sa < sb,
                p > 0,
        ;
    } else {
        assert(ea < eb);
        lemma_pow2_adds((ea + 1) as nat, (eb - ea - 1) as nat);
        lemma_pow2_unfold((ea + 1) as nat);
        lemma_pow2_pos((eb - ea - 1) as nat);
        let p = pow2(ea);
        let q = pow2((eb - ea - 1) as nat);
        assert(pow2(eb) == (2 * p) * q);
        assert(sa * p < sb * ((2 * p) * q)) by (nonlinear_arith)
            requires
                sa < 0x100_0000,
                sb >= 0x80_0000,
                p > 0,
                q > 0,
        ;
    }
}

/// Different patterns stand for different values.
proof fn lemma_level_injective(a: nat, b: nat)
    ensures
        level(a) == level(b) <==> a == b,
{
    if a < b {
        lemma_level_order(a, b);
    } else if b < a {
        lemma_level_order(b, a);
    }
}

fn size_bits(bits: u32) -> (r: u32)
    ensures
        r == size_of_bits(bits),
{
    bits % 0x8000_0000
}

/// Whether two samples are equal as numbers.
pub fn same(a: u32, b: u32) -> (r: bool)
    ensures
        r == same_value(a, b),
{
    let sa = size_bits(a);
    let sb = size_bits(b);
    proof {
        lemma_level_injective(sa as nat, sb as nat);
        lemma_level_injective(sa as nat, 0);
        lemma_level_injective(sb as nat, 0);
        assert(level(0) == 0) by {
            assert(0 * pow2(0) == 0);
        }
    }
    if sa > 0x7f80_0000 || sb > 0x7f80_0000 {
        false
    } else {
        a == b || (sa == 0 && sb == 0)
    }
}

/// Whether a sample is louder than the silence threshold.
pub fn loud(bits: u32) -> (r: bool)
    ensures
        r == is_loud(bits),
{
    let size = size_bits(bits);
    proof {
        if size > SILENCE {
            lemma_level_order(SILENCE as nat, size as nat);
        } else if size < SILENCE {
            lemma_level_order(size as nat, SILENCE as nat);
        }
    }
    size > SILENCE && size <= 0x7f80_0000
}

/// Whether all channels of a frame hold the same value.
pub fn frame_is_uniform(frame: &[u32]) -> (r: bool)
    ensures
        r == uniform(frame@),
{
    let mut i: usize = 1;
    while i < frame.len()
        invariant
            1 <= i,
            i <= frame.len() || frame.len() == 0,
            forall|k: int| 1 <= k < i ==> same_value(frame@[0], #[trigger] frame@[k]),
        decreases frame.len() - i,
    {
        if !same(frame[0], frame[i]) {
            return false;
        }
        i = i + 1;
    }
    true
}

/// The louder of a peak and a sample; what is not a number leaves the peak as it is.
pub open spec fn raised(peak: u32, bits: u32) -> u32 {
    if !is_nan(bits) && level(size_of_bits(bits)) > level(peak as nat) {
        size_of_bits(bits) as u32
    } else {
        peak
    }
}

/// Takes a sample into account in the peak so far.
pub fn raise(peak: u32, bits: u32) -> (r: u32)
    ensures
        r == raised(peak, bits),
{
    let size = size_bits(bits);
    proof {
        if size > peak {
            lemma_level_order(peak as nat, size as nat);
        } else if size < peak {
            lemma_level_order(size as nat, peak as nat);
        }
    }
    if size > peak && size <= 0x7f80_0000 {
        size
    } else {
        peak
    }
}

/// Whether a peak is so low that the recording is as good as silent.
pub fn faint(peak: u32) -> (r: bool)
    ensures
        r == (level(peak as nat) < level(FAINT as nat)),
{
    proof {
        if peak > FAINT {
            lemma_level_order(FAINT as nat, peak as nat);
        } else if peak < FAINT {
            lemma_level_order(peak as nat, FAINT as nat);
        }
    }
    peak < FAINT
}

/// By how many bits `p` is longer than a 24-bit significand.
pub open spec fn excess(p: nat) -> nat
    decreases p,
{
    if p < 0x100_0000 {
        0
    } else {
        1 + excess(p / 2)
    }
}

/// `p` rounded to 24 significant bits, halves to even.
pub open spec fn round24(p: nat) -> nat {
    round_half_even(p, pow2(excess(p))) * pow2(excess(p))
}

pub open spec fn at_most_full(size: nat) -> nat {
    if size < FULL_SCALE {
        size
    } else {
        FULL_SCALE as nat
    }
}

/// The size of the 16-bit sample for a pattern without its sign bit: limited to full
/// scale, multiplied by 32767 in single precision, and cut to an integer.
pub open spec fn pcm_size(size: nat) -> nat {
    let limited = at_most_full(size);
    round24(significand(limited) * 32767) / pow2((150 - scale(limited)) as nat)
}

/// The 16-bit sample for a bit pattern. What is not a number becomes silence.
pub open spec fn pcm(bits: u32) -> int {
    if is_nan(bits) {
        0
    } else if is_negative(bits) {
        -(pcm_size(size_of_bits(bits)) as int)
    } else {
        pcm_size(size_of_bits(bits)) as int
    }
}

proof fn lemma_excess(p: nat, e: nat)
    requires
        e == 0 ==> p < 0x100_0000,
        e > 0 ==> p / pow2((e - 1) as nat) >= 0x100_0000 && p / pow2(e) < 0x100_0000,
    ensures
        excess(p) == e,
    decreases e,
{
    if e > 0 {
        lemma_pow2_unfold(e);
        lemma_pow2_pos((e - 1) as nat);
        let u = pow2((e - 1) as nat);
        assert(p >= 0x100_0000) by {
            lemma_fundamental_div_mod(p as int, u as int);
            assert(p >= 0x100_0000) by (nonlinear_arith)
                requires
                    p == u * (p / u) + p % u,
                    p / u >= 0x100_0000,
                    u > 0,
                    p % u >= 0,
            ;
        }
        lemma_div_denominator(p as int, 2, u as int);
        if e > 1 {
            lemma_pow2_unfold((e - 1) as nat);
            lemma_pow2_pos((e - 2) as nat);
            lemma_div_denominator(
                p as int,
                2,
                pow2((e - 2) as nat) as int,
            );
        } else {
            lemma2_to64();
            assert(p / 2 / 1 == p / 2);
        }
        lemma_excess(p / 2, (e - 1) as nat);
    }
}

/// Rounding does not pass a multiple of the unit.
proof fn lemma_round_bound(p: nat, u: nat, x: nat)
    requires
        u > 0,
        p <= x * u,
    ensures
        round_half_even(p, u) <= x,
{
    lemma_fundamental_div_mod(p as int, u as int);
    let q = p / u;
    let r = p % u;
    assert(q <= x && (q == x ==> r == 0)) by (nonlinear_arith)
        requires
            p == u * q + r,
            0 <= r < u,
            p <= x * u,
    ;
}

/// The 16-bit sample for a bit pattern.
pub fn quantise(bits: u32) -> (r: i16)
    ensures
        r == pcm(bits),
        -32767 <= r <= 32767,
{
    let size = size_bits(bits);
    if size > 0x7f80_0000 {
        return 0;
    }
    let limited: u32 = if size < FULL_SCALE {
        size
    } else {
        FULL_SCALE
    };
    let field: u32 = limited / 0x80_0000;
    let (m, s): (u64, u64) = if field == 0 {
        (limited as u64, 1)
    } else {
        ((limited % 0x80_0000 + 0x80_0000) as u64, field as u64)
    };
    assert(m == significand(limited as nat) && s == scale(limited as nat));
    let p: u64 = m * 32767;
    let mut e: u64 = 0;
    let mut unit: u64 = 1;
    proof {
        lemma2_to64();
    }
    while p / unit >= 0x100_0000
        invariant
            m < 0x100_0000,
            p == m * 32767,
            e <= 15,
            unit == pow2(e as nat),
            0 < unit <= 32768,
            e == 0 ==> unit == 1,
            e > 0 ==> p as nat / pow2((e - 1) as nat) >= 0x100_0000,
            e == 15 ==> unit == 32768,
        decreases 15 - e,
    {
        proof {
            lemma2_to64();
            lemma_pow2_unfold((e + 1) as nat);
            if e >= 15 {
                assert(p / 32768 < 0x100_0000);
            }
            if e < 14 {
                lemma_pow2_strictly_increases((e + 1) as nat, 15);
            }
        }
        e = e + 1;
        unit = unit * 2;
    }
    let q = round_div(p as u128, unit as u128);
    proof {
        assert(unit == 1 ==> p / unit == p) by (nonlinear_arith);
        lemma_excess(p as nat, e as nat);
        lemma2_to64();
        lemma_pow2_adds(e as nat, (24 - e) as nat);
        let x = 32767 * pow2((24 - e) as nat);
        let w = pow2((24 - e) as nat);
        assert(p <= x * unit) by (nonlinear_arith)
            requires
                p == m * 32767,
                m < 0x100_0000,
                x == 32767 * w,
                unit * w == 0x100_0000,
        ;
        lemma_round_bound(p as nat, unit as nat, x);
        assert(q * unit <= 32767 * 0x100_0000) by (nonlinear_arith)
            requires
                q <= x,
                x == 32767 * w,
                unit * w == 0x100_0000,
        ;
    }
    let v: u64 = q as u64 * unit;
    let k: u64 = 150 - s;
    let size16: u64 = if k < 64 {
        proof {
            lemma_u64_shr_is_div(v, k);
        }
        v >> k
    } else {
        proof {
            lemma2_to64();
            if k > 64 {
                lemma_pow2_strictly_increases(64, k as nat);
            }
            lemma_basic_div(v as int, pow2(k as nat) as int);
        }
        0
    };
    proof {
        lemma_pcm_bound(limited as nat, v as nat);
    }
    if bits >= 0x8000_0000 {
        -(size16 as i16)
    } else {
        size16 as i16
    }
}

/// A sample within full scale stays within 16 bits.
proof fn lemma_pcm_bound(limited: nat, v: nat)
    requires
        limited <= FULL_SCALE,
        v == round24(significand(limited) * 32767),
        v <= 32767 * 0x100_0000,
    ensures
        v / pow2((150 - scale(limited)) as nat) <= 32767,
{
    let k = (150 - scale(limited)) as nat;
    lemma_pow2_pos(k);
    lemma2_to64();
    if scale(limited) == 127 {
        let p: nat = 0x80_0000 * 32767;
        assert(significand(limited) == 0x80_0000);
        assert(excess(p) == 14) by {
            reveal_with_fuel(excess, 15);
        }
        assert(pow2(14) == 16384);
        assert(p / 16384 == 16776704 && p % 16384 == 0);
        assert(round_half_even(p, 16384) == 16776704);
        let u = pow2(excess(p));
        assert(u == 16384);
        let q = round_half_even(p, u);
        assert(q * u == p) by (nonlinear_arith)
            requires
                u == 16384,
                q == 16776704,
                p == 274869518336,
        ;
        assert(round24(p) == p);
        assert(k == 23);
        assert(p / 0x80_0000 == 32767);
    } else {
        if k > 24 {
            lemma_pow2_strictly_increases(24, k);
        }
        lemma_fundamental_div_mod(v as int, pow2(k) as int);
        let d = pow2(k);
        assert(v / d <= 32767) by (nonlinear_arith)
            requires
                v == d * (v / d) + v % d,
                v % d >= 0,
                d >= 0x100_0000,
                v <= 32767 * 0x100_0000,
        ;
    }
}

/// Samples of opposite sign become opposite 16-bit samples.
pub proof fn law_quantise_is_odd(bits: u32)
    requires
        bits < 0x8000_0000,
    ensures
        pcm((bits + 0x8000_0000) as u32) == -pcm(bits),
{
}

/// A sample counts as sound exactly if its pattern, without the sign, lies above that of 1e-4
/// and not above that of infinity.
pub proof fn law_loud_by_pattern(bits: u32)
    ensures
        is_loud(bits) <==> 0x38d1_b717 < bits % 0x8000_0000 <= 0x7f80_0000,
{
    let size = size_of_bits(bits);
    if size > SILENCE {
        lemma_level_order(SILENCE as nat, size);
    } else if size < SILENCE {
        lemma_level_order(size, SILENCE as nat);
    }
}

/// Whether two patterns are those of equal numbers: neither is beyond infinity, and they are
/// the same, or both are zero but for the sign.
pub open spec fn equal_patterns(a: u32, b: u32) -> bool {
    &&& a % 0x8000_0000 <= 0x7f80_0000
    &&& b % 0x8000_0000 <= 0x7f80_0000
    &&& a == b || (a % 0x8000_0000 == 0 && b % 0x8000_0000 == 0)
}

/// Two samples are equal exactly if their patterns are.
pub proof fn law_equal_by_pattern(a: u32, b: u32)
    ensures
        same_value(a, b) <==> equal_patterns(a, b),
{
    lemma_level_injective(size_of_bits(a), size_of_bits(b));
    lemma_level_injective(size_of_bits(a), 0);
    lemma_level_injective(size_of_bits(b), 0);
    assert(level(0) == 0) by {
        lemma2_to64();
    }
}

/// A frame is uniform exactly if every two of its channels have equal patterns.
pub proof fn law_uniform_by_pattern(frame: Seq<u32>)
    ensures
        uniform(frame) <==> forall|c: int, d: int|
            0 <= c < d < frame.len() ==> equal_patterns(#[trigger] frame[c], #[trigger] frame[d]),
{
    assert forall|c: int, d: int| 0 <= c < d < frame.len() implies same_value(
        #[trigger] frame[c],
        #[trigger] frame[d],
    ) == equal_patterns(frame[c], frame[d]) by {
        law_equal_by_pattern(frame[c], frame[d]);
    }
}

/// The peak becomes the larger of two patterns without sign; what is not a number changes
/// nothing.
pub proof fn law_peak_takes_the_larger(peak: u32, bits: u32)
    ensures
        bits % 0x8000_0000 > 0x7f80_0000 ==> raised(peak, bits) == peak,
        bits % 0x8000_0000 <= 0x7f80_0000 ==> {
            &&& raised(peak, bits) >= peak
            &&& raised(peak, bits) >= bits % 0x8000_0000
            &&& raised(peak, bits) == peak || raised(peak, bits) == bits % 0x8000_0000
        },
{
    let size = size_of_bits(bits);
    if size > peak {
        lemma_level_order(peak as nat, size);
    } else if size < peak {
        lemma_level_order(size, peak as nat);
    }
}

/// From one pattern to the next the value grows by the unit of its exponent, which doubles
/// every `2^23` patterns; it starts at zero.
pub proof fn law_level_grows_by_units(size: nat)
    ensures
        level(0) == 0,
        level(size + 1) == level(size) + pow2(
            (if size / 0x80_0000 == 0 {
                0
            } else {
                size / 0x80_0000 - 1
            }) as nat,
        ),
{
    assert(0 * pow2(0) == 0);
    let e = (scale(size) - 1) as nat;
    let p = pow2(e);
    let m = significand(size);
    assert((m + 1) * p == m * p + p) by (nonlinear_arith);
    if (size + 1) / 0x80_0000 != size / 0x80_0000 {
        let f = (scale(size + 1) - 1) as nat;
        assert(significand(size + 1) == 0x80_0000);
        if size / 0x80_0000 == 0 {
            assert(f == e);
        } else {
            assert(f == e + 1);
            lemma_pow2_unfold(f);
            assert(0x80_0000 * (2 * p) == 0x100_0000 * p) by (nonlinear_arith);
        }
    }
}

/// Where a product is longer than a significand, it is at least half as long again.
proof fn lemma_excess_size(p: nat)
    ensures
        excess(p) > 0 ==> p >= 0x80_0000 * pow2(excess(p)),
    decreases p,
{
    if p >= 0x100_0000 {
        lemma_excess_size(p / 2);
        let e = excess(p / 2);
        lemma_pow2_unfold(e + 1);
        lemma2_to64();
        if e == 0 {
            assert(pow2(1) == 2);
        } else {
            let u = pow2(e);
            assert(p >= 0x80_0000 * (2 * u)) by (nonlinear_arith)
                requires
                    p / 2 >= 0x80_0000 * u,
            ;
        }
    }
}

/// Rounding to 24 bits moves a number by no more than its `2^24`th part.
proof fn lemma_round24_close(p: nat)
    ensures
        -(p as int) <= (round24(p) - p) * 0x100_0000 <= p,
{
    let e = excess(p);
    let u = pow2(e);
    lemma_pow2_pos(e);
    lemma_fundamental_div_mod(p as int, u as int);
    let f = p / u;
    let r = p % u;
    let q = round_half_even(p, u);
    assert(f * u == u * f) by (nonlinear_arith);
    assert((f + 1) * u == f * u + u) by (nonlinear_arith);
    if e == 0 {
        lemma2_to64();
        assert(p / 1 == p && p % 1 == 0);
        assert(q == p);
        assert(p * 1 == p);
    } else {
        lemma_excess_size(p);
        assert(q == f || q == f + 1);
        assert(q == f ==> q * u == f * u);
        assert(q == f + 1 ==> q * u == f * u + u);
        let d = q * u - p;
        assert(-(u as int) <= 2 * d <= u);
    }
}

/// A sample within full scale becomes the value times 32767, cut to an integer, but for the
/// rounding of the product to single precision. (A `level` of `2^149` is full scale.)
pub proof fn law_quantise_is_close(size: nat)
    requires
        size <= 0x3f80_0000,
    ensures
        pcm_size(size) * pow2(149) * 0x100_0000 <= level(size) * 32767 * 0x100_0001,
        (pcm_size(size) + 1) * pow2(149) * 0x100_0000 > level(size) * 32767 * 0xff_ffff
            || size == 0,
{
    let s = scale(size);
    let m = significand(size);
    let p = m * 32767;
    let r = round24(p);
    let k = (150 - s) as nat;
    let d = pow2(k);
    let t = pow2((s - 1) as nat);
    lemma_pow2_pos(k);
    lemma_pow2_pos((s - 1) as nat);
    lemma_pow2_adds(k, (s - 1) as nat);
    assert(k + (s - 1) as nat == 149);
    assert(at_most_full(size) == size);
    lemma_round24_close(p);
    lemma_fundamental_div_mod(r as int, d as int);
    let x = r / d;
    assert(x == pcm_size(size));
    let rr = r % d;
    assert(x * (d * t) * 0x100_0000 <= m * t * 32767 * 0x100_0001) by (nonlinear_arith)
        requires
            r == d * x + rr,
            rr >= 0,
            (r - p) * 0x100_0000 <= p,
            p == m * 32767,
            t > 0,
    ;
    if size > 0 {
        assert(m > 0);
        assert((x + 1) * (d * t) * 0x100_0000 > m * t * 32767 * 0xff_ffff) by (nonlinear_arith)
            requires
                r == d * x + rr,
                rr < d,
                (r - p) * 0x100_0000 >= -p,
                p == m * 32767,
                t > 0,
        ;
    }
}

/// What is beyond full scale is held there, and nothing that is not a number is heard.
pub proof fn law_quantise_limits(bits: u32)
    ensures
        bits % 0x8000_0000 > 0x7f80_0000 ==> pcm(bits) == 0,
        0x3f80_0000 <= bits <= 0x7f80_0000 ==> pcm(bits) == pcm(0x3f80_0000),
        0xbf80_0000 <= bits <= 0xff80_0000 ==> pcm(bits) == -pcm(0x3f80_0000),
        pcm(0x3f80_0000) == 32767,
        pcm(0) == 0,
{
    lemma2_to64();
    let p: nat = 0x80_0000 * 32767;
    assert(excess(p) == 14) by {
        reveal_with_fuel(excess, 15);
    }
    assert(pow2(14) == 16384);
    assert(p / 16384 == 16776704 && p % 16384 == 0);
    let u = pow2(excess(p));
    let q = round_half_even(p, u);
    assert(q * u == p) by (nonlinear_arith)
        requires
            u == 16384,
            q == 16776704,
            p == 274869518336,
    ;
    assert(round24(p) == p);
    let full: nat = 0x3f80_0000;
    assert(full / 0x80_0000 == 127 && full % 0x80_0000 == 0);
    assert(significand(full) == 0x80_0000 && scale(full) == 127);
    assert(pow2(23) == 0x80_0000);
    assert(p / 0x80_0000 == 32767);
    assert(at_most_full(full) == full);
    assert(pcm_size(full) == 32767);
    assert(round24(0) == 0) by {
        assert(0nat / 1 == 0 && 0nat % 1 == 0);
        assert(0 * 1 == 0);
    }
    lemma_pow2_pos(149);
    lemma_basic_div(0, pow2(149) as int);
}

/// A product is rounded to 24 bits: to the nearest multiple of the power of two by which it is
/// longer, halves to the even multiple.
pub proof fn law_products_are_rounded_to_24_bits(p: nat, e: nat)
    requires
        e == 0 ==> p < 0x100_0000,
        e > 0 ==> p / pow2((e - 1) as nat) >= 0x100_0000 && p / pow2(e) < 0x100_0000,
    ensures
        ({
            let u = pow2(e) as int;
            let q = round24(p) / pow2(e);
            &&& round24(p) == q * u
            &&& -u <= 2 * (round24(p) - p) <= u
            &&& 2 * (round24(p) - p) == u || 2 * (round24(p) - p) == -u ==> q % 2 == 0
            &&& e == 0 ==> round24(p) == p
        }),
{
    lemma_excess(p, e);
    let u = pow2(e);
    lemma_pow2_pos(e);
    let q = round_half_even(p, u);
    law_rounding_is_to_the_nearest(p, u);
    vstd::arithmetic::div_mod::lemma_div_by_multiple(q as int, u as int);
    if e == 0 {
        lemma2_to64();
        assert(p / 1 == p && p % 1 == 0);
        assert(q * 1 == q);
    }
}

/// The 16-bit sample of a pattern within full scale, by its exponent and its fraction: the
/// product with 32767, rounded to 24 bits, is moved by the exponent and cut.
pub proof fn law_quantise_by_exponent_and_fraction(field: nat, fraction: nat)
    requires
        fraction < 0x80_0000,
        field < 127,
    ensures
        field > 0 ==> pcm_size(field * 0x80_0000 + fraction) == round24(
            (0x80_0000 + fraction) * 32767,
        ) / pow2((150 - field) as nat),
        field == 0 ==> pcm_size(fraction) == round24(fraction * 32767) / pow2(149),
{
    let size = field * 0x80_0000 + fraction;
    assert(size / 0x80_0000 == field && size % 0x80_0000 == fraction);
    assert(at_most_full(size) == size);
}

} // verus!
