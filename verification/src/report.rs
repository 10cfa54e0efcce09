//! What is told about a recording when it ends.

use crate::decimal::{
    magnitude, rated_fixed, rated_share, ratio_text, seconds_fixed,
};
use crate::meta::{captured_text, shortfall, shortfall_of, Session};
use crate::gaps::gaps_before;
use crate::recorder::{Gap, Recorder};
use crate::sample::{faint, lemma_level_order, level, FAINT};
use crate::text::{decimal, decimal_text, pad_left, padded};
use vstd::prelude::*;

verus! {

/// A length of time in seconds with the given number of places.
pub open spec fn secs(nanos: nat, places: nat) -> Seq<char> {
    ratio_text(nanos as int, 1_000_000_000, places)
}

/// A quotient with two places and its sign.
pub open spec fn signed_text(num: int, den: nat) -> Seq<char> {
    if num < 0 {
        ratio_text(num, den, 2)
    } else {
        "+"@ + ratio_text(num, den, 2)
    }
}

pub open spec fn first_or_zero(s: Session) -> nat {
    match s.first_data {
        Some(t) => t as nat,
        None => 0,
    }
}

/// What the shortfall means. Up to half a second it means nothing. What the computer played
/// only comes while it plays; a microphone starts late and loses samples.
pub open spec fn shortfall_note(r: Recorder, s: Session) -> Seq<char> {
    let num = shortfall(r, s);
    if 2 * magnitude(num) <= r.rate * 1_000_000_000 {
        Seq::empty()
    } else if s.loopback {
        "   ← 再生されていた時間ぶんしか来ていない。統合は時刻ベースで（ADR-004）"@
    } else {
        let n = s.underruns@.len();
        "   ← 起動遅延 "@ + secs(first_or_zero(s), 2) + "秒 + underrun "@ + decimal(n)
            + " 回ぶんの欠損か（1回あたり "@ + (if n == 0 {
            "0.0"@
        } else {
            ratio_text(
                num - first_or_zero(s) * r.rate,
                1_000_000 * (r.rate as nat) * n,
                1,
            )
        }) + " ms）"@
    }
}

pub open spec fn first_text(s: Session) -> Seq<char> {
    match s.first_data {
        Some(t) => "    最初のデータ: 開始から "@ + secs(t as nat, 2) + " 秒後\n"@,
        None => "    最初のデータ: 一度も来なかった   ← このデバイスでは録れていない\n"@,
    }
}

pub open spec fn level_text(r: Recorder, s: Session) -> Seq<char> {
    "    音量        : ピーク "@ + s.peak_dbfs@ + " dBFS / RMS "@ + s.rms_dbfs@ + " dBFS"@ + (if level(
        r.peak as nat,
    ) < level(FAINT as nat) {
        "   ← ほぼ無音。デバイス選択と Windows の録音音量を疑う"@
    } else {
        Seq::empty()
    }) + "\n"@
}

/// What became of the channels; nothing where they were kept.
pub open spec fn downmix_text(r: Recorder) -> Seq<char> {
    let head = "    ダウンミックス: "@ + decimal(r.channels_in as nat);
    if !r.downmixed {
        Seq::empty()
    } else if r.downmix_violations > 0 {
        head + "ch → 1ch   !! "@ + decimal(r.downmix_violations as nat)
            + " フレームが同一でなかった（全 "@ + decimal(r.frames_written as nat) + " 中）\n"@
            + "                    判定した区間だけで決めており、前提が崩れている\n"@
    } else {
        head + "ch → 1ch（判定した区間で全chが同一だったため）\n"@
    }
}

pub open spec fn gap_line(g: Gap, rate: nat) -> Seq<char> {
    "                  "@ + padded(secs(g.at as nat, 2), 7, ' ') + "秒 で "@ + ratio_text(
        g.len as int,
        rate * 1_000_000_000,
        2,
    ) + " 秒ぶん\n"@
}

/// The lines of the first `n` gaps.
pub open spec fn gap_lines(drops: Seq<Gap>, rate: nat, n: int) -> Seq<char>
    decreases n,
{
    if n <= 0 {
        Seq::empty()
    } else {
        gap_lines(drops, rate, n - 1) + gap_line(drops[n - 1], rate)
    }
}

/// What is told of the gaps: how many, how long in all, and the first eight.
pub open spec fn gaps_text(drops: Seq<Gap>, rate: nat) -> Seq<char> {
    let n = drops.len() as int;
    if n == 0 {
        Seq::empty()
    } else {
        let head = "    無通信区間  : "@ + decimal(n as nat) + " 回 / 合計 "@ + ratio_text(
            gaps_before(drops, n),
            rate * 1_000_000_000,
            2,
        ) + " 秒   ← ここを時刻で埋める（ADR-004）\n"@;
        if n > 8 {
            head + gap_lines(drops, rate, 8) + "                  …他 "@ + decimal((n - 8) as nat)
                + " 件（meta.json に全件）\n"@
        } else {
            head + gap_lines(drops, rate, n)
        }
    }
}

pub open spec fn underruns_text(times: Seq<u64>) -> Seq<char> {
    "    underrun    : "@ + decimal(times.len()) + " 回"@ + (if times.len() > 1 {
        "（"@ + secs(times[0] as nat, 1) + "秒〜"@ + secs(times.last() as nat, 1) + "秒）"@
    } else if times.len() == 1 {
        "（"@ + secs(times[0] as nat, 1) + "秒）"@
    } else {
        Seq::empty()
    }) + "\n"@
}

/// All that is told about a recording.
pub open spec fn report_text(r: Recorder, s: Session) -> Seq<char> {
    "\n  ["@ + s.speaker.name() + "] "@ + s.device@ + "\n"@ + "    実経過      : "@ + secs(
        s.wall as nat,
        2,
    ) + " 秒\n"@ + "    録れた長さ  : "@ + ratio_text(r.frames_written as int, r.rate as nat, 2)
        + " 秒 ("@ + decimal(r.frames_written as nat) + " フレーム)\n"@ + "    ズレ        : "@
        + signed_text(shortfall(r, s), r.rate as nat * 1_000_000_000) + " 秒"@ + shortfall_note(r, s)
        + "\n"@ + first_text(s) + level_text(r, s) + downmix_text(r) + gaps_text(
        r.drops@,
        r.rate as nat,
    ) + underruns_text(s.underruns@) + "    出力        : "@ + s.path@ + "\n"@
}

/// Whether no sum of the first gaps leaves 128 bits.
pub open spec fn total_fits(drops: Seq<Gap>) -> bool {
    forall|n: int|
        0 <= n <= drops.len() ==> i128::MIN <= #[trigger] gaps_before(drops, n) <= i128::MAX
}

/// How long the gaps are in all; nothing where a sum leaves 128 bits.
pub fn gap_total(drops: &[Gap]) -> (r: Option<i128>)
    ensures
        match r {
            Some(x) => total_fits(drops@) && x == gaps_before(drops@, drops@.len() as int),
            None => !total_fits(drops@),
        },
{
    let mut sum: i128 = 0;
    for i in 0..drops.len()
        invariant
            sum == gaps_before(drops@, i as int),
            forall|n: int|
                0 <= n <= i ==> i128::MIN <= #[trigger] gaps_before(drops@, n) <= i128::MAX,
    {
        sum = match sum.checked_add(drops[i].len) {
            Some(x) => x,
            None => {
                assert(!(i128::MIN <= gaps_before(drops@, i + 1) <= i128::MAX));
                return None;
            },
        };
    }
    Some(sum)
}

fn note_text(r: &Recorder, s: &Session, num: i128) -> (t: String)
    requires
        r.rate > 0,
        num == shortfall(*r, *s),
        -0x1_0000_0000_0000_0000_0000_0000 <= num <= 0x1_0000_0000_0000_0000_0000_0000,
    ensures
        t@ == shortfall_note(*r, *s),
{
    let size: i128 = if num < 0 {
        -num
    } else {
        num
    };
    if 2 * size <= r.rate as i128 * 1_000_000_000 {
        return String::new();
    }
    if s.loopback {
        return "   ← 再生されていた時間ぶんしか来ていない。統合は時刻ベースで（ADR-004）".to_string();
    }
    let first: u64 = match s.first_data {
        Some(t) => t,
        None => 0,
    };
    let n: usize = s.underruns.len();
    let mut t = "   ← 起動遅延 ".to_string();
    t.append(seconds_fixed(first as i128, 2).as_str());
    t.append("秒 + underrun ");
    t.append(decimal_text(n as u128).as_str());
    t.append(" 回ぶんの欠損か（1回あたり ");
    let share: String = if n == 0 {
        "0.0".to_string()
    } else {
        proof {
            let a = first * r.rate;
            assert(0 <= a <= 0xffff_ffff_ffff_ffff * 0xffff_ffff) by (nonlinear_arith)
                requires
                    a == first * r.rate,
                    0 <= first <= 0xffff_ffff_ffff_ffff,
                    0 <= r.rate <= 0xffff_ffff,
            ;
        }
        rated_share(num - first as i128 * r.rate as i128, r.rate, n as u64)
    };
    t.append(share.as_str());
    t.append(" ms）");
    t
}

fn downmix_lines(r: &Recorder) -> (t: String)
    ensures
        t@ == downmix_text(*r),
{
    if !r.downmixed {
        return String::new();
    }
    let mut t = "    ダウンミックス: ".to_string();
    t.append(decimal_text(r.channels_in as u128).as_str());
    if r.downmix_violations > 0 {
        t.append("ch → 1ch   !! ");
        t.append(decimal_text(r.downmix_violations as u128).as_str());
        t.append(" フレームが同一でなかった（全 ");
        t.append(decimal_text(r.frames_written as u128).as_str());
        t.append(" 中）\n");
        t.append("                    判定した区間だけで決めており、前提が崩れている\n");
    } else {
        t.append("ch → 1ch（判定した区間で全chが同一だったため）\n");
    }
    t
}

fn gaps_part(drops: &[Gap], rate: u32, total: i128) -> (t: String)
    requires
        rate > 0,
        total == gaps_before(drops@, drops@.len() as int),
    ensures
        t@ == gaps_text(drops@, rate as nat),
{
    let n: usize = drops.len();
    if n == 0 {
        return String::new();
    }
    let mut t = "    無通信区間  : ".to_string();
    t.append(decimal_text(n as u128).as_str());
    t.append(" 回 / 合計 ");
    t.append(rated_fixed(total, rate, 2).as_str());
    t.append(" 秒   ← ここを時刻で埋める（ADR-004）\n");
    let shown: usize = if n > 8 {
        8
    } else {
        n
    };
    let mut lines = String::new();
    for i in 0..shown
        invariant
            rate > 0,
            shown <= drops@.len(),
            lines@ == gap_lines(drops@, rate as nat, i as int),
    {
        let mut line = "                  ".to_string();
        line.append(pad_left(seconds_fixed(drops[i].at as i128, 2).as_str(), 7, ' ').as_str());
        line.append("秒 で ");
        line.append(rated_fixed(drops[i].len, rate, 2).as_str());
        line.append(" 秒ぶん\n");
        lines.append(line.as_str());
    }
    t.append(lines.as_str());
    if n > 8 {
        t.append("                  …他 ");
        t.append(decimal_text((n - 8) as u128).as_str());
        t.append(" 件（meta.json に全件）\n");
    }
    t
}

fn underruns_line(times: &[u64]) -> (t: String)
    ensures
        t@ == underruns_text(times@),
{
    let n: usize = times.len();
    let mut span = String::new();
    if n > 1 {
        span = "（".to_string();
        span.append(seconds_fixed(times[0] as i128, 1).as_str());
        span.append("秒〜");
        span.append(seconds_fixed(times[n - 1] as i128, 1).as_str());
        span.append("秒）");
    } else if n == 1 {
        span = "（".to_string();
        span.append(seconds_fixed(times[0] as i128, 1).as_str());
        span.append("秒）");
    }
    let mut t = "    underrun    : ".to_string();
    t.append(decimal_text(n as u128).as_str());
    t.append(" 回");
    t.append(span.as_str());
    t.append("\n");
    t
}

/// Tells about a recording, given the total of its gaps.
pub fn report(r: &Recorder, s: &Session, total: i128) -> (t: String)
    requires
        r.rate > 0,
        total == gaps_before(r.drops@, r.drops@.len() as int),
    ensures
        t@ == report_text(*r, *s),
{
    let num = shortfall_of(r, s);
    let mut t = "\n  [".to_string();
    t.append(s.speaker.label());
    t.append("] ");
    t.append(s.device.as_str());
    t.append("\n");
    t.append("    実経過      : ");
    t.append(seconds_fixed(s.wall as i128, 2).as_str());
    t.append(" 秒\n");
    t.append("    録れた長さ  : ");
    t.append(captured_text(r, 2).as_str());
    t.append(" 秒 (");
    t.append(decimal_text(r.frames_written as u128).as_str());
    t.append(" フレーム)\n");
    t.append("    ズレ        : ");
    let gap = rated_fixed(num, r.rate, 2);
    let gap: String = if num < 0 {
        gap
    } else {
        let mut g = "+".to_string();
        g.append(gap.as_str());
        g
    };
    t.append(gap.as_str());
    t.append(" 秒");
    t.append(note_text(r, s, num).as_str());
    t.append("\n");
    let first: String = match s.first_data {
        Some(at) => {
            let mut f = "    最初のデータ: 開始から ".to_string();
            f.append(seconds_fixed(at as i128, 2).as_str());
            f.append(" 秒後\n");
            f
        },
        None => "    最初のデータ: 一度も来なかった   ← このデバイスでは録れていない\n".to_string(),
    };
    t.append(first.as_str());
    let mut levels = "    音量        : ピーク ".to_string();
    levels.append(s.peak_dbfs.as_str());
    levels.append(" dBFS / RMS ");
    levels.append(s.rms_dbfs.as_str());
    levels.append(" dBFS");
    let quiet: String = if faint(r.peak) {
        "   ← ほぼ無音。デバイス選択と Windows の録音音量を疑う".to_string()
    } else {
        String::new()
    };
    levels.append(quiet.as_str());
    levels.append("\n");
    t.append(levels.as_str());
    t.append(downmix_lines(r).as_str());
    t.append(gaps_part(r.drops.as_slice(), r.rate, total).as_str());
    t.append(underruns_line(s.underruns.as_slice()).as_str());
    t.append("    出力        : ");
    t.append(s.path.as_str());
    t.append("\n");
    t
}

/// The shortfall is explained exactly if it is more than half a second either way; for what
/// the computer played always in the same words.
pub proof fn law_note_comes_beyond_half_a_second(r: Recorder, s: Session)
    requires
        r.rate > 0,
    ensures
        ({
            let off = s.wall * r.rate - r.frames_written * 1_000_000_000;
            let far = off > 500_000_000 * r.rate || off < -500_000_000 * r.rate;
            &&& !far ==> shortfall_note(r, s).len() == 0
            &&& far && s.loopback ==> shortfall_note(r, s)
                == "   ← 再生されていた時間ぶんしか来ていない。統合は時刻ベースで（ADR-004）"@
        }),
{
}

/// For a microphone the note tells the late start, the number of losses, and what each of them
/// would have cost: the rest of the shortfall, shared out, in milliseconds.
pub proof fn law_note_shares_out_the_rest(r: Recorder, s: Session, first: u64)
    requires
        r.rate > 0,
        !s.loopback,
        s.first_data == Some(first) || (s.first_data is None && first == 0),
        ({
            let off = s.wall * r.rate - r.frames_written * 1_000_000_000;
            off > 500_000_000 * r.rate || off < -500_000_000 * r.rate
        }),
    ensures
        ({
            let off = s.wall * r.rate - r.frames_written * 1_000_000_000;
            let n = s.underruns@.len();
            shortfall_note(r, s) == "   ← 起動遅延 "@ + ratio_text(first as int, 1_000_000_000, 2)
                + "秒 + underrun "@ + decimal(n) + " 回ぶんの欠損か（1回あたり "@ + (if n > 0 {
                ratio_text(off - first * r.rate, 1_000_000 * (r.rate as nat) * n, 1)
            } else {
                "0.0"@
            }) + " ms）"@
        }),
{
}

/// The first `n + 1` lines of gaps are the first `n` and that of the next gap: when it was
/// noticed, to seven characters, and how long it is.
pub proof fn law_every_gap_has_its_line(drops: Seq<Gap>, rate: nat, n: int)
    requires
        0 <= n < drops.len(),
    ensures
        gap_lines(drops, rate, n + 1) == gap_lines(drops, rate, n) + ("                  "@ + padded(
            ratio_text(drops[n].at as int, 1_000_000_000, 2),
            7,
            ' ',
        ) + "秒 で "@ + ratio_text(drops[n].len as int, rate * 1_000_000_000, 2) + " 秒ぶん\n"@),
        gap_lines(drops, rate, 0).len() == 0,
{
}

/// Of gaps are told the number, the sum, the first eight, and how many more there are.
pub proof fn law_gaps_are_summed_up(drops: Seq<Gap>, rate: nat)
    ensures
        drops.len() == 0 ==> gaps_text(drops, rate).len() == 0,
        drops.len() > 0 ==> ({
            let n = drops.len() as int;
            let shown = if n < 8 {
                n
            } else {
                8
            };
            let head = "    無通信区間  : "@ + decimal(n as nat) + " 回 / 合計 "@ + ratio_text(
                gaps_before(drops, n),
                rate * 1_000_000_000,
                2,
            ) + " 秒   ← ここを時刻で埋める（ADR-004）\n"@;
            let told = head + gap_lines(drops, rate, shown);
            &&& n <= 8 ==> gaps_text(drops, rate) == told
            &&& n > 8 ==> gaps_text(drops, rate) == told + "                  …他 "@ + decimal(
                (n - 8) as nat,
            ) + " 件（meta.json に全件）\n"@
        }),
{
}

/// Of losses are told the number and the times of the first and the last.
pub proof fn law_losses_are_summed_up(times: Seq<u64>)
    ensures
        times.len() == 0 ==> underruns_text(times) == "    underrun    : "@ + decimal(0) + " 回"@
            + Seq::<char>::empty() + "\n"@,
        times.len() == 1 ==> underruns_text(times) == "    underrun    : "@ + decimal(1) + " 回"@
            + ("（"@ + ratio_text(times[0] as int, 1_000_000_000, 1) + "秒）"@) + "\n"@,
        times.len() > 1 ==> underruns_text(times) == "    underrun    : "@ + decimal(times.len())
            + " 回"@ + ("（"@ + ratio_text(times[0] as int, 1_000_000_000, 1) + "秒〜"@
            + ratio_text(times[times.len() - 1] as int, 1_000_000_000, 1) + "秒）"@) + "\n"@,
{
}

/// What is told of the channels: nothing where they were kept, and where they were not, the
/// violations if there are any.
pub proof fn law_channels_are_told(r: Recorder)
    ensures
        !r.downmixed ==> downmix_text(r).len() == 0,
        r.downmixed && r.downmix_violations == 0 ==> downmix_text(r) == "    ダウンミックス: "@
            + decimal(r.channels_in as nat)
            + "ch → 1ch（判定した区間で全chが同一だったため）\n"@,
        r.downmixed && r.downmix_violations > 0 ==> downmix_text(r) == "    ダウンミックス: "@
            + decimal(r.channels_in as nat) + "ch → 1ch   !! "@ + decimal(
            r.downmix_violations as nat,
        ) + " フレームが同一でなかった（全 "@ + decimal(r.frames_written as nat) + " 中）\n"@
            + "                    判定した区間だけで決めており、前提が崩れている\n"@,
{
}

/// The levels are told as they are, with a warning exactly if the pattern of the peak lies
/// below that of 0.001.
pub proof fn law_faint_recordings_are_warned_of(r: Recorder, s: Session)
    ensures
        level_text(r, s) == "    音量        : ピーク "@ + s.peak_dbfs@ + " dBFS / RMS "@
            + s.rms_dbfs@ + " dBFS"@ + (if r.peak < 0x3a83_126f {
            "   ← ほぼ無音。デバイス選択と Windows の録音音量を疑う"@
        } else {
            Seq::empty()
        }) + "\n"@,
{
    if r.peak < FAINT {
        lemma_level_order(r.peak as nat, FAINT as nat);
    } else if r.peak > FAINT {
        lemma_level_order(FAINT as nat, r.peak as nat);
    }
}

/// When the first data came is told, or that none came.
pub proof fn law_first_data_is_told(s: Session)
    ensures
        s.first_data matches Some(t) ==> first_text(s) == "    最初のデータ: 開始から "@ + ratio_text(
            t as int,
            1_000_000_000,
            2,
        ) + " 秒後\n"@,
        s.first_data is None ==> first_text(s)
            == "    最初のデータ: 一度も来なかった   ← このデバイスでは録れていない\n"@,
{
}

/// The report tells, in this order, the track, the time it took, what was recorded, how far
/// the two are apart with its sign and what that means, the first data, the levels, the
/// channels, the gaps, the losses and the file.
pub proof fn law_report_tells_everything(r: Recorder, s: Session)
    ensures
        ({
            let off = s.wall * r.rate - r.frames_written * 1_000_000_000;
            let apart = ratio_text(off, r.rate as nat * 1_000_000_000, 2);
            report_text(r, s) == "\n  ["@ + s.speaker.name() + "] "@ + s.device@ + "\n"@
                + "    実経過      : "@ + ratio_text(s.wall as int, 1_000_000_000, 2) + " 秒\n"@
                + "    録れた長さ  : "@ + ratio_text(r.frames_written as int, r.rate as nat, 2)
                + " 秒 ("@ + decimal(r.frames_written as nat) + " フレーム)\n"@
                + "    ズレ        : "@ + (if off < 0 {
                apart
            } else {
                "+"@ + apart
            }) + " 秒"@ + shortfall_note(r, s) + "\n"@ + first_text(s) + level_text(r, s)
                + downmix_text(r) + gaps_text(r.drops@, r.rate as nat) + underruns_text(
                s.underruns@,
            ) + "    出力        : "@ + s.path@ + "\n"@
        }),
{
    assert(shortfall(r, s) == s.wall * r.rate - r.frames_written * 1_000_000_000);
}

/// Gaps of ordinary length can always be added up.
pub proof fn law_ordinary_gaps_fit(drops: Seq<Gap>)
    requires
        drops.len() <= 0x7fff_ffff,
        forall|i: int|
            0 <= i < drops.len() ==> 0 <= (#[trigger] drops[i]).len
                <= 0xffff_ffff_ffff_ffff_ffff_ffff,
    ensures
        total_fits(drops),
{
    assert forall|n: int| 0 <= n <= drops.len() implies i128::MIN <= #[trigger] gaps_before(
        drops,
        n,
    ) <= i128::MAX by {
        lemma_gap_bound(drops, n);
    }
}

proof fn lemma_gap_bound(drops: Seq<Gap>, n: int)
    requires
        0 <= n <= drops.len() <= 0x7fff_ffff,
        forall|i: int|
            0 <= i < drops.len() ==> 0 <= (#[trigger] drops[i]).len
                <= 0xffff_ffff_ffff_ffff_ffff_ffff,
    ensures
        0 <= gaps_before(drops, n) <= 0xffff_ffff_ffff_ffff_ffff_ffff * n,
    decreases n,
{
    if n > 0 {
        lemma_gap_bound(drops, n - 1);
        assert(drops[n - 1].len >= 0);
    }
}

} // verus!
