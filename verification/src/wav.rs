//! Repairing the header of a WAV file that was cut off while it was being written.
//!
//! The two size fields of such a file are still zero, so it cannot be read although the
//! sound is there. Everything else in the header stands; the sizes follow from the length
//! of the file. A format with more than two channels is described at greater length, so that
//! the size of the sound data stands farther back.

use crate::decimal::{lemma_pow10_small, pow10, ratio_fixed, ratio_text};
use crate::text::{decimal, decimal_text};
use vstd::prelude::*;

verus! {

/// The number that a row of bytes stands for, the lowest byte first.
pub open spec fn little_endian(bytes: Seq<u8>) -> nat
    decreases bytes.len(),
{
    if bytes.len() == 0 {
        0
    } else {
        bytes[0] as nat + 256 * little_endian(bytes.skip(1))
    }
}

/// Whether a header is that of a WAV file.
pub open spec fn is_wav(head: Seq<u8>) -> bool {
    &&& head.subrange(0, 4) == seq![0x52u8, 0x49, 0x46, 0x46]
    &&& head.subrange(8, 12) == seq![0x57u8, 0x41, 0x56, 0x45]
}

/// The size of what follows the first size field, as the field holds it.
pub open spec fn riff_size(size: nat) -> nat {
    ((size - 8) % 0x1_0000_0000) as nat
}

/// Where the size of the sound data stands: behind a format of sixteen bytes, or of forty.
pub open spec fn data_field(head: Seq<u8>) -> int {
    if little_endian(head.subrange(16, 20)) == 40 {
        64
    } else {
        40
    }
}

/// The size of the sound data behind a field at `at`, as the field holds it.
pub open spec fn data_size(size: nat, at: int) -> nat {
    ((size - at - 4) % 0x1_0000_0000) as nat
}

/// Whether `new` is `head` with its two size fields set for a file of `size` bytes, and
/// nothing else changed.
pub open spec fn repaired(head: Seq<u8>, size: nat, new: Seq<u8>) -> bool {
    let at = data_field(head);
    &&& new.len() == head.len()
    &&& little_endian(new.subrange(4, 8)) == riff_size(size)
    &&& little_endian(new.subrange(at, at + 4)) == data_size(size, at)
    &&& forall|i: int|
        0 <= i < head.len() && !(4 <= i < 8) && !(at <= i < at + 4) ==> #[trigger] new[i]
            == head[i]
}

/// A repaired header and the format it describes.
pub struct Repair {
    pub header: Vec<u8>,
    pub data_len: u32,
    pub channels: u16,
    pub rate: u32,
    pub bits: u16,
}

pub enum RepairError {
    /// Shorter than a header: there is nothing in it.
    Empty,
    /// Cut off within a longer header.
    CutOff,
    /// Not a WAV file.
    NotWav,
}

proof fn lemma_little_endian_2(bytes: Seq<u8>)
    requires
        bytes.len() == 2,
    ensures
        little_endian(bytes) == bytes[0] + 256 * bytes[1],
{
    reveal_with_fuel(little_endian, 3);
}

proof fn lemma_little_endian_4(bytes: Seq<u8>)
    requires
        bytes.len() == 4,
    ensures
        little_endian(bytes) == bytes[0] + 256 * bytes[1] + 65536 * bytes[2] + 16777216 * bytes[3],
{
    reveal_with_fuel(little_endian, 5);
}

fn read_u16(head: &[u8], at: usize) -> (r: u16)
    requires
        at + 2 <= head.len(),
    ensures
        r == little_endian(head@.subrange(at as int, at + 2)),
{
    proof {
        lemma_little_endian_2(head@.subrange(at as int, at + 2));
    }
    head[at] as u16 + 256 * head[at + 1] as u16
}

fn read_u32(head: &[u8], at: usize) -> (r: u32)
    requires
        at + 4 <= head.len(),
    ensures
        r == little_endian(head@.subrange(at as int, at + 4)),
{
    proof {
        lemma_little_endian_4(head@.subrange(at as int, at + 4));
    }
    head[at] as u32 + 256 * head[at + 1] as u32 + 65536 * head[at + 2] as u32 + 16777216 * head[at
        + 3] as u32
}

fn write_u32(head: &mut Vec<u8>, at: usize, x: u32)
    requires
        at + 4 <= old(head)@.len(),
    ensures
        final(head)@.len() == old(head)@.len(),
        little_endian(final(head)@.subrange(at as int, at + 4)) == x,
        forall|i: int|
            0 <= i < old(head)@.len() && !(at <= i < at + 4) ==> #[trigger] final(head)@[i] == old(
                head,
            )@[i],
{
    assert(head.len() == head@.len());
    head.set(at, (x % 256) as u8);
    head.set(at + 1, (x / 256 % 256) as u8);
    head.set(at + 2, (x / 65536 % 256) as u8);
    head.set(at + 3, (x / 16777216) as u8);
    proof {
        lemma_little_endian_4(head@.subrange(at as int, at + 4));
    }
}

fn copy(head: &[u8]) -> (r: Vec<u8>)
    ensures
        r@ == head@,
{
    let mut r: Vec<u8> = Vec::new();
    for i in 0..head.len()
        invariant
            r@ == head@.take(i as int),
    {
        r.push(head[i]);
        assert(r@ == head@.take(i + 1));
    }
    assert(head@.take(head@.len() as int) == head@);
    r
}

/// Repairs the header of a file that is `size` bytes long. `head` is the start of the file:
/// 68 bytes, or all of a shorter one.
pub fn repair(head: &[u8], size: u64) -> (r: Result<Repair, RepairError>)
    requires
        head@.len() == (if size < 68 {
            size as int
        } else {
            68
        }),
    ensures
        match r {
            Ok(x) => {
                &&& size >= 44 && is_wav(head@) && size >= data_field(head@) + 4
                &&& repaired(head@, size as nat, x.header@)
                &&& x.data_len == data_size(size as nat, data_field(head@))
                &&& x.channels == little_endian(head@.subrange(22, 24))
                &&& x.rate == little_endian(head@.subrange(24, 28))
                &&& x.bits == little_endian(head@.subrange(34, 36))
            },
            Err(RepairError::Empty) => size < 44,
            Err(RepairError::CutOff) => size >= 44 && is_wav(head@) && size < data_field(head@)
                + 4,
            Err(RepairError::NotWav) => size >= 44 && !is_wav(head@),
        },
{
    if size < 44 {
        return Err(RepairError::Empty);
    }
    let riff: bool = head[0] == 0x52 && head[1] == 0x49 && head[2] == 0x46 && head[3] == 0x46;
    let wave: bool = head[8] == 0x57 && head[9] == 0x41 && head[10] == 0x56 && head[11] == 0x45;
    proof {
        let a = head@.subrange(0, 4);
        let b = head@.subrange(8, 12);
        let riff_mark = seq![0x52u8, 0x49, 0x46, 0x46];
        let wave_mark = seq![0x57u8, 0x41, 0x56, 0x45];
        assert(a[0] == head@[0] && a[1] == head@[1] && a[2] == head@[2] && a[3] == head@[3]);
        assert(b[0] == head@[8] && b[1] == head@[9] && b[2] == head@[10] && b[3] == head@[11]);
        if riff {
            assert(a =~= riff_mark);
        }
        if wave {
            assert(b =~= wave_mark);
        }
    }
    if !riff || !wave {
        return Err(RepairError::NotWav);
    }
    let at: usize = if read_u32(head, 16) == 40 {
        64
    } else {
        40
    };
    if size < at as u64 + 4 {
        return Err(RepairError::CutOff);
    }
    let data_len: u32 = ((size - at as u64 - 4) % 0x1_0000_0000) as u32;
    let riff_len: u32 = ((size - 8) % 0x1_0000_0000) as u32;
    let mut header = copy(head);
    write_u32(&mut header, 4, riff_len);
    let ghost half = header@;
    write_u32(&mut header, at, data_len);
    assert(header@.subrange(4, 8) =~= half.subrange(4, 8));
    Ok(
        Repair {
            header,
            data_len,
            channels: read_u16(head, 22),
            rate: read_u32(head, 24),
            bits: read_u16(head, 34),
        },
    )
}

/// How long the sound of a repaired file is, in seconds with two places. A format that
/// holds no bytes per second gives `inf`, or `NaN` where there is no sound either.
pub open spec fn length_text(data_len: nat, rate: nat, channels: nat, bits: nat) -> Seq<char> {
    let den = rate * channels * bits;
    if den > 0 {
        ratio_text(data_len as int * 8, den, 2)
    } else if data_len > 0 {
        "inf"@
    } else {
        "NaN"@
    }
}

/// What is told about a repair.
pub open spec fn repair_text(path: Seq<char>, r: Repair) -> Seq<char> {
    path + " を直した: "@ + decimal(r.rate as nat) + " Hz / "@ + decimal(r.channels as nat)
        + "ch / "@ + decimal(r.bits as nat) + "bit / "@ + length_text(
        r.data_len as nat,
        r.rate as nat,
        r.channels as nat,
        r.bits as nat,
    ) + " 秒\n"@
        + "  !! 途中終了した録音なので `*-meta.json` が無い（または不完全）。\n"@
        + "     時刻の補正ができないため、統合すると WAV 内の時刻のまま並ぶ。\n"@
}

fn length_of(data_len: u32, rate: u32, channels: u16, bits: u16) -> (r: String)
    ensures
        r@ == length_text(data_len as nat, rate as nat, channels as nat, bits as nat),
{
    proof {
        let a = rate * channels;
        assert(0 <= a <= 0xffff_ffff * 0xffff) by (nonlinear_arith)
            requires
                a == rate * channels,
                rate <= 0xffff_ffff,
                channels <= 0xffff,
        ;
        assert(0 <= a * bits <= 0xffff_ffff_ffff * 0xffff) by (nonlinear_arith)
            requires
                0 <= a <= 0xffff_ffff * 0xffff,
                bits <= 0xffff,
        ;
        lemma_pow10_small();
        let m = data_len * 8;
        assert(m * pow10(2) == m * 100);
    }
    let den: u128 = rate as u128 * channels as u128 * bits as u128;
    if den > 0 {
        ratio_fixed(data_len as i128 * 8, den, 2)
    } else if data_len > 0 {
        "inf".to_string()
    } else {
        "NaN".to_string()
    }
}

/// Tells about a repair.
pub fn repair_report(path: &str, r: &Repair) -> (s: String)
    ensures
        s@ == repair_text(path@, *r),
{
    let mut s = path.to_string();
    s.append(" を直した: ");
    s.append(decimal_text(r.rate as u128).as_str());
    s.append(" Hz / ");
    s.append(decimal_text(r.channels as u128).as_str());
    s.append("ch / ");
    s.append(decimal_text(r.bits as u128).as_str());
    s.append("bit / ");
    s.append(length_of(r.data_len, r.rate, r.channels, r.bits).as_str());
    s.append(" 秒\n");
    s.append("  !! 途中終了した録音なので `*-meta.json` が無い（または不完全）。\n");
    s.append("     時刻の補正ができないため、統合すると WAV 内の時刻のまま並ぶ。\n");
    s
}

proof fn lemma_little_endian_injective(a: Seq<u8>, b: Seq<u8>)
    requires
        a.len() == 4,
        b.len() == 4,
        little_endian(a) == little_endian(b),
    ensures
        a == b,
{
    lemma_little_endian_4(a);
    lemma_little_endian_4(b);
    assert(a =~= b);
}

/// There is one repaired header, and repairing it again changes nothing.
pub proof fn law_repair_is_idempotent(head: Seq<u8>, size: nat, once: Seq<u8>, twice: Seq<u8>)
    requires
        44 <= head.len(),
        data_field(head) + 4 <= head.len(),
        repaired(head, size, once),
        repaired(once, size, twice),
    ensures
        twice == once,
        is_wav(head) == is_wav(once),
        data_field(head) == data_field(once),
{
    let at = data_field(head);
    assert(head.subrange(16, 20) =~= once.subrange(16, 20));
    lemma_little_endian_injective(once.subrange(4, 8), twice.subrange(4, 8));
    lemma_little_endian_injective(once.subrange(at, at + 4), twice.subrange(at, at + 4));
    assert forall|i: int| 0 <= i < head.len() implies once[i] == twice[i] by {
        if 4 <= i < 8 {
            assert(once.subrange(4, 8)[i - 4] == twice.subrange(4, 8)[i - 4]);
        } else if at <= i < at + 4 {
            assert(once.subrange(at, at + 4)[i - at] == twice.subrange(at, at + 4)[i - at]);
        }
    }
    assert(once =~= twice);
    assert(head.subrange(0, 4) =~= once.subrange(0, 4));
    assert(head.subrange(8, 12) =~= once.subrange(8, 12));
}

/// The two sizes of a file below four gigabytes add up to the file.
pub proof fn law_sizes_add_up(head: Seq<u8>, size: nat)
    requires
        data_field(head) + 4 <= size < 0x1_0000_0000,
    ensures
        riff_size(size) + 8 == size,
        data_field(head) + 4 + data_size(size, data_field(head)) == size,
{
}

/// A WAV file starts with the four letters RIFF and has the four letters WAVE from the ninth
/// byte on.
pub proof fn law_marks_of_a_wav_file(head: Seq<u8>)
    requires
        head.len() >= 12,
    ensures
        is_wav(head) <==> {
            &&& head[0] == 0x52 && head[1] == 0x49 && head[2] == 0x46 && head[3] == 0x46
            &&& head[8] == 0x57 && head[9] == 0x41 && head[10] == 0x56 && head[11] == 0x45
        },
{
    let a = head.subrange(0, 4);
    let b = head.subrange(8, 12);
    assert(a[0] == head[0] && a[1] == head[1] && a[2] == head[2] && a[3] == head[3]);
    assert(b[0] == head[8] && b[1] == head[9] && b[2] == head[10] && b[3] == head[11]);
    let riff = seq![0x52u8, 0x49, 0x46, 0x46];
    let wave = seq![0x57u8, 0x41, 0x56, 0x45];
    if head[0] == 0x52 && head[1] == 0x49 && head[2] == 0x46 && head[3] == 0x46 {
        assert(a =~= riff);
    }
    if head[8] == 0x57 && head[9] == 0x41 && head[10] == 0x56 && head[11] == 0x45 {
        assert(b =~= wave);
    }
}

/// Of four bytes each counts 256 times the one before.
pub proof fn law_bytes_from_the_lowest(bytes: Seq<u8>)
    requires
        bytes.len() == 4,
    ensures
        little_endian(bytes) == bytes[0] + 0x100 * bytes[1] + 0x1_0000 * bytes[2] + 0x100_0000
            * bytes[3],
        little_endian(bytes.take(2)) == bytes[0] + 0x100 * bytes[1],
{
    lemma_little_endian_4(bytes);
    lemma_little_endian_2(bytes.take(2));
}

/// The size of the sound data stands at 64 exactly if the format is announced as forty bytes
/// long, and else at 40.
pub proof fn law_place_of_the_data_size(head: Seq<u8>)
    requires
        head.len() >= 44,
    ensures
        head[16] == 40 && head[17] == 0 && head[18] == 0 && head[19] == 0 ==> data_field(head)
            == 64,
        !(head[16] == 40 && head[17] == 0 && head[18] == 0 && head[19] == 0) ==> data_field(head)
            == 40,
{
    let b = head.subrange(16, 20);
    lemma_little_endian_4(b);
    assert(b[0] == head[16] && b[1] == head[17] && b[2] == head[18] && b[3] == head[19]);
}

/// Beyond what a field of four bytes holds, the sizes keep their lowest 32 bits.
pub proof fn law_sizes_keep_their_low_bits(size: nat, at: int)
    requires
        size >= 68,
        at == 40 || at == 64,
    ensures
        riff_size(size + 0x1_0000_0000) == riff_size(size),
        data_size(size + 0x1_0000_0000, at) == data_size(size, at),
        riff_size(size) < 0x1_0000_0000,
        data_size(size, at) < 0x1_0000_0000,
        size < 0x1_0000_0000 ==> riff_size(size) == size - 8 && data_size(size, at) == size - at
            - 4,
{
}

/// The length of the sound is its bytes over the bytes per second.
pub proof fn law_length_is_bytes_over_speed(data_len: nat, rate: nat, channels: nat, bits: nat)
    requires
        rate > 0,
        channels > 0,
        bits > 0,
    ensures
        length_text(data_len, rate, channels, bits) == ratio_text(
            (data_len * 8) as int,
            rate * channels * bits,
            2,
        ),
{
    assert(rate * channels * bits > 0) by (nonlinear_arith)
        requires
            rate > 0,
            channels > 0,
            bits > 0,
    ;
}

/// A repair sets the eight bytes of the two sizes, and leaves every other byte as it is.
pub proof fn law_repair_changes_only_the_sizes(head: Seq<u8>, size: nat, new: Seq<u8>, i: int)
    requires
        repaired(head, size, new),
        68 <= head.len(),
        0 <= i < head.len(),
    ensures
        new.len() == head.len(),
        i < 4 || 8 <= i < 40 || 68 <= i ==> new[i] == head[i],
        44 <= i < 64 ==> new[i] == head[i],
        data_field(head) == 40 && 64 <= i < 68 ==> new[i] == head[i],
        data_field(head) == 64 && 40 <= i < 44 ==> new[i] == head[i],
        little_endian(new.subrange(4, 8)) == riff_size(size),
        little_endian(new.subrange(data_field(head), data_field(head) + 4)) == data_size(
            size,
            data_field(head),
        ),
{
}

/// A repair is told with the format of the file and how long it is.
pub proof fn law_repair_is_told(path: Seq<char>, r: Repair)
    requires
        r.rate > 0 && r.channels > 0 && r.bits > 0,
    ensures
        repair_text(path, r) == path + " を直した: "@ + decimal(r.rate as nat) + " Hz / "@ + decimal(
            r.channels as nat,
        ) + "ch / "@ + decimal(r.bits as nat) + "bit / "@ + ratio_text(
            r.data_len as int * 8,
            r.rate as nat * r.channels as nat * r.bits as nat,
            2,
        ) + " 秒\n"@
            + "  !! 途中終了した録音なので `*-meta.json` が無い（または不完全）。\n"@
            + "     時刻の補正ができないため、統合すると WAV 内の時刻のまま並ぶ。\n"@,
{
    law_length_is_bytes_over_speed(
        r.data_len as nat,
        r.rate as nat,
        r.channels as nat,
        r.bits as nat,
    );
}

} // verus!
