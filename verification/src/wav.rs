//! Sound as a WAV file: 16-bit stereo PCM. Samples come as the bits of single-precision
//! numbers.

use vstd::arithmetic::power2::{
    lemma2_to64, lemma2_to64_rest, lemma_pow2_strictly_increases, lemma_pow2_unfold, pow2,
};
use vstd::prelude::*;

use crate::binary::{lemma_round_near, round_bits, round_to, SINGLE_LIMIT};

verus! {

/// The samples per second.
pub const SAMPLE_RATE: u32 = 44_100;

/// The exponent field of a single-precision number.
pub open spec fn exponent_of(bits: u32) -> int {
    ((bits / 0x80_0000) % 256) as int
}

/// The fraction field of a single-precision number.
pub open spec fn fraction_of(bits: u32) -> int {
    (bits % 0x80_0000) as int
}

/// The significand of a single-precision number below one.
pub open spec fn significand_of(bits: u32) -> int {
    if exponent_of(bits) == 0 {
        fraction_of(bits)
    } else {
        fraction_of(bits) + 0x80_0000
    }
}

/// How many bits of the significand of a single-precision number below one stand behind
/// the point.
pub open spec fn places_of(bits: u32) -> nat {
    if exponent_of(bits) == 0 {
        149
    } else {
        (150 - exponent_of(bits)) as nat
    }
}

/// The magnitude of a 16-bit sample: that of the number, at most one, times 32767, rounded
/// to single precision and cut off at the point. What is no number is silence.
pub open spec fn magnitude_of(bits: u32) -> int {
    if exponent_of(bits) == 255 && fraction_of(bits) != 0 {
        0
    } else if exponent_of(bits) >= 127 {
        32767
    } else {
        round_to(significand_of(bits) * 32767, 0x100_0000) / pow2(places_of(bits)) as int
    }
}

/// The 16-bit sample for a single-precision number.
pub open spec fn sample_of(bits: u32) -> int {
    if bits >= 0x8000_0000 {
        -magnitude_of(bits)
    } else {
        magnitude_of(bits)
    }
}

/// The two bytes of a number, the low one first; a negative one in two's complement.
pub open spec fn two_bytes(n: int) -> Seq<u8> {
    seq![(n % 256) as u8, ((n / 256) % 256) as u8]
}

/// The four bytes of a number, the low ones first.
pub open spec fn four_bytes(n: int) -> Seq<u8> {
    two_bytes(n % 0x1_0000) + two_bytes(n / 0x1_0000)
}

/// The number of frames: as many as both channels have.
pub open spec fn frame_count(left: Seq<u32>, right: Seq<u32>) -> nat {
    if left.len() <= right.len() {
        left.len()
    } else {
        right.len()
    }
}

/// The bytes of the first `k` frames.
pub open spec fn frames(left: Seq<u32>, right: Seq<u32>, k: int) -> Seq<u8>
    decreases k,
{
    if k <= 0 {
        seq![]
    } else {
        frames(left, right, k - 1) + two_bytes(sample_of(left[k - 1])) + two_bytes(
            sample_of(right[k - 1]),
        )
    }
}

/// The length of the data that the header tells: 32 bits of it.
pub open spec fn data_len(left: Seq<u32>, right: Seq<u32>) -> int {
    (4 * frame_count(left, right)) as int % 0x1_0000_0000
}

/// The header of the file.
pub open spec fn wav_header(data: int) -> Seq<u8> {
    seq![0x52u8, 0x49, 0x46, 0x46] + four_bytes(36 + data) + seq![
        0x57u8,
        0x41,
        0x56,
        0x45,
        0x66,
        0x6d,
        0x74,
        0x20,
    ] + four_bytes(16) + two_bytes(1) + two_bytes(2) + four_bytes(SAMPLE_RATE as int) + four_bytes(
        SAMPLE_RATE * 4,
    ) + two_bytes(4) + two_bytes(16) + seq![0x64u8, 0x61, 0x74, 0x61] + four_bytes(data)
}

/// The file.
pub open spec fn wav_bytes(left: Seq<u32>, right: Seq<u32>) -> Seq<u8> {
    wav_header(data_len(left, right)) + frames(left, right, frame_count(left, right) as int)
}

/// The product of a significand and the full scale, rounded, stays below the full scale.
proof fn lemma_full_scale(m: int)
    requires
        0 <= m < 0x100_0000,
    ensures
        0 <= round_to(m * 32767, 0x100_0000) < 0x100_0000 * 32767,
{
    lemma2_to64();
    lemma_round_near(m * 32767, 0x100_0000, 15);
}

/// A sample lies between -32767 and 32767, and a number and its negative have samples that
/// are negatives of each other.
pub proof fn lemma_sample_range(bits: u32)
    ensures
        0 <= magnitude_of(bits) <= 32767,
        -32767 <= sample_of(bits) <= 32767,
        bits < 0x8000_0000 ==> sample_of((bits + 0x8000_0000) as u32) == -sample_of(bits),
{
    if exponent_of(bits) < 127 {
        let m = significand_of(bits);
        let s = places_of(bits);
        lemma2_to64();
        lemma_full_scale(m);
        let p = round_to(m * 32767, 0x100_0000);
        if s > 24 {
            lemma_pow2_strictly_increases(24, s);
        }
        let d = pow2(s) as int;
        assert(0 <= p / d <= 32767) by (nonlinear_arith)
            requires
                0 <= p < 0x100_0000 * 32767,
                d >= 0x100_0000,
        ;
    }
    if bits < 0x8000_0000 {
        let other = (bits + 0x8000_0000) as u32;
        assert(exponent_of(other) == exponent_of(bits));
        assert(fraction_of(other) == fraction_of(bits));
    }
}

/// The file is as long as its header, of 44 bytes, and four bytes for each frame.
pub proof fn lemma_wav_len(left: Seq<u32>, right: Seq<u32>)
    ensures
        wav_header(data_len(left, right)).len() == 44,
        wav_bytes(left, right).len() == 44 + 4 * frame_count(left, right),
{
    lemma_frames_len(left, right, frame_count(left, right) as int);
}

proof fn lemma_frames_len(left: Seq<u32>, right: Seq<u32>, k: int)
    requires
        k >= 0,
    ensures
        frames(left, right, k).len() == 4 * k,
    decreases k,
{
    if k > 0 {
        lemma_frames_len(left, right, k - 1);
    }
}

/// A file gives back the samples that went into it: in frame `i` stand the two bytes of the
/// left sample and behind them those of the right one.
pub proof fn lemma_frame_at(left: Seq<u32>, right: Seq<u32>, i: int)
    requires
        0 <= i < frame_count(left, right),
    ensures
        wav_bytes(left, right).subrange(44 + 4 * i, 46 + 4 * i) == two_bytes(sample_of(left[i])),
        wav_bytes(left, right).subrange(46 + 4 * i, 48 + 4 * i) == two_bytes(sample_of(right[i])),
{
    let n = frame_count(left, right) as int;
    let all = wav_bytes(left, right);
    lemma_wav_len(left, right);
    lemma_frames_len(left, right, n);
    lemma_frames_at(left, right, n, i);
    let data = frames(left, right, n);
    assert(all.subrange(44 + 4 * i, 46 + 4 * i) =~= data.subrange(4 * i, 4 * i + 2));
    assert(all.subrange(46 + 4 * i, 48 + 4 * i) =~= data.subrange(4 * i + 2, 4 * i + 4));
}

proof fn lemma_frames_at(left: Seq<u32>, right: Seq<u32>, k: int, i: int)
    requires
        0 <= i < k,
    ensures
        frames(left, right, k).len() == 4 * k,
        frames(left, right, k).subrange(4 * i, 4 * i + 2) == two_bytes(sample_of(left[i])),
        frames(left, right, k).subrange(4 * i + 2, 4 * i + 4) == two_bytes(sample_of(right[i])),
    decreases k,
{
    lemma_frames_len(left, right, k);
    lemma_frames_len(left, right, k - 1);
    let before = frames(left, right, k - 1);
    let now = frames(left, right, k);
    if i < k - 1 {
        lemma_frames_at(left, right, k - 1, i);
        assert(now.subrange(4 * i, 4 * i + 2) =~= before.subrange(4 * i, 4 * i + 2));
        assert(now.subrange(4 * i + 2, 4 * i + 4) =~= before.subrange(4 * i + 2, 4 * i + 4));
    } else {
        assert(now.subrange(4 * i, 4 * i + 2) =~= two_bytes(sample_of(left[i])));
        assert(now.subrange(4 * i + 2, 4 * i + 4) =~= two_bytes(sample_of(right[i])));
    }
}

/// The 16-bit sample for the bits of a single-precision number.
pub fn sample(bits: u32) -> (r: i16)
    ensures
        r == sample_of(bits),
{
    proof {
        lemma_sample_range(bits);
    }
    let exponent: u32 = (bits / 0x80_0000) % 256;
    let fraction: u32 = bits % 0x80_0000;
    let magnitude: i16 = if exponent == 255 && fraction != 0 {
        0
    } else if exponent >= 127 {
        32767
    } else {
        let m: u32 = if exponent == 0 {
            fraction
        } else {
            fraction + 0x80_0000
        };
        let places: u32 = if exponent == 0 {
            149
        } else {
            150 - exponent
        };
        assert(m == significand_of(bits) && places == places_of(bits));
        proof {
            lemma_full_scale(m as int);
        }
        let product: i128 = m as i128 * 32767;
        let scaled: i128 = round_bits(product, SINGLE_LIMIT);
        cut(scaled, places)
    };
    if bits >= 0x8000_0000 {
        -magnitude
    } else {
        magnitude
    }
}

/// A number cut off at the point, with `places` bits behind it.
fn cut(n: i128, places: u32) -> (r: i16)
    requires
        0 <= n < 0x100_0000 * 32767,
        24 <= places <= 149,
    ensures
        r == n as int / pow2(places as nat) as int,
{
    proof {
        lemma2_to64();
        lemma2_to64_rest();
    }
    if places >= 39 {
        proof {
            if places > 39 {
                lemma_pow2_strictly_increases(39, places as nat);
            }
            let d = pow2(places as nat) as int;
            assert(n as int / d == 0) by (nonlinear_arith)
                requires
                    0 <= n < d,
            ;
        }
        return 0;
    }
    let mut unit: i128 = 0x100_0000;
    let mut i: u32 = 24;
    while i < places
        invariant
            24 <= i <= places < 39,
            unit == pow2(i as nat),
            0x100_0000 <= unit,
            pow2(39) == 0x80_0000_0000,
        decreases places - i,
    {
        proof {
            lemma_pow2_unfold((i + 1) as nat);
            lemma_pow2_strictly_increases((i + 1) as nat, 40);
            lemma_pow2_unfold(40);
        }
        unit = unit * 2;
        i = i + 1;
    }
    assert(0 <= n as int / unit as int <= 32767) by (nonlinear_arith)
        requires
            0 <= n < 0x100_0000 * 32767,
            unit >= 0x100_0000,
    ;
    (n / unit) as i16
}

/// Appends the two bytes of a number, the low one first.
fn push_two(out: &mut Vec<u8>, n: u16)
    ensures
        final(out)@ == old(out)@ + two_bytes(n as int),
{
    out.push((n % 256) as u8);
    out.push((n / 256) as u8);
    assert(out@ =~= old(out)@ + two_bytes(n as int));
}

/// Appends the four bytes of a number, the low ones first.
fn push_four(out: &mut Vec<u8>, n: u32)
    ensures
        final(out)@ == old(out)@ + four_bytes(n as int),
{
    push_two(out, (n % 0x1_0000) as u16);
    push_two(out, (n / 0x1_0000) as u16);
    assert(out@ =~= old(out)@ + four_bytes(n as int));
}

/// Appends the two bytes of a sample.
fn push_sample(out: &mut Vec<u8>, bits: u32)
    ensures
        final(out)@ == old(out)@ + two_bytes(sample_of(bits)),
{
    let s: i16 = sample(bits);
    proof {
        lemma_sample_range(bits);
    }
    let wide: i32 = s as i32;
    let n: u16 = if wide < 0 {
        (wide + 0x1_0000) as u16
    } else {
        wide as u16
    };
    push_two(out, n);
    assert(two_bytes(n as int) =~= two_bytes(s as int));
}

/// The header of a file with `data` bytes of sound.
fn header(data: u32) -> (r: Vec<u8>)
    requires
        36 + data <= u32::MAX,
    ensures
        r@ == wav_header(data as int),
{
    let mut out: Vec<u8> = vec![0x52, 0x49, 0x46, 0x46];
    push_four(&mut out, 36 + data);
    let mut form: Vec<u8> = vec![0x57, 0x41, 0x56, 0x45, 0x66, 0x6d, 0x74, 0x20];
    out.append(&mut form);
    push_four(&mut out, 16);
    push_two(&mut out, 1);
    push_two(&mut out, 2);
    push_four(&mut out, SAMPLE_RATE);
    push_four(&mut out, SAMPLE_RATE * 4);
    push_two(&mut out, 4);
    push_two(&mut out, 16);
    let mut mark: Vec<u8> = vec![0x64, 0x61, 0x74, 0x61];
    out.append(&mut mark);
    push_four(&mut out, data);
    assert(out@ =~= wav_header(data as int));
    out
}

/// Whether the lengths in the header of a file can be told: that of the data, of which 32
/// bits are kept, and that of what is around it.
pub open spec fn wav_fits(left: Seq<u32>, right: Seq<u32>) -> bool {
    &&& 4 * frame_count(left, right) <= usize::MAX
    &&& 36 + data_len(left, right) <= u32::MAX
}

/// Whether the lengths in the header of a file can be told: that of the data, of which 32
/// bits are kept, and that of what is around it.
pub fn can_write_wav(left: &[u32], right: &[u32]) -> (r: bool)
    ensures
        r == wav_fits(left@, right@),
{
    let count: usize = if left.len() <= right.len() {
        left.len()
    } else {
        right.len()
    };
    count <= usize::MAX / 4 && 36 + (count as u64 * 4) % 0x1_0000_0000 <= 0xffff_ffff
}

/// Writes two channels of samples, given as the bits of single-precision numbers, as a WAV
/// file.
pub fn write_wav(left: &[u32], right: &[u32]) -> (r: Vec<u8>)
    requires
        wav_fits(left@, right@),
    ensures
        r@ == wav_bytes(left@, right@),
{
    let count: usize = if left.len() <= right.len() {
        left.len()
    } else {
        right.len()
    };
    let data: u32 = ((count * 4) as u64 % 0x1_0000_0000) as u32;
    let mut out: Vec<u8> = header(data);
    let ghost start = out@;
    for i in 0..count
        invariant
            count == frame_count(left@, right@),
            start == wav_header(data_len(left@, right@)),
            out@ == start + frames(left@, right@, i as int),
    {
        let ghost before = out@;
        push_sample(&mut out, left[i]);
        push_sample(&mut out, right[i]);
        let ghost a = two_bytes(sample_of(left@[i as int]));
        let ghost b = two_bytes(sample_of(right@[i as int]));
        assert(out@ == before + a + b);
        assert(frames(left@, right@, i + 1) == frames(left@, right@, i as int) + a + b);
        assert((start + frames(left@, right@, i as int)) + a + b =~= start + (frames(
            left@,
            right@,
            i as int,
        ) + a + b));
    }
    out
}

} // verus!
