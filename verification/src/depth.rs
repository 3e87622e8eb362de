//! Sample depths: clipping to a depth and expanding a depth to sixteen bits.
use crate::arith::floor_shift;
use vstd::arithmetic::power2::{lemma2_to64, lemma_pow2_pos, lemma_pow2_strictly_increases, pow2};
use vstd::bits::{lemma_u32_shl_is_mul, lemma_u32_shr_is_div};
use vstd::prelude::*;

verus! {

/// The largest sample of a depth.
pub open spec fn sample_max(bit_depth: int) -> int {
    pow2(bit_depth as nat) - 1
}

/// The value of `low..=high` nearest to `v`.
pub open spec fn clamp_between(v: int, low: int, high: int) -> int {
    if v < low {
        low
    } else if v > high {
        high
    } else {
        v
    }
}

/// The sample of a depth nearest to `v`, of which the low sixteen bits are kept.
pub open spec fn clip(v: i32, bit_depth: int) -> u16 {
    (clamp_between(v as int, 0, sample_max(bit_depth)) % 0x1_0000) as u16
}

/// A sample of a depth expanded to sixteen bits: the sample moved to the top, and
/// its own top bits repeated below it. A result beyond sixteen bits, which only a
/// sample beyond its depth can give, becomes the largest one.
pub open spec fn expanded(sample: u16, bit_depth: u8) -> u16 {
    if bit_depth >= 16 {
        sample
    } else {
        let up = (16 - bit_depth) as u32;
        let down = if 2 * bit_depth > 16 { (2 * bit_depth - 16) as u32 } else { 0u32 };
        let bits = ((sample as u32) << up) | ((sample as u32) >> down);
        if bits > 0xffff {
            0xffff
        } else {
            bits as u16
        }
    }
}

/// The largest sample of a depth of at most thirty bits.
pub fn max_sample(bit_depth: u8) -> (max: i32)
    requires
        bit_depth <= 30,
    ensures
        max == sample_max(bit_depth as int),
        0 <= max,
        bit_depth <= 16 ==> max <= 0xffff,
{
    let bits: u32 = bit_depth as u32;
    proof {
        lemma2_to64();
        lemma_pow2_pos(bits as nat);
        if bits < 30 {
            lemma_pow2_strictly_increases(bits as nat, 30);
        }
        if bits < 16 {
            lemma_pow2_strictly_increases(bits as nat, 16);
        }
        lemma_u32_shl_is_mul(1, bits);
    }
    ((1u32 << bits) - 1) as i32
}

/// The value of `0..=max` nearest to `v`.
pub fn clamp_sample(v: i32, max: i32) -> (sample: i32)
    requires
        0 <= max,
    ensures
        sample == clamp_between(v as int, 0, max as int),
{
    if v < 0 {
        0
    } else if v > max {
        max
    } else {
        v
    }
}

/// The sample of a depth nearest to `v`, of which the low sixteen bits are kept.
pub fn clip_sample(v: i32, bit_depth: u8) -> (sample: u16)
    requires
        bit_depth <= 30,
    ensures
        sample == clip(v, bit_depth as int),
{
    let clamped: i32 = clamp_sample(v, max_sample(bit_depth));
    assert(clamped as u16 == clamped % 0x1_0000) by (bit_vector)
        requires
            0 <= clamped,
    ;
    clamped as u16
}

/// Expands a sample to sixteen bits.
pub fn scale_float_matrix_sample_to_u16(sample: u16, bit_depth: u8) -> (wide: u16)
    ensures
        wide == expanded(sample, bit_depth),
        bit_depth <= 16 && sample <= sample_max(bit_depth as int) ==> wide == sample * pow2(
            (16 - bit_depth) as nat,
        ) + floor_shift(sample as int, refill_shift(bit_depth as int)),
{
    proof {
        if bit_depth <= 16 && sample <= sample_max(bit_depth as int) {
            lemma_expanded_in_range(sample, bit_depth);
        }
    }
    if bit_depth >= 16 {
        return sample;
    }
    let bits: u32 = bit_depth as u32;
    let shift: u32 = 16 - bits;
    let value: u32 = sample as u32;
    let replicated: u32 = (value << shift) | (value >> bits.saturating_sub(shift));
    if replicated > 0xffff {
        0xffff
    } else {
        replicated as u16
    }
}

/// How far the top bits of a sample move down to fill the place below it.
pub open spec fn refill_shift(bit_depth: int) -> int {
    if 2 * bit_depth > 16 {
        2 * bit_depth - 16
    } else {
        0
    }
}

/// For a sample within its depth, expansion is bit replication: the sample times
/// `2^(16 - bit_depth)`, plus its top bits in the place that this leaves free.
pub proof fn lemma_expanded_in_range(sample: u16, bit_depth: u8)
    requires
        bit_depth <= 16,
        sample <= sample_max(bit_depth as int),
    ensures
        expanded(sample, bit_depth) == sample * pow2((16 - bit_depth) as nat) + floor_shift(
            sample as int,
            refill_shift(bit_depth as int),
        ),
        0 <= floor_shift(sample as int, refill_shift(bit_depth as int)) < pow2(
            (16 - bit_depth) as nat,
        ),
{
    lemma2_to64();
    let bits = bit_depth as u32;
    if bit_depth == 16 {
        assert(floor_shift(sample as int, 16) == 0);
    } else {
        let value = sample as u32;
        let up = (16 - bit_depth) as u32;
        let down = refill_shift(bit_depth as int) as u32;
        lemma_u32_shl_is_mul(1, bits);
        lemma_pow2_strictly_increases(bits as nat, 16);
        if up < 16 {
            lemma_pow2_strictly_increases(up as nat, 16);
        }
        assert((1u32 << bits) == pow2(bits as nat));
        assert(value < 1u32 << bits);
        assert(((value << up) | (value >> down)) == (value << up) + (value >> down) && (value << up)
            + (value >> down) <= 0xffff && (value >> down) < (1u32 << up)) by (bit_vector)
            requires
                bits < 16,
                up == 16 - bits,
                2 * bits > 16 ==> down == 2 * bits - 16,
                2 * bits <= 16 ==> down == 0,
                value < 1u32 << bits,
        ;
        lemma_u32_shr_is_div(value, down);
        lemma_u32_shl_is_mul(1, up);
        assert(value * pow2(up as nat) <= 0xffff * 0x1_0000) by (nonlinear_arith)
            requires
                0 <= value <= 0xffff,
                0 <= pow2(up as nat) <= 0x1_0000,
        ;
        lemma_u32_shl_is_mul(value, up);
    }
}

} // verus!
