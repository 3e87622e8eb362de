//! What clipping to a sample depth and expanding to sixteen bits mean.
use crate::depth::{
    clamp_sample, clip, clip_sample, expanded, lemma_expanded_in_range, max_sample, refill_shift,
    scale_float_matrix_sample_to_u16,
};
use crate::laws::meaning::{law_shift_rounds_down, nearest_sample};
use crate::matrix_rgba16::scale_float_matrix_neon_to_u16;
use vstd::arithmetic::power2::{lemma2_to64, lemma_pow2_pos, lemma_pow2_strictly_increases, pow2};
use vstd::bits::lemma_u32_shl_is_mul;
use vstd::prelude::*;

verus! {

/// `word` is a sample of a depth expanded to sixteen bits: the sample times
/// `2^(16 - bit_depth)`, plus its top bits, which are the sample itself up to a depth of
/// eight bits and the whole units of `2^(2 * bit_depth - 16)` in it beyond.
pub open spec fn expands(word: u16, sample: int, bit_depth: int) -> bool {
    let unit = pow2(
        if bit_depth > 8 {
            (2 * bit_depth - 16) as nat
        } else {
            0
        },
    );
    let top_bits = word - sample * pow2((16 - bit_depth) as nat);
    unit * top_bits <= sample < unit * (top_bits + 1)
}

/// `word` is the sample of a depth nearest to `v`, expanded to sixteen bits.
pub open spec fn expands_nearest(word: u16, v: int, bit_depth: int) -> bool {
    let max = pow2(bit_depth as nat) - 1;
    if v < 0 {
        expands(word, 0, bit_depth)
    } else if v > max {
        expands(word, max, bit_depth)
    } else {
        expands(word, v, bit_depth)
    }
}

/// `sample` holds the low sixteen bits of the sample of a depth nearest to `v`, which are all
/// its bits up to a depth of sixteen.
pub open spec fn keeps_nearest(sample: u16, v: int, bit_depth: int) -> bool {
    let max = pow2(bit_depth as nat) - 1;
    if v < 0 {
        sample == 0
    } else if v > max {
        sample == max % 0x1_0000
    } else {
        sample == v % 0x1_0000
    }
}

/// The largest sample of a depth is the last one of `2^bit_depth` samples.
pub proof fn law_largest_sample(bit_depth: u8, max: i32)
    requires
        call_ensures(max_sample, (bit_depth,), max),
    ensures
        max + 1 == pow2(bit_depth as nat),
{
}

/// Clamping gives the value of `0..=max` nearest to the number.
pub proof fn law_clamping_is_nearest(v: i32, max: i32, sample: i32)
    requires
        0 <= max,
        call_ensures(clamp_sample, (v, max), sample),
    ensures
        nearest_sample(sample as int, v as int, max as int),
{
}

/// Clamping keeps the order of numbers.
pub proof fn law_clamping_is_monotone(
    low: i32,
    high: i32,
    max: i32,
    low_sample: i32,
    high_sample: i32,
)
    requires
        0 <= max,
        low <= high,
        call_ensures(clamp_sample, (low, max), low_sample),
        call_ensures(clamp_sample, (high, max), high_sample),
    ensures
        low_sample <= high_sample,
{
}

/// What is clipped to a depth of at most sixteen bits is the sample of that depth nearest to
/// the number.
pub proof fn law_clipped_is_nearest(v: i32, bit_depth: int)
    requires
        0 <= bit_depth <= 16,
    ensures
        nearest_sample(clip(v, bit_depth) as int, v as int, pow2(bit_depth as nat) - 1),
        pow2(bit_depth as nat) <= 0x1_0000,
{
    lemma2_to64();
    lemma_pow2_pos(bit_depth as nat);
    if bit_depth < 16 {
        lemma_pow2_strictly_increases(bit_depth as nat, 16);
    }
}

/// What is clipped to a depth holds the low sixteen bits of the sample nearest to the number.
pub proof fn law_clipped_keeps_nearest(v: i32, bit_depth: int)
    ensures
        keeps_nearest(clip(v, bit_depth), v as int, bit_depth),
{
    lemma_pow2_pos(bit_depth as nat);
}

/// Clipping to a depth gives the sample of that depth nearest to the number, of which beyond
/// sixteen bits the low sixteen bits are kept.
pub proof fn law_clipping_is_nearest(v: i32, bit_depth: u8, sample: u16)
    requires
        call_ensures(clip_sample, (v, bit_depth), sample),
    ensures
        bit_depth <= 16 ==> nearest_sample(
            sample as int,
            v as int,
            pow2(bit_depth as nat) - 1,
        ),
        keeps_nearest(sample, v as int, bit_depth as int),
{
    law_clipped_keeps_nearest(v, bit_depth as int);
    if bit_depth <= 16 {
        law_clipped_is_nearest(v, bit_depth as int);
    }
}

/// Clipping to a depth of at most sixteen bits keeps the order of numbers.
pub proof fn law_clipping_is_monotone(
    low: i32,
    high: i32,
    bit_depth: u8,
    low_sample: u16,
    high_sample: u16,
)
    requires
        bit_depth <= 16,
        low <= high,
        call_ensures(clip_sample, (low, bit_depth), low_sample),
        call_ensures(clip_sample, (high, bit_depth), high_sample),
    ensures
        low_sample <= high_sample,
{
    law_clipped_is_nearest(low, bit_depth as int);
    law_clipped_is_nearest(high, bit_depth as int);
}

/// An expanded sample is the sample followed by its own top bits. Samples beyond their depth
/// become the largest word.
pub proof fn law_expanded_repeats_top_bits(sample: u16, bit_depth: u8)
    ensures
        bit_depth <= 16 && sample < pow2(bit_depth as nat) ==> expands(
            expanded(sample, bit_depth),
            sample as int,
            bit_depth as int,
        ),
        bit_depth >= 16 ==> expanded(sample, bit_depth) == sample,
        bit_depth < 16 && sample >= pow2(bit_depth as nat) ==> expanded(sample, bit_depth)
            == 0xffff,
{
    lemma2_to64();
    if bit_depth <= 16 && sample < pow2(bit_depth as nat) {
        lemma_expanded_in_range(sample, bit_depth);
        law_shift_rounds_down(sample as int, refill_shift(bit_depth as int));
    }
    if bit_depth < 16 && sample >= pow2(bit_depth as nat) {
        let bits = bit_depth as u32;
        let value = sample as u32;
        let up = (16 - bit_depth) as u32;
        let down = if 2 * bit_depth > 16 { (2 * bit_depth - 16) as u32 } else { 0u32 };
        lemma_pow2_strictly_increases(bits as nat, 16);
        lemma_u32_shl_is_mul(1, bits);
        assert((value << up) | (value >> down) > 0xffff) by (bit_vector)
            requires
                bits < 16,
                up == 16 - bits,
                down < 16,
                value <= 0xffff,
                value >= 1u32 << bits,
        ;
    }
}

/// Expanding gives the sample followed by its own top bits. Samples beyond their depth become
/// the largest word.
pub proof fn law_expanding_repeats_top_bits(sample: u16, bit_depth: u8, word: u16)
    requires
        call_ensures(scale_float_matrix_sample_to_u16, (sample, bit_depth), word),
    ensures
        bit_depth <= 16 && sample < pow2(bit_depth as nat) ==> expands(
            word,
            sample as int,
            bit_depth as int,
        ),
        bit_depth >= 16 ==> word == sample,
        bit_depth < 16 && sample >= pow2(bit_depth as nat) ==> word == 0xffff,
{
    law_expanded_repeats_top_bits(sample, bit_depth);
}

/// Expanding four samples expands each of them in its lane.
pub proof fn law_expanding_lanes_repeats_top_bits(
    values: [i32; 4],
    bit_depth: u8,
    words: [u16; 4],
    lane: int,
)
    requires
        0 <= lane < 4,
        0 <= values@[lane] <= 0xffff,
        call_ensures(scale_float_matrix_neon_to_u16, (values, bit_depth), words),
    ensures
        bit_depth <= 16 && values@[lane] < pow2(bit_depth as nat) ==> expands(
            words@[lane],
            values@[lane] as int,
            bit_depth as int,
        ),
        bit_depth >= 16 ==> words@[lane] == values@[lane],
        bit_depth < 16 && values@[lane] >= pow2(bit_depth as nat) ==> words@[lane] == 0xffff,
{
    law_expanded_repeats_top_bits(values@[lane] as u16, bit_depth);
}

/// What is clipped to a depth and expanded is the expansion of the nearest sample.
pub(crate) proof fn lemma_expands_nearest(v: i32, bit_depth: u8)
    requires
        bit_depth <= 16,
    ensures
        expands_nearest(
            expanded(clip(v, bit_depth as int), bit_depth),
            v as int,
            bit_depth as int,
        ),
{
    law_clipped_is_nearest(v, bit_depth as int);
    law_expanded_repeats_top_bits(clip(v, bit_depth as int), bit_depth);
}

} // verus!
