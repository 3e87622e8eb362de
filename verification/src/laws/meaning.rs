//! What the arithmetic and the geometry that the conversions share mean.
use crate::arith::{clamp_byte, clamp_to_byte, floor_shift, lemma_u16_shr};
use crate::layout::{
    interleaved, lemma_packed_channel, lemma_pixel_number, overwritten, packed, Layout, Planes,
};
use vstd::arithmetic::div_mod::{lemma_fundamental_div_mod, lemma_mod_bound};
use vstd::arithmetic::mul::{lemma_mul_inequality, lemma_mul_is_distributive_add};
use vstd::arithmetic::power2::{lemma_pow2_pos, pow2};
use vstd::prelude::*;

verus! {

/// `sample` is the value of `0..=max` nearest to `v`: `v` itself if it lies in that range,
/// and otherwise the end of the range that `v` lies beyond.
pub open spec fn nearest_sample(sample: int, v: int, max: int) -> bool {
    &&& 0 <= sample <= max
    &&& 0 <= v <= max ==> sample == v
    &&& v < 0 ==> sample == 0
    &&& v > max ==> sample == max
}

/// `byte` counts the whole units in `sum`, as far as a byte can: it holds no more units than
/// `sum` unless it is the smallest byte, and `sum` has less than one unit more unless it is
/// the largest one.
pub open spec fn counts_units(byte: u8, sum: int, unit: int) -> bool {
    &&& byte > 0 ==> unit * byte <= sum
    &&& byte < 255 ==> sum < unit * (byte + 1)
}

/// No two bytes count the units of the same sum.
pub proof fn law_count_is_unique(one: u8, other: u8, sum: int, unit: int)
    requires
        unit > 0,
        counts_units(one, sum, unit),
        counts_units(other, sum, unit),
    ensures
        one == other,
{
    if one < other {
        lemma_mul_inequality(one + 1, other as int, unit);
        assert(unit * (one + 1) <= unit * other) by (nonlinear_arith)
            requires
                (one + 1) * unit <= other * unit,
        ;
    } else if other < one {
        lemma_mul_inequality(other + 1, one as int, unit);
        assert(unit * (other + 1) <= unit * one) by (nonlinear_arith)
            requires
                (other + 1) * unit <= one * unit,
        ;
    }
}

/// A larger sum does not have a smaller count.
pub proof fn law_count_rises(low: u8, high: u8, low_sum: int, high_sum: int, unit: int)
    requires
        unit > 0,
        low_sum <= high_sum,
        counts_units(low, low_sum, unit),
        counts_units(high, high_sum, unit),
    ensures
        low <= high,
{
    if high < low {
        lemma_mul_inequality(high + 1, low as int, unit);
        assert(unit * (high + 1) <= unit * low) by (nonlinear_arith)
            requires
                (high + 1) * unit <= low * unit,
        ;
    }
}

/// A byte is the value of `0..=255` nearest to a number.
pub proof fn law_clamped_byte_is_nearest(v: int)
    ensures
        nearest_sample(clamp_byte(v) as int, v, 255),
{
}

/// Narrowing to a byte gives the value of `0..=255` nearest to the number.
pub proof fn law_narrowing_is_nearest(v: i64, byte: u8)
    requires
        call_ensures(clamp_to_byte, (v,), byte),
    ensures
        nearest_sample(byte as int, v as int, 255),
{
    law_clamped_byte_is_nearest(v as int);
}

/// A shift counts the whole units of `2^bits`.
pub proof fn law_shift_rounds_down(v: int, bits: int)
    requires
        0 <= bits,
    ensures
        pow2(bits as nat) * floor_shift(v, bits) <= v,
        v < pow2(bits as nat) * (floor_shift(v, bits) + 1),
{
    let unit = pow2(bits as nat) as int;
    lemma_pow2_pos(bits as nat);
    lemma_fundamental_div_mod(v, unit);
    lemma_mod_bound(v, unit);
    lemma_mul_is_distributive_add(unit, floor_shift(v, bits), 1);
}

/// A sum that is divided by the unit, rounded down and narrowed to a byte is counted.
pub(crate) proof fn lemma_counts_units(sum: int, unit: int)
    requires
        unit > 0,
    ensures
        counts_units(clamp_byte(sum / unit), sum, unit),
{
    let v = sum / unit;
    let byte = clamp_byte(v);
    lemma_fundamental_div_mod(sum, unit);
    lemma_mod_bound(sum, unit);
    lemma_mul_is_distributive_add(unit, v, 1);
    if byte > 0 {
        lemma_mul_inequality(byte as int, v, unit);
        assert(unit * byte <= unit * v) by (nonlinear_arith)
            requires
                byte * unit <= v * unit,
        ;
    }
    if byte < 255 {
        lemma_mul_inequality(v + 1, byte + 1, unit);
        assert(unit * (v + 1) <= unit * (byte + 1)) by (nonlinear_arith)
            requires
                (v + 1) * unit <= (byte + 1) * unit,
        ;
    }
}

/// A pixel is made of the luma sample in its own place of the luma plane and of the chroma
/// samples that cover this place: the one in the column and the row of the place, divided
/// by the subsampling and rounded down.
pub proof fn law_pixel_has_its_samples(layout: Layout, planes: Planes, row: int, col: int)
    requires
        0 <= row,
        0 <= col < layout.width,
    ensures
        ({
            let x = layout.x_start + col;
            let y = layout.y_start + row;
            let chroma = (y / layout.subsample_y) * layout.chroma_stride + x
                / layout.subsample_x;
            let samples = planes.samples(layout, row * layout.width + col);
            &&& samples.0 == planes.y[y * layout.y_stride + x]
            &&& samples.1 == planes.cb[chroma]
            &&& samples.2 == planes.cr[chroma]
        }),
{
    lemma_pixel_number(layout.width, row, col);
}

/// A stored pixel has red first, green second and blue third, and in four-channel output, but
/// in no other, an opaque alpha behind them.
pub proof fn law_channels_are_in_order(rgb: (u8, u8, u8), channels: int)
    ensures
        ({
            let pixel = interleaved(rgb, channels);
            &&& pixel.len() == (if channels == 4 { 4int } else { 3int })
            &&& pixel[0] == rgb.0
            &&& pixel[1] == rgb.1
            &&& pixel[2] == rgb.2
            &&& channels == 4 ==> pixel[3] == 255
        }),
{
}

/// Packed pixels follow one another without gaps.
pub proof fn law_packing_is_tight<T>(
    count: int,
    channels: int,
    pixel: spec_fn(int) -> Seq<T>,
    p: int,
    c: int,
)
    requires
        0 <= p < count,
        0 <= c < channels,
    ensures
        packed(count, channels, pixel).len() == count * channels,
        packed(count, channels, pixel)[p * channels + c] == pixel(p)[c],
{
    lemma_packed_channel(count, channels, pixel, p, c);
}

/// Storing values changes nothing but the places where they are stored.
pub proof fn law_storing_changes_its_places<T>(s: Seq<T>, at: int, values: Seq<T>, i: int)
    requires
        0 <= i < s.len(),
    ensures
        overwritten(s, at, values).len() == s.len(),
        overwritten(s, at, values)[i] == (if at <= i && i - at < values.len() {
            values[i - at]
        } else {
            s[i]
        }),
{
}

/// The samples that are left when `shift` bits are dropped: a shifted sample counts the
/// whole units of `2^shift` in it.
pub(crate) proof fn lemma_shifted_sample(sample: u16, shift: u32)
    requires
        shift < 16,
    ensures
        floor_shift(sample as int, shift as int) == sample >> shift,
        0 <= floor_shift(sample as int, shift as int) <= 65535,
{
    lemma_u16_shr(sample, shift);
}

} // verus!
