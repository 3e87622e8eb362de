//! Vectors of eight lanes.
//!
//! The grouped kernels work on eight neighbouring pixels at a time, one lane per
//! pixel. A vector is an array; each operation here applies to every lane.
use crate::arith::{
    clamp_byte, clamp_to_byte, floor_shift, lemma_i32_shr, lemma_product_bound, lemma_u16_shr,
};
use crate::layout::{interleaved, overwritten, packed};
use vstd::prelude::*;

verus! {

/// Eight consecutive samples of a plane.
pub fn load_8(plane: &[u16], index: usize) -> (v: [u16; 8])
    requires
        index + 8 <= plane@.len(),
    ensures
        v@ == plane@.subrange(index as int, index + 8),
{
    let length: usize = plane.len();
    let mut v: [u16; 8] = [0; 8];
    for lane in 0..8usize
        invariant
            index + 8 <= plane@.len() == length,
            forall|k: int| 0 <= k < lane ==> v@[k] == plane@[index + k],
    {
        v[lane] = plane[index + lane];
    }
    assert(v@ =~= plane@.subrange(index as int, index + 8));
    v
}

/// Four consecutive samples of a plane.
pub fn load_4(plane: &[u16], index: usize) -> (v: [u16; 4])
    requires
        index + 4 <= plane@.len(),
    ensures
        v@ == plane@.subrange(index as int, index + 4),
{
    assert(plane.len() == plane@.len());
    let v: [u16; 4] = [plane[index], plane[index + 1], plane[index + 2], plane[index + 3]];
    assert(v@ =~= plane@.subrange(index as int, index + 4));
    v
}

/// Each of four samples twice: how half-resolution chroma covers eight pixels.
pub fn duplicate_4(v: [u16; 4]) -> (doubled: [u16; 8])
    ensures
        forall|lane: int| 0 <= lane < 8 ==> doubled@[lane] == v@[lane / 2],
{
    [v[0], v[0], v[1], v[1], v[2], v[2], v[3], v[3]]
}

/// The first four lanes.
pub fn low_half(v: [u16; 8]) -> (half: [u16; 4])
    ensures
        forall|lane: int| 0 <= lane < 4 ==> half@[lane] == v@[lane],
{
    [v[0], v[1], v[2], v[3]]
}

/// The last four lanes.
pub fn high_half(v: [u16; 8]) -> (half: [u16; 4])
    ensures
        forall|lane: int| 0 <= lane < 4 ==> half@[lane] == v@[4 + lane],
{
    [v[4], v[5], v[6], v[7]]
}

/// Two halves joined, each lane narrowed to the byte nearest to it.
pub fn join_bytes(low: [i32; 4], high: [i32; 4]) -> (bytes: [u8; 8])
    ensures
        forall|lane: int| 0 <= lane < 4 ==> bytes@[lane] == clamp_byte(low@[lane] as int),
        forall|lane: int| 4 <= lane < 8 ==> bytes@[lane] == clamp_byte(high@[lane - 4] as int),
{
    clamp_lanes([low[0], low[1], low[2], low[3], high[0], high[1], high[2], high[3]])
}

/// Drops the low `shift` bits of every sample.
pub fn shift_samples(v: [u16; 8], shift: u32) -> (shifted: [u16; 8])
    requires
        shift < 16,
    ensures
        forall|lane: int|
            0 <= lane < 8 ==> shifted@[lane] == floor_shift(v@[lane] as int, shift as int),
{
    let mut shifted: [u16; 8] = [0; 8];
    for lane in 0..8usize
        invariant
            shift < 16,
            forall|k: int|
                0 <= k < lane ==> shifted@[k] == floor_shift(v@[k] as int, shift as int),
    {
        proof {
            lemma_u16_shr(v@[lane as int], shift);
        }
        shifted[lane] = v[lane] >> shift;
    }
    shifted
}

/// Samples as signed integers.
pub fn widen(v: [u16; 8]) -> (wide: [i32; 8])
    ensures
        forall|lane: int| 0 <= lane < 8 ==> wide@[lane] == v@[lane],
{
    let mut wide: [i32; 8] = [0; 8];
    for lane in 0..8usize
        invariant
            forall|k: int| 0 <= k < lane ==> wide@[k] == v@[k],
    {
        wide[lane] = v[lane] as i32;
    }
    wide
}

/// The same value in every lane.
pub fn splat(value: i32) -> (v: [i32; 8])
    ensures
        forall|lane: int| 0 <= lane < 8 ==> v@[lane] == value,
{
    [value; 8]
}

/// `a - b`, lane by lane.
pub fn subtract(a: [i32; 8], b: [i32; 8]) -> (difference: [i32; 8])
    requires
        forall|lane: int| 0 <= lane < 8 ==> i32::MIN <= #[trigger] a@[lane] - b@[lane] <= i32::MAX,
    ensures
        forall|lane: int| 0 <= lane < 8 ==> difference@[lane] == a@[lane] - b@[lane],
{
    let mut difference: [i32; 8] = [0; 8];
    for lane in 0..8usize
        invariant
            forall|k: int| 0 <= k < 8 ==> i32::MIN <= #[trigger] a@[k] - b@[k] <= i32::MAX,
            forall|k: int| 0 <= k < lane ==> difference@[k] == a@[k] - b@[k],
    {
        difference[lane] = a[lane] - b[lane];
    }
    difference
}

/// `a + b`, lane by lane.
pub fn add_lanes(a: [i32; 8], b: [i32; 8]) -> (sum: [i32; 8])
    requires
        forall|lane: int| 0 <= lane < 8 ==> i32::MIN <= #[trigger] a@[lane] + b@[lane] <= i32::MAX,
    ensures
        forall|lane: int| 0 <= lane < 8 ==> sum@[lane] == a@[lane] + b@[lane],
{
    let mut sum: [i32; 8] = [0; 8];
    for lane in 0..8usize
        invariant
            forall|k: int| 0 <= k < 8 ==> i32::MIN <= #[trigger] a@[k] + b@[k] <= i32::MAX,
            forall|k: int| 0 <= k < lane ==> sum@[k] == a@[k] + b@[k],
    {
        sum[lane] = a[lane] + b[lane];
    }
    sum
}

/// `v * factor`, lane by lane.
pub fn multiply(v: [i32; 8], factor: i32) -> (product: [i32; 8])
    requires
        forall|lane: int| 0 <= lane < 8 ==> i32::MIN <= #[trigger] (factor * v@[lane]) <= i32::MAX,
    ensures
        forall|lane: int| 0 <= lane < 8 ==> product@[lane] == factor * v@[lane],
{
    let mut product: [i32; 8] = [0; 8];
    for lane in 0..8usize
        invariant
            forall|k: int| 0 <= k < 8 ==> i32::MIN <= #[trigger] (factor * v@[k]) <= i32::MAX,
            forall|k: int| 0 <= k < lane ==> product@[k] == factor * v@[k],
    {
        assert(i32::MIN <= factor * v@[lane as int] <= i32::MAX);
        product[lane] = factor * v[lane];
    }
    product
}

/// Products of bounded lanes with a bounded factor are bounded.
pub proof fn lemma_products_bound(v: [i32; 8], factor: i32, factor_bound: int, bound: int)
    requires
        -factor_bound <= factor <= factor_bound,
        forall|lane: int| 0 <= lane < 8 ==> -bound <= #[trigger] v@[lane] <= bound,
    ensures
        forall|lane: int|
            0 <= lane < 8 ==> -(factor_bound * bound) <= #[trigger] (factor * v@[lane])
                <= factor_bound * bound,
{
    assert forall|lane: int| 0 <= lane < 8 implies -(factor_bound * bound) <= #[trigger] (factor
        * v@[lane]) <= factor_bound * bound by {
        lemma_product_bound(factor as int, v@[lane] as int, factor_bound, bound);
    }
}

/// An arithmetic right shift of every lane, which rounds down.
pub fn shift_right(v: [i32; 8], bits: u32) -> (shifted: [i32; 8])
    requires
        bits < 32,
    ensures
        forall|lane: int|
            0 <= lane < 8 ==> shifted@[lane] == floor_shift(v@[lane] as int, bits as int),
{
    let mut shifted: [i32; 8] = [0; 8];
    for lane in 0..8usize
        invariant
            bits < 32,
            forall|k: int|
                0 <= k < lane ==> shifted@[k] == floor_shift(v@[k] as int, bits as int),
    {
        proof {
            lemma_i32_shr(v@[lane as int], bits);
        }
        shifted[lane] = v[lane] >> bits;
    }
    shifted
}

/// The byte nearest to each lane.
pub fn clamp_lanes(v: [i32; 8]) -> (bytes: [u8; 8])
    ensures
        forall|lane: int| 0 <= lane < 8 ==> bytes@[lane] == clamp_byte(v@[lane] as int),
{
    let mut bytes: [u8; 8] = [0; 8];
    for lane in 0..8usize
        invariant
            forall|k: int| 0 <= k < lane ==> bytes@[k] == clamp_byte(v@[k] as int),
    {
        bytes[lane] = clamp_to_byte(v[lane] as i64);
    }
    bytes
}

/// Stores one pixel from index `at` of `output` on.
pub fn store_interleaved(rgb: (u8, u8, u8), channels: usize, output: &mut [u8], at: usize)
    requires
        channels == 3 || channels == 4,
        at + channels <= old(output)@.len(),
    ensures
        final(output)@ == overwritten(
            old(output)@,
            at as int,
            interleaved(rgb, channels as int),
        ),
{
    assert(output.len() == output@.len());
    output[at] = rgb.0;
    output[at + 1] = rgb.1;
    output[at + 2] = rgb.2;
    if channels == 4 {
        output[at + 3] = u8::MAX;
    }
}

/// The stored form of each of eight pixels.
pub open spec fn lane_pixels(
    r: [u8; 8],
    g: [u8; 8],
    b: [u8; 8],
    channels: int,
) -> spec_fn(int) -> Seq<u8> {
    |lane: int| interleaved((r@[lane], g@[lane], b@[lane]), channels)
}

/// Stores eight pixels one after another from index `at` of `output` on.
pub fn store_interleaved_8(
    r: [u8; 8],
    g: [u8; 8],
    b: [u8; 8],
    channels: usize,
    output: &mut [u8],
    at: usize,
)
    requires
        channels == 3 || channels == 4,
        at + 8 * channels <= old(output)@.len(),
    ensures
        final(output)@ == overwritten(
            old(output)@,
            at as int,
            packed(8, channels as int, lane_pixels(r, g, b, channels as int)),
        ),
{
    let length: usize = output.len();
    let ghost before = output@;
    let ghost pixels = packed(8, channels as int, lane_pixels(r, g, b, channels as int));
    for lane in 0..8usize
        invariant
            channels == 3 || channels == 4,
            at + 8 * channels <= length,
            output@.len() == before.len() == length,
            pixels == packed(8, channels as int, lane_pixels(r, g, b, channels as int)),
            forall|i: int| 0 <= i < lane * channels ==> output@[at + i] == pixels[i],
            forall|i: int| 0 <= i < length && !(at <= i < at + lane * channels) ==> output@[i]
                == before[i],
    {
        let start: usize = at + lane * channels;
        output[start] = r[lane];
        output[start + 1] = g[lane];
        output[start + 2] = b[lane];
        if channels == 4 {
            output[start + 3] = u8::MAX;
        }
    }
    assert(output@ =~= overwritten(before, at as int, pixels));
}

} // verus!
