//! What the conversion of 4:2:0 planes to RGB bytes gives.
use crate::arith::floor_shift;
use crate::laws::meaning::{
    counts_units, law_channels_are_in_order, law_count_rises, law_pixel_has_its_samples,
    lemma_counts_units, lemma_shifted_sample,
};
use crate::layout::{
    lemma_packed_channel, lemma_pixel_number, lemma_pixel_number_bound, planes_of, Layout, Planes,
};
use crate::rgb_420::{
    coefficients, coefficients_of, convert_420_to_rgb, convert_420_to_rgb_scalar,
    convert_420_to_rgb_v3, converted_420, get_coefficients, layout_between, pixels_420, rgb_420,
    scalar_pixel, Coefficients,
};
use vstd::arithmetic::mul::lemma_mul_nonnegative;
use vstd::arithmetic::power2::{lemma2_to64, lemma_pow2_pos, pow2};
use vstd::prelude::*;

verus! {

/// `factor` is the integer nearest to `numerator / denominator`.
pub open spec fn nearest_integer(factor: int, numerator: int, denominator: int) -> bool {
    -denominator < 2 * (denominator * factor - numerator) < denominator
}

/// The factors are those of a conversion matrix, counted in units of which `units / 10000`
/// make one, and rounded to integers. The matrix belongs to luma weights of `kr / 10000` for
/// red, `kb / 10000` for blue and the rest for green: Cr is red minus luma, scaled to
/// `2 * (1 - kr / 10000)`, Cb is blue minus luma, scaled likewise, and green gets what makes
/// the luma of the colour that of the pixel.
pub open spec fn factors_of(
    kr: int,
    kb: int,
    units: int,
    cr_r: int,
    cb_g: int,
    cr_g: int,
    cb_b: int,
) -> bool {
    let kg = 10000 - kr - kb;
    &&& nearest_integer(cr_r, units * 2 * (10000 - kr), 100000000)
    &&& nearest_integer(cb_g, -(units * 2 * (10000 - kb) * kb), 100000000 * kg)
    &&& nearest_integer(cr_g, -(units * 2 * (10000 - kr) * kr), 100000000 * kg)
    &&& nearest_integer(cb_b, units * 2 * (10000 - kb), 100000000)
}

/// The factors of a matrix code, in units of which `units / 10000` make one: code 1 is
/// BT.709, code 9 is BT.2020, and every other code is taken for BT.601.
pub open spec fn factors_of_code(
    matrix_coeffs: u8,
    units: int,
    cr_r: int,
    cb_g: int,
    cr_g: int,
    cb_b: int,
) -> bool {
    if matrix_coeffs == 1 {
        factors_of(2126, 722, units, cr_r, cb_g, cr_g, cb_b)
    } else if matrix_coeffs == 9 {
        factors_of(2627, 593, units, cr_r, cb_g, cr_g, cb_b)
    } else {
        factors_of(2990, 1140, units, cr_r, cb_g, cr_g, cb_b)
    }
}

/// The factors for a range and a matrix code. Full range counts in 1/256ths; limited range
/// counts in 1/8192ths and stretches chroma by 1.1429.
pub open spec fn standard_factors(
    full_range: bool,
    matrix_coeffs: u8,
    cr_r: int,
    cb_g: int,
    cr_g: int,
    cb_b: int,
) -> bool {
    if full_range {
        factors_of_code(matrix_coeffs, 256int * 10000, cr_r, cb_g, cr_g, cb_b)
    } else {
        factors_of_code(matrix_coeffs, 8192int * 11429, cr_r, cb_g, cr_g, cb_b)
    }
}

/// The matrices are those of the standards, rounded to integers. Full range takes luma as it
/// is; limited range takes it relative to 16 and stretches it by 1.1689. Half a unit is
/// added for rounding.
pub proof fn law_matrices_are_standard(full_range: bool, matrix_coeffs: u8)
    ensures
        ({
            let c = coefficients(full_range, matrix_coeffs);
            &&& standard_factors(full_range, matrix_coeffs, c.cr_r, c.cb_g, c.cr_g, c.cb_b)
            &&& full_range ==> c.y_bias == 0 && c.y_scale == 256
            &&& !full_range ==> c.y_bias == 16 && nearest_integer(c.y_scale, 8192int * 11689, 10000)
            &&& c.shift_bits == (if full_range { 8int } else { 13int })
            &&& 2 * c.rounding == pow2(c.shift_bits as nat)
        }),
{
    lemma2_to64();
}

/// The factors that are looked up are those of the standards, rounded to integers.
pub proof fn law_looked_up_factors_are_standard(
    full_range: bool,
    matrix_coeffs: u8,
    c: (i32, i32, i32, i32, i32, i32, i32, i32),
)
    requires
        call_ensures(get_coefficients, (full_range, matrix_coeffs), c),
    ensures
        standard_factors(
            full_range,
            matrix_coeffs,
            c.0 as int,
            c.1 as int,
            c.2 as int,
            c.3 as int,
        ),
        full_range ==> c.4 == 0 && c.5 == 256 && c.6 == 128 && c.7 == 8,
        !full_range ==> c.4 == 16 && c.5 == 9576 && c.6 == 4096 && c.7 == 13,
        nearest_integer(9576, 8192int * 11689, 10000),
{
    law_matrices_are_standard(full_range, matrix_coeffs);
    lemma2_to64();
}

/// No two integers are nearest to the same quotient.
proof fn lemma_nearest_integer_is_unique(one: int, other: int, numerator: int, denominator: int)
    requires
        nearest_integer(one, numerator, denominator),
        nearest_integer(other, numerator, denominator),
    ensures
        one == other,
{
    assert(one == other) by (nonlinear_arith)
        requires
            -denominator < 2 * (denominator * one - numerator) < denominator,
            -denominator < 2 * (denominator * other - numerator) < denominator,
    ;
}

/// Luma weights and units leave one choice of factors.
proof fn lemma_factors_are_unique(
    kr: int,
    kb: int,
    units: int,
    one: (int, int, int, int),
    other: (int, int, int, int),
)
    requires
        factors_of(kr, kb, units, one.0, one.1, one.2, one.3),
        factors_of(kr, kb, units, other.0, other.1, other.2, other.3),
    ensures
        one == other,
{
    let kg = 10000 - kr - kb;
    lemma_nearest_integer_is_unique(one.0, other.0, units * 2 * (10000 - kr), 100000000);
    lemma_nearest_integer_is_unique(
        one.1,
        other.1,
        -(units * 2 * (10000 - kb) * kb),
        100000000 * kg,
    );
    lemma_nearest_integer_is_unique(
        one.2,
        other.2,
        -(units * 2 * (10000 - kr) * kr),
        100000000 * kg,
    );
    lemma_nearest_integer_is_unique(one.3, other.3, units * 2 * (10000 - kb), 100000000);
}

/// There is one integer nearest to a quotient, so that the standards leave one choice of
/// factors.
pub proof fn law_standard_factors_are_unique(
    full_range: bool,
    matrix_coeffs: u8,
    cr_r: int,
    cb_g: int,
    cr_g: int,
    cb_b: int,
)
    requires
        standard_factors(full_range, matrix_coeffs, cr_r, cb_g, cr_g, cb_b),
    ensures
        ({
            let c = coefficients(full_range, matrix_coeffs);
            &&& c.cr_r == cr_r
            &&& c.cb_g == cb_g
            &&& c.cr_g == cr_g
            &&& c.cb_b == cb_b
        }),
{
    let c = coefficients(full_range, matrix_coeffs);
    law_matrices_are_standard(full_range, matrix_coeffs);
    let (kr, kb) = if matrix_coeffs == 1 {
        (2126int, 722int)
    } else if matrix_coeffs == 9 {
        (2627int, 593int)
    } else {
        (2990int, 1140int)
    };
    let units: int = if full_range { 256int * 10000 } else { 8192int * 11429 };
    lemma_factors_are_unique(
        kr,
        kb,
        units,
        (c.cr_r, c.cb_g, c.cr_g, c.cb_b),
        (cr_r, cb_g, cr_g, cb_b),
    );
}

/// All matrix codes but 1 and 9 stand for the same matrix.
pub proof fn law_other_codes_are_alike(full_range: bool, one: u8, other: u8)
    requires
        one != 1 && one != 9,
        other != 1 && other != 9,
    ensures
        coefficients(full_range, one) == coefficients(full_range, other),
{
}

/// The three bytes at index `at` of `out` are the colour of 8-bit samples in a range, with
/// the given factors. Red depends on Cr, blue on Cb and green on both.
pub open spec fn shows_420(
    out: Seq<u8>,
    at: int,
    y: int,
    cb: int,
    cr: int,
    full_range: bool,
    cr_r: int,
    cb_g: int,
    cr_g: int,
    cb_b: int,
) -> bool {
    let unit: int = if full_range { 256 } else { 8192 };
    let luma: int = if full_range { 256 * y + 128 } else { 9576 * (y - 16) + 4096 };
    &&& 0 <= at
    &&& at + 3 <= out.len()
    &&& counts_units(out[at], luma + cr_r * (cr - 128), unit)
    &&& counts_units(out[at + 1], luma + cb_g * (cb - 128) + cr_g * (cr - 128), unit)
    &&& counts_units(out[at + 2], luma + cb_b * (cb - 128), unit)
}

/// The colour of samples of any depth: each channel counts the whole units of scaled luma
/// plus its weighted chroma.
pub proof fn law_420_colour(samples: (u16, u16, u16), shift: int, c: Coefficients)
    requires
        0 <= c.shift_bits,
    ensures
        ({
            let luma = c.y_scale * (floor_shift(samples.0 as int, shift) - c.y_bias);
            let cb = floor_shift(samples.1 as int, shift) - 128;
            let cr = floor_shift(samples.2 as int, shift) - 128;
            let unit = pow2(c.shift_bits as nat) as int;
            let rgb = rgb_420(samples, shift, c);
            &&& counts_units(rgb.0, luma + c.cr_r * cr + c.rounding, unit)
            &&& counts_units(rgb.1, luma + c.cb_g * cb + c.cr_g * cr + c.rounding, unit)
            &&& counts_units(rgb.2, luma + c.cb_b * cb + c.rounding, unit)
        }),
{
    let luma = c.y_scale * (floor_shift(samples.0 as int, shift) - c.y_bias);
    let cb = floor_shift(samples.1 as int, shift) - 128;
    let cr = floor_shift(samples.2 as int, shift) - 128;
    let unit = pow2(c.shift_bits as nat) as int;
    lemma_pow2_pos(c.shift_bits as nat);
    lemma_counts_units(luma + c.cr_r * cr + c.rounding, unit);
    lemma_counts_units(luma + c.cb_g * cb + c.cr_g * cr + c.rounding, unit);
    lemma_counts_units(luma + c.cb_b * cb + c.rounding, unit);
}

/// The three bytes of a pixel show the colour of its samples.
proof fn lemma_shows_420(
    out: Seq<u8>,
    at: int,
    samples: (u16, u16, u16),
    shift: u32,
    full_range: bool,
    matrix_coeffs: u8,
    cr_r: int,
    cb_g: int,
    cr_g: int,
    cb_b: int,
)
    requires
        shift < 16,
        0 <= at,
        at + 3 <= out.len(),
        (out[at], out[at + 1], out[at + 2]) == rgb_420(
            samples,
            shift as int,
            coefficients(full_range, matrix_coeffs),
        ),
        standard_factors(full_range, matrix_coeffs, cr_r, cb_g, cr_g, cb_b),
    ensures
        shows_420(
            out,
            at,
            (samples.0 >> shift) as int,
            (samples.1 >> shift) as int,
            (samples.2 >> shift) as int,
            full_range,
            cr_r,
            cb_g,
            cr_g,
            cb_b,
        ),
{
    let c = coefficients(full_range, matrix_coeffs);
    lemma2_to64();
    law_matrices_are_standard(full_range, matrix_coeffs);
    law_standard_factors_are_unique(full_range, matrix_coeffs, cr_r, cb_g, cr_g, cb_b);
    lemma_shifted_sample(samples.0, shift);
    lemma_shifted_sample(samples.1, shift);
    lemma_shifted_sample(samples.2, shift);
    law_420_colour(samples, shift as int, c);
}

/// A converted rectangle shows each of its pixels in its place.
proof fn lemma_converted_420(
    layout: Layout,
    planes: Planes,
    shift: u32,
    full_range: bool,
    matrix_coeffs: u8,
    cr_r: int,
    cb_g: int,
    cr_g: int,
    cb_b: int,
    row: int,
    col: int,
)
    requires
        layout.subsample_x == 2,
        layout.subsample_y == 2,
        shift < 16,
        0 <= row < layout.height,
        0 <= col < layout.width,
        standard_factors(full_range, matrix_coeffs, cr_r, cb_g, cr_g, cb_b),
    ensures
        ({
            let x = layout.x_start + col;
            let y = layout.y_start + row;
            let chroma = (y / 2) * layout.chroma_stride + x / 2;
            shows_420(
                converted_420(
                    layout,
                    planes,
                    shift as int,
                    coefficients(full_range, matrix_coeffs),
                ),
                (row * layout.width + col) * 3,
                (planes.y[y * layout.y_stride + x] >> shift) as int,
                (planes.cb[chroma] >> shift) as int,
                (planes.cr[chroma] >> shift) as int,
                full_range,
                cr_r,
                cb_g,
                cr_g,
                cb_b,
            )
        }),
{
    let c = coefficients(full_range, matrix_coeffs);
    let p = row * layout.width + col;
    let count = layout.pixel_count();
    let pixel = pixels_420(layout, planes, shift as int, c);
    law_pixel_has_its_samples(layout, planes, row, col);
    lemma_pixel_number(layout.width, row, col);
    lemma_pixel_number_bound(layout.width, layout.height, row, col);
    let samples = planes.samples(layout, p);
    law_channels_are_in_order(rgb_420(samples, shift as int, c), 3);
    lemma_packed_channel(count, 3, pixel, p, 0);
    lemma_packed_channel(count, 3, pixel, p, 1);
    lemma_packed_channel(count, 3, pixel, p, 2);
    lemma_shows_420(
        converted_420(layout, planes, shift as int, c),
        p * 3,
        samples,
        shift,
        full_range,
        matrix_coeffs,
        cr_r,
        cb_g,
        cr_g,
        cb_b,
    );
}

/// Converting a single pixel stores its colour at `out_idx`, moves `out_idx` behind it and
/// changes nothing else.
pub proof fn law_scalar_pixel(
    y_plane: &[u16],
    cb_plane: &[u16],
    cr_plane: &[u16],
    y_row: usize,
    c_row: usize,
    x: usize,
    shift: u32,
    y_bias: i32,
    y_scale: i32,
    cr_r: i32,
    cb_g: i32,
    cr_g: i32,
    cb_b: i32,
    rnd: i32,
    shr: i32,
    rgb: &mut [u8],
    out_idx: &mut usize,
)
    requires
        shift < 16,
        0 <= shr,
        *old(out_idx) + 3 <= old(rgb)@.len(),
        call_ensures(
            scalar_pixel,
            (
                y_plane,
                cb_plane,
                cr_plane,
                y_row,
                c_row,
                x,
                shift,
                y_bias,
                y_scale,
                cr_r,
                cb_g,
                cr_g,
                cb_b,
                rnd,
                shr,
                rgb,
                out_idx,
            ),
            (),
        ),
    ensures
        ({
            let at = *old(out_idx) as int;
            let luma = y_scale * ((y_plane@[y_row + x] >> shift) - y_bias);
            let cb = (cb_plane@[c_row + x / 2] >> shift) - 128;
            let cr = (cr_plane@[c_row + x / 2] >> shift) - 128;
            let unit = pow2(shr as nat) as int;
            &&& counts_units(final(rgb)@[at], luma + cr_r * cr + rnd, unit)
            &&& counts_units(final(rgb)@[at + 1], luma + cb_g * cb + cr_g * cr + rnd, unit)
            &&& counts_units(final(rgb)@[at + 2], luma + cb_b * cb + rnd, unit)
            &&& *final(out_idx) == at + 3
            &&& final(rgb)@.len() == old(rgb)@.len()
            &&& forall|i: int|
                0 <= i < old(rgb)@.len() && !(at <= i < at + 3) ==> final(rgb)@[i]
                    == old(rgb)@[i]
        }),
{
    let samples = (
        y_plane@[y_row + x],
        cb_plane@[c_row + x / 2],
        cr_plane@[c_row + x / 2],
    );
    let c = coefficients_of(cr_r, cb_g, cr_g, cb_b, y_bias, y_scale, rnd, shr);
    lemma_shifted_sample(samples.0, shift);
    lemma_shifted_sample(samples.1, shift);
    lemma_shifted_sample(samples.2, shift);
    law_420_colour(samples, shift as int, c);
    law_channels_are_in_order(rgb_420(samples, shift as int, c), 3);
}

/// The conversion stores each pixel of the rectangle, made of the samples in its place of the
/// whole planes, row by row without gaps, in the colour that the standard gives it.
pub proof fn law_420(
    y_plane: &[u16],
    cb_plane: &[u16],
    cr_plane: &[u16],
    y_stride: usize,
    c_stride: usize,
    y_start: u32,
    y_end: u32,
    x_start: u32,
    x_end: u32,
    shift: u32,
    full_range: bool,
    matrix_coeffs: u8,
    rgb: &mut [u8],
    cr_r: int,
    cb_g: int,
    cr_g: int,
    cb_b: int,
    row: int,
    col: int,
)
    requires
        shift < 16,
        y_start <= row < y_end,
        x_start <= col < x_end,
        standard_factors(full_range, matrix_coeffs, cr_r, cb_g, cr_g, cb_b),
        call_ensures(
            convert_420_to_rgb,
            (
                y_plane,
                cb_plane,
                cr_plane,
                y_stride,
                c_stride,
                y_start,
                y_end,
                x_start,
                x_end,
                shift,
                full_range,
                matrix_coeffs,
                rgb,
            ),
            (),
        ),
    ensures
        shows_420(
            final(rgb)@,
            ((row - y_start) * (x_end - x_start) + (col - x_start)) * 3,
            (y_plane@[row * y_stride + col] >> shift) as int,
            (cb_plane@[(row / 2) * c_stride + col / 2] >> shift) as int,
            (cr_plane@[(row / 2) * c_stride + col / 2] >> shift) as int,
            full_range,
            cr_r,
            cb_g,
            cr_g,
            cb_b,
        ),
{
    lemma_converted_420(
        layout_between(y_stride, c_stride, y_start, y_end, x_start, x_end),
        planes_of(y_plane, cb_plane, cr_plane),
        shift,
        full_range,
        matrix_coeffs,
        cr_r,
        cb_g,
        cr_g,
        cb_b,
        row - y_start,
        col - x_start,
    );
}

/// The conversion leaves what follows the pixels of the rectangle, which is everything where
/// the rectangle has no rows or no columns.
pub proof fn law_420_leaves_the_rest(
    y_plane: &[u16],
    cb_plane: &[u16],
    cr_plane: &[u16],
    y_stride: usize,
    c_stride: usize,
    y_start: u32,
    y_end: u32,
    x_start: u32,
    x_end: u32,
    shift: u32,
    full_range: bool,
    matrix_coeffs: u8,
    rgb: &mut [u8],
    i: int,
)
    requires
        0 <= i < old(rgb)@.len(),
        y_start < y_end && x_start < x_end ==> (x_end - x_start) * (y_end - y_start) * 3 <= i,
        call_ensures(
            convert_420_to_rgb,
            (
                y_plane,
                cb_plane,
                cr_plane,
                y_stride,
                c_stride,
                y_start,
                y_end,
                x_start,
                x_end,
                shift,
                full_range,
                matrix_coeffs,
                rgb,
            ),
            (),
        ),
    ensures
        final(rgb)@.len() == old(rgb)@.len(),
        final(rgb)@[i] == old(rgb)@[i],
{
    let width: int = if x_start < x_end { x_end - x_start } else { 0 };
    let height: int = if y_start < y_end { y_end - y_start } else { 0 };
    lemma_mul_nonnegative(width, height);
    if width == 0 || height == 0 {
        assert(0 * height == 0 && width * 0 == 0);
    }
}

/// The conversion pixel by pixel stores each pixel of the rectangle in the colour that the
/// standard gives it.
pub proof fn law_420_scalar(
    y_plane: &[u16],
    cb_plane: &[u16],
    cr_plane: &[u16],
    y_stride: usize,
    c_stride: usize,
    y_start: u32,
    y_end: u32,
    x_start: u32,
    x_end: u32,
    shift: u32,
    full_range: bool,
    matrix_coeffs: u8,
    rgb: &mut [u8],
    cr_r: int,
    cb_g: int,
    cr_g: int,
    cb_b: int,
    row: int,
    col: int,
)
    requires
        shift < 16,
        y_start <= row < y_end,
        x_start <= col < x_end,
        standard_factors(full_range, matrix_coeffs, cr_r, cb_g, cr_g, cb_b),
        call_ensures(
            convert_420_to_rgb_scalar,
            (
                y_plane,
                cb_plane,
                cr_plane,
                y_stride,
                c_stride,
                y_start,
                y_end,
                x_start,
                x_end,
                shift,
                full_range,
                matrix_coeffs,
                rgb,
            ),
            (),
        ),
    ensures
        shows_420(
            final(rgb)@,
            ((row - y_start) * (x_end - x_start) + (col - x_start)) * 3,
            (y_plane@[row * y_stride + col] >> shift) as int,
            (cb_plane@[(row / 2) * c_stride + col / 2] >> shift) as int,
            (cr_plane@[(row / 2) * c_stride + col / 2] >> shift) as int,
            full_range,
            cr_r,
            cb_g,
            cr_g,
            cb_b,
        ),
{
    lemma_converted_420(
        layout_between(y_stride, c_stride, y_start, y_end, x_start, x_end),
        planes_of(y_plane, cb_plane, cr_plane),
        shift,
        full_range,
        matrix_coeffs,
        cr_r,
        cb_g,
        cr_g,
        cb_b,
        row - y_start,
        col - x_start,
    );
}

/// The conversion pixel by pixel leaves what follows the pixels of the rectangle.
pub proof fn law_420_scalar_leaves_the_rest(
    y_plane: &[u16],
    cb_plane: &[u16],
    cr_plane: &[u16],
    y_stride: usize,
    c_stride: usize,
    y_start: u32,
    y_end: u32,
    x_start: u32,
    x_end: u32,
    shift: u32,
    full_range: bool,
    matrix_coeffs: u8,
    rgb: &mut [u8],
    i: int,
)
    requires
        0 <= i < old(rgb)@.len(),
        y_start < y_end && x_start < x_end ==> (x_end - x_start) * (y_end - y_start) * 3 <= i,
        call_ensures(
            convert_420_to_rgb_scalar,
            (
                y_plane,
                cb_plane,
                cr_plane,
                y_stride,
                c_stride,
                y_start,
                y_end,
                x_start,
                x_end,
                shift,
                full_range,
                matrix_coeffs,
                rgb,
            ),
            (),
        ),
    ensures
        final(rgb)@.len() == old(rgb)@.len(),
        final(rgb)@[i] == old(rgb)@[i],
{
    let width: int = if x_start < x_end { x_end - x_start } else { 0 };
    let height: int = if y_start < y_end { y_end - y_start } else { 0 };
    lemma_mul_nonnegative(width, height);
    if width == 0 || height == 0 {
        assert(0 * height == 0 && width * 0 == 0);
    }
}

/// The conversion in groups stores each pixel of the rectangle in the colour that the standard
/// gives it.
pub proof fn law_420_v3(
    y_plane: &[u16],
    cb_plane: &[u16],
    cr_plane: &[u16],
    y_stride: usize,
    c_stride: usize,
    y_start: u32,
    y_end: u32,
    x_start: u32,
    x_end: u32,
    shift: u32,
    full_range: bool,
    matrix_coeffs: u8,
    rgb: &mut [u8],
    cr_r: int,
    cb_g: int,
    cr_g: int,
    cb_b: int,
    row: int,
    col: int,
)
    requires
        shift < 16,
        y_start <= row < y_end,
        x_start <= col < x_end,
        standard_factors(full_range, matrix_coeffs, cr_r, cb_g, cr_g, cb_b),
        call_ensures(
            convert_420_to_rgb_v3,
            (
                y_plane,
                cb_plane,
                cr_plane,
                y_stride,
                c_stride,
                y_start,
                y_end,
                x_start,
                x_end,
                shift,
                full_range,
                matrix_coeffs,
                rgb,
            ),
            (),
        ),
    ensures
        shows_420(
            final(rgb)@,
            ((row - y_start) * (x_end - x_start) + (col - x_start)) * 3,
            (y_plane@[row * y_stride + col] >> shift) as int,
            (cb_plane@[(row / 2) * c_stride + col / 2] >> shift) as int,
            (cr_plane@[(row / 2) * c_stride + col / 2] >> shift) as int,
            full_range,
            cr_r,
            cb_g,
            cr_g,
            cb_b,
        ),
{
    lemma_converted_420(
        layout_between(y_stride, c_stride, y_start, y_end, x_start, x_end),
        planes_of(y_plane, cb_plane, cr_plane),
        shift,
        full_range,
        matrix_coeffs,
        cr_r,
        cb_g,
        cr_g,
        cb_b,
        row - y_start,
        col - x_start,
    );
}

/// The conversion in groups leaves what follows the pixels of the rectangle.
pub proof fn law_420_v3_leaves_the_rest(
    y_plane: &[u16],
    cb_plane: &[u16],
    cr_plane: &[u16],
    y_stride: usize,
    c_stride: usize,
    y_start: u32,
    y_end: u32,
    x_start: u32,
    x_end: u32,
    shift: u32,
    full_range: bool,
    matrix_coeffs: u8,
    rgb: &mut [u8],
    i: int,
)
    requires
        0 <= i < old(rgb)@.len(),
        y_start < y_end && x_start < x_end ==> (x_end - x_start) * (y_end - y_start) * 3 <= i,
        call_ensures(
            convert_420_to_rgb_v3,
            (
                y_plane,
                cb_plane,
                cr_plane,
                y_stride,
                c_stride,
                y_start,
                y_end,
                x_start,
                x_end,
                shift,
                full_range,
                matrix_coeffs,
                rgb,
            ),
            (),
        ),
    ensures
        final(rgb)@.len() == old(rgb)@.len(),
        final(rgb)@[i] == old(rgb)@[i],
{
    let width: int = if x_start < x_end { x_end - x_start } else { 0 };
    let height: int = if y_start < y_end { y_end - y_start } else { 0 };
    lemma_mul_nonnegative(width, height);
    if width == 0 || height == 0 {
        assert(0 * height == 0 && width * 0 == 0);
    }
}

/// More Cr makes a pixel not less red and not more green, and leaves blue as it is, in every
/// range and with every matrix.
pub proof fn law_420_cr_reddens(
    y: u16,
    cb: u16,
    less: u16,
    more: u16,
    shift: u32,
    full_range: bool,
    matrix_coeffs: u8,
)
    requires
        shift < 16,
        (less >> shift) <= (more >> shift),
    ensures
        ({
            let c = coefficients(full_range, matrix_coeffs);
            let before = rgb_420((y, cb, less), shift as int, c);
            let after = rgb_420((y, cb, more), shift as int, c);
            &&& before.0 <= after.0
            &&& before.1 >= after.1
            &&& before.2 == after.2
        }),
{
    let c = coefficients(full_range, matrix_coeffs);
    lemma2_to64();
    lemma_shifted_sample(less, shift);
    lemma_shifted_sample(more, shift);
    law_420_colour((y, cb, less), shift as int, c);
    law_420_colour((y, cb, more), shift as int, c);
    let before = rgb_420((y, cb, less), shift as int, c);
    let after = rgb_420((y, cb, more), shift as int, c);
    let luma = c.y_scale * (floor_shift(y as int, shift as int) - c.y_bias);
    let green = luma + c.cb_g * (floor_shift(cb as int, shift as int) - 128);
    let low = (less >> shift) - 128;
    let high = (more >> shift) - 128;
    let unit = pow2(c.shift_bits as nat) as int;
    lemma_pow2_pos(c.shift_bits as nat);
    law_count_rises(
        before.0,
        after.0,
        luma + c.cr_r * low + c.rounding,
        luma + c.cr_r * high + c.rounding,
        unit,
    );
    law_count_rises(
        after.1,
        before.1,
        green + c.cr_g * high + c.rounding,
        green + c.cr_g * low + c.rounding,
        unit,
    );
}

/// More Cb makes a pixel not less blue and not more green, and leaves red as it is, in every
/// range and with every matrix.
pub proof fn law_420_cb_blues(
    y: u16,
    less: u16,
    more: u16,
    cr: u16,
    shift: u32,
    full_range: bool,
    matrix_coeffs: u8,
)
    requires
        shift < 16,
        (less >> shift) <= (more >> shift),
    ensures
        ({
            let c = coefficients(full_range, matrix_coeffs);
            let before = rgb_420((y, less, cr), shift as int, c);
            let after = rgb_420((y, more, cr), shift as int, c);
            &&& before.0 == after.0
            &&& before.1 >= after.1
            &&& before.2 <= after.2
        }),
{
    let c = coefficients(full_range, matrix_coeffs);
    lemma2_to64();
    lemma_shifted_sample(less, shift);
    lemma_shifted_sample(more, shift);
    law_420_colour((y, less, cr), shift as int, c);
    law_420_colour((y, more, cr), shift as int, c);
    let before = rgb_420((y, less, cr), shift as int, c);
    let after = rgb_420((y, more, cr), shift as int, c);
    let luma = c.y_scale * (floor_shift(y as int, shift as int) - c.y_bias);
    let red_in_green = c.cr_g * (floor_shift(cr as int, shift as int) - 128);
    let low = (less >> shift) - 128;
    let high = (more >> shift) - 128;
    let unit = pow2(c.shift_bits as nat) as int;
    lemma_pow2_pos(c.shift_bits as nat);
    law_count_rises(
        after.1,
        before.1,
        luma + c.cb_g * high + red_in_green + c.rounding,
        luma + c.cb_g * low + red_in_green + c.rounding,
        unit,
    );
    law_count_rises(
        before.2,
        after.2,
        luma + c.cb_b * low + c.rounding,
        luma + c.cb_b * high + c.rounding,
        unit,
    );
}

} // verus!
