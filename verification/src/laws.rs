//! What holds of the conversions as a whole.
//!
//! The laws here relate conversions to one another. The modules below say of each function,
//! in terms of its arguments and results alone, what it gives: [`meaning`] of the arithmetic
//! and the geometry that all share, [`depths`] of clipping and expansion, [`fixed`], [`rgb`]
//! and [`matrices`] of the conversions, and [`regions`] of the checks and of what the
//! conversions take.
use crate::arith::{clamp_byte, floor_shift, lemma_floor_shift_values, lemma_u16_shr};
use crate::depth::{clip, expanded, lemma_expanded_in_range, refill_shift, sample_max};
use crate::fixed_420::{
    converted_420_8bit, lanes_suffice, pixels_420_8bit, rgb_420_8bit, Weights,
};
use crate::layout::{
    lemma_in_planes, lemma_packed_channel, lemma_packed_concat, lemma_packed_same,
    lemma_pixel_number, lemma_pixel_number_bound, packed, Layout, Planes,
};
use crate::matrix::{
    converted, determined, formed, lemma_determined, matrix_results, result_of, stored,
};
use crate::matrix_8bit::form_8bit;
use crate::matrix_rgba16::form_rgba16;
use crate::rgb_420::{coefficients, converted_420, pixels_420, rgb_420, Coefficients};
use vstd::arithmetic::div_mod::{
    lemma_div_is_ordered, lemma_fundamental_div_mod, lemma_fundamental_div_mod_converse,
};
use vstd::arithmetic::mul::{
    lemma_mul_inequality, lemma_mul_is_commutative, lemma_mul_is_distributive_add_other_way,
    lemma_mul_is_distributive_sub_other_way, lemma_mul_nonnegative,
};
use vstd::arithmetic::power2::{
    lemma2_to64, lemma_pow2_adds, lemma_pow2_pos, lemma_pow2_strictly_increases, pow2,
};
use vstd::prelude::*;

pub mod depths;
pub mod fixed;
pub mod matrices;
pub mod meaning;
pub mod regions;
pub mod rgb;

verus! {

/// The chroma weights of a matrix.
pub open spec fn weights_of(c: Coefficients) -> Weights {
    Weights { r_cr: c.cr_r, g_cb: c.cb_g, g_cr: c.cr_g, b_cb: c.cb_b }
}

/// Samples without chroma are grey: with both chroma samples at 128 the interleaved
/// conversion gives the luma sample in all three channels, whatever the weights are.
pub proof fn law_neutral_chroma_is_grey(y: u16, w: Weights)
    ensures
        rgb_420_8bit((y, 128, 128), w) == (
            clamp_byte(y as int),
            clamp_byte(y as int),
            clamp_byte(y as int),
        ),
{
    assert(w.r_cr * 0 == 0 && w.g_cb * 0 == 0 && w.g_cr * 0 == 0 && w.b_cb * 0 == 0);
}

/// Both chroma samples are 128 once the bits beyond eight are dropped.
pub open spec fn neutral(samples: (u16, u16, u16), shift: u32) -> bool {
    &&& floor_shift(samples.1 as int, shift as int) == 128
    &&& floor_shift(samples.2 as int, shift as int) == 128
}

/// Samples of any depth without chroma are grey: every matrix and every range gives three
/// equal channels, and full range gives the luma sample itself.
pub proof fn law_neutral_chroma_is_grey_at_any_depth(
    samples: (u16, u16, u16),
    shift: u32,
    full_range: bool,
    matrix_coeffs: u8,
)
    requires
        shift < 16,
        neutral(samples, shift),
    ensures
        ({
            let rgb = rgb_420(samples, shift as int, coefficients(full_range, matrix_coeffs));
            &&& rgb.0 == rgb.1 == rgb.2
            &&& full_range ==> rgb.0 == clamp_byte(floor_shift(samples.0 as int, shift as int))
        }),
{
    let c = coefficients(full_range, matrix_coeffs);
    let luma = floor_shift(samples.0 as int, shift as int);
    assert(c.cr_r * 0 == 0 && c.cb_g * 0 == 0 && c.cr_g * 0 == 0 && c.cb_b * 0 == 0);
    lemma_floor_shift_values(256 * luma + 128);
}

/// In limited range samples without chroma are black exactly up to a luma of 16 and white
/// exactly from 234 on.
pub proof fn law_limited_range_levels(samples: (u16, u16, u16), shift: u32, matrix_coeffs: u8)
    requires
        shift < 16,
        neutral(samples, shift),
    ensures
        ({
            let luma = floor_shift(samples.0 as int, shift as int);
            let rgb = rgb_420(samples, shift as int, coefficients(false, matrix_coeffs));
            &&& rgb == (0u8, 0u8, 0u8) <==> luma <= 16
            &&& rgb == (255u8, 255u8, 255u8) <==> 234 <= luma
        }),
{
    let c = coefficients(false, matrix_coeffs);
    let luma = floor_shift(samples.0 as int, shift as int);
    assert(c.cr_r * 0 == 0 && c.cb_g * 0 == 0 && c.cr_g * 0 == 0 && c.cb_b * 0 == 0);
    lemma2_to64();
    assert(floor_shift(9576 * (luma - 16) + 4096, 13) == (9576 * (luma - 16) + 4096) / 8192);
}

/// Of two samples of the same depth without chroma, the one with more luma is not darker.
pub proof fn law_neutral_level_rises(
    low: (u16, u16, u16),
    high: (u16, u16, u16),
    shift: u32,
    full_range: bool,
    matrix_coeffs: u8,
)
    requires
        shift < 16,
        neutral(low, shift),
        neutral(high, shift),
        low.0 <= high.0,
    ensures
        ({
            let c = coefficients(full_range, matrix_coeffs);
            let dark = rgb_420(low, shift as int, c);
            let bright = rgb_420(high, shift as int, c);
            &&& dark.0 <= bright.0
            &&& dark.1 <= bright.1
            &&& dark.2 <= bright.2
        }),
{
    let c = coefficients(full_range, matrix_coeffs);
    let dark = floor_shift(low.0 as int, shift as int);
    let bright = floor_shift(high.0 as int, shift as int);
    assert(c.cr_r * 0 == 0 && c.cb_g * 0 == 0 && c.cr_g * 0 == 0 && c.cb_b * 0 == 0);
    lemma_pow2_pos(shift as nat);
    lemma_div_is_ordered(low.0 as int, high.0 as int, pow2(shift as nat) as int);
    lemma_pow2_pos(c.shift_bits as nat);
    lemma_div_is_ordered(
        c.y_scale * (dark - c.y_bias) + c.rounding,
        c.y_scale * (bright - c.y_bias) + c.rounding,
        pow2(c.shift_bits as nat) as int,
    );
}

/// For full-range 8-bit planes both 4:2:0 conversions agree: the conversion to RGB bytes
/// gives what the interleaved one gives with the weights of the same matrix and three
/// channels.
pub proof fn law_full_range_conversions_agree(layout: Layout, planes: Planes, matrix_coeffs: u8)
    requires
        layout.valid(),
    ensures
        converted_420(layout, planes, 0, coefficients(true, matrix_coeffs)) == converted_420_8bit(
            layout,
            planes,
            weights_of(coefficients(true, matrix_coeffs)),
            3,
        ),
{
    let c = coefficients(true, matrix_coeffs);
    let w = weights_of(c);
    lemma_mul_nonnegative(layout.width, layout.height);
    assert forall|p: int| 0 <= p < layout.pixel_count() implies #[trigger] pixels_420(
        layout,
        planes,
        0,
        c,
    )(p) == pixels_420_8bit(layout, planes, w, 3)(p) by {
        let s = planes.samples(layout, p);
        lemma_floor_shift_values(s.0 as int);
        lemma_floor_shift_values(s.1 as int);
        lemma_floor_shift_values(s.2 as int);
        let sums = c.sums(s.0 as int, s.1 as int, s.2 as int);
        let cb = s.1 - 128;
        let cr = s.2 - 128;
        assert(sums.0 == 256 * s.0 + (w.r_cr * cr + 128));
        assert(sums.1 == 256 * s.0 + (w.g_cb * cb + w.g_cr * cr + 128));
        assert(sums.2 == 256 * s.0 + (w.b_cb * cb + 128));
        lemma_floor_shift_values(sums.0);
        lemma_floor_shift_values(sums.1);
        lemma_floor_shift_values(sums.2);
    }
    lemma_packed_same(
        layout.pixel_count(),
        3,
        pixels_420(layout, planes, 0, c),
        pixels_420_8bit(layout, planes, w, 3),
    );
}

/// Cropping and converting commute: a pixel of a rectangle within another one is made of
/// the same samples as the pixel in the same place of the larger one, whatever the
/// parity of its first column and row.
pub proof fn law_crop_keeps_samples(
    layout: Layout,
    planes: Planes,
    dx: int,
    dy: int,
    width: int,
    height: int,
    row: int,
    col: int,
)
    requires
        0 <= dx,
        0 <= dy,
        dx + width <= layout.width,
        dy + height <= layout.height,
        0 <= row < height,
        0 <= col < width,
    ensures
        planes.samples(layout.crop(dx, dy, width, height), row * width + col) == planes.samples(
            layout,
            (dy + row) * layout.width + (dx + col),
        ),
{
    lemma_pixel_number(width, row, col);
    lemma_pixel_number(layout.width, dy + row, dx + col);
}

/// The interleaved conversion of a rectangle within another one holds, channel by channel,
/// the pixels that the conversion of the larger one holds in the same places.
pub proof fn law_crop_420_8bit(
    layout: Layout,
    planes: Planes,
    w: Weights,
    channels: int,
    dx: int,
    dy: int,
    width: int,
    height: int,
    row: int,
    col: int,
    channel: int,
)
    requires
        channels == 3 || channels == 4,
        0 <= dx,
        0 <= dy,
        dx + width <= layout.width,
        dy + height <= layout.height,
        0 <= row < height,
        0 <= col < width,
        0 <= channel < channels,
    ensures
        converted_420_8bit(layout.crop(dx, dy, width, height), planes, w, channels)[(row * width
            + col) * channels + channel] == converted_420_8bit(layout, planes, w, channels)[((dy
            + row) * layout.width + (dx + col)) * channels + channel],
{
    let part = layout.crop(dx, dy, width, height);
    law_crop_keeps_samples(layout, planes, dx, dy, width, height, row, col);
    lemma_pixel_number(width, row, col);
    lemma_pixel_number(layout.width, dy + row, dx + col);
    lemma_pixel_number_bound(width, height, row, col);
    lemma_pixel_number_bound(layout.width, layout.height, dy + row, dx + col);
    lemma_packed_channel(
        part.pixel_count(),
        channels,
        pixels_420_8bit(part, planes, w, channels),
        row * width + col,
        channel,
    );
    lemma_packed_channel(
        layout.pixel_count(),
        channels,
        pixels_420_8bit(layout, planes, w, channels),
        (dy + row) * layout.width + (dx + col),
        channel,
    );
}

/// The conversion to RGB bytes of a rectangle within another one holds, channel by
/// channel, the pixels that the conversion of the larger one holds in the same places.
pub proof fn law_crop_420(
    layout: Layout,
    planes: Planes,
    shift: int,
    c: Coefficients,
    dx: int,
    dy: int,
    width: int,
    height: int,
    row: int,
    col: int,
    channel: int,
)
    requires
        0 <= dx,
        0 <= dy,
        dx + width <= layout.width,
        dy + height <= layout.height,
        0 <= row < height,
        0 <= col < width,
        0 <= channel < 3,
    ensures
        converted_420(layout.crop(dx, dy, width, height), planes, shift, c)[(row * width + col) * 3
            + channel] == converted_420(layout, planes, shift, c)[((dy + row) * layout.width + (dx
            + col)) * 3 + channel],
{
    let part = layout.crop(dx, dy, width, height);
    law_crop_keeps_samples(layout, planes, dx, dy, width, height, row, col);
    lemma_pixel_number(width, row, col);
    lemma_pixel_number(layout.width, dy + row, dx + col);
    lemma_pixel_number_bound(width, height, row, col);
    lemma_pixel_number_bound(layout.width, layout.height, dy + row, dx + col);
    lemma_packed_channel(
        part.pixel_count(),
        3,
        pixels_420(part, planes, shift, c),
        row * width + col,
        channel,
    );
    lemma_packed_channel(
        layout.pixel_count(),
        3,
        pixels_420(layout, planes, shift, c),
        (dy + row) * layout.width + (dx + col),
        channel,
    );
}

/// Pixels of a rectangle picked out of packed output of a larger one.
pub open spec fn cropped<T>(
    out: Seq<T>,
    channels: int,
    outer_width: int,
    dx: int,
    dy: int,
    width: int,
    height: int,
) -> Seq<T> {
    packed(
        width * height,
        channels,
        |p: int|
            {
                let at = ((dy + p / width) * outer_width + (dx + p % width)) * channels;
                out.subrange(at, at + channels)
            },
    )
}

/// What a matrix conversion stores for a rectangle, cropped to a rectangle within it, is
/// what it may store for that one.
pub proof fn law_crop_matrix<T, M: Fn(u16, u16, u16) -> (i32, i32, i32)>(
    matrix: &M,
    layout: Layout,
    planes: Planes,
    channels: int,
    form: spec_fn((i32, i32, i32)) -> Seq<T>,
    out: Seq<T>,
    dx: int,
    dy: int,
    width: int,
    height: int,
)
    requires
        channels > 0,
        forall|raw: (i32, i32, i32)| #[trigger] form(raw).len() == channels,
        0 <= dx,
        0 <= dy,
        0 <= width,
        0 <= height,
        dx + width <= layout.width,
        dy + height <= layout.height,
        converted(matrix, layout, planes, channels, form, out),
    ensures
        converted(
            matrix,
            layout.crop(dx, dy, width, height),
            planes,
            channels,
            form,
            cropped(out, channels, layout.width, dx, dy, width, height),
        ),
{
    let part = layout.crop(dx, dy, width, height);
    let raws = choose|raws: Seq<(i32, i32, i32)>|
        {
            &&& raws.len() == layout.pixel_count()
            &&& #[trigger] matrix_results(matrix, layout, planes, raws)
            &&& out == stored(raws, channels, form)
        };
    let place = |p: int| (dy + p / width) * layout.width + (dx + p % width);
    lemma_mul_nonnegative(width, height);
    let picked = Seq::new((width * height) as nat, |p: int| raws[place(p)]);
    let pixel = |p: int|
        {
            let at = place(p) * channels;
            out.subrange(at, at + channels)
        };
    assert forall|p: int| 0 <= p < width * height implies {
        &&& 0 <= #[trigger] place(p) < raws.len()
        &&& planes.samples(part, p) == planes.samples(layout, place(p))
        &&& pixel(p) == formed(picked, form)(p)
    } by {
        let row = p / width;
        let col = p % width;
        assert(width > 0) by {
            if width == 0 {
                assert(0 * height == 0);
            }
        }
        lemma_fundamental_div_mod(p, width);
        assert(0 <= row < height) by (nonlinear_arith)
            requires
                0 <= p < width * height,
                p == width * row + p % width,
                0 <= p % width < width,
        ;
        lemma_mul_is_commutative(width, row);
        law_crop_keeps_samples(layout, planes, dx, dy, width, height, row, col);
        lemma_pixel_number(layout.width, dy + row, dx + col);
        lemma_pixel_number_bound(layout.width, layout.height, dy + row, dx + col);
        let q = place(p);
        lemma_packed_channel(
            layout.pixel_count(),
            channels,
            formed(raws, form),
            q,
            channels - 1,
        );
        lemma_mul_nonnegative(q, channels);
        assert forall|c: int| 0 <= c < channels implies #[trigger] pixel(p)[c] == form(
            raws[q],
        )[c] by {
            lemma_packed_channel(layout.pixel_count(), channels, formed(raws, form), q, c);
        }
        assert(pixel(p) =~= form(raws[q]));
    }
    assert forall|p: int| 0 <= p < picked.len() implies call_ensures(
        matrix,
        planes.samples(part, p),
        #[trigger] picked[p],
    ) by {
        assert(0 <= place(p) < raws.len());
        assert(call_ensures(matrix, planes.samples(layout, place(p)), raws[place(p)]));
    }
    assert(matrix_results(matrix, part, planes, picked));
    let cut = |p: int|
        {
            let at = ((dy + p / width) * layout.width + (dx + p % width)) * channels;
            out.subrange(at, at + channels)
        };
    assert forall|p: int| 0 <= p < width * height implies #[trigger] cut(p) == formed(
        picked,
        form,
    )(p) by {
        assert(0 <= place(p) < raws.len());
        assert(cut(p) == pixel(p));
    }
    lemma_packed_same(width * height, channels, cut, formed(picked, form));
    assert(cropped(out, channels, layout.width, dx, dy, width, height) == packed(
        width * height,
        channels,
        cut,
    ));
    assert(cropped(out, channels, layout.width, dx, dy, width, height) == stored(
        picked,
        channels,
        form,
    ));
}

/// A pixel of a rectangle is made of the same samples as the pixel that lies as many rows
/// below the first row of a taller one.
proof fn lemma_rows_keep_samples(layout: Layout, planes: Planes, rows: int, height: int, p: int)
    requires
        0 <= layout.width,
        0 <= rows,
        0 <= p < layout.width * height,
    ensures
        planes.samples(layout.crop(0, rows, layout.width, height), p) == planes.samples(
            layout,
            rows * layout.width + p,
        ),
{
    let width = layout.width;
    assert(width > 0) by {
        if width == 0 {
            assert(0 * height == 0);
        }
    }
    lemma_fundamental_div_mod(p, width);
    lemma_mul_is_distributive_add_other_way(width, rows, p / width);
    lemma_mul_is_commutative(width, p / width);
    lemma_fundamental_div_mod_converse(
        rows * width + p,
        width,
        rows + p / width,
        p % width,
    );
}

/// A picture may be converted in strips: the conversion of the first `rows` rows followed
/// by that of the other rows is the conversion of all of them.
pub proof fn law_strips(
    layout: Layout,
    planes: Planes,
    w: Weights,
    channels: int,
    shift: int,
    c: Coefficients,
    rows: int,
)
    requires
        0 <= layout.width,
        0 <= rows <= layout.height,
        channels == 3 || channels == 4,
    ensures
        ({
            let top = layout.crop(0, 0, layout.width, rows);
            let bottom = layout.crop(0, rows, layout.width, layout.height - rows);
            &&& converted_420_8bit(layout, planes, w, channels) == converted_420_8bit(
                top,
                planes,
                w,
                channels,
            ) + converted_420_8bit(bottom, planes, w, channels)
            &&& converted_420(layout, planes, shift, c) == converted_420(top, planes, shift, c)
                + converted_420(bottom, planes, shift, c)
        }),
{
    let top = layout.crop(0, 0, layout.width, rows);
    let bottom = layout.crop(0, rows, layout.width, layout.height - rows);
    let first = layout.width * rows;
    let more = layout.width * (layout.height - rows);
    lemma_mul_nonnegative(layout.width, rows);
    lemma_mul_nonnegative(layout.width, layout.height - rows);
    lemma_mul_is_commutative(layout.width, rows);
    assert(layout.width * layout.height == first + more) by (nonlinear_arith)
        requires
            first == layout.width * rows,
            more == layout.width * (layout.height - rows),
    ;
    assert forall|p: int| 0 <= p < first implies #[trigger] planes.samples(top, p)
        == planes.samples(layout, p) by {
        lemma_rows_keep_samples(layout, planes, 0, rows, p);
    }
    assert forall|p: int| 0 <= p < more implies #[trigger] planes.samples(bottom, p)
        == planes.samples(layout, first + p) by {
        lemma_rows_keep_samples(layout, planes, rows, layout.height - rows, p);
    }
    lemma_packed_concat(
        first,
        more,
        channels,
        pixels_420_8bit(top, planes, w, channels),
        pixels_420_8bit(bottom, planes, w, channels),
        pixels_420_8bit(layout, planes, w, channels),
    );
    lemma_packed_concat(
        first,
        more,
        3,
        pixels_420(top, planes, shift, c),
        pixels_420(bottom, planes, shift, c),
        pixels_420(layout, planes, shift, c),
    );
}

/// A picture may be converted by a matrix in strips: what the conversion may store for the
/// first `rows` rows, followed by what it may store for the other rows, is what it may
/// store for all of them.
pub proof fn law_matrix_strips<T, M: Fn(u16, u16, u16) -> (i32, i32, i32)>(
    matrix: &M,
    layout: Layout,
    planes: Planes,
    channels: int,
    form: spec_fn((i32, i32, i32)) -> Seq<T>,
    rows: int,
    upper: Seq<T>,
    lower: Seq<T>,
)
    requires
        0 <= layout.width,
        0 <= rows <= layout.height,
        channels > 0,
        converted(
            matrix,
            layout.crop(0, 0, layout.width, rows),
            planes,
            channels,
            form,
            upper,
        ),
        converted(
            matrix,
            layout.crop(0, rows, layout.width, layout.height - rows),
            planes,
            channels,
            form,
            lower,
        ),
    ensures
        converted(matrix, layout, planes, channels, form, upper + lower),
{
    let top = layout.crop(0, 0, layout.width, rows);
    let bottom = layout.crop(0, rows, layout.width, layout.height - rows);
    let first = choose|raws: Seq<(i32, i32, i32)>|
        {
            &&& raws.len() == top.pixel_count()
            &&& #[trigger] matrix_results(matrix, top, planes, raws)
            &&& upper == stored(raws, channels, form)
        };
    let more = choose|raws: Seq<(i32, i32, i32)>|
        {
            &&& raws.len() == bottom.pixel_count()
            &&& #[trigger] matrix_results(matrix, bottom, planes, raws)
            &&& lower == stored(raws, channels, form)
        };
    let all = first + more;
    lemma_mul_is_commutative(layout.width, rows);
    assert(layout.width * layout.height == first.len() + more.len()) by (nonlinear_arith)
        requires
            first.len() == layout.width * rows,
            more.len() == layout.width * (layout.height - rows),
    ;
    assert forall|p: int| 0 <= p < all.len() implies call_ensures(
        matrix,
        planes.samples(layout, p),
        #[trigger] all[p],
    ) by {
        if p < first.len() {
            lemma_rows_keep_samples(layout, planes, 0, rows, p);
            assert(all[p] == first[p]);
        } else {
            let q = p - first.len();
            lemma_rows_keep_samples(layout, planes, rows, layout.height - rows, q);
            assert(all[p] == more[q]);
        }
    }
    assert(matrix_results(matrix, layout, planes, all));
    lemma_packed_concat(
        first.len() as int,
        more.len() as int,
        channels,
        formed(first, form),
        formed(more, form),
        formed(all, form),
    );
}

/// Four-channel output is three-channel output with an opaque alpha behind each pixel.
pub proof fn law_alpha_is_opaque(layout: Layout, planes: Planes, w: Weights, p: int)
    requires
        0 <= p < layout.pixel_count(),
    ensures
        ({
            let rgb = converted_420_8bit(layout, planes, w, 3);
            let rgba = converted_420_8bit(layout, planes, w, 4);
            &&& rgba[4 * p] == rgb[3 * p]
            &&& rgba[4 * p + 1] == rgb[3 * p + 1]
            &&& rgba[4 * p + 2] == rgb[3 * p + 2]
            &&& rgba[4 * p + 3] == u8::MAX
        }),
{
    let count = layout.pixel_count();
    let three = pixels_420_8bit(layout, planes, w, 3);
    let four = pixels_420_8bit(layout, planes, w, 4);
    lemma_packed_channel(count, 3, three, p, 0);
    lemma_packed_channel(count, 3, three, p, 1);
    lemma_packed_channel(count, 3, three, p, 2);
    lemma_packed_channel(count, 4, four, p, 0);
    lemma_packed_channel(count, 4, four, p, 1);
    lemma_packed_channel(count, 4, four, p, 2);
    lemma_packed_channel(count, 4, four, p, 3);
}

/// In four-channel 8-bit output of a matrix conversion every pixel is opaque.
pub proof fn law_matrix_8bit_alpha_is_opaque<M: Fn(u16, u16, u16) -> (i32, i32, i32)>(
    matrix: &M,
    layout: Layout,
    planes: Planes,
    bytes: Seq<u8>,
    p: int,
)
    requires
        converted(matrix, layout, planes, 4, form_8bit(4), bytes),
        0 <= p < layout.pixel_count(),
    ensures
        bytes[4 * p + 3] == u8::MAX,
{
    let raws = choose|raws: Seq<(i32, i32, i32)>|
        {
            &&& raws.len() == layout.pixel_count()
            &&& #[trigger] matrix_results(matrix, layout, planes, raws)
            &&& bytes == stored(raws, 4, form_8bit(4))
        };
    lemma_packed_channel(layout.pixel_count(), 4, formed(raws, form_8bit(4)), p, 3);
}

/// In 16-bit output of a matrix conversion every pixel is opaque.
pub proof fn law_matrix_rgba16_alpha_is_opaque<M: Fn(u16, u16, u16) -> (i32, i32, i32)>(
    matrix: &M,
    layout: Layout,
    planes: Planes,
    bit_depth: u8,
    words: Seq<u16>,
    p: int,
)
    requires
        converted(matrix, layout, planes, 4, form_rgba16(bit_depth), words),
        0 <= p < layout.pixel_count(),
    ensures
        words[4 * p + 3] == u16::MAX,
{
    let raws = choose|raws: Seq<(i32, i32, i32)>|
        {
            &&& raws.len() == layout.pixel_count()
            &&& #[trigger] matrix_results(matrix, layout, planes, raws)
            &&& words == stored(raws, 4, form_rgba16(bit_depth))
        };
    lemma_packed_channel(layout.pixel_count(), 4, formed(raws, form_rgba16(bit_depth)), p, 3);
}

/// Four-channel 8-bit output of a determined matrix is its three-channel output with an
/// opaque alpha behind each pixel.
pub proof fn law_matrix_alpha_extends_rgb<M: Fn(u16, u16, u16) -> (i32, i32, i32)>(
    matrix: &M,
    layout: Layout,
    planes: Planes,
    rgb: Seq<u8>,
    rgba: Seq<u8>,
    p: int,
)
    requires
        determined(matrix),
        converted(matrix, layout, planes, 3, form_8bit(3), rgb),
        converted(matrix, layout, planes, 4, form_8bit(4), rgba),
        0 <= p < layout.pixel_count(),
    ensures
        rgba[4 * p] == rgb[3 * p],
        rgba[4 * p + 1] == rgb[3 * p + 1],
        rgba[4 * p + 2] == rgb[3 * p + 2],
        rgba[4 * p + 3] == u8::MAX,
{
    lemma_determined(matrix, layout, planes, 3, form_8bit(3), rgb);
    lemma_determined(matrix, layout, planes, 4, form_8bit(4), rgba);
    let count = layout.pixel_count();
    let three = |q: int| form_8bit(3)(result_of(matrix, planes.samples(layout, q)));
    let four = |q: int| form_8bit(4)(result_of(matrix, planes.samples(layout, q)));
    lemma_packed_channel(count, 3, three, p, 0);
    lemma_packed_channel(count, 3, three, p, 1);
    lemma_packed_channel(count, 3, three, p, 2);
    lemma_packed_channel(count, 4, four, p, 0);
    lemma_packed_channel(count, 4, four, p, 1);
    lemma_packed_channel(count, 4, four, p, 2);
    lemma_packed_channel(count, 4, four, p, 3);
}

/// Where the results of a matrix are those of a known function of the samples, a conversion
/// has one possible result, which that function gives.
pub proof fn law_determined_matrix_determines_output<
    T,
    M: Fn(u16, u16, u16) -> (i32, i32, i32),
>(
    matrix: &M,
    function: spec_fn((u16, u16, u16)) -> (i32, i32, i32),
    layout: Layout,
    planes: Planes,
    channels: int,
    form: spec_fn((i32, i32, i32)) -> Seq<T>,
    out: Seq<T>,
)
    requires
        channels > 0,
        forall|samples: (u16, u16, u16), raw: (i32, i32, i32)| #[trigger]
            call_ensures(matrix, samples, raw) ==> raw == function(samples),
        converted(matrix, layout, planes, channels, form, out),
    ensures
        out == packed(
            layout.pixel_count(),
            channels,
            |p: int| form(function(planes.samples(layout, p))),
        ),
{
    let raws = choose|raws: Seq<(i32, i32, i32)>|
        {
            &&& raws.len() == layout.pixel_count()
            &&& #[trigger] matrix_results(matrix, layout, planes, raws)
            &&& out == stored(raws, channels, form)
        };
    let pixel = |p: int| form(function(planes.samples(layout, p)));
    assert forall|p: int| 0 <= p < layout.pixel_count() implies #[trigger] formed(raws, form)(p)
        == pixel(p) by {
        assert(call_ensures(matrix, planes.samples(layout, p), raws[p]));
    }
    lemma_packed_same(layout.pixel_count(), channels, formed(raws, form), pixel);
}

/// Two conversions of a rectangle by the same determined matrix give the same, whichever
/// kernels they used.
pub proof fn law_matrix_kernels_agree<T, M: Fn(u16, u16, u16) -> (i32, i32, i32)>(
    matrix: &M,
    layout: Layout,
    planes: Planes,
    channels: int,
    form: spec_fn((i32, i32, i32)) -> Seq<T>,
    one: Seq<T>,
    other: Seq<T>,
)
    requires
        channels > 0,
        determined(matrix),
        converted(matrix, layout, planes, channels, form, one),
        converted(matrix, layout, planes, channels, form, other),
    ensures
        one == other,
{
    lemma_determined(matrix, layout, planes, channels, form, one);
    lemma_determined(matrix, layout, planes, channels, form, other);
}

/// The same rectangle of planes whose chroma has a sample for each luma sample.
pub open spec fn full_chroma(layout: Layout) -> Layout {
    Layout { chroma_stride: layout.y_stride, subsample_x: 1, subsample_y: 1, ..layout }
}

/// `full` holds the luma of `half`, and in the place of each luma sample, up to the ends of
/// the rectangle, the chroma samples of `half` that cover it.
pub open spec fn replicated(layout: Layout, half: Planes, full: Planes) -> bool {
    &&& full.y == half.y
    &&& forall|x: int, y: int|
        0 <= x < layout.x_start + layout.width && 0 <= y < layout.y_start + layout.height ==> {
            &&& full.cb[#[trigger] layout.luma_at(x, y)] == half.cb[layout.chroma_at(x, y)]
            &&& full.cr[layout.luma_at(x, y)] == half.cr[layout.chroma_at(x, y)]
        }
}

/// Subsampled chroma is replicated in the coordinates of the whole planes, without
/// interpolation: a pixel is made of the same samples as one whose chroma is replicated
/// over the luma grid.
pub proof fn law_replicated_chroma_keeps_samples(
    layout: Layout,
    half: Planes,
    full: Planes,
    p: int,
)
    requires
        layout.valid(),
        replicated(layout, half, full),
        0 <= p < layout.pixel_count(),
    ensures
        full.samples(full_chroma(layout), p) == half.samples(layout, p),
{
    let width = layout.width;
    let row = p / width;
    assert(width > 0) by {
        if width == 0 {
            assert(0 * layout.height == 0);
        }
    }
    lemma_fundamental_div_mod(p, width);
    assert(0 <= row < layout.height) by (nonlinear_arith)
        requires
            0 <= p < width * layout.height,
            p == width * row + p % width,
            0 <= p % width < width,
    ;
    let x = layout.column(p);
    let y = layout.row(p);
    assert(full_chroma(layout).chroma_at(x, y) == layout.luma_at(x, y)) by {
        assert(x / 1 == x && y / 1 == y);
    }
}

/// A matrix conversion may store for subsampled chroma what it may store for the same
/// chroma replicated over the luma grid, and nothing else.
pub proof fn law_matrix_takes_replicated_chroma<T, M: Fn(u16, u16, u16) -> (i32, i32, i32)>(
    matrix: &M,
    layout: Layout,
    half: Planes,
    full: Planes,
    channels: int,
    form: spec_fn((i32, i32, i32)) -> Seq<T>,
    out: Seq<T>,
)
    requires
        layout.valid(),
        replicated(layout, half, full),
    ensures
        converted(matrix, layout, half, channels, form, out) <==> converted(
            matrix,
            full_chroma(layout),
            full,
            channels,
            form,
            out,
        ),
{
    assert forall|p: int| 0 <= p < layout.pixel_count() implies #[trigger] full.samples(
        full_chroma(layout),
        p,
    ) == half.samples(layout, p) by {
        law_replicated_chroma_keeps_samples(layout, half, full, p);
    }
    if converted(matrix, layout, half, channels, form, out) {
        let raws = choose|raws: Seq<(i32, i32, i32)>|
            {
                &&& raws.len() == layout.pixel_count()
                &&& #[trigger] matrix_results(matrix, layout, half, raws)
                &&& out == stored(raws, channels, form)
            };
        assert(matrix_results(matrix, full_chroma(layout), full, raws));
    }
    if converted(matrix, full_chroma(layout), full, channels, form, out) {
        let raws = choose|raws: Seq<(i32, i32, i32)>|
            {
                &&& raws.len() == layout.pixel_count()
                &&& #[trigger] matrix_results(matrix, full_chroma(layout), full, raws)
                &&& out == stored(raws, channels, form)
            };
        assert forall|p: int| 0 <= p < raws.len() implies call_ensures(
            matrix,
            half.samples(layout, p),
            #[trigger] raws[p],
        ) by {
            assert(full.samples(full_chroma(layout), p) == half.samples(layout, p));
        }
        assert(matrix_results(matrix, layout, half, raws));
    }
}

/// A determined matrix gives for subsampled chroma what it gives for the same chroma
/// replicated over the luma grid.
pub proof fn law_replicated_chroma_gives_the_same<
    T,
    M: Fn(u16, u16, u16) -> (i32, i32, i32),
>(
    matrix: &M,
    layout: Layout,
    half: Planes,
    full: Planes,
    channels: int,
    form: spec_fn((i32, i32, i32)) -> Seq<T>,
    from_half: Seq<T>,
    from_full: Seq<T>,
)
    requires
        layout.valid(),
        channels > 0,
        determined(matrix),
        replicated(layout, half, full),
        converted(matrix, layout, half, channels, form, from_half),
        converted(matrix, full_chroma(layout), full, channels, form, from_full),
    ensures
        from_half == from_full,
{
    law_matrix_takes_replicated_chroma(matrix, layout, half, full, channels, form, from_full);
    law_matrix_kernels_agree(matrix, layout, half, channels, form, from_half, from_full);
}

/// At a depth of eight bits both matrix conversions of a determined matrix agree: each value
/// of 16-bit output is 257 times that of four-channel 8-bit output.
pub proof fn law_depth_8_expands_bytes<M: Fn(u16, u16, u16) -> (i32, i32, i32)>(
    matrix: &M,
    layout: Layout,
    planes: Planes,
    bytes: Seq<u8>,
    words: Seq<u16>,
    k: int,
)
    requires
        determined(matrix),
        converted(matrix, layout, planes, 4, form_8bit(4), bytes),
        converted(matrix, layout, planes, 4, form_rgba16(8), words),
        0 <= k < 4 * layout.pixel_count(),
    ensures
        words[k] == 257 * bytes[k],
{
    lemma_determined(matrix, layout, planes, 4, form_8bit(4), bytes);
    lemma_determined(matrix, layout, planes, 4, form_rgba16(8), words);
    let count = layout.pixel_count();
    let p = k / 4;
    let c = k % 4;
    let raw = result_of(matrix, planes.samples(layout, p));
    lemma_packed_channel(
        count,
        4,
        |q: int| form_8bit(4)(result_of(matrix, planes.samples(layout, q))),
        p,
        c,
    );
    lemma_packed_channel(
        count,
        4,
        |q: int| form_rgba16(8)(result_of(matrix, planes.samples(layout, q))),
        p,
        c,
    );
    lemma_expanded_byte(raw.0);
    lemma_expanded_byte(raw.1);
    lemma_expanded_byte(raw.2);
}

/// A value clipped to eight bits is a byte, and its expansion to sixteen bits is the byte
/// twice.
proof fn lemma_expanded_byte(v: i32)
    ensures
        clip(v, 8) <= 255,
        expanded(clip(v, 8), 8) == 257 * (clip(v, 8) as u8),
{
    lemma2_to64();
    let byte = clip(v, 8);
    lemma_expanded_in_range(byte, 8);
    lemma_floor_shift_values(byte as int);
    assert(byte * pow2((16 - 8u8) as nat) == byte * 256);
    assert(byte as u8 == byte);
}

/// Planes whose samples lost their low `shift` bits.
pub open spec fn reduced(planes: Planes, shift: u32) -> Planes {
    Planes {
        y: planes.y.map_values(|sample: u16| sample >> shift),
        cb: planes.cb.map_values(|sample: u16| sample >> shift),
        cr: planes.cr.map_values(|sample: u16| sample >> shift),
    }
}

/// Converting samples of more than eight bits is converting their top bits.
pub proof fn law_shift_reduces_depth(layout: Layout, planes: Planes, shift: u32, c: Coefficients)
    requires
        layout.valid(),
        layout.readable(planes),
        shift < 16,
    ensures
        converted_420(layout, planes, shift as int, c) == converted_420(
            layout,
            reduced(planes, shift),
            0,
            c,
        ),
{
    let low = reduced(planes, shift);
    lemma_mul_nonnegative(layout.width, layout.height);
    assert forall|p: int| 0 <= p < layout.pixel_count() implies #[trigger] pixels_420(
        layout,
        planes,
        shift as int,
        c,
    )(p) == pixels_420(layout, low, 0, c)(p) by {
        let width = layout.width;
        let row = p / width;
        assert(width > 0) by {
            if width == 0 {
                assert(0 * layout.height == 0);
            }
        }
        lemma_fundamental_div_mod(p, width);
        assert(0 <= row < layout.height) by (nonlinear_arith)
            requires
                0 <= p < width * layout.height,
                p == width * row + p % width,
                0 <= p % width < width,
        ;
        lemma_mul_is_commutative(width, row);
        lemma_in_planes(layout, planes, row, p % width);
        let s = planes.samples(layout, p);
        let t = low.samples(layout, p);
        assert(t == (s.0 >> shift, s.1 >> shift, s.2 >> shift));
        lemma_u16_shr(s.0, shift);
        lemma_u16_shr(s.1, shift);
        lemma_u16_shr(s.2, shift);
        lemma_floor_shift_values(t.0 as int);
        lemma_floor_shift_values(t.1 as int);
        lemma_floor_shift_values(t.2 as int);
    }
    lemma_packed_same(
        layout.pixel_count(),
        3,
        pixels_420(layout, planes, shift as int, c),
        pixels_420(layout, low, 0, c),
    );
}

/// Expansion to sixteen bits loses nothing: dropping the bits that it added gives the
/// sample back.
pub proof fn law_expansion_is_lossless(sample: u16, bit_depth: u8)
    requires
        bit_depth <= 16,
        sample <= sample_max(bit_depth as int),
    ensures
        floor_shift(expanded(sample, bit_depth) as int, 16 - bit_depth) == sample,
{
    lemma_expanded_in_range(sample, bit_depth);
    let scale = pow2((16 - bit_depth) as nat) as int;
    lemma_fundamental_div_mod_converse(
        expanded(sample, bit_depth) as int,
        scale,
        sample as int,
        floor_shift(sample as int, refill_shift(bit_depth as int)),
    );
}

/// Expansion to sixteen bits keeps the order of samples.
pub proof fn law_expansion_is_monotone(low: u16, high: u16, bit_depth: u8)
    requires
        bit_depth <= 16,
        low < high,
        high <= sample_max(bit_depth as int),
    ensures
        expanded(low, bit_depth) < expanded(high, bit_depth),
{
    lemma_expanded_in_range(low, bit_depth);
    lemma_expanded_in_range(high, bit_depth);
    let scale = pow2((16 - bit_depth) as nat) as int;
    lemma_mul_inequality(low + 1, high as int, scale);
    lemma_mul_is_distributive_add_other_way(scale, low as int, 1);
}

/// Expansion maps black to black and, from eight bits on, white to white.
pub proof fn law_expansion_keeps_extremes(bit_depth: u8)
    requires
        1 <= bit_depth <= 16,
    ensures
        expanded(0, bit_depth) == 0,
        8 <= bit_depth ==> expanded(sample_max(bit_depth as int) as u16, bit_depth) == u16::MAX,
{
    lemma2_to64();
    lemma_expanded_in_range(0, bit_depth);
    let max = sample_max(bit_depth as int);
    lemma_max_sample_fits(bit_depth);
    if 8 <= bit_depth {
        let up = (16 - bit_depth) as nat;
        let down = (2 * bit_depth - 16) as nat;
        lemma_expanded_in_range(max as u16, bit_depth);
        lemma_pow2_adds(bit_depth as nat, up);
        lemma_pow2_adds(down, up);
        lemma_pow2_pos(down);
        lemma_pow2_pos(up);
        lemma_mul_is_distributive_sub_other_way(pow2(up) as int, pow2(bit_depth as nat) as int, 1);
        assert(max == (pow2(up) - 1) * pow2(down) + (pow2(down) - 1)) by (nonlinear_arith)
            requires
                max == pow2(down) * pow2(up) - 1,
        ;
        lemma_fundamental_div_mod_converse(
            max,
            pow2(down) as int,
            pow2(up) - 1,
            pow2(down) - 1,
        );
    }
}

/// The largest sample of a depth of at most sixteen bits fits in sixteen bits.
proof fn lemma_max_sample_fits(bit_depth: u8)
    requires
        bit_depth <= 16,
    ensures
        0 <= sample_max(bit_depth as int) <= 0xffff,
{
    lemma2_to64();
    lemma_pow2_pos(bit_depth as nat);
    if bit_depth < 16 {
        lemma_pow2_strictly_increases(bit_depth as nat, 16);
    }
}

/// For all full-range matrices 32-bit lanes suffice, so that pixels are converted in
/// groups.
pub proof fn law_standard_weights_suit_lanes(matrix_coeffs: u8)
    ensures
        lanes_suffice(weights_of(coefficients(true, matrix_coeffs))),
{
}

} // verus!
