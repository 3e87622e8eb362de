//! What the fixed-point conversion of full-range 8-bit 4:2:0 planes gives.
use crate::fixed_420::{
    convert_420_8bit_region_to_interleaved, convert_420_8bit_region_to_interleaved_neon,
    convert_420_8bit_region_to_interleaved_scalar, convert_420_8bit_to_interleaved,
    converted_420_8bit, pixels_420_8bit, rgb_420_8bit, weights, write_420_8bit_pixel, Weights,
};
use crate::laws::meaning::{
    counts_units, law_channels_are_in_order, law_count_rises, law_pixel_has_its_samples,
    lemma_counts_units,
};
use crate::layout::{
    layout_420, lemma_packed_channel, lemma_pixel_number, lemma_pixel_number_bound, planes_of,
    Layout, Planes,
};
use vstd::arithmetic::mul::lemma_mul_nonnegative;
use vstd::prelude::*;

verus! {

/// The pixel at index `at` of `out` is the colour of full-range samples. A weighted chroma
/// sample counts in 1/256ths; half of one is added, so that luma plus the weighted chroma is
/// rounded to the nearest integer. Red depends on Cr, blue on Cb and green on both.
pub open spec fn shows_420_8bit(
    out: Seq<u8>,
    at: int,
    channels: int,
    y: u16,
    cb: u16,
    cr: u16,
    r_cr: int,
    g_cb: int,
    g_cr: int,
    b_cb: int,
) -> bool {
    &&& 0 <= at
    &&& at + channels <= out.len()
    &&& counts_units(out[at], 256 * y + r_cr * (cr - 128) + 128, 256)
    &&& counts_units(out[at + 1], 256 * y + g_cb * (cb - 128) + g_cr * (cr - 128) + 128, 256)
    &&& counts_units(out[at + 2], 256 * y + b_cb * (cb - 128) + 128, 256)
    &&& channels == 4 ==> out[at + 3] == 255
}

/// The colour of full-range samples: each channel counts the whole units of luma plus its
/// weighted chroma.
pub proof fn law_420_8bit_colour(samples: (u16, u16, u16), w: Weights)
    ensures
        ({
            let y = 256 * samples.0;
            let cb = samples.1 - 128;
            let cr = samples.2 - 128;
            let rgb = rgb_420_8bit(samples, w);
            &&& counts_units(rgb.0, y + w.r_cr * cr + 128, 256)
            &&& counts_units(rgb.1, y + w.g_cb * cb + w.g_cr * cr + 128, 256)
            &&& counts_units(rgb.2, y + w.b_cb * cb + 128, 256)
        }),
{
    let y = 256 * samples.0;
    let cb = samples.1 - 128;
    let cr = samples.2 - 128;
    lemma_counts_units(y + w.r_cr * cr + 128, 256);
    lemma_counts_units(y + w.g_cb * cb + w.g_cr * cr + 128, 256);
    lemma_counts_units(y + w.b_cb * cb + 128, 256);
}

/// A converted rectangle shows each of its pixels in its place.
proof fn lemma_converted_420_8bit(
    layout: Layout,
    planes: Planes,
    w: Weights,
    channels: int,
    row: int,
    col: int,
)
    requires
        layout.subsample_x == 2,
        layout.subsample_y == 2,
        channels == 3 || channels == 4,
        0 <= row < layout.height,
        0 <= col < layout.width,
    ensures
        ({
            let x = layout.x_start + col;
            let y = layout.y_start + row;
            let chroma = (y / 2) * layout.chroma_stride + x / 2;
            shows_420_8bit(
                converted_420_8bit(layout, planes, w, channels),
                (row * layout.width + col) * channels,
                channels,
                planes.y[y * layout.y_stride + x],
                planes.cb[chroma],
                planes.cr[chroma],
                w.r_cr,
                w.g_cb,
                w.g_cr,
                w.b_cb,
            )
        }),
{
    let p = row * layout.width + col;
    let count = layout.pixel_count();
    let pixel = pixels_420_8bit(layout, planes, w, channels);
    law_pixel_has_its_samples(layout, planes, row, col);
    lemma_pixel_number(layout.width, row, col);
    lemma_pixel_number_bound(layout.width, layout.height, row, col);
    lemma_mul_nonnegative(p, channels);
    let samples = planes.samples(layout, p);
    law_420_8bit_colour(samples, w);
    law_channels_are_in_order(rgb_420_8bit(samples, w), channels);
    lemma_packed_channel(count, channels, pixel, p, 0);
    lemma_packed_channel(count, channels, pixel, p, 1);
    lemma_packed_channel(count, channels, pixel, p, 2);
    lemma_packed_channel(count, channels, pixel, p, channels - 1);
}

/// Writing one pixel stores its colour from index `at` on, with an alpha just where there are
/// four channels, and changes nothing else.
pub proof fn law_write_420_8bit_pixel(
    y_sample: u16,
    cb_sample: u16,
    cr_sample: u16,
    r_cr: i32,
    g_cb: i32,
    g_cr: i32,
    b_cb: i32,
    channels: usize,
    output: &mut [u8],
    at: usize,
)
    requires
        at + (if channels == 4 { 4int } else { 3int }) <= old(output)@.len(),
        call_ensures(
            write_420_8bit_pixel,
            (
                y_sample,
                cb_sample,
                cr_sample,
                r_cr,
                g_cb,
                g_cr,
                b_cb,
                channels,
                output,
                at,
            ),
            (),
        ),
    ensures
        shows_420_8bit(
            final(output)@,
            at as int,
            if channels == 4 { 4 } else { 3 },
            y_sample,
            cb_sample,
            cr_sample,
            r_cr as int,
            g_cb as int,
            g_cr as int,
            b_cb as int,
        ),
        final(output)@.len() == old(output)@.len(),
        forall|i: int|
            0 <= i < old(output)@.len() && !(at <= i < at + (if channels == 4 {
                4int
            } else {
                3int
            })) ==> final(output)@[i] == old(output)@[i],
{
    let w = weights(r_cr, g_cb, g_cr, b_cb);
    law_420_8bit_colour((y_sample, cb_sample, cr_sample), w);
    law_channels_are_in_order(
        rgb_420_8bit((y_sample, cb_sample, cr_sample), w),
        channels as int,
    );
}

/// The conversion of a rectangle stores each pixel, made of the samples in its place of the
/// whole planes, row by row without gaps, and fills the output.
pub proof fn law_420_8bit_region(
    y_plane: &[u16],
    cb_plane: &[u16],
    cr_plane: &[u16],
    y_stride: usize,
    chroma_stride: usize,
    x_start: usize,
    y_start: usize,
    width: usize,
    height: usize,
    r_cr: i32,
    g_cb: i32,
    g_cr: i32,
    b_cb: i32,
    channels: usize,
    output: &mut [u8],
    row: int,
    col: int,
)
    requires
        channels == 3 || channels == 4,
        0 <= row < height,
        0 <= col < width,
        call_ensures(
            convert_420_8bit_region_to_interleaved,
            (
                y_plane,
                cb_plane,
                cr_plane,
                y_stride,
                chroma_stride,
                x_start,
                y_start,
                width,
                height,
                r_cr,
                g_cb,
                g_cr,
                b_cb,
                channels,
                output,
            ),
            (),
        ),
    ensures
        ({
            let x: int = x_start + col;
            let y: int = y_start + row;
            shows_420_8bit(
                final(output)@,
                (row * width + col) * channels,
                channels as int,
                y_plane@[y * y_stride + x],
                cb_plane@[(y / 2) * chroma_stride + x / 2],
                cr_plane@[(y / 2) * chroma_stride + x / 2],
                r_cr as int,
                g_cb as int,
                g_cr as int,
                b_cb as int,
            )
        }),
        final(output)@.len() == width * height * channels,
{
    let layout = layout_420(y_stride, chroma_stride, x_start, y_start, width, height);
    lemma_converted_420_8bit(
        layout,
        planes_of(y_plane, cb_plane, cr_plane),
        weights(r_cr, g_cb, g_cr, b_cb),
        channels as int,
        row,
        col,
    );
    lemma_mul_nonnegative(width as int, height as int);
    lemma_mul_nonnegative(width * height, channels as int);
}

/// The conversion of a whole picture stores each of its pixels row by row without gaps, and
/// fills the output.
pub proof fn law_420_8bit_picture(
    y_plane: &[u16],
    cb_plane: &[u16],
    cr_plane: &[u16],
    width: usize,
    height: usize,
    chroma_width: usize,
    r_cr: i32,
    g_cb: i32,
    g_cr: i32,
    b_cb: i32,
    channels: usize,
    output: &mut [u8],
    row: int,
    col: int,
)
    requires
        channels == 3 || channels == 4,
        0 <= row < height,
        0 <= col < width,
        call_ensures(
            convert_420_8bit_to_interleaved,
            (
                y_plane,
                cb_plane,
                cr_plane,
                width,
                height,
                chroma_width,
                r_cr,
                g_cb,
                g_cr,
                b_cb,
                channels,
                output,
            ),
            (),
        ),
    ensures
        ({
            let x: int = col;
            let y: int = row;
            shows_420_8bit(
                final(output)@,
                (row * width + col) * channels,
                channels as int,
                y_plane@[y * width + x],
                cb_plane@[(y / 2) * chroma_width + x / 2],
                cr_plane@[(y / 2) * chroma_width + x / 2],
                r_cr as int,
                g_cb as int,
                g_cr as int,
                b_cb as int,
            )
        }),
        final(output)@.len() == width * height * channels,
{
    let layout = layout_420(width, chroma_width, 0, 0, width, height);
    lemma_converted_420_8bit(
        layout,
        planes_of(y_plane, cb_plane, cr_plane),
        weights(r_cr, g_cb, g_cr, b_cb),
        channels as int,
        row,
        col,
    );
    lemma_mul_nonnegative(width as int, height as int);
    lemma_mul_nonnegative(width * height, channels as int);
}

/// The conversion pixel by pixel stores each pixel of the rectangle and leaves what follows
/// them.
pub proof fn law_420_8bit_region_scalar(
    y_plane: &[u16],
    cb_plane: &[u16],
    cr_plane: &[u16],
    y_stride: usize,
    chroma_stride: usize,
    x_start: usize,
    y_start: usize,
    width: usize,
    height: usize,
    r_cr: i32,
    g_cb: i32,
    g_cr: i32,
    b_cb: i32,
    channels: usize,
    output: &mut [u8],
    row: int,
    col: int,
)
    requires
        channels == 3 || channels == 4,
        0 <= row < height,
        0 <= col < width,
        width * height * channels <= old(output)@.len(),
        call_ensures(
            convert_420_8bit_region_to_interleaved_scalar,
            (
                y_plane,
                cb_plane,
                cr_plane,
                y_stride,
                chroma_stride,
                x_start,
                y_start,
                width,
                height,
                r_cr,
                g_cb,
                g_cr,
                b_cb,
                channels,
                output,
            ),
            (),
        ),
    ensures
        ({
            let x: int = x_start + col;
            let y: int = y_start + row;
            shows_420_8bit(
                final(output)@,
                (row * width + col) * channels,
                channels as int,
                y_plane@[y * y_stride + x],
                cb_plane@[(y / 2) * chroma_stride + x / 2],
                cr_plane@[(y / 2) * chroma_stride + x / 2],
                r_cr as int,
                g_cb as int,
                g_cr as int,
                b_cb as int,
            )
        }),
        final(output)@.len() == old(output)@.len(),
        forall|i: int|
            width * height * channels <= i < old(output)@.len() ==> final(output)@[i]
                == old(output)@[i],
{
    let layout = layout_420(y_stride, chroma_stride, x_start, y_start, width, height);
    lemma_converted_420_8bit(
        layout,
        planes_of(y_plane, cb_plane, cr_plane),
        weights(r_cr, g_cb, g_cr, b_cb),
        channels as int,
        row,
        col,
    );
    lemma_mul_nonnegative(width as int, height as int);
    lemma_mul_nonnegative(width * height, channels as int);
}

/// The conversion in groups stores each pixel of the rectangle and leaves what follows them.
pub proof fn law_420_8bit_region_neon(
    y_plane: &[u16],
    cb_plane: &[u16],
    cr_plane: &[u16],
    y_stride: usize,
    chroma_stride: usize,
    x_start: usize,
    y_start: usize,
    width: usize,
    height: usize,
    r_cr: i32,
    g_cb: i32,
    g_cr: i32,
    b_cb: i32,
    channels: usize,
    output: &mut [u8],
    row: int,
    col: int,
)
    requires
        channels == 3 || channels == 4,
        0 <= row < height,
        0 <= col < width,
        width * height * channels <= old(output)@.len(),
        call_ensures(
            convert_420_8bit_region_to_interleaved_neon,
            (
                y_plane,
                cb_plane,
                cr_plane,
                y_stride,
                chroma_stride,
                x_start,
                y_start,
                width,
                height,
                r_cr,
                g_cb,
                g_cr,
                b_cb,
                channels,
                output,
            ),
            (),
        ),
    ensures
        ({
            let x: int = x_start + col;
            let y: int = y_start + row;
            shows_420_8bit(
                final(output)@,
                (row * width + col) * channels,
                channels as int,
                y_plane@[y * y_stride + x],
                cb_plane@[(y / 2) * chroma_stride + x / 2],
                cr_plane@[(y / 2) * chroma_stride + x / 2],
                r_cr as int,
                g_cb as int,
                g_cr as int,
                b_cb as int,
            )
        }),
        final(output)@.len() == old(output)@.len(),
        forall|i: int|
            width * height * channels <= i < old(output)@.len() ==> final(output)@[i]
                == old(output)@[i],
{
    let layout = layout_420(y_stride, chroma_stride, x_start, y_start, width, height);
    lemma_converted_420_8bit(
        layout,
        planes_of(y_plane, cb_plane, cr_plane),
        weights(r_cr, g_cb, g_cr, b_cb),
        channels as int,
        row,
        col,
    );
    lemma_mul_nonnegative(width as int, height as int);
    lemma_mul_nonnegative(width * height, channels as int);
}

/// Red is a matter of luma and Cr alone: two pixels that have both in common have the same
/// red, whatever their Cb and the other weights are.
pub proof fn law_420_8bit_red_ignores_cb(
    one: (u16, u16, u16),
    other: (u16, u16, u16),
    w: Weights,
    v: Weights,
)
    requires
        one.0 == other.0,
        one.2 == other.2,
        w.r_cr == v.r_cr,
    ensures
        rgb_420_8bit(one, w).0 == rgb_420_8bit(other, v).0,
{
}

/// Blue is a matter of luma and Cb alone: two pixels that have both in common have the same
/// blue, whatever their Cr and the other weights are.
pub proof fn law_420_8bit_blue_ignores_cr(
    one: (u16, u16, u16),
    other: (u16, u16, u16),
    w: Weights,
    v: Weights,
)
    requires
        one.0 == other.0,
        one.1 == other.1,
        w.b_cb == v.b_cb,
    ensures
        rgb_420_8bit(one, w).2 == rgb_420_8bit(other, v).2,
{
}

/// More Cr does not make a pixel less red where red has a positive weight, nor more green
/// where green has a negative one; and it leaves blue as it is.
pub proof fn law_420_8bit_cr_reddens(y: u16, cb: u16, less: u16, more: u16, w: Weights)
    requires
        less <= more,
    ensures
        ({
            let before = rgb_420_8bit((y, cb, less), w);
            let after = rgb_420_8bit((y, cb, more), w);
            &&& w.r_cr >= 0 ==> before.0 <= after.0
            &&& w.g_cr <= 0 ==> before.1 >= after.1
            &&& before.2 == after.2
        }),
{
    law_420_8bit_colour((y, cb, less), w);
    law_420_8bit_colour((y, cb, more), w);
    let before = rgb_420_8bit((y, cb, less), w);
    let after = rgb_420_8bit((y, cb, more), w);
    if w.r_cr >= 0 {
        assert(w.r_cr * (less - 128) <= w.r_cr * (more - 128)) by (nonlinear_arith)
            requires
                w.r_cr >= 0,
                less <= more,
        ;
        law_count_rises(
            before.0,
            after.0,
            256 * y + w.r_cr * (less - 128) + 128,
            256 * y + w.r_cr * (more - 128) + 128,
            256,
        );
    }
    if w.g_cr <= 0 {
        assert(w.g_cr * (less - 128) >= w.g_cr * (more - 128)) by (nonlinear_arith)
            requires
                w.g_cr <= 0,
                less <= more,
        ;
        law_count_rises(
            after.1,
            before.1,
            256 * y + w.g_cb * (cb - 128) + w.g_cr * (more - 128) + 128,
            256 * y + w.g_cb * (cb - 128) + w.g_cr * (less - 128) + 128,
            256,
        );
    }
}

/// More Cb does not make a pixel less blue where blue has a positive weight, nor more green
/// where green has a negative one; and it leaves red as it is.
pub proof fn law_420_8bit_cb_blues(y: u16, less: u16, more: u16, cr: u16, w: Weights)
    requires
        less <= more,
    ensures
        ({
            let before = rgb_420_8bit((y, less, cr), w);
            let after = rgb_420_8bit((y, more, cr), w);
            &&& before.0 == after.0
            &&& w.g_cb <= 0 ==> before.1 >= after.1
            &&& w.b_cb >= 0 ==> before.2 <= after.2
        }),
{
    law_420_8bit_colour((y, less, cr), w);
    law_420_8bit_colour((y, more, cr), w);
    let before = rgb_420_8bit((y, less, cr), w);
    let after = rgb_420_8bit((y, more, cr), w);
    if w.b_cb >= 0 {
        assert(w.b_cb * (less - 128) <= w.b_cb * (more - 128)) by (nonlinear_arith)
            requires
                w.b_cb >= 0,
                less <= more,
        ;
        law_count_rises(
            before.2,
            after.2,
            256 * y + w.b_cb * (less - 128) + 128,
            256 * y + w.b_cb * (more - 128) + 128,
            256,
        );
    }
    if w.g_cb <= 0 {
        assert(w.g_cb * (less - 128) >= w.g_cb * (more - 128)) by (nonlinear_arith)
            requires
                w.g_cb <= 0,
                less <= more,
        ;
        law_count_rises(
            after.1,
            before.1,
            256 * y + w.g_cb * (more - 128) + w.g_cr * (cr - 128) + 128,
            256 * y + w.g_cb * (less - 128) + w.g_cr * (cr - 128) + 128,
            256,
        );
    }
}

/// More luma does not make any channel darker, and as much more luma as a channel has room
/// for makes it brighter by just as much.
pub proof fn law_420_8bit_luma_brightens(less: u16, more: u16, cb: u16, cr: u16, w: Weights)
    requires
        less <= more,
    ensures
        ({
            let before = rgb_420_8bit((less, cb, cr), w);
            let after = rgb_420_8bit((more, cb, cr), w);
            &&& before.0 <= after.0 <= before.0 + (more - less)
            &&& before.1 <= after.1 <= before.1 + (more - less)
            &&& before.2 <= after.2 <= before.2 + (more - less)
            &&& 0 < before.0 && after.0 < 255 ==> after.0 == before.0 + (more - less)
            &&& 0 < before.1 && after.1 < 255 ==> after.1 == before.1 + (more - less)
            &&& 0 < before.2 && after.2 < 255 ==> after.2 == before.2 + (more - less)
        }),
{
    law_420_8bit_colour((less, cb, cr), w);
    law_420_8bit_colour((more, cb, cr), w);
}

} // verus!
