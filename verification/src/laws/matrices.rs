//! What the conversions through a matrix give.
use crate::laws::depths::{
    expands_nearest, keeps_nearest, law_clipped_is_nearest, law_clipped_keeps_nearest,
    lemma_expands_nearest,
};
use crate::laws::meaning::{
    law_channels_are_in_order, law_pixel_has_its_samples, nearest_sample,
};
use crate::layout::{
    layout_of, lemma_packed_channel, lemma_pixel_number, lemma_pixel_number_bound, planes_of,
    Layout, Planes,
};
use crate::matrix::{
    clipped, convert_float_matrix_neon_4, convert_float_matrix_pixel, converted, formed,
    lane_clipped, lane_result, load_float_matrix_chroma_4, load_float_matrix_chroma_8,
    matrix_results, stored,
};
use crate::matrix_8bit::{
    convert_float_matrix_8bit_region_to_interleaved,
    convert_float_matrix_8bit_region_to_interleaved_neon,
    convert_float_matrix_8bit_region_to_interleaved_scalar, form_8bit,
};
use crate::matrix_rgba16::{
    convert_float_matrix_region_to_rgba16, convert_float_matrix_region_to_rgba16_neon,
    convert_float_matrix_region_to_rgba16_scalar, form_rgba16,
};
use vstd::arithmetic::mul::lemma_mul_nonnegative;
use vstd::arithmetic::power2::lemma2_to64;
use vstd::prelude::*;

verus! {

/// The pixel at index `at` of `out` has the red, green and blue of `raw`, in this order, each
/// as the byte nearest to it, and in four-channel output an opaque alpha.
pub open spec fn shows_bytes(out: Seq<u8>, at: int, channels: int, raw: (i32, i32, i32)) -> bool {
    &&& 0 <= at
    &&& at + channels <= out.len()
    &&& nearest_sample(out[at] as int, raw.0 as int, 255)
    &&& nearest_sample(out[at + 1] as int, raw.1 as int, 255)
    &&& nearest_sample(out[at + 2] as int, raw.2 as int, 255)
    &&& channels == 4 ==> out[at + 3] == 255
}

/// The pixel at index `at` of `out` has the red, green and blue of `raw`, in this order, each
/// as the sample of a depth nearest to it, expanded to sixteen bits, and an opaque alpha.
pub open spec fn shows_words(out: Seq<u16>, at: int, bit_depth: int, raw: (i32, i32, i32)) -> bool {
    &&& 0 <= at
    &&& at + 4 <= out.len()
    &&& expands_nearest(out[at], raw.0 as int, bit_depth)
    &&& expands_nearest(out[at + 1], raw.1 as int, bit_depth)
    &&& expands_nearest(out[at + 2], raw.2 as int, bit_depth)
    &&& out[at + 3] == 65535
}

/// The result of the matrix that a converted rectangle holds for a pixel.
proof fn lemma_pixel_result<T, M: Fn(u16, u16, u16) -> (i32, i32, i32)>(
    matrix: &M,
    layout: Layout,
    planes: Planes,
    channels: int,
    form: spec_fn((i32, i32, i32)) -> Seq<T>,
    out: Seq<T>,
    row: int,
    col: int,
) -> (raw: (i32, i32, i32))
    requires
        channels > 0,
        converted(matrix, layout, planes, channels, form, out),
        0 <= row < layout.height,
        0 <= col < layout.width,
    ensures
        ({
            let x = layout.x_start + col;
            let y = layout.y_start + row;
            let chroma = (y / layout.subsample_y) * layout.chroma_stride + x
                / layout.subsample_x;
            let samples = (
                planes.y[y * layout.y_stride + x],
                planes.cb[chroma],
                planes.cr[chroma],
            );
            let at = (row * layout.width + col) * channels;
            &&& call_ensures(matrix, samples, raw)
            &&& 0 <= at
            &&& at + channels <= out.len() == layout.width * layout.height * channels
            &&& forall|c: int| 0 <= c < channels ==> out[at + c] == #[trigger] form(raw)[c]
        }),
{
    let raws = choose|raws: Seq<(i32, i32, i32)>|
        {
            &&& raws.len() == layout.pixel_count()
            &&& #[trigger] matrix_results(matrix, layout, planes, raws)
            &&& out == stored(raws, channels, form)
        };
    let p = row * layout.width + col;
    law_pixel_has_its_samples(layout, planes, row, col);
    lemma_pixel_number(layout.width, row, col);
    lemma_pixel_number_bound(layout.width, layout.height, row, col);
    lemma_mul_nonnegative(p, channels);
    let raw = raws[p];
    assert(call_ensures(matrix, planes.samples(layout, p), raws[p]));
    assert forall|c: int| 0 <= c < channels implies out[p * channels + c] == #[trigger] form(
        raw,
    )[c] by {
        lemma_packed_channel(layout.pixel_count(), channels, formed(raws, form), p, c);
    }
    lemma_packed_channel(layout.pixel_count(), channels, formed(raws, form), p, channels - 1);
    raw
}

/// Bytes that are stored for a result of the matrix show it.
proof fn lemma_shows_bytes(out: Seq<u8>, at: int, channels: int, raw: (i32, i32, i32))
    requires
        channels == 3 || channels == 4,
        0 <= at,
        at + channels <= out.len(),
        forall|c: int| 0 <= c < channels ==> out[at + c] == #[trigger] form_8bit(channels)(raw)[c],
    ensures
        shows_bytes(out, at, channels, raw),
{
    lemma2_to64();
    law_clipped_is_nearest(raw.0, 8);
    law_clipped_is_nearest(raw.1, 8);
    law_clipped_is_nearest(raw.2, 8);
    let rgb = clipped(raw, 8);
    law_channels_are_in_order((rgb.0 as u8, rgb.1 as u8, rgb.2 as u8), channels);
    let pixel = form_8bit(channels)(raw);
    assert(out[at + 0] == pixel[0] && out[at + 1] == pixel[1] && out[at + 2] == pixel[2]);
    assert(channels == 4 ==> out[at + 3] == pixel[3]);
}

/// Words that are stored for a result of the matrix show it.
proof fn lemma_shows_words(out: Seq<u16>, at: int, bit_depth: u8, raw: (i32, i32, i32))
    requires
        bit_depth <= 16,
        0 <= at,
        at + 4 <= out.len(),
        forall|c: int| 0 <= c < 4 ==> out[at + c] == #[trigger] form_rgba16(bit_depth)(raw)[c],
    ensures
        shows_words(out, at, bit_depth as int, raw),
{
    lemma_expands_nearest(raw.0, bit_depth);
    lemma_expands_nearest(raw.1, bit_depth);
    lemma_expands_nearest(raw.2, bit_depth);
    let pixel = form_rgba16(bit_depth)(raw);
    assert(out[at + 0] == pixel[0] && out[at + 1] == pixel[1] && out[at + 2] == pixel[2]);
    assert(out[at + 3] == pixel[3]);
}

/// Converting one pixel calls the matrix on its samples and clips the three results in their
/// order to the depth.
pub proof fn law_matrix_pixel<M: Fn(u16, u16, u16) -> (i32, i32, i32)>(
    y_sample: u16,
    cb_sample: u16,
    cr_sample: u16,
    bit_depth: u8,
    matrix: &M,
    rgb: (u16, u16, u16),
) -> (raw: (i32, i32, i32))
    requires
        call_ensures(
            convert_float_matrix_pixel::<M>,
            (y_sample, cb_sample, cr_sample, bit_depth, matrix),
            rgb,
        ),
    ensures
        call_ensures(matrix, (y_sample, cb_sample, cr_sample), raw),
        keeps_nearest(rgb.0, raw.0 as int, bit_depth as int),
        keeps_nearest(rgb.1, raw.1 as int, bit_depth as int),
        keeps_nearest(rgb.2, raw.2 as int, bit_depth as int),
{
    let raw = choose|raw: (i32, i32, i32)| #[trigger]
        call_ensures(matrix, (y_sample, cb_sample, cr_sample), raw) && rgb == clipped(
            raw,
            bit_depth as int,
        );
    law_clipped_keeps_nearest(raw.0, bit_depth as int);
    law_clipped_keeps_nearest(raw.1, bit_depth as int);
    law_clipped_keeps_nearest(raw.2, bit_depth as int);
    raw
}

/// Converting four pixels calls the matrix on the samples of each lane and clamps the three
/// results in their order.
pub proof fn law_matrix_lanes<M: Fn(u16, u16, u16) -> (i32, i32, i32)>(
    y: [u16; 4],
    cb: [u16; 4],
    cr: [u16; 4],
    matrix: &M,
    max: i32,
    rgb: ([i32; 4], [i32; 4], [i32; 4]),
    lane: int,
) -> (raw: (i32, i32, i32))
    requires
        0 <= max,
        0 <= lane < 4,
        call_ensures(convert_float_matrix_neon_4::<M>, (y, cb, cr, matrix, max), rgb),
    ensures
        call_ensures(matrix, (y@[lane], cb@[lane], cr@[lane]), raw),
        nearest_sample(rgb.0@[lane] as int, raw.0 as int, max as int),
        nearest_sample(rgb.1@[lane] as int, raw.1 as int, max as int),
        nearest_sample(rgb.2@[lane] as int, raw.2 as int, max as int),
{
    let lane_rgb = (rgb.0@[lane], rgb.1@[lane], rgb.2@[lane]);
    let samples = (y@[lane], cb@[lane], cr@[lane]);
    assert(lane_clipped(matrix, samples, max as int, lane_rgb));
    choose|raw: (i32, i32, i32)| #[trigger]
        lane_result(matrix, samples, max as int, raw, lane_rgb)
}

/// Chroma of eight pixels holds each sample for as many pixels as it covers.
pub proof fn law_chroma_lanes_8(
    plane: &[u16],
    index: usize,
    subsample_x: usize,
    v: [u16; 8],
    lane: int,
)
    requires
        0 <= lane < 8,
        call_ensures(load_float_matrix_chroma_8, (plane, index, subsample_x), v),
    ensures
        subsample_x == 1 ==> v@[lane] == plane@[index + lane],
        subsample_x == 2 ==> v@[lane] == plane@[index + lane / 2],
{
    assert(lane / 1 == lane);
    assert(v@[lane] == plane@[index + lane / (subsample_x as int)]);
}

/// Chroma of four pixels holds each sample for as many pixels as it covers.
pub proof fn law_chroma_lanes_4(
    plane: &[u16],
    index: usize,
    subsample_x: usize,
    v: [u16; 4],
    lane: int,
)
    requires
        0 <= lane < 4,
        call_ensures(load_float_matrix_chroma_4, (plane, index, subsample_x), v),
    ensures
        subsample_x == 1 ==> v@[lane] == plane@[index + lane],
        subsample_x == 2 ==> v@[lane] == plane@[index + lane / 2],
{
    assert(lane / 1 == lane);
    assert(v@[lane] == plane@[index + lane / (subsample_x as int)]);
}

/// The conversion to 8-bit pixels stores for each pixel of the rectangle a result of the matrix
/// for the samples in its place of the whole planes, row by row without gaps, and fills the
/// output.
pub proof fn law_matrix_8bit<M: Fn(u16, u16, u16) -> (i32, i32, i32)>(
    y_plane: &[u16],
    cb_plane: &[u16],
    cr_plane: &[u16],
    y_stride: usize,
    chroma_stride: usize,
    subsample_x: usize,
    subsample_y: usize,
    x_start: usize,
    y_start: usize,
    width: usize,
    height: usize,
    matrix: &M,
    neon_safe: bool,
    channels: usize,
    output: &mut [u8],
    row: int,
    col: int,
)
    requires
        channels == 3 || channels == 4,
        0 <= row < height,
        0 <= col < width,
        call_ensures(
            convert_float_matrix_8bit_region_to_interleaved::<M>,
            (
                y_plane,
                cb_plane,
                cr_plane,
                y_stride,
                chroma_stride,
                subsample_x,
                subsample_y,
                x_start,
                y_start,
                width,
                height,
                matrix,
                neon_safe,
                channels,
                output,
            ),
            (),
        ),
    ensures
        ({
            let x = x_start + col;
            let y = y_start + row;
            let chroma = (y / subsample_y as int) * chroma_stride + x / subsample_x as int;
            let samples = (y_plane@[y * y_stride + x], cb_plane@[chroma], cr_plane@[chroma]);
            exists|raw: (i32, i32, i32)| #[trigger]
                call_ensures(matrix, samples, raw) && shows_bytes(
                    final(output)@,
                    (row * width + col) * channels,
                    channels as int,
                    raw,
                )
        }),
        final(output)@.len() == width * height * channels,
{
    let layout = layout_of(
        y_stride,
        chroma_stride,
        subsample_x,
        subsample_y,
        x_start,
        y_start,
        width,
        height,
    );
    let planes = planes_of(y_plane, cb_plane, cr_plane);
    let out = final(output)@;
    let raw = lemma_pixel_result(
        matrix,
        layout,
        planes,
        channels as int,
        form_8bit(channels as int),
        out,
        row,
        col,
    );
    let at = (row * width + col) * channels;
    lemma_shows_bytes(out, at, channels as int, raw);
}

/// The conversion to 8-bit pixels one by one stores for each pixel a result of the matrix for
/// its samples and leaves what follows the pixels.
pub proof fn law_matrix_8bit_scalar<M: Fn(u16, u16, u16) -> (i32, i32, i32)>(
    y_plane: &[u16],
    cb_plane: &[u16],
    cr_plane: &[u16],
    y_stride: usize,
    chroma_stride: usize,
    subsample_x: usize,
    subsample_y: usize,
    x_start: usize,
    y_start: usize,
    width: usize,
    height: usize,
    matrix: &M,
    channels: usize,
    output: &mut [u8],
    row: int,
    col: int,
)
    requires
        channels == 3 || channels == 4,
        0 <= row < height,
        0 <= col < width,
        width * height * channels <= old(output)@.len(),
        call_ensures(
            convert_float_matrix_8bit_region_to_interleaved_scalar::<M>,
            (
                y_plane,
                cb_plane,
                cr_plane,
                y_stride,
                chroma_stride,
                subsample_x,
                subsample_y,
                x_start,
                y_start,
                width,
                height,
                matrix,
                channels,
                output,
            ),
            (),
        ),
    ensures
        ({
            let x = x_start + col;
            let y = y_start + row;
            let chroma = (y / subsample_y as int) * chroma_stride + x / subsample_x as int;
            let samples = (y_plane@[y * y_stride + x], cb_plane@[chroma], cr_plane@[chroma]);
            exists|raw: (i32, i32, i32)| #[trigger]
                call_ensures(matrix, samples, raw) && shows_bytes(
                    final(output)@,
                    (row * width + col) * channels,
                    channels as int,
                    raw,
                )
        }),
        final(output)@.len() == old(output)@.len(),
        forall|i: int|
            width * height * channels <= i < old(output)@.len() ==> final(output)@[i]
                == old(output)@[i],
{
    let layout = layout_of(
        y_stride,
        chroma_stride,
        subsample_x,
        subsample_y,
        x_start,
        y_start,
        width,
        height,
    );
    let planes = planes_of(y_plane, cb_plane, cr_plane);
    let n = width * height * channels;
    lemma_mul_nonnegative(width as int, height as int);
    lemma_mul_nonnegative(width * height, channels as int);
    let out = final(output)@.take(n);
    let raw = lemma_pixel_result(
        matrix,
        layout,
        planes,
        channels as int,
        form_8bit(channels as int),
        out,
        row,
        col,
    );
    let at = (row * width + col) * channels;
    lemma_shows_bytes(out, at, channels as int, raw);
    assert forall|i: int| n <= i < old(output)@.len() implies final(output)@[i]
        == old(output)@[i] by {
        assert(final(output)@.skip(n)[i - n] == old(output)@.skip(n)[i - n]);
    }
}

/// The conversion to 8-bit pixels in groups stores for each pixel a result of the matrix for
/// its samples and leaves what follows the pixels.
pub proof fn law_matrix_8bit_neon<M: Fn(u16, u16, u16) -> (i32, i32, i32)>(
    y_plane: &[u16],
    cb_plane: &[u16],
    cr_plane: &[u16],
    y_stride: usize,
    chroma_stride: usize,
    subsample_x: usize,
    subsample_y: usize,
    x_start: usize,
    y_start: usize,
    width: usize,
    height: usize,
    matrix: &M,
    neon_safe: bool,
    channels: usize,
    output: &mut [u8],
    row: int,
    col: int,
)
    requires
        channels == 3 || channels == 4,
        0 <= row < height,
        0 <= col < width,
        width * height * channels <= old(output)@.len(),
        call_ensures(
            convert_float_matrix_8bit_region_to_interleaved_neon::<M>,
            (
                y_plane,
                cb_plane,
                cr_plane,
                y_stride,
                chroma_stride,
                subsample_x,
                subsample_y,
                x_start,
                y_start,
                width,
                height,
                matrix,
                neon_safe,
                channels,
                output,
            ),
            (),
        ),
    ensures
        ({
            let x = x_start + col;
            let y = y_start + row;
            let chroma = (y / subsample_y as int) * chroma_stride + x / subsample_x as int;
            let samples = (y_plane@[y * y_stride + x], cb_plane@[chroma], cr_plane@[chroma]);
            exists|raw: (i32, i32, i32)| #[trigger]
                call_ensures(matrix, samples, raw) && shows_bytes(
                    final(output)@,
                    (row * width + col) * channels,
                    channels as int,
                    raw,
                )
        }),
        final(output)@.len() == old(output)@.len(),
        forall|i: int|
            width * height * channels <= i < old(output)@.len() ==> final(output)@[i]
                == old(output)@[i],
{
    let layout = layout_of(
        y_stride,
        chroma_stride,
        subsample_x,
        subsample_y,
        x_start,
        y_start,
        width,
        height,
    );
    let planes = planes_of(y_plane, cb_plane, cr_plane);
    let n = width * height * channels;
    lemma_mul_nonnegative(width as int, height as int);
    lemma_mul_nonnegative(width * height, channels as int);
    let out = final(output)@.take(n);
    let raw = lemma_pixel_result(
        matrix,
        layout,
        planes,
        channels as int,
        form_8bit(channels as int),
        out,
        row,
        col,
    );
    let at = (row * width + col) * channels;
    lemma_shows_bytes(out, at, channels as int, raw);
    assert forall|i: int| n <= i < old(output)@.len() implies final(output)@[i]
        == old(output)@[i] by {
        assert(final(output)@.skip(n)[i - n] == old(output)@.skip(n)[i - n]);
    }
}

/// The conversion to 16-bit pixels stores for each pixel of the rectangle a result of the matrix
/// for the samples in its place of the whole planes, row by row without gaps, and fills the
/// output.
pub proof fn law_matrix_rgba16<M: Fn(u16, u16, u16) -> (i32, i32, i32)>(
    y_plane: &[u16],
    cb_plane: &[u16],
    cr_plane: &[u16],
    y_stride: usize,
    chroma_stride: usize,
    subsample_x: usize,
    subsample_y: usize,
    x_start: usize,
    y_start: usize,
    width: usize,
    height: usize,
    bit_depth: u8,
    matrix: &M,
    neon_safe: bool,
    output: &mut [u16],
    row: int,
    col: int,
)
    requires
        bit_depth <= 16,
        0 <= row < height,
        0 <= col < width,
        call_ensures(
            convert_float_matrix_region_to_rgba16::<M>,
            (
                y_plane,
                cb_plane,
                cr_plane,
                y_stride,
                chroma_stride,
                subsample_x,
                subsample_y,
                x_start,
                y_start,
                width,
                height,
                bit_depth,
                matrix,
                neon_safe,
                output,
            ),
            (),
        ),
    ensures
        ({
            let x = x_start + col;
            let y = y_start + row;
            let chroma = (y / subsample_y as int) * chroma_stride + x / subsample_x as int;
            let samples = (y_plane@[y * y_stride + x], cb_plane@[chroma], cr_plane@[chroma]);
            exists|raw: (i32, i32, i32)| #[trigger]
                call_ensures(matrix, samples, raw) && shows_words(
                    final(output)@,
                    (row * width + col) * 4,
                    bit_depth as int,
                    raw,
                )
        }),
        final(output)@.len() == width * height * 4,
{
    let layout = layout_of(
        y_stride,
        chroma_stride,
        subsample_x,
        subsample_y,
        x_start,
        y_start,
        width,
        height,
    );
    let planes = planes_of(y_plane, cb_plane, cr_plane);
    let out = final(output)@;
    let raw = lemma_pixel_result(
        matrix,
        layout,
        planes,
        4,
        form_rgba16(bit_depth),
        out,
        row,
        col,
    );
    let at = (row * width + col) * 4;
    lemma_shows_words(out, at, bit_depth, raw);
}

/// The conversion to 16-bit pixels one by one stores for each pixel a result of the matrix for
/// its samples and leaves what follows the pixels.
pub proof fn law_matrix_rgba16_scalar<M: Fn(u16, u16, u16) -> (i32, i32, i32)>(
    y_plane: &[u16],
    cb_plane: &[u16],
    cr_plane: &[u16],
    y_stride: usize,
    chroma_stride: usize,
    subsample_x: usize,
    subsample_y: usize,
    x_start: usize,
    y_start: usize,
    width: usize,
    height: usize,
    bit_depth: u8,
    matrix: &M,
    output: &mut [u16],
    row: int,
    col: int,
)
    requires
        bit_depth <= 16,
        0 <= row < height,
        0 <= col < width,
        width * height * 4 <= old(output)@.len(),
        call_ensures(
            convert_float_matrix_region_to_rgba16_scalar::<M>,
            (
                y_plane,
                cb_plane,
                cr_plane,
                y_stride,
                chroma_stride,
                subsample_x,
                subsample_y,
                x_start,
                y_start,
                width,
                height,
                bit_depth,
                matrix,
                output,
            ),
            (),
        ),
    ensures
        ({
            let x = x_start + col;
            let y = y_start + row;
            let chroma = (y / subsample_y as int) * chroma_stride + x / subsample_x as int;
            let samples = (y_plane@[y * y_stride + x], cb_plane@[chroma], cr_plane@[chroma]);
            exists|raw: (i32, i32, i32)| #[trigger]
                call_ensures(matrix, samples, raw) && shows_words(
                    final(output)@,
                    (row * width + col) * 4,
                    bit_depth as int,
                    raw,
                )
        }),
        final(output)@.len() == old(output)@.len(),
        forall|i: int|
            width * height * 4 <= i < old(output)@.len() ==> final(output)@[i]
                == old(output)@[i],
{
    let layout = layout_of(
        y_stride,
        chroma_stride,
        subsample_x,
        subsample_y,
        x_start,
        y_start,
        width,
        height,
    );
    let planes = planes_of(y_plane, cb_plane, cr_plane);
    let n = width * height * 4;
    lemma_mul_nonnegative(width as int, height as int);
    lemma_mul_nonnegative(width * height, 4);
    let out = final(output)@.take(n);
    let raw = lemma_pixel_result(
        matrix,
        layout,
        planes,
        4,
        form_rgba16(bit_depth),
        out,
        row,
        col,
    );
    let at = (row * width + col) * 4;
    lemma_shows_words(out, at, bit_depth, raw);
    assert forall|i: int| n <= i < old(output)@.len() implies final(output)@[i]
        == old(output)@[i] by {
        assert(final(output)@.skip(n)[i - n] == old(output)@.skip(n)[i - n]);
    }
}

/// The conversion to 16-bit pixels in groups stores for each pixel a result of the matrix for
/// its samples and leaves what follows the pixels.
pub proof fn law_matrix_rgba16_neon<M: Fn(u16, u16, u16) -> (i32, i32, i32)>(
    y_plane: &[u16],
    cb_plane: &[u16],
    cr_plane: &[u16],
    y_stride: usize,
    chroma_stride: usize,
    subsample_x: usize,
    subsample_y: usize,
    x_start: usize,
    y_start: usize,
    width: usize,
    height: usize,
    bit_depth: u8,
    matrix: &M,
    neon_safe: bool,
    output: &mut [u16],
    row: int,
    col: int,
)
    requires
        bit_depth <= 16,
        0 <= row < height,
        0 <= col < width,
        width * height * 4 <= old(output)@.len(),
        call_ensures(
            convert_float_matrix_region_to_rgba16_neon::<M>,
            (
                y_plane,
                cb_plane,
                cr_plane,
                y_stride,
                chroma_stride,
                subsample_x,
                subsample_y,
                x_start,
                y_start,
                width,
                height,
                bit_depth,
                matrix,
                neon_safe,
                output,
            ),
            (),
        ),
    ensures
        ({
            let x = x_start + col;
            let y = y_start + row;
            let chroma = (y / subsample_y as int) * chroma_stride + x / subsample_x as int;
            let samples = (y_plane@[y * y_stride + x], cb_plane@[chroma], cr_plane@[chroma]);
            exists|raw: (i32, i32, i32)| #[trigger]
                call_ensures(matrix, samples, raw) && shows_words(
                    final(output)@,
                    (row * width + col) * 4,
                    bit_depth as int,
                    raw,
                )
        }),
        final(output)@.len() == old(output)@.len(),
        forall|i: int|
            width * height * 4 <= i < old(output)@.len() ==> final(output)@[i]
                == old(output)@[i],
{
    let layout = layout_of(
        y_stride,
        chroma_stride,
        subsample_x,
        subsample_y,
        x_start,
        y_start,
        width,
        height,
    );
    let planes = planes_of(y_plane, cb_plane, cr_plane);
    let n = width * height * 4;
    lemma_mul_nonnegative(width as int, height as int);
    lemma_mul_nonnegative(width * height, 4);
    let out = final(output)@.take(n);
    let raw = lemma_pixel_result(
        matrix,
        layout,
        planes,
        4,
        form_rgba16(bit_depth),
        out,
        row,
        col,
    );
    let at = (row * width + col) * 4;
    lemma_shows_words(out, at, bit_depth, raw);
    assert forall|i: int| n <= i < old(output)@.len() implies final(output)@[i]
        == old(output)@[i] by {
        assert(final(output)@.skip(n)[i - n] == old(output)@.skip(n)[i - n]);
    }
}

/// Where the matrix is a function, the conversion to 8-bit pixels stores what that
/// function gives for the samples of each pixel.
pub proof fn law_matrix_8bit_of_function<M: Fn(u16, u16, u16) -> (i32, i32, i32)>(
    y_plane: &[u16],
    cb_plane: &[u16],
    cr_plane: &[u16],
    y_stride: usize,
    chroma_stride: usize,
    subsample_x: usize,
    subsample_y: usize,
    x_start: usize,
    y_start: usize,
    width: usize,
    height: usize,
    matrix: &M,
    neon_safe: bool,
    channels: usize,
    output: &mut [u8],
    function: spec_fn((u16, u16, u16)) -> (i32, i32, i32),
    row: int,
    col: int,
)
    requires
        channels == 3 || channels == 4,
        0 <= row < height,
        0 <= col < width,
        forall|samples: (u16, u16, u16), raw: (i32, i32, i32)| #[trigger]
            call_ensures(matrix, samples, raw) ==> raw == function(samples),
        call_ensures(
            convert_float_matrix_8bit_region_to_interleaved::<M>,
            (
                y_plane,
                cb_plane,
                cr_plane,
                y_stride,
                chroma_stride,
                subsample_x,
                subsample_y,
                x_start,
                y_start,
                width,
                height,
                matrix,
                neon_safe,
                channels,
                output,
            ),
            (),
        ),
    ensures
        ({
            let x = x_start + col;
            let y = y_start + row;
            let chroma = (y / subsample_y as int) * chroma_stride + x / subsample_x as int;
            let samples = (y_plane@[y * y_stride + x], cb_plane@[chroma], cr_plane@[chroma]);
            shows_bytes(
                final(output)@,
                (row * width + col) * channels,
                channels as int,
                function(samples),
            )
        }),
{
    law_matrix_8bit(
        y_plane,
        cb_plane,
        cr_plane,
        y_stride,
        chroma_stride,
        subsample_x,
        subsample_y,
        x_start,
        y_start,
        width,
        height,
        matrix,
        neon_safe,
        channels,
        output,
        row,
        col,
    );
}

/// Where the matrix is a function, the conversion to 8-bit pixels one by one stores what that
/// function gives for the samples of each pixel.
pub proof fn law_matrix_8bit_scalar_of_function<M: Fn(u16, u16, u16) -> (i32, i32, i32)>(
    y_plane: &[u16],
    cb_plane: &[u16],
    cr_plane: &[u16],
    y_stride: usize,
    chroma_stride: usize,
    subsample_x: usize,
    subsample_y: usize,
    x_start: usize,
    y_start: usize,
    width: usize,
    height: usize,
    matrix: &M,
    channels: usize,
    output: &mut [u8],
    function: spec_fn((u16, u16, u16)) -> (i32, i32, i32),
    row: int,
    col: int,
)
    requires
        channels == 3 || channels == 4,
        0 <= row < height,
        0 <= col < width,
        width * height * channels <= old(output)@.len(),
        forall|samples: (u16, u16, u16), raw: (i32, i32, i32)| #[trigger]
            call_ensures(matrix, samples, raw) ==> raw == function(samples),
        call_ensures(
            convert_float_matrix_8bit_region_to_interleaved_scalar::<M>,
            (
                y_plane,
                cb_plane,
                cr_plane,
                y_stride,
                chroma_stride,
                subsample_x,
                subsample_y,
                x_start,
                y_start,
                width,
                height,
                matrix,
                channels,
                output,
            ),
            (),
        ),
    ensures
        ({
            let x = x_start + col;
            let y = y_start + row;
            let chroma = (y / subsample_y as int) * chroma_stride + x / subsample_x as int;
            let samples = (y_plane@[y * y_stride + x], cb_plane@[chroma], cr_plane@[chroma]);
            shows_bytes(
                final(output)@,
                (row * width + col) * channels,
                channels as int,
                function(samples),
            )
        }),
{
    law_matrix_8bit_scalar(
        y_plane,
        cb_plane,
        cr_plane,
        y_stride,
        chroma_stride,
        subsample_x,
        subsample_y,
        x_start,
        y_start,
        width,
        height,
        matrix,
        channels,
        output,
        row,
        col,
    );
}

/// Where the matrix is a function, the conversion to 8-bit pixels in groups stores what that
/// function gives for the samples of each pixel.
pub proof fn law_matrix_8bit_neon_of_function<M: Fn(u16, u16, u16) -> (i32, i32, i32)>(
    y_plane: &[u16],
    cb_plane: &[u16],
    cr_plane: &[u16],
    y_stride: usize,
    chroma_stride: usize,
    subsample_x: usize,
    subsample_y: usize,
    x_start: usize,
    y_start: usize,
    width: usize,
    height: usize,
    matrix: &M,
    neon_safe: bool,
    channels: usize,
    output: &mut [u8],
    function: spec_fn((u16, u16, u16)) -> (i32, i32, i32),
    row: int,
    col: int,
)
    requires
        channels == 3 || channels == 4,
        0 <= row < height,
        0 <= col < width,
        width * height * channels <= old(output)@.len(),
        forall|samples: (u16, u16, u16), raw: (i32, i32, i32)| #[trigger]
            call_ensures(matrix, samples, raw) ==> raw == function(samples),
        call_ensures(
            convert_float_matrix_8bit_region_to_interleaved_neon::<M>,
            (
                y_plane,
                cb_plane,
                cr_plane,
                y_stride,
                chroma_stride,
                subsample_x,
                subsample_y,
                x_start,
                y_start,
                width,
                height,
                matrix,
                neon_safe,
                channels,
                output,
            ),
            (),
        ),
    ensures
        ({
            let x = x_start + col;
            let y = y_start + row;
            let chroma = (y / subsample_y as int) * chroma_stride + x / subsample_x as int;
            let samples = (y_plane@[y * y_stride + x], cb_plane@[chroma], cr_plane@[chroma]);
            shows_bytes(
                final(output)@,
                (row * width + col) * channels,
                channels as int,
                function(samples),
            )
        }),
{
    law_matrix_8bit_neon(
        y_plane,
        cb_plane,
        cr_plane,
        y_stride,
        chroma_stride,
        subsample_x,
        subsample_y,
        x_start,
        y_start,
        width,
        height,
        matrix,
        neon_safe,
        channels,
        output,
        row,
        col,
    );
}

/// Where the matrix is a function, the conversion to 16-bit pixels stores what that
/// function gives for the samples of each pixel.
pub proof fn law_matrix_rgba16_of_function<M: Fn(u16, u16, u16) -> (i32, i32, i32)>(
    y_plane: &[u16],
    cb_plane: &[u16],
    cr_plane: &[u16],
    y_stride: usize,
    chroma_stride: usize,
    subsample_x: usize,
    subsample_y: usize,
    x_start: usize,
    y_start: usize,
    width: usize,
    height: usize,
    bit_depth: u8,
    matrix: &M,
    neon_safe: bool,
    output: &mut [u16],
    function: spec_fn((u16, u16, u16)) -> (i32, i32, i32),
    row: int,
    col: int,
)
    requires
        bit_depth <= 16,
        0 <= row < height,
        0 <= col < width,
        forall|samples: (u16, u16, u16), raw: (i32, i32, i32)| #[trigger]
            call_ensures(matrix, samples, raw) ==> raw == function(samples),
        call_ensures(
            convert_float_matrix_region_to_rgba16::<M>,
            (
                y_plane,
                cb_plane,
                cr_plane,
                y_stride,
                chroma_stride,
                subsample_x,
                subsample_y,
                x_start,
                y_start,
                width,
                height,
                bit_depth,
                matrix,
                neon_safe,
                output,
            ),
            (),
        ),
    ensures
        ({
            let x = x_start + col;
            let y = y_start + row;
            let chroma = (y / subsample_y as int) * chroma_stride + x / subsample_x as int;
            let samples = (y_plane@[y * y_stride + x], cb_plane@[chroma], cr_plane@[chroma]);
            shows_words(
                final(output)@,
                (row * width + col) * 4,
                bit_depth as int,
                function(samples),
            )
        }),
{
    law_matrix_rgba16(
        y_plane,
        cb_plane,
        cr_plane,
        y_stride,
        chroma_stride,
        subsample_x,
        subsample_y,
        x_start,
        y_start,
        width,
        height,
        bit_depth,
        matrix,
        neon_safe,
        output,
        row,
        col,
    );
}

/// Where the matrix is a function, the conversion to 16-bit pixels one by one stores what that
/// function gives for the samples of each pixel.
pub proof fn law_matrix_rgba16_scalar_of_function<M: Fn(u16, u16, u16) -> (i32, i32, i32)>(
    y_plane: &[u16],
    cb_plane: &[u16],
    cr_plane: &[u16],
    y_stride: usize,
    chroma_stride: usize,
    subsample_x: usize,
    subsample_y: usize,
    x_start: usize,
    y_start: usize,
    width: usize,
    height: usize,
    bit_depth: u8,
    matrix: &M,
    output: &mut [u16],
    function: spec_fn((u16, u16, u16)) -> (i32, i32, i32),
    row: int,
    col: int,
)
    requires
        bit_depth <= 16,
        0 <= row < height,
        0 <= col < width,
        width * height * 4 <= old(output)@.len(),
        forall|samples: (u16, u16, u16), raw: (i32, i32, i32)| #[trigger]
            call_ensures(matrix, samples, raw) ==> raw == function(samples),
        call_ensures(
            convert_float_matrix_region_to_rgba16_scalar::<M>,
            (
                y_plane,
                cb_plane,
                cr_plane,
                y_stride,
                chroma_stride,
                subsample_x,
                subsample_y,
                x_start,
                y_start,
                width,
                height,
                bit_depth,
                matrix,
                output,
            ),
            (),
        ),
    ensures
        ({
            let x = x_start + col;
            let y = y_start + row;
            let chroma = (y / subsample_y as int) * chroma_stride + x / subsample_x as int;
            let samples = (y_plane@[y * y_stride + x], cb_plane@[chroma], cr_plane@[chroma]);
            shows_words(
                final(output)@,
                (row * width + col) * 4,
                bit_depth as int,
                function(samples),
            )
        }),
{
    law_matrix_rgba16_scalar(
        y_plane,
        cb_plane,
        cr_plane,
        y_stride,
        chroma_stride,
        subsample_x,
        subsample_y,
        x_start,
        y_start,
        width,
        height,
        bit_depth,
        matrix,
        output,
        row,
        col,
    );
}

/// Where the matrix is a function, the conversion to 16-bit pixels in groups stores what that
/// function gives for the samples of each pixel.
pub proof fn law_matrix_rgba16_neon_of_function<M: Fn(u16, u16, u16) -> (i32, i32, i32)>(
    y_plane: &[u16],
    cb_plane: &[u16],
    cr_plane: &[u16],
    y_stride: usize,
    chroma_stride: usize,
    subsample_x: usize,
    subsample_y: usize,
    x_start: usize,
    y_start: usize,
    width: usize,
    height: usize,
    bit_depth: u8,
    matrix: &M,
    neon_safe: bool,
    output: &mut [u16],
    function: spec_fn((u16, u16, u16)) -> (i32, i32, i32),
    row: int,
    col: int,
)
    requires
        bit_depth <= 16,
        0 <= row < height,
        0 <= col < width,
        width * height * 4 <= old(output)@.len(),
        forall|samples: (u16, u16, u16), raw: (i32, i32, i32)| #[trigger]
            call_ensures(matrix, samples, raw) ==> raw == function(samples),
        call_ensures(
            convert_float_matrix_region_to_rgba16_neon::<M>,
            (
                y_plane,
                cb_plane,
                cr_plane,
                y_stride,
                chroma_stride,
                subsample_x,
                subsample_y,
                x_start,
                y_start,
                width,
                height,
                bit_depth,
                matrix,
                neon_safe,
                output,
            ),
            (),
        ),
    ensures
        ({
            let x = x_start + col;
            let y = y_start + row;
            let chroma = (y / subsample_y as int) * chroma_stride + x / subsample_x as int;
            let samples = (y_plane@[y * y_stride + x], cb_plane@[chroma], cr_plane@[chroma]);
            shows_words(
                final(output)@,
                (row * width + col) * 4,
                bit_depth as int,
                function(samples),
            )
        }),
{
    law_matrix_rgba16_neon(
        y_plane,
        cb_plane,
        cr_plane,
        y_stride,
        chroma_stride,
        subsample_x,
        subsample_y,
        x_start,
        y_start,
        width,
        height,
        bit_depth,
        matrix,
        neon_safe,
        output,
        row,
        col,
    );
}

} // verus!
