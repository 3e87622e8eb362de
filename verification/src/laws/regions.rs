//! Which rectangles the checks accept and the conversions take.
use crate::fixed_420::{
    convert_420_8bit_region_to_interleaved, convert_420_8bit_region_to_interleaved_neon,
    convert_420_8bit_region_to_interleaved_scalar, convert_420_8bit_to_interleaved,
};
use crate::layout::{layout_of, planes_of};
use crate::matrix_8bit::{
    convert_float_matrix_8bit_region_to_interleaved,
    convert_float_matrix_8bit_region_to_interleaved_neon,
    convert_float_matrix_8bit_region_to_interleaved_scalar,
};
use crate::matrix_rgba16::{
    convert_float_matrix_region_to_rgba16, convert_float_matrix_region_to_rgba16_neon,
    convert_float_matrix_region_to_rgba16_scalar,
};
use crate::region::{
    lemma_ceil_div, lemma_fits_readable, region_fits, validate_420_region,
    validate_float_matrix_region, RegionError,
};
use crate::rgb_420::{convert_420_to_rgb, convert_420_to_rgb_scalar, convert_420_to_rgb_v3};
use vstd::arithmetic::mul::lemma_mul_nonnegative;
use vstd::prelude::*;

verus! {

/// Planes of the given lengths hold all rows and columns of a rectangle up to its ends, and an
/// output of `output_len` values holds its packed pixels and nothing else. Chroma columns and
/// rows count half, rounded up, where chroma is subsampled.
pub open spec fn held(
    y_len: int,
    cb_len: int,
    cr_len: int,
    y_stride: int,
    chroma_stride: int,
    subsample_x: int,
    subsample_y: int,
    x_start: int,
    y_start: int,
    width: int,
    height: int,
    channels: int,
    output_len: int,
) -> bool {
    let x_end = x_start + width;
    let y_end = y_start + height;
    let chroma_rows = if subsample_y == 2 { (y_end + 1) / 2 } else { y_end };
    &&& subsample_x == 1 || subsample_x == 2
    &&& subsample_y == 1 || subsample_y == 2
    &&& channels == 3 || channels == 4
    &&& y_end <= usize::MAX
    &&& output_len == width * height * channels
    &&& x_end <= y_stride
    &&& y_stride * y_end <= y_len
    &&& x_end <= subsample_x * chroma_stride
    &&& chroma_stride * chroma_rows <= cb_len
    &&& chroma_stride * chroma_rows <= cr_len
}

/// The check of a 4:2:0 rectangle goes through its conditions in a fixed order and names the
/// first one that fails; it succeeds where none fails.
pub proof fn law_420_check_names_the_first_fault(
    y_plane: &[u16],
    cb_plane: &[u16],
    cr_plane: &[u16],
    y_stride: usize,
    chroma_stride: usize,
    x_start: usize,
    y_start: usize,
    width: usize,
    height: usize,
    channels: usize,
    output_len: usize,
    checked: Result<(), RegionError>,
)
    requires
        call_ensures(
            validate_420_region,
            (
                y_plane,
                cb_plane,
                cr_plane,
                y_stride,
                chroma_stride,
                x_start,
                y_start,
                width,
                height,
                channels,
                output_len,
            ),
            checked,
        ),
    ensures
        ({
            let x_end = x_start + width;
            let y_end = y_start + height;
            let pixels = width * height;
            let length = width * height * channels;
            let luma = y_stride * y_end;
            let chroma = chroma_stride * ((y_end + 1) / 2);
            let coloured = channels == 3 || channels == 4;
            let counted = pixels <= usize::MAX;
            let stored = length <= usize::MAX;
            let columns = x_end <= usize::MAX;
            let rows = y_end <= usize::MAX;
            let luma_counted = luma <= usize::MAX;
            let chroma_counted = chroma <= usize::MAX;
            let filled = output_len == length;
            let luma_wide = x_end <= y_stride;
            let luma_tall = luma <= y_plane@.len();
            let chroma_wide = 2 * chroma_stride >= x_end;
            let cb_tall = chroma <= cb_plane@.len();
            let cr_tall = chroma <= cr_plane@.len();
            match checked {
                Ok(_) => {
                    &&& coloured
                    &&& counted
                    &&& stored
                    &&& columns
                    &&& rows
                    &&& luma_counted
                    &&& chroma_counted
                    &&& filled
                    &&& luma_wide
                    &&& luma_tall
                    &&& chroma_wide
                    &&& cb_tall
                    &&& cr_tall
                },
                Err(RegionError::Channels) => {
                    &&& !coloured
                },
                Err(RegionError::PixelCount) => {
                    &&& coloured
                    &&& !counted
                },
                Err(RegionError::OutputExtent) => {
                    &&& coloured
                    &&& counted
                    &&& !stored
                },
                Err(RegionError::XExtent) => {
                    &&& coloured
                    &&& counted
                    &&& stored
                    &&& !columns
                },
                Err(RegionError::YExtent) => {
                    &&& coloured
                    &&& counted
                    &&& stored
                    &&& columns
                    &&& !rows
                },
                Err(RegionError::LumaExtent) => {
                    &&& coloured
                    &&& counted
                    &&& stored
                    &&& columns
                    &&& rows
                    &&& !luma_counted
                },
                Err(RegionError::ChromaExtent) => {
                    &&& coloured
                    &&& counted
                    &&& stored
                    &&& columns
                    &&& rows
                    &&& luma_counted
                    &&& !chroma_counted
                },
                Err(RegionError::OutputLength) => {
                    &&& coloured
                    &&& counted
                    &&& stored
                    &&& columns
                    &&& rows
                    &&& luma_counted
                    &&& chroma_counted
                    &&& !filled
                },
                Err(RegionError::LumaRow) => {
                    &&& coloured
                    &&& counted
                    &&& stored
                    &&& columns
                    &&& rows
                    &&& luma_counted
                    &&& chroma_counted
                    &&& filled
                    &&& !luma_wide
                },
                Err(RegionError::LumaPlane) => {
                    &&& coloured
                    &&& counted
                    &&& stored
                    &&& columns
                    &&& rows
                    &&& luma_counted
                    &&& chroma_counted
                    &&& filled
                    &&& luma_wide
                    &&& !luma_tall
                },
                Err(RegionError::ChromaRow) => {
                    &&& coloured
                    &&& counted
                    &&& stored
                    &&& columns
                    &&& rows
                    &&& luma_counted
                    &&& chroma_counted
                    &&& filled
                    &&& luma_wide
                    &&& luma_tall
                    &&& !chroma_wide
                },
                Err(RegionError::CbPlane) => {
                    &&& coloured
                    &&& counted
                    &&& stored
                    &&& columns
                    &&& rows
                    &&& luma_counted
                    &&& chroma_counted
                    &&& filled
                    &&& luma_wide
                    &&& luma_tall
                    &&& chroma_wide
                    &&& !cb_tall
                },
                Err(RegionError::CrPlane) => {
                    &&& coloured
                    &&& counted
                    &&& stored
                    &&& columns
                    &&& rows
                    &&& luma_counted
                    &&& chroma_counted
                    &&& filled
                    &&& luma_wide
                    &&& luma_tall
                    &&& chroma_wide
                    &&& cb_tall
                    &&& !cr_tall
                },
                Err(_) => false,
            }
        }),
{
    let x_end = x_start + width;
    let y_end = y_start + height;
    let pixels = width * height;
    lemma_ceil_div(x_end, 2);
    lemma_mul_nonnegative(width as int, height as int);
    if channels == 3 || channels == 4 {
        assert(pixels <= pixels * channels) by (nonlinear_arith)
            requires
                0 <= pixels,
                1 <= channels,
        ;
    }
}

/// The check of a rectangle for the generic matrix goes through its conditions in a fixed order
/// and names the first one that fails; it succeeds where none fails.
pub proof fn law_matrix_check_names_the_first_fault(
    y_plane: &[u16],
    cb_plane: &[u16],
    cr_plane: &[u16],
    y_stride: usize,
    chroma_stride: usize,
    subsample_x: usize,
    subsample_y: usize,
    x_start: usize,
    y_start: usize,
    width: usize,
    height: usize,
    channels: usize,
    output_len: usize,
    checked: Result<(), RegionError>,
)
    requires
        call_ensures(
            validate_float_matrix_region,
            (
                y_plane,
                cb_plane,
                cr_plane,
                y_stride,
                chroma_stride,
                subsample_x,
                subsample_y,
                x_start,
                y_start,
                width,
                height,
                channels,
                output_len,
            ),
            checked,
        ),
    ensures
        ({
            let x_end = x_start + width;
            let y_end = y_start + height;
            let pixels = width * height;
            let length = width * height * channels;
            let chroma_rows = if subsample_y == 2 { (y_end + 1) / 2 } else { y_end };
            let luma = y_stride * y_end;
            let chroma = chroma_stride * chroma_rows;
            let sampled_x = subsample_x == 1 || subsample_x == 2;
            let sampled_y = subsample_y == 1 || subsample_y == 2;
            let coloured = channels == 3 || channels == 4;
            let columns = x_end <= usize::MAX;
            let rows = y_end <= usize::MAX;
            let stored = length <= usize::MAX;
            let luma_counted = luma <= usize::MAX;
            let chroma_counted = chroma <= usize::MAX;
            let filled = output_len == length;
            let luma_wide = x_end <= y_stride;
            let luma_tall = luma <= y_plane@.len();
            let chroma_wide = subsample_x * chroma_stride >= x_end;
            let cb_tall = chroma <= cb_plane@.len();
            let cr_tall = chroma <= cr_plane@.len();
            match checked {
                Ok(_) => {
                    &&& sampled_x
                    &&& sampled_y
                    &&& coloured
                    &&& columns
                    &&& rows
                    &&& stored
                    &&& luma_counted
                    &&& chroma_counted
                    &&& filled
                    &&& luma_wide
                    &&& luma_tall
                    &&& chroma_wide
                    &&& cb_tall
                    &&& cr_tall
                },
                Err(RegionError::HorizontalSubsampling) => {
                    &&& !sampled_x
                },
                Err(RegionError::VerticalSubsampling) => {
                    &&& sampled_x
                    &&& !sampled_y
                },
                Err(RegionError::Channels) => {
                    &&& sampled_x
                    &&& sampled_y
                    &&& !coloured
                },
                Err(RegionError::XExtent) => {
                    &&& sampled_x
                    &&& sampled_y
                    &&& coloured
                    &&& !columns
                },
                Err(RegionError::YExtent) => {
                    &&& sampled_x
                    &&& sampled_y
                    &&& coloured
                    &&& columns
                    &&& !rows
                },
                Err(RegionError::OutputExtent) => {
                    &&& sampled_x
                    &&& sampled_y
                    &&& coloured
                    &&& columns
                    &&& rows
                    &&& !stored
                },
                Err(RegionError::LumaExtent) => {
                    &&& sampled_x
                    &&& sampled_y
                    &&& coloured
                    &&& columns
                    &&& rows
                    &&& stored
                    &&& !luma_counted
                },
                Err(RegionError::ChromaExtent) => {
                    &&& sampled_x
                    &&& sampled_y
                    &&& coloured
                    &&& columns
                    &&& rows
                    &&& stored
                    &&& luma_counted
                    &&& !chroma_counted
                },
                Err(RegionError::OutputLength) => {
                    &&& sampled_x
                    &&& sampled_y
                    &&& coloured
                    &&& columns
                    &&& rows
                    &&& stored
                    &&& luma_counted
                    &&& chroma_counted
                    &&& !filled
                },
                Err(RegionError::LumaRow) => {
                    &&& sampled_x
                    &&& sampled_y
                    &&& coloured
                    &&& columns
                    &&& rows
                    &&& stored
                    &&& luma_counted
                    &&& chroma_counted
                    &&& filled
                    &&& !luma_wide
                },
                Err(RegionError::LumaPlane) => {
                    &&& sampled_x
                    &&& sampled_y
                    &&& coloured
                    &&& columns
                    &&& rows
                    &&& stored
                    &&& luma_counted
                    &&& chroma_counted
                    &&& filled
                    &&& luma_wide
                    &&& !luma_tall
                },
                Err(RegionError::ChromaRow) => {
                    &&& sampled_x
                    &&& sampled_y
                    &&& coloured
                    &&& columns
                    &&& rows
                    &&& stored
                    &&& luma_counted
                    &&& chroma_counted
                    &&& filled
                    &&& luma_wide
                    &&& luma_tall
                    &&& !chroma_wide
                },
                Err(RegionError::CbPlane) => {
                    &&& sampled_x
                    &&& sampled_y
                    &&& coloured
                    &&& columns
                    &&& rows
                    &&& stored
                    &&& luma_counted
                    &&& chroma_counted
                    &&& filled
                    &&& luma_wide
                    &&& luma_tall
                    &&& chroma_wide
                    &&& !cb_tall
                },
                Err(RegionError::CrPlane) => {
                    &&& sampled_x
                    &&& sampled_y
                    &&& coloured
                    &&& columns
                    &&& rows
                    &&& stored
                    &&& luma_counted
                    &&& chroma_counted
                    &&& filled
                    &&& luma_wide
                    &&& luma_tall
                    &&& chroma_wide
                    &&& cb_tall
                    &&& !cr_tall
                },
                Err(RegionError::PixelCount) => false,
            }
        }),
{
    let x_end = x_start + width;
    let y_end = y_start + height;
    let pixels = width * height;
    if subsample_x == 1 || subsample_x == 2 {
        lemma_ceil_div(x_end, subsample_x as int);
        assert(subsample_x == 1 ==> x_end / 1 == x_end && subsample_x * chroma_stride
            == chroma_stride);
    }
    if subsample_y == 1 || subsample_y == 2 {
        lemma_ceil_div(y_end, subsample_y as int);
        assert(subsample_y == 1 ==> y_end / 1 == y_end);
    }
    lemma_mul_nonnegative(width as int, height as int);
    if channels == 3 || channels == 4 {
        assert(pixels <= pixels * channels) by (nonlinear_arith)
            requires
                0 <= pixels,
                1 <= channels,
        ;
    }
}

/// A rectangle fits just where the planes and the output hold it.
proof fn lemma_held_fits(
    y_plane: &[u16],
    cb_plane: &[u16],
    cr_plane: &[u16],
    y_stride: usize,
    chroma_stride: usize,
    subsample_x: usize,
    subsample_y: usize,
    x_start: usize,
    y_start: usize,
    width: usize,
    height: usize,
    channels: usize,
    output_len: usize,
)
    ensures
        held(
            y_plane@.len() as int,
            cb_plane@.len() as int,
            cr_plane@.len() as int,
            y_stride as int,
            chroma_stride as int,
            subsample_x as int,
            subsample_y as int,
            x_start as int,
            y_start as int,
            width as int,
            height as int,
            channels as int,
            output_len as int,
        ) <==> region_fits(
            layout_of(
                y_stride,
                chroma_stride,
                subsample_x,
                subsample_y,
                x_start,
                y_start,
                width,
                height,
            ),
            planes_of(y_plane, cb_plane, cr_plane),
            channels as int,
            output_len as int,
        ),
{
    let x_end = x_start + width;
    let y_end = y_start + height;
    if (subsample_x == 1 || subsample_x == 2) && (subsample_y == 1 || subsample_y == 2) {
        lemma_ceil_div(x_end, subsample_x as int);
        lemma_ceil_div(y_end, subsample_y as int);
        assert(x_end / 1 == x_end && y_end / 1 == y_end);
        assert(1 * chroma_stride == chroma_stride);
    }
}

/// The fixed-point conversion takes every rectangle that planes and output hold.
pub proof fn law_420_8bit_takes_what_is_held(
    y_plane: &[u16],
    cb_plane: &[u16],
    cr_plane: &[u16],
    y_stride: usize,
    chroma_stride: usize,
    x_start: usize,
    y_start: usize,
    width: usize,
    height: usize,
    r_cr: i32,
    g_cb: i32,
    g_cr: i32,
    b_cb: i32,
    channels: usize,
    output: &mut [u8],
)
    requires
        held(
            y_plane@.len() as int,
            cb_plane@.len() as int,
            cr_plane@.len() as int,
            y_stride as int,
            chroma_stride as int,
            2,
            2,
            x_start as int,
            y_start as int,
            width as int,
            height as int,
            channels as int,
            old(output)@.len() as int,
        ),
    ensures
        call_requires(
            convert_420_8bit_region_to_interleaved,
            (
                y_plane,
                cb_plane,
                cr_plane,
                y_stride,
                chroma_stride,
                x_start,
                y_start,
                width,
                height,
                r_cr,
                g_cb,
                g_cr,
                b_cb,
                channels,
                output,
            ),
        ),
{
    assert(output.len() == output@.len());
    lemma_held_fits(
        y_plane,
        cb_plane,
        cr_plane,
        y_stride,
        chroma_stride,
        2,
        2,
        x_start,
        y_start,
        width,
        height,
        channels,
        output.len(),
    );
    lemma_fits_readable(
        layout_of(y_stride, chroma_stride, 2, 2, x_start, y_start, width, height),
        planes_of(y_plane, cb_plane, cr_plane),
        channels as int,
        output@.len() as int,
    );
}

/// The fixed-point conversion takes every picture that planes and output hold.
pub proof fn law_420_8bit_picture_takes_what_is_held(
    y_plane: &[u16],
    cb_plane: &[u16],
    cr_plane: &[u16],
    width: usize,
    height: usize,
    chroma_width: usize,
    r_cr: i32,
    g_cb: i32,
    g_cr: i32,
    b_cb: i32,
    channels: usize,
    output: &mut [u8],
)
    requires
        held(
            y_plane@.len() as int,
            cb_plane@.len() as int,
            cr_plane@.len() as int,
            width as int,
            chroma_width as int,
            2,
            2,
            0,
            0,
            width as int,
            height as int,
            channels as int,
            old(output)@.len() as int,
        ),
    ensures
        call_requires(
            convert_420_8bit_to_interleaved,
            (
                y_plane,
                cb_plane,
                cr_plane,
                width,
                height,
                chroma_width,
                r_cr,
                g_cb,
                g_cr,
                b_cb,
                channels,
                output,
            ),
        ),
{
    assert(output.len() == output@.len());
    lemma_held_fits(
        y_plane,
        cb_plane,
        cr_plane,
        width,
        chroma_width,
        2,
        2,
        0,
        0,
        width,
        height,
        channels,
        output.len(),
    );
    lemma_fits_readable(
        layout_of(width, chroma_width, 2, 2, 0, 0, width, height),
        planes_of(y_plane, cb_plane, cr_plane),
        channels as int,
        output@.len() as int,
    );
}

/// The fixed-point conversion pixel by pixel takes every rectangle that planes and output
/// hold.
pub proof fn law_420_8bit_scalar_takes_what_is_held(
    y_plane: &[u16],
    cb_plane: &[u16],
    cr_plane: &[u16],
    y_stride: usize,
    chroma_stride: usize,
    x_start: usize,
    y_start: usize,
    width: usize,
    height: usize,
    r_cr: i32,
    g_cb: i32,
    g_cr: i32,
    b_cb: i32,
    channels: usize,
    output: &mut [u8],
)
    requires
        held(
            y_plane@.len() as int,
            cb_plane@.len() as int,
            cr_plane@.len() as int,
            y_stride as int,
            chroma_stride as int,
            2,
            2,
            x_start as int,
            y_start as int,
            width as int,
            height as int,
            channels as int,
            old(output)@.len() as int,
        ),
    ensures
        call_requires(
            convert_420_8bit_region_to_interleaved_scalar,
            (
                y_plane,
                cb_plane,
                cr_plane,
                y_stride,
                chroma_stride,
                x_start,
                y_start,
                width,
                height,
                r_cr,
                g_cb,
                g_cr,
                b_cb,
                channels,
                output,
            ),
        ),
{
    assert(output.len() == output@.len());
    lemma_held_fits(
        y_plane,
        cb_plane,
        cr_plane,
        y_stride,
        chroma_stride,
        2,
        2,
        x_start,
        y_start,
        width,
        height,
        channels,
        output.len(),
    );
    lemma_fits_readable(
        layout_of(y_stride, chroma_stride, 2, 2, x_start, y_start, width, height),
        planes_of(y_plane, cb_plane, cr_plane),
        channels as int,
        output@.len() as int,
    );
}

/// The fixed-point conversion in groups takes every rectangle that planes and output hold.
pub proof fn law_420_8bit_neon_takes_what_is_held(
    y_plane: &[u16],
    cb_plane: &[u16],
    cr_plane: &[u16],
    y_stride: usize,
    chroma_stride: usize,
    x_start: usize,
    y_start: usize,
    width: usize,
    height: usize,
    r_cr: i32,
    g_cb: i32,
    g_cr: i32,
    b_cb: i32,
    channels: usize,
    output: &mut [u8],
)
    requires
        held(
            y_plane@.len() as int,
            cb_plane@.len() as int,
            cr_plane@.len() as int,
            y_stride as int,
            chroma_stride as int,
            2,
            2,
            x_start as int,
            y_start as int,
            width as int,
            height as int,
            channels as int,
            old(output)@.len() as int,
        ),
    ensures
        call_requires(
            convert_420_8bit_region_to_interleaved_neon,
            (
                y_plane,
                cb_plane,
                cr_plane,
                y_stride,
                chroma_stride,
                x_start,
                y_start,
                width,
                height,
                r_cr,
                g_cb,
                g_cr,
                b_cb,
                channels,
                output,
            ),
        ),
{
    assert(output.len() == output@.len());
    lemma_held_fits(
        y_plane,
        cb_plane,
        cr_plane,
        y_stride,
        chroma_stride,
        2,
        2,
        x_start,
        y_start,
        width,
        height,
        channels,
        output.len(),
    );
    lemma_fits_readable(
        layout_of(y_stride, chroma_stride, 2, 2, x_start, y_start, width, height),
        planes_of(y_plane, cb_plane, cr_plane),
        channels as int,
        output@.len() as int,
    );
}

/// The matrix conversion to 8-bit pixels takes every rectangle that planes and output hold.
pub proof fn law_matrix_8bit_takes_what_is_held<M: Fn(u16, u16, u16) -> (i32, i32, i32)>(
    y_plane: &[u16],
    cb_plane: &[u16],
    cr_plane: &[u16],
    y_stride: usize,
    chroma_stride: usize,
    subsample_x: usize,
    subsample_y: usize,
    x_start: usize,
    y_start: usize,
    width: usize,
    height: usize,
    matrix: &M,
    neon_safe: bool,
    channels: usize,
    output: &mut [u8],
)
    requires
        held(
            y_plane@.len() as int,
            cb_plane@.len() as int,
            cr_plane@.len() as int,
            y_stride as int,
            chroma_stride as int,
            subsample_x as int,
            subsample_y as int,
            x_start as int,
            y_start as int,
            width as int,
            height as int,
            channels as int,
            old(output)@.len() as int,
        ),
        forall|y: u16, cb: u16, cr: u16| call_requires(matrix, (y, cb, cr)),
    ensures
        call_requires(
            convert_float_matrix_8bit_region_to_interleaved::<M>,
            (
                y_plane,
                cb_plane,
                cr_plane,
                y_stride,
                chroma_stride,
                subsample_x,
                subsample_y,
                x_start,
                y_start,
                width,
                height,
                matrix,
                neon_safe,
                channels,
                output,
            ),
        ),
{
    assert(output.len() == output@.len());
    lemma_held_fits(
        y_plane,
        cb_plane,
        cr_plane,
        y_stride,
        chroma_stride,
        subsample_x,
        subsample_y,
        x_start,
        y_start,
        width,
        height,
        channels,
        output.len(),
    );
    lemma_fits_readable(
        layout_of(
            y_stride,
            chroma_stride,
            subsample_x,
            subsample_y,
            x_start,
            y_start,
            width,
            height,
        ),
        planes_of(y_plane, cb_plane, cr_plane),
        channels as int,
        output@.len() as int,
    );
}

/// The matrix conversion to 8-bit pixels one by one takes every rectangle that planes and
/// output hold.
pub proof fn law_matrix_8bit_scalar_takes_what_is_held<M: Fn(u16, u16, u16) -> (i32, i32, i32)>(
    y_plane: &[u16],
    cb_plane: &[u16],
    cr_plane: &[u16],
    y_stride: usize,
    chroma_stride: usize,
    subsample_x: usize,
    subsample_y: usize,
    x_start: usize,
    y_start: usize,
    width: usize,
    height: usize,
    matrix: &M,
    channels: usize,
    output: &mut [u8],
)
    requires
        held(
            y_plane@.len() as int,
            cb_plane@.len() as int,
            cr_plane@.len() as int,
            y_stride as int,
            chroma_stride as int,
            subsample_x as int,
            subsample_y as int,
            x_start as int,
            y_start as int,
            width as int,
            height as int,
            channels as int,
            old(output)@.len() as int,
        ),
        forall|y: u16, cb: u16, cr: u16| call_requires(matrix, (y, cb, cr)),
    ensures
        call_requires(
            convert_float_matrix_8bit_region_to_interleaved_scalar::<M>,
            (
                y_plane,
                cb_plane,
                cr_plane,
                y_stride,
                chroma_stride,
                subsample_x,
                subsample_y,
                x_start,
                y_start,
                width,
                height,
                matrix,
                channels,
                output,
            ),
        ),
{
    assert(output.len() == output@.len());
    lemma_held_fits(
        y_plane,
        cb_plane,
        cr_plane,
        y_stride,
        chroma_stride,
        subsample_x,
        subsample_y,
        x_start,
        y_start,
        width,
        height,
        channels,
        output.len(),
    );
    lemma_fits_readable(
        layout_of(
            y_stride,
            chroma_stride,
            subsample_x,
            subsample_y,
            x_start,
            y_start,
            width,
            height,
        ),
        planes_of(y_plane, cb_plane, cr_plane),
        channels as int,
        output@.len() as int,
    );
}

/// The matrix conversion to 8-bit pixels in groups takes every rectangle that planes and output
/// hold.
pub proof fn law_matrix_8bit_neon_takes_what_is_held<M: Fn(u16, u16, u16) -> (i32, i32, i32)>(
    y_plane: &[u16],
    cb_plane: &[u16],
    cr_plane: &[u16],
    y_stride: usize,
    chroma_stride: usize,
    subsample_x: usize,
    subsample_y: usize,
    x_start: usize,
    y_start: usize,
    width: usize,
    height: usize,
    matrix: &M,
    neon_safe: bool,
    channels: usize,
    output: &mut [u8],
)
    requires
        held(
            y_plane@.len() as int,
            cb_plane@.len() as int,
            cr_plane@.len() as int,
            y_stride as int,
            chroma_stride as int,
            subsample_x as int,
            subsample_y as int,
            x_start as int,
            y_start as int,
            width as int,
            height as int,
            channels as int,
            old(output)@.len() as int,
        ),
        forall|y: u16, cb: u16, cr: u16| call_requires(matrix, (y, cb, cr)),
    ensures
        call_requires(
            convert_float_matrix_8bit_region_to_interleaved_neon::<M>,
            (
                y_plane,
                cb_plane,
                cr_plane,
                y_stride,
                chroma_stride,
                subsample_x,
                subsample_y,
                x_start,
                y_start,
                width,
                height,
                matrix,
                neon_safe,
                channels,
                output,
            ),
        ),
{
    assert(output.len() == output@.len());
    lemma_held_fits(
        y_plane,
        cb_plane,
        cr_plane,
        y_stride,
        chroma_stride,
        subsample_x,
        subsample_y,
        x_start,
        y_start,
        width,
        height,
        channels,
        output.len(),
    );
    lemma_fits_readable(
        layout_of(
            y_stride,
            chroma_stride,
            subsample_x,
            subsample_y,
            x_start,
            y_start,
            width,
            height,
        ),
        planes_of(y_plane, cb_plane, cr_plane),
        channels as int,
        output@.len() as int,
    );
}

/// The matrix conversion to 16-bit pixels takes every rectangle that planes and output hold.
pub proof fn law_matrix_rgba16_takes_what_is_held<M: Fn(u16, u16, u16) -> (i32, i32, i32)>(
    y_plane: &[u16],
    cb_plane: &[u16],
    cr_plane: &[u16],
    y_stride: usize,
    chroma_stride: usize,
    subsample_x: usize,
    subsample_y: usize,
    x_start: usize,
    y_start: usize,
    width: usize,
    height: usize,
    bit_depth: u8,
    matrix: &M,
    neon_safe: bool,
    output: &mut [u16],
)
    requires
        held(
            y_plane@.len() as int,
            cb_plane@.len() as int,
            cr_plane@.len() as int,
            y_stride as int,
            chroma_stride as int,
            subsample_x as int,
            subsample_y as int,
            x_start as int,
            y_start as int,
            width as int,
            height as int,
            4,
            old(output)@.len() as int,
        ),
        forall|y: u16, cb: u16, cr: u16| call_requires(matrix, (y, cb, cr)),
        1 <= bit_depth <= 16,
    ensures
        call_requires(
            convert_float_matrix_region_to_rgba16::<M>,
            (
                y_plane,
                cb_plane,
                cr_plane,
                y_stride,
                chroma_stride,
                subsample_x,
                subsample_y,
                x_start,
                y_start,
                width,
                height,
                bit_depth,
                matrix,
                neon_safe,
                output,
            ),
        ),
{
    assert(output.len() == output@.len());
    lemma_held_fits(
        y_plane,
        cb_plane,
        cr_plane,
        y_stride,
        chroma_stride,
        subsample_x,
        subsample_y,
        x_start,
        y_start,
        width,
        height,
        4,
        output.len(),
    );
    lemma_fits_readable(
        layout_of(
            y_stride,
            chroma_stride,
            subsample_x,
            subsample_y,
            x_start,
            y_start,
            width,
            height,
        ),
        planes_of(y_plane, cb_plane, cr_plane),
        4,
        output@.len() as int,
    );
}

/// The matrix conversion to 16-bit pixels one by one takes every rectangle that planes and
/// output hold.
pub proof fn law_matrix_rgba16_scalar_takes_what_is_held<M: Fn(u16, u16, u16) -> (i32, i32, i32)>(
    y_plane: &[u16],
    cb_plane: &[u16],
    cr_plane: &[u16],
    y_stride: usize,
    chroma_stride: usize,
    subsample_x: usize,
    subsample_y: usize,
    x_start: usize,
    y_start: usize,
    width: usize,
    height: usize,
    bit_depth: u8,
    matrix: &M,
    output: &mut [u16],
)
    requires
        held(
            y_plane@.len() as int,
            cb_plane@.len() as int,
            cr_plane@.len() as int,
            y_stride as int,
            chroma_stride as int,
            subsample_x as int,
            subsample_y as int,
            x_start as int,
            y_start as int,
            width as int,
            height as int,
            4,
            old(output)@.len() as int,
        ),
        forall|y: u16, cb: u16, cr: u16| call_requires(matrix, (y, cb, cr)),
        1 <= bit_depth <= 16,
    ensures
        call_requires(
            convert_float_matrix_region_to_rgba16_scalar::<M>,
            (
                y_plane,
                cb_plane,
                cr_plane,
                y_stride,
                chroma_stride,
                subsample_x,
                subsample_y,
                x_start,
                y_start,
                width,
                height,
                bit_depth,
                matrix,
                output,
            ),
        ),
{
    assert(output.len() == output@.len());
    lemma_held_fits(
        y_plane,
        cb_plane,
        cr_plane,
        y_stride,
        chroma_stride,
        subsample_x,
        subsample_y,
        x_start,
        y_start,
        width,
        height,
        4,
        output.len(),
    );
    lemma_fits_readable(
        layout_of(
            y_stride,
            chroma_stride,
            subsample_x,
            subsample_y,
            x_start,
            y_start,
            width,
            height,
        ),
        planes_of(y_plane, cb_plane, cr_plane),
        4,
        output@.len() as int,
    );
}

/// The matrix conversion to 16-bit pixels in groups takes every rectangle that planes and output
/// hold.
pub proof fn law_matrix_rgba16_neon_takes_what_is_held<M: Fn(u16, u16, u16) -> (i32, i32, i32)>(
    y_plane: &[u16],
    cb_plane: &[u16],
    cr_plane: &[u16],
    y_stride: usize,
    chroma_stride: usize,
    subsample_x: usize,
    subsample_y: usize,
    x_start: usize,
    y_start: usize,
    width: usize,
    height: usize,
    bit_depth: u8,
    matrix: &M,
    neon_safe: bool,
    output: &mut [u16],
)
    requires
        held(
            y_plane@.len() as int,
            cb_plane@.len() as int,
            cr_plane@.len() as int,
            y_stride as int,
            chroma_stride as int,
            subsample_x as int,
            subsample_y as int,
            x_start as int,
            y_start as int,
            width as int,
            height as int,
            4,
            old(output)@.len() as int,
        ),
        forall|y: u16, cb: u16, cr: u16| call_requires(matrix, (y, cb, cr)),
        1 <= bit_depth <= 16,
    ensures
        call_requires(
            convert_float_matrix_region_to_rgba16_neon::<M>,
            (
                y_plane,
                cb_plane,
                cr_plane,
                y_stride,
                chroma_stride,
                subsample_x,
                subsample_y,
                x_start,
                y_start,
                width,
                height,
                bit_depth,
                matrix,
                neon_safe,
                output,
            ),
        ),
{
    assert(output.len() == output@.len());
    lemma_held_fits(
        y_plane,
        cb_plane,
        cr_plane,
        y_stride,
        chroma_stride,
        subsample_x,
        subsample_y,
        x_start,
        y_start,
        width,
        height,
        4,
        output.len(),
    );
    lemma_fits_readable(
        layout_of(
            y_stride,
            chroma_stride,
            subsample_x,
            subsample_y,
            x_start,
            y_start,
            width,
            height,
        ),
        planes_of(y_plane, cb_plane, cr_plane),
        4,
        output@.len() as int,
    );
}

/// The conversion to RGB bytes takes every rectangle whose last samples the planes hold and whose
/// pixels the output has room for, and every rectangle without pixels.
pub proof fn law_420_takes_what_is_held(
    y_plane: &[u16],
    cb_plane: &[u16],
    cr_plane: &[u16],
    y_stride: usize,
    c_stride: usize,
    y_start: u32,
    y_end: u32,
    x_start: u32,
    x_end: u32,
    shift: u32,
    full_range: bool,
    matrix_coeffs: u8,
    rgb: &mut [u8],
)
    requires
        y_start < y_end && x_start < x_end ==> {
            let x = x_end - 1;
            let y = y_end - 1;
            &&& y * y_stride + x < y_plane@.len()
            &&& (y / 2) * c_stride + x / 2 < cb_plane@.len()
            &&& (y / 2) * c_stride + x / 2 < cr_plane@.len()
            &&& shift < 16
            &&& (x_end - x_start) * (y_end - y_start) * 3 <= old(rgb)@.len()
        },
    ensures
        call_requires(
            convert_420_to_rgb,
            (
                y_plane,
                cb_plane,
                cr_plane,
                y_stride,
                c_stride,
                y_start,
                y_end,
                x_start,
                x_end,
                shift,
                full_range,
                matrix_coeffs,
                rgb,
            ),
        ),
{
    let width: int = if x_start < x_end { x_end - x_start } else { 0 };
    let height: int = if y_start < y_end { y_end - y_start } else { 0 };
    if width == 0 || height == 0 {
        assert(0 * height == 0 && width * 0 == 0);
    }
}

/// The conversion to RGB bytes pixel by pixel takes the same rectangles.
pub proof fn law_420_scalar_takes_what_is_held(
    y_plane: &[u16],
    cb_plane: &[u16],
    cr_plane: &[u16],
    y_stride: usize,
    c_stride: usize,
    y_start: u32,
    y_end: u32,
    x_start: u32,
    x_end: u32,
    shift: u32,
    full_range: bool,
    matrix_coeffs: u8,
    rgb: &mut [u8],
)
    requires
        y_start < y_end && x_start < x_end ==> {
            let x = x_end - 1;
            let y = y_end - 1;
            &&& y * y_stride + x < y_plane@.len()
            &&& (y / 2) * c_stride + x / 2 < cb_plane@.len()
            &&& (y / 2) * c_stride + x / 2 < cr_plane@.len()
            &&& shift < 16
            &&& (x_end - x_start) * (y_end - y_start) * 3 <= old(rgb)@.len()
        },
    ensures
        call_requires(
            convert_420_to_rgb_scalar,
            (
                y_plane,
                cb_plane,
                cr_plane,
                y_stride,
                c_stride,
                y_start,
                y_end,
                x_start,
                x_end,
                shift,
                full_range,
                matrix_coeffs,
                rgb,
            ),
        ),
{
    let width: int = if x_start < x_end { x_end - x_start } else { 0 };
    let height: int = if y_start < y_end { y_end - y_start } else { 0 };
    if width == 0 || height == 0 {
        assert(0 * height == 0 && width * 0 == 0);
    }
}

/// The conversion to RGB bytes in groups takes the same rectangles.
pub proof fn law_420_v3_takes_what_is_held(
    y_plane: &[u16],
    cb_plane: &[u16],
    cr_plane: &[u16],
    y_stride: usize,
    c_stride: usize,
    y_start: u32,
    y_end: u32,
    x_start: u32,
    x_end: u32,
    shift: u32,
    full_range: bool,
    matrix_coeffs: u8,
    rgb: &mut [u8],
)
    requires
        y_start < y_end && x_start < x_end ==> {
            let x = x_end - 1;
            let y = y_end - 1;
            &&& y * y_stride + x < y_plane@.len()
            &&& (y / 2) * c_stride + x / 2 < cb_plane@.len()
            &&& (y / 2) * c_stride + x / 2 < cr_plane@.len()
            &&& shift < 16
            &&& (x_end - x_start) * (y_end - y_start) * 3 <= old(rgb)@.len()
        },
    ensures
        call_requires(
            convert_420_to_rgb_v3,
            (
                y_plane,
                cb_plane,
                cr_plane,
                y_stride,
                c_stride,
                y_start,
                y_end,
                x_start,
                x_end,
                shift,
                full_range,
                matrix_coeffs,
                rgb,
            ),
        ),
{
    let width: int = if x_start < x_end { x_end - x_start } else { 0 };
    let height: int = if y_start < y_end { y_end - y_start } else { 0 };
    if width == 0 || height == 0 {
        assert(0 * height == 0 && width * 0 == 0);
    }
}

} // verus!
