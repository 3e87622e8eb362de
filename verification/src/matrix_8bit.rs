//! Conversion through a matrix to 8-bit pixels.
use crate::depth::{clip, sample_max};
use crate::dispatch::neon_available;
use crate::lanes::{
    high_half, join_bytes, lane_pixels, load_8, low_half, store_interleaved, store_interleaved_8,
};
use crate::layout::{
    interleaved, layout_of, lemma_lane, lemma_packed_same, lemma_pixel_number_bound, planes_of,
};
use crate::matrix::{
    clipped, convert_float_matrix_neon_4, convert_float_matrix_pixel, converted, determined,
    determined_output, formed, lane_clipped, lane_result, lemma_progress_complete,
    lemma_progress_one, lemma_progress_start, lemma_progress_step, load_float_matrix_chroma_8,
    progress, total,
};
use crate::region::{lemma_fits_readable, region_fits};
use crate::source::Source;
use vstd::arithmetic::mul::lemma_mul_is_commutative;
use vstd::arithmetic::power2::lemma2_to64;
use vstd::prelude::*;

verus! {

/// How 8-bit output stores a result of the matrix: clipped to eight bits, and in
/// four-channel output with an opaque alpha.
pub open spec fn form_8bit(channels: int) -> spec_fn((i32, i32, i32)) -> Seq<u8> {
    |raw: (i32, i32, i32)|
        {
            let rgb = clipped(raw, 8);
            interleaved((rgb.0 as u8, rgb.1 as u8, rgb.2 as u8), channels)
        }
}

/// Converts the pixels in columns `from..to` of row `row` of a rectangle, where all
/// pixels before them are stored already.
fn write_8bit_span<M: Fn(u16, u16, u16) -> (i32, i32, i32)>(
    source: &Source,
    row: usize,
    from: usize,
    to: usize,
    matrix: &M,
    channels: usize,
    output: &mut [u8],
    Ghost(before): Ghost<Seq<u8>>,
    Ghost(raws): Ghost<Seq<(i32, i32, i32)>>,
) -> (extended: Ghost<Seq<(i32, i32, i32)>>)
    requires
        source.wf(),
        total(matrix),
        channels == 3 || channels == 4,
        row < source.height,
        from <= to <= source.width,
        raws.len() == row * source.width + from,
        progress(
            matrix,
            source,
            channels as int,
            form_8bit(channels as int),
            before,
            old(output)@,
            raws,
        ),
    ensures
        extended@.len() == row * source.width + to,
        progress(
            matrix,
            source,
            channels as int,
            form_8bit(channels as int),
            before,
            final(output)@,
            extended@,
        ),
{
    let ghost mut results = raws;
    let mut col: usize = from;
    while col < to
        invariant
            source.wf(),
            total(matrix),
            channels == 3 || channels == 4,
            row < source.height,
            from <= col <= to <= source.width,
            results.len() == row * source.width + col,
            progress(
                matrix,
                source,
                channels as int,
                form_8bit(channels as int),
                before,
                output@,
                results,
            ),
        decreases to - col,
    {
        let length: usize = output.len();
        let (y, cb, cr): (u16, u16, u16) = source.samples(row, col);
        let rgb: (u16, u16, u16) = convert_float_matrix_pixel(y, cb, cr, 8, matrix);
        let at: usize = source.packed_index(row, col, channels, length);
        let ghost raw = choose|raw: (i32, i32, i32)| #[trigger]
            call_ensures(matrix, (y, cb, cr), raw) && rgb == clipped(raw, 8);
        proof {
            lemma_pixel_number_bound(
                source.width as int,
                source.height as int,
                row as int,
                col as int,
            );
            lemma_progress_one(
                matrix,
                source,
                channels as int,
                form_8bit(channels as int),
                before,
                output@,
                results,
                raw,
            );
        }
        store_interleaved((rgb.0 as u8, rgb.1 as u8, rgb.2 as u8), channels, output, at);
        proof {
            results = results.push(raw);
        }
        col = col + 1;
    }
    Ghost(results)
}

/// The bytes of eight pixels and the results of the matrix that they come from.
fn convert_8bit_lanes<M: Fn(u16, u16, u16) -> (i32, i32, i32)>(
    y: [u16; 8],
    cb: [u16; 8],
    cr: [u16; 8],
    matrix: &M,
) -> (rgb: ([u8; 8], [u8; 8], [u8; 8], Ghost<Seq<(i32, i32, i32)>>))
    requires
        total(matrix),
    ensures
        rgb.3@.len() == 8,
        forall|lane: int|
            0 <= lane < 8 ==> {
                &&& call_ensures(matrix, (y@[lane], cb@[lane], cr@[lane]), #[trigger] rgb.3@[lane])
                &&& rgb.0@[lane] == clip(rgb.3@[lane].0, 8) as u8
                &&& rgb.1@[lane] == clip(rgb.3@[lane].1, 8) as u8
                &&& rgb.2@[lane] == clip(rgb.3@[lane].2, 8) as u8
            },
{
    let (r_low, g_low, b_low): ([i32; 4], [i32; 4], [i32; 4]) = convert_float_matrix_neon_4(
        low_half(y),
        low_half(cb),
        low_half(cr),
        matrix,
        255,
    );
    let (r_high, g_high, b_high): ([i32; 4], [i32; 4], [i32; 4]) = convert_float_matrix_neon_4(
        high_half(y),
        high_half(cb),
        high_half(cr),
        matrix,
        255,
    );
    let ghost clamped = |lane: int|
        if lane < 4 {
            (r_low@[lane], g_low@[lane], b_low@[lane])
        } else {
            (r_high@[lane - 4], g_high@[lane - 4], b_high@[lane - 4])
        };
    let ghost results = Seq::new(
        8,
        |lane: int|
            choose|raw: (i32, i32, i32)| #[trigger]
                lane_result(matrix, (y@[lane], cb@[lane], cr@[lane]), 255, raw, clamped(lane)),
    );
    proof {
        lemma2_to64();
        assert(sample_max(8) == 255);
        assert forall|lane: int| 0 <= lane < 8 implies #[trigger] lane_result(
            matrix,
            (y@[lane], cb@[lane], cr@[lane]),
            255,
            results[lane],
            clamped(lane),
        ) by {
            if lane >= 4 {
                assert(r_high@[lane - 4] == clamped(lane).0);
            }
            assert(lane_clipped(matrix, (y@[lane], cb@[lane], cr@[lane]), 255, clamped(lane)));
        }
    }
    (
        join_bytes(r_low, r_high),
        join_bytes(g_low, g_high),
        join_bytes(b_low, b_high),
        Ghost(results),
    )
}

/// Converts the eight pixels from column `col` of row `row` of a rectangle on, where all
/// pixels before them are stored already.
fn write_8bit_group<M: Fn(u16, u16, u16) -> (i32, i32, i32)>(
    source: &Source,
    row: usize,
    col: usize,
    matrix: &M,
    channels: usize,
    output: &mut [u8],
    Ghost(before): Ghost<Seq<u8>>,
    Ghost(raws): Ghost<Seq<(i32, i32, i32)>>,
) -> (extended: Ghost<Seq<(i32, i32, i32)>>)
    requires
        source.wf(),
        total(matrix),
        channels == 3 || channels == 4,
        row < source.height,
        col + 8 <= source.width,
        (source.x_start + col) as int % source.subsample_x as int == 0,
        raws.len() == row * source.width + col,
        progress(
            matrix,
            source,
            channels as int,
            form_8bit(channels as int),
            before,
            old(output)@,
            raws,
        ),
    ensures
        extended@.len() == row * source.width + (col + 8),
        progress(
            matrix,
            source,
            channels as int,
            form_8bit(channels as int),
            before,
            final(output)@,
            extended@,
        ),
{
    let length: usize = output.len();
    let ghost p = row * source.width + col;
    let (luma, chroma): (usize, usize) = source.indices(row, col);
    let (last_luma, last_chroma): (usize, usize) = source.indices(row, col + 7);
    proof {
        lemma_pixel_number_bound(
            source.width as int,
            source.height as int,
            row as int,
            col + 7,
        );
        assert forall|lane: int| 0 <= lane < 8 implies {
            &&& #[trigger] source.layout().luma_index(p + lane) == luma + lane
            &&& source.layout().chroma_index(p + lane) == chroma + lane / (
            source.subsample_x as int)
        } by {
            lemma_lane(source.layout(), row as int, col as int, lane);
        }
        assert(source.layout().luma_index(p + 7) == last_luma);
    }
    let y: [u16; 8] = load_8(source.y_plane, luma);
    let cb: [u16; 8] = load_float_matrix_chroma_8(source.cb_plane, chroma, source.subsample_x);
    let cr: [u16; 8] = load_float_matrix_chroma_8(source.cr_plane, chroma, source.subsample_x);
    let (r, g, b, results): (
        [u8; 8],
        [u8; 8],
        [u8; 8],
        Ghost<Seq<(i32, i32, i32)>>,
    ) = convert_8bit_lanes(y, cb, cr, matrix);
    let at: usize = source.packed_index(row, col, channels, length);
    let ghost more = results@;
    proof {
        assert forall|lane: int| 0 <= lane < 8 implies call_ensures(
            matrix,
            source.planes().samples(source.layout(), raws.len() + lane),
            #[trigger] more[lane],
        ) by {
            assert(source.layout().luma_index(p + lane) == luma + lane);
            assert(source.planes().samples(source.layout(), p + lane) == (
                y@[lane],
                cb@[lane],
                cr@[lane],
            ));
        }
        lemma_packed_same(
            8,
            channels as int,
            formed(more, form_8bit(channels as int)),
            lane_pixels(r, g, b, channels as int),
        );
        lemma_progress_step(
            matrix,
            source,
            channels as int,
            form_8bit(channels as int),
            before,
            output@,
            raws,
            more,
        );
    }
    store_interleaved_8(r, g, b, channels, output, at);
    Ghost(raws + more)
}

/// Converts row `row` of a rectangle, the columns `group_start..group_end` of it in groups
/// of eight pixels, where all rows before it are stored already.
fn write_8bit_row<M: Fn(u16, u16, u16) -> (i32, i32, i32)>(
    source: &Source,
    row: usize,
    group_start: usize,
    group_end: usize,
    matrix: &M,
    channels: usize,
    output: &mut [u8],
    Ghost(before): Ghost<Seq<u8>>,
    Ghost(raws): Ghost<Seq<(i32, i32, i32)>>,
) -> (extended: Ghost<Seq<(i32, i32, i32)>>)
    requires
        source.wf(),
        total(matrix),
        channels == 3 || channels == 4,
        row < source.height,
        group_start <= group_end <= source.width,
        (group_end - group_start) % 8 == 0,
        group_start < group_end ==> (source.x_start + group_start) as int
            % source.subsample_x as int == 0,
        raws.len() == row * source.width,
        progress(
            matrix,
            source,
            channels as int,
            form_8bit(channels as int),
            before,
            old(output)@,
            raws,
        ),
    ensures
        extended@.len() == (row + 1) * source.width,
        progress(
            matrix,
            source,
            channels as int,
            form_8bit(channels as int),
            before,
            final(output)@,
            extended@,
        ),
{
    let prefix: Ghost<Seq<(i32, i32, i32)>> = write_8bit_span(
        source,
        row,
        0,
        group_start,
        matrix,
        channels,
        output,
        Ghost(before),
        Ghost(raws),
    );
    let ghost mut results = prefix@;
    let mut col: usize = group_start;
    while col < group_end
        invariant
            source.wf(),
            total(matrix),
            channels == 3 || channels == 4,
            row < source.height,
            group_start <= col <= group_end <= source.width,
            (group_end - col) % 8 == 0,
            col < group_end ==> (source.x_start + col) as int % source.subsample_x as int == 0,
            results.len() == row * source.width + col,
            progress(
                matrix,
                source,
                channels as int,
                form_8bit(channels as int),
                before,
                output@,
                results,
            ),
        decreases group_end - col,
    {
        let group: Ghost<Seq<(i32, i32, i32)>> = write_8bit_group(
            source,
            row,
            col,
            matrix,
            channels,
            output,
            Ghost(before),
            Ghost(results),
        );
        proof {
            results = group@;
            if source.subsample_x == 2 {
                assert((source.x_start + col + 8) % 2 == 0);
            } else {
                assert((source.x_start + col + 8) % 1 == 0);
            }
        }
        col = col + 8;
    }
    let rest: Ghost<Seq<(i32, i32, i32)>> = write_8bit_span(
        source,
        row,
        group_end,
        source.width,
        matrix,
        channels,
        output,
        Ghost(before),
        Ghost(results),
    );
    assert(row * source.width + source.width == (row + 1) * source.width) by (nonlinear_arith);
    rest
}

/// Converts a rectangle to 8-bit pixels one by one. What `output` holds beyond the
/// converted pixels stays as it is.
pub fn convert_float_matrix_8bit_region_to_interleaved_scalar<
    M: Fn(u16, u16, u16) -> (i32, i32, i32),
>(
    y_plane: &[u16],
    cb_plane: &[u16],
    cr_plane: &[u16],
    y_stride: usize,
    chroma_stride: usize,
    subsample_x: usize,
    subsample_y: usize,
    x_start: usize,
    y_start: usize,
    width: usize,
    height: usize,
    matrix: &M,
    channels: usize,
    output: &mut [u8],
)
    requires
        total(matrix),
        channels == 3 || channels == 4,
        1 <= subsample_x <= 2,
        1 <= subsample_y <= 2,
        layout_of(
            y_stride,
            chroma_stride,
            subsample_x,
            subsample_y,
            x_start,
            y_start,
            width,
            height,
        ).readable(planes_of(y_plane, cb_plane, cr_plane)),
        height > 0 ==> y_start + height - 1 <= usize::MAX,
        width * height * channels <= old(output)@.len(),
    ensures
        converted(
            matrix,
            layout_of(
                y_stride,
                chroma_stride,
                subsample_x,
                subsample_y,
                x_start,
                y_start,
                width,
                height,
            ),
            planes_of(y_plane, cb_plane, cr_plane),
            channels as int,
            form_8bit(channels as int),
            final(output)@.take(width * height * channels),
        ),
        determined(matrix) ==> final(output)@.take(width * height * channels) == determined_output(
            matrix,
            layout_of(
                y_stride,
                chroma_stride,
                subsample_x,
                subsample_y,
                x_start,
                y_start,
                width,
                height,
            ),
            planes_of(y_plane, cb_plane, cr_plane),
            channels as int,
            form_8bit(channels as int),
        ),
        final(output)@.skip(width * height * channels) == old(output)@.skip(
            width * height * channels,
        ),
        final(output)@.len() == old(output)@.len(),
{
    let source = Source {
        y_plane,
        cb_plane,
        cr_plane,
        y_stride,
        chroma_stride,
        subsample_x,
        subsample_y,
        x_start,
        y_start,
        width,
        height,
    };
    let ghost before = output@;
    let ghost mut raws = Seq::<(i32, i32, i32)>::empty();
    proof {
        lemma_progress_start(matrix, &source, channels as int, form_8bit(channels as int), before);
    }
    for output_y in 0..height
        invariant
            source.wf(),
            source.width == width,
            source.height == height,
            total(matrix),
            channels == 3 || channels == 4,
            raws.len() == output_y * width,
            progress(
                matrix,
                &source,
                channels as int,
                form_8bit(channels as int),
                before,
                output@,
                raws,
            ),
    {
        let extended: Ghost<Seq<(i32, i32, i32)>> = write_8bit_span(
            &source,
            output_y,
            0,
            width,
            matrix,
            channels,
            output,
            Ghost(before),
            Ghost(raws),
        );
        proof {
            raws = extended@;
        }
        assert(output_y * width + width == (output_y + 1) * width) by (nonlinear_arith);
    }
    proof {
        lemma_mul_is_commutative(width as int, height as int);
        lemma_progress_complete(
            matrix,
            &source,
            channels as int,
            form_8bit(channels as int),
            before,
            output@,
            raws,
        );
    }
}

/// Converts a rectangle to 8-bit pixels eight at a time. A first pixel within a chroma
/// sample and a rest of fewer than eight pixels are converted one by one, and so is
/// everything where `neon_safe` is not set. What `output` holds beyond the converted
/// pixels stays as it is.
pub fn convert_float_matrix_8bit_region_to_interleaved_neon<
    M: Fn(u16, u16, u16) -> (i32, i32, i32),
>(
    y_plane: &[u16],
    cb_plane: &[u16],
    cr_plane: &[u16],
    y_stride: usize,
    chroma_stride: usize,
    subsample_x: usize,
    subsample_y: usize,
    x_start: usize,
    y_start: usize,
    width: usize,
    height: usize,
    matrix: &M,
    neon_safe: bool,
    channels: usize,
    output: &mut [u8],
)
    requires
        total(matrix),
        channels == 3 || channels == 4,
        1 <= subsample_x <= 2,
        1 <= subsample_y <= 2,
        layout_of(
            y_stride,
            chroma_stride,
            subsample_x,
            subsample_y,
            x_start,
            y_start,
            width,
            height,
        ).readable(planes_of(y_plane, cb_plane, cr_plane)),
        height > 0 ==> y_start + height - 1 <= usize::MAX,
        width * height * channels <= old(output)@.len(),
    ensures
        converted(
            matrix,
            layout_of(
                y_stride,
                chroma_stride,
                subsample_x,
                subsample_y,
                x_start,
                y_start,
                width,
                height,
            ),
            planes_of(y_plane, cb_plane, cr_plane),
            channels as int,
            form_8bit(channels as int),
            final(output)@.take(width * height * channels),
        ),
        determined(matrix) ==> final(output)@.take(width * height * channels) == determined_output(
            matrix,
            layout_of(
                y_stride,
                chroma_stride,
                subsample_x,
                subsample_y,
                x_start,
                y_start,
                width,
                height,
            ),
            planes_of(y_plane, cb_plane, cr_plane),
            channels as int,
            form_8bit(channels as int),
        ),
        final(output)@.skip(width * height * channels) == old(output)@.skip(
            width * height * channels,
        ),
        final(output)@.len() == old(output)@.len(),
{
    if !neon_safe {
        convert_float_matrix_8bit_region_to_interleaved_scalar(
            y_plane,
            cb_plane,
            cr_plane,
            y_stride,
            chroma_stride,
            subsample_x,
            subsample_y,
            x_start,
            y_start,
            width,
            height,
            matrix,
            channels,
            output,
        );
        return;
    }
    let source = Source {
        y_plane,
        cb_plane,
        cr_plane,
        y_stride,
        chroma_stride,
        subsample_x,
        subsample_y,
        x_start,
        y_start,
        width,
        height,
    };
    let group_start: usize = source.group_start();
    let group_end: usize = group_start + (width - group_start) / 8 * 8;
    let ghost before = output@;
    let ghost mut raws = Seq::<(i32, i32, i32)>::empty();
    proof {
        lemma_progress_start(matrix, &source, channels as int, form_8bit(channels as int), before);
    }
    for output_y in 0..height
        invariant
            source.wf(),
            source.subsample_x == subsample_x,
            source.x_start == x_start,
            source.width == width,
            source.height == height,
            total(matrix),
            channels == 3 || channels == 4,
            group_start <= group_end <= width,
            (group_end - group_start) % 8 == 0,
            group_start < group_end ==> (x_start + group_start) as int % subsample_x as int == 0,
            raws.len() == output_y * width,
            progress(
                matrix,
                &source,
                channels as int,
                form_8bit(channels as int),
                before,
                output@,
                raws,
            ),
    {
        let extended: Ghost<Seq<(i32, i32, i32)>> = write_8bit_row(
            &source,
            output_y,
            group_start,
            group_end,
            matrix,
            channels,
            output,
            Ghost(before),
            Ghost(raws),
        );
        proof {
            raws = extended@;
        }
    }
    proof {
        lemma_mul_is_commutative(width as int, height as int);
        lemma_progress_complete(
            matrix,
            &source,
            channels as int,
            form_8bit(channels as int),
            before,
            output@,
            raws,
        );
    }
}

/// Converts a rectangle of planes to 8-bit RGB or RGBA pixels.
///
/// The rectangle is given in the coordinates of the whole planes, so an odd `x_start`
/// keeps the chroma phase of the picture. The result is tightly packed and fills
/// `output`. `neon_safe` tells whether pixels may be converted in groups where the
/// processor offers it; what is stored is a result of the matrix either way, and the
/// same one where the matrix is a function of its samples.
pub fn convert_float_matrix_8bit_region_to_interleaved<
    M: Fn(u16, u16, u16) -> (i32, i32, i32),
>(
    y_plane: &[u16],
    cb_plane: &[u16],
    cr_plane: &[u16],
    y_stride: usize,
    chroma_stride: usize,
    subsample_x: usize,
    subsample_y: usize,
    x_start: usize,
    y_start: usize,
    width: usize,
    height: usize,
    matrix: &M,
    neon_safe: bool,
    channels: usize,
    output: &mut [u8],
)
    requires
        total(matrix),
        region_fits(
            layout_of(
                y_stride,
                chroma_stride,
                subsample_x,
                subsample_y,
                x_start,
                y_start,
                width,
                height,
            ),
            planes_of(y_plane, cb_plane, cr_plane),
            channels as int,
            old(output)@.len() as int,
        ),
    ensures
        final(output)@.len() == old(output)@.len(),
        converted(
            matrix,
            layout_of(
                y_stride,
                chroma_stride,
                subsample_x,
                subsample_y,
                x_start,
                y_start,
                width,
                height,
            ),
            planes_of(y_plane, cb_plane, cr_plane),
            channels as int,
            form_8bit(channels as int),
            final(output)@,
        ),
        determined(matrix) ==> final(output)@ == determined_output(
            matrix,
            layout_of(
                y_stride,
                chroma_stride,
                subsample_x,
                subsample_y,
                x_start,
                y_start,
                width,
                height,
            ),
            planes_of(y_plane, cb_plane, cr_plane),
            channels as int,
            form_8bit(channels as int),
        ),
{
    proof {
        lemma_fits_readable(
            layout_of(
                y_stride,
                chroma_stride,
                subsample_x,
                subsample_y,
                x_start,
                y_start,
                width,
                height,
            ),
            planes_of(y_plane, cb_plane, cr_plane),
            channels as int,
            output@.len() as int,
        );
    }
    if neon_available() {
        convert_float_matrix_8bit_region_to_interleaved_neon(
            y_plane,
            cb_plane,
            cr_plane,
            y_stride,
            chroma_stride,
            subsample_x,
            subsample_y,
            x_start,
            y_start,
            width,
            height,
            matrix,
            neon_safe,
            channels,
            output,
        );
    } else {
        convert_float_matrix_8bit_region_to_interleaved_scalar(
            y_plane,
            cb_plane,
            cr_plane,
            y_stride,
            chroma_stride,
            subsample_x,
            subsample_y,
            x_start,
            y_start,
            width,
            height,
            matrix,
            channels,
            output,
        );
    }
    proof {
        assert(output@.take(output@.len() as int) =~= output@);
    }
}

} // verus!
