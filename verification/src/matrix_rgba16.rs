//! Conversion through a matrix to 16-bit pixels.
use crate::depth::{clip, expanded, max_sample, scale_float_matrix_sample_to_u16};
use crate::dispatch::neon_available;
use crate::lanes::load_4;
use crate::layout::{
    layout_of, lemma_lane, lemma_packed_same, lemma_pixel_number_bound, overwritten, packed,
    planes_of,
};
use crate::matrix::{
    clipped, convert_float_matrix_neon_4, convert_float_matrix_pixel, converted, determined,
    determined_output, formed, lane_clipped, lane_result, lemma_progress_complete,
    lemma_progress_one, lemma_progress_start, lemma_progress_step, load_float_matrix_chroma_4,
    progress, total,
};
use crate::region::{lemma_fits_readable, region_fits};
use crate::source::Source;
use vstd::arithmetic::mul::lemma_mul_is_commutative;
use vstd::prelude::*;

verus! {

/// The channels of one 16-bit pixel as they are stored: red, green, blue and an opaque
/// alpha.
pub open spec fn rgba16(rgb: (u16, u16, u16)) -> Seq<u16> {
    seq![rgb.0, rgb.1, rgb.2, u16::MAX]
}

/// How 16-bit output stores a result of the matrix: clipped to the depth of the source,
/// expanded to sixteen bits, with an opaque alpha.
pub open spec fn form_rgba16(bit_depth: u8) -> spec_fn((i32, i32, i32)) -> Seq<u16> {
    |raw: (i32, i32, i32)|
        {
            let rgb = clipped(raw, bit_depth as int);
            rgba16(
                (
                    expanded(rgb.0, bit_depth),
                    expanded(rgb.1, bit_depth),
                    expanded(rgb.2, bit_depth),
                ),
            )
        }
}

/// The stored form of each of four pixels.
pub open spec fn lane_pixels_rgba16(r: [u16; 4], g: [u16; 4], b: [u16; 4]) -> spec_fn(
    int,
) -> Seq<u16> {
    |lane: int| rgba16((r@[lane], g@[lane], b@[lane]))
}

/// Stores one pixel from index `at` of `output` on.
fn store_rgba16(rgb: (u16, u16, u16), output: &mut [u16], at: usize)
    requires
        at + 4 <= old(output)@.len(),
    ensures
        final(output)@ == overwritten(old(output)@, at as int, rgba16(rgb)),
{
    assert(output.len() == output@.len());
    output[at] = rgb.0;
    output[at + 1] = rgb.1;
    output[at + 2] = rgb.2;
    output[at + 3] = u16::MAX;
}

/// Stores four pixels one after another from index `at` of `output` on.
fn store_rgba16_4(r: [u16; 4], g: [u16; 4], b: [u16; 4], output: &mut [u16], at: usize)
    requires
        at + 16 <= old(output)@.len(),
    ensures
        final(output)@ == overwritten(
            old(output)@,
            at as int,
            packed(4, 4, lane_pixels_rgba16(r, g, b)),
        ),
{
    let length: usize = output.len();
    let ghost before = output@;
    let ghost pixels = packed(4, 4, lane_pixels_rgba16(r, g, b));
    for lane in 0..4usize
        invariant
            at + 16 <= length,
            output@.len() == before.len() == length,
            pixels == packed(4, 4, lane_pixels_rgba16(r, g, b)),
            forall|i: int| 0 <= i < lane * 4 ==> output@[at + i] == pixels[i],
            forall|i: int| 0 <= i < length && !(at <= i < at + lane * 4) ==> output@[i]
                == before[i],
    {
        store_rgba16((r[lane], g[lane], b[lane]), output, at + lane * 4);
    }
    assert(output@ =~= overwritten(before, at as int, pixels));
}

/// Expands four samples to sixteen bits.
pub fn scale_float_matrix_neon_to_u16(values: [i32; 4], bit_depth: u8) -> (wide: [u16; 4])
    requires
        forall|lane: int| 0 <= lane < 4 ==> 0 <= #[trigger] values@[lane] <= 0xffff,
    ensures
        forall|lane: int|
            0 <= lane < 4 ==> wide@[lane] == expanded(values@[lane] as u16, bit_depth),
{
    [
        scale_float_matrix_sample_to_u16(values[0] as u16, bit_depth),
        scale_float_matrix_sample_to_u16(values[1] as u16, bit_depth),
        scale_float_matrix_sample_to_u16(values[2] as u16, bit_depth),
        scale_float_matrix_sample_to_u16(values[3] as u16, bit_depth),
    ]
}

/// Converts the pixels in columns `from..to` of row `row` of a rectangle, where all
/// pixels before them are stored already.
fn write_rgba16_span<M: Fn(u16, u16, u16) -> (i32, i32, i32)>(
    source: &Source,
    row: usize,
    from: usize,
    to: usize,
    matrix: &M,
    bit_depth: u8,
    output: &mut [u16],
    Ghost(before): Ghost<Seq<u16>>,
    Ghost(raws): Ghost<Seq<(i32, i32, i32)>>,
) -> (extended: Ghost<Seq<(i32, i32, i32)>>)
    requires
        source.wf(),
        total(matrix),
        bit_depth <= 16,
        row < source.height,
        from <= to <= source.width,
        raws.len() == row * source.width + from,
        progress(matrix, source, 4, form_rgba16(bit_depth), before, old(output)@, raws),
    ensures
        extended@.len() == row * source.width + to,
        progress(matrix, source, 4, form_rgba16(bit_depth), before, final(output)@, extended@),
{
    let ghost mut results = raws;
    let mut col: usize = from;
    while col < to
        invariant
            source.wf(),
            total(matrix),
            bit_depth <= 16,
            row < source.height,
            from <= col <= to <= source.width,
            results.len() == row * source.width + col,
            progress(matrix, source, 4, form_rgba16(bit_depth), before, output@, results),
        decreases to - col,
    {
        let length: usize = output.len();
        let (y, cb, cr): (u16, u16, u16) = source.samples(row, col);
        let rgb: (u16, u16, u16) = convert_float_matrix_pixel(y, cb, cr, bit_depth, matrix);
        let at: usize = source.packed_index(row, col, 4, length);
        let ghost raw = choose|raw: (i32, i32, i32)| #[trigger]
            call_ensures(matrix, (y, cb, cr), raw) && rgb == clipped(raw, bit_depth as int);
        proof {
            lemma_pixel_number_bound(
                source.width as int,
                source.height as int,
                row as int,
                col as int,
            );
            lemma_progress_one(
                matrix,
                source,
                4,
                form_rgba16(bit_depth),
                before,
                output@,
                results,
                raw,
            );
        }
        store_rgba16(
            (
                scale_float_matrix_sample_to_u16(rgb.0, bit_depth),
                scale_float_matrix_sample_to_u16(rgb.1, bit_depth),
                scale_float_matrix_sample_to_u16(rgb.2, bit_depth),
            ),
            output,
            at,
        );
        proof {
            results = results.push(raw);
        }
        col = col + 1;
    }
    Ghost(results)
}

/// The samples of four pixels expanded to sixteen bits, and the results of the matrix that
/// they come from.
fn convert_rgba16_lanes<M: Fn(u16, u16, u16) -> (i32, i32, i32)>(
    y: [u16; 4],
    cb: [u16; 4],
    cr: [u16; 4],
    bit_depth: u8,
    matrix: &M,
) -> (rgb: ([u16; 4], [u16; 4], [u16; 4], Ghost<Seq<(i32, i32, i32)>>))
    requires
        total(matrix),
        bit_depth <= 16,
    ensures
        rgb.3@.len() == 4,
        forall|lane: int|
            0 <= lane < 4 ==> {
                &&& call_ensures(matrix, (y@[lane], cb@[lane], cr@[lane]), #[trigger] rgb.3@[lane])
                &&& rgb.0@[lane] == expanded(clip(rgb.3@[lane].0, bit_depth as int), bit_depth)
                &&& rgb.1@[lane] == expanded(clip(rgb.3@[lane].1, bit_depth as int), bit_depth)
                &&& rgb.2@[lane] == expanded(clip(rgb.3@[lane].2, bit_depth as int), bit_depth)
            },
{
    let max: i32 = max_sample(bit_depth);
    let (r, g, b): ([i32; 4], [i32; 4], [i32; 4]) = convert_float_matrix_neon_4(
        y,
        cb,
        cr,
        matrix,
        max,
    );
    let ghost results = Seq::new(
        4,
        |lane: int|
            choose|raw: (i32, i32, i32)| #[trigger]
                lane_result(
                    matrix,
                    (y@[lane], cb@[lane], cr@[lane]),
                    max as int,
                    raw,
                    (r@[lane], g@[lane], b@[lane]),
                ),
    );
    proof {
        assert forall|lane: int| 0 <= lane < 4 implies #[trigger] lane_result(
            matrix,
            (y@[lane], cb@[lane], cr@[lane]),
            max as int,
            results[lane],
            (r@[lane], g@[lane], b@[lane]),
        ) by {
            assert(lane_clipped(
                matrix,
                (y@[lane], cb@[lane], cr@[lane]),
                max as int,
                (r@[lane], g@[lane], b@[lane]),
            ));
        }
        assert forall|lane: int|
            #![trigger r@[lane]]
            #![trigger g@[lane]]
            #![trigger b@[lane]]
            0 <= lane < 4 implies {
            &&& 0 <= r@[lane] <= 0xffff
            &&& 0 <= g@[lane] <= 0xffff
            &&& 0 <= b@[lane] <= 0xffff
        } by {
            assert(lane_result(
                matrix,
                (y@[lane], cb@[lane], cr@[lane]),
                max as int,
                results[lane],
                (r@[lane], g@[lane], b@[lane]),
            ));
        }
    }
    (
        scale_float_matrix_neon_to_u16(r, bit_depth),
        scale_float_matrix_neon_to_u16(g, bit_depth),
        scale_float_matrix_neon_to_u16(b, bit_depth),
        Ghost(results),
    )
}

/// Converts the four pixels from column `col` of row `row` of a rectangle on, where all
/// pixels before them are stored already.
fn write_rgba16_group<M: Fn(u16, u16, u16) -> (i32, i32, i32)>(
    source: &Source,
    row: usize,
    col: usize,
    matrix: &M,
    bit_depth: u8,
    output: &mut [u16],
    Ghost(before): Ghost<Seq<u16>>,
    Ghost(raws): Ghost<Seq<(i32, i32, i32)>>,
) -> (extended: Ghost<Seq<(i32, i32, i32)>>)
    requires
        source.wf(),
        total(matrix),
        bit_depth <= 16,
        row < source.height,
        col + 4 <= source.width,
        (source.x_start + col) as int % source.subsample_x as int == 0,
        raws.len() == row * source.width + col,
        progress(matrix, source, 4, form_rgba16(bit_depth), before, old(output)@, raws),
    ensures
        extended@.len() == row * source.width + (col + 4),
        progress(matrix, source, 4, form_rgba16(bit_depth), before, final(output)@, extended@),
{
    let length: usize = output.len();
    let ghost p = row * source.width + col;
    let (luma, chroma): (usize, usize) = source.indices(row, col);
    let (last_luma, last_chroma): (usize, usize) = source.indices(row, col + 3);
    proof {
        lemma_pixel_number_bound(
            source.width as int,
            source.height as int,
            row as int,
            col + 3,
        );
        assert forall|lane: int| 0 <= lane < 4 implies {
            &&& #[trigger] source.layout().luma_index(p + lane) == luma + lane
            &&& source.layout().chroma_index(p + lane) == chroma + lane / (
            source.subsample_x as int)
        } by {
            lemma_lane(source.layout(), row as int, col as int, lane);
        }
        assert(source.layout().luma_index(p + 3) == last_luma);
    }
    let y: [u16; 4] = load_4(source.y_plane, luma);
    let cb: [u16; 4] = load_float_matrix_chroma_4(source.cb_plane, chroma, source.subsample_x);
    let cr: [u16; 4] = load_float_matrix_chroma_4(source.cr_plane, chroma, source.subsample_x);
    let (r, g, b, results): (
        [u16; 4],
        [u16; 4],
        [u16; 4],
        Ghost<Seq<(i32, i32, i32)>>,
    ) = convert_rgba16_lanes(y, cb, cr, bit_depth, matrix);
    let at: usize = source.packed_index(row, col, 4, length);
    let ghost more = results@;
    proof {
        assert forall|lane: int| 0 <= lane < 4 implies call_ensures(
            matrix,
            source.planes().samples(source.layout(), raws.len() + lane),
            #[trigger] more[lane],
        ) by {
            assert(source.layout().luma_index(p + lane) == luma + lane);
            assert(source.planes().samples(source.layout(), p + lane) == (
                y@[lane],
                cb@[lane],
                cr@[lane],
            ));
        }
        lemma_packed_same(
            4,
            4,
            formed(more, form_rgba16(bit_depth)),
            lane_pixels_rgba16(r, g, b),
        );
        lemma_progress_step(
            matrix,
            source,
            4,
            form_rgba16(bit_depth),
            before,
            output@,
            raws,
            more,
        );
    }
    store_rgba16_4(r, g, b, output, at);
    Ghost(raws + more)
}

/// Converts row `row` of a rectangle, the columns `group_start..group_end` of it in groups
/// of four pixels, where all rows before it are stored already.
fn write_rgba16_row<M: Fn(u16, u16, u16) -> (i32, i32, i32)>(
    source: &Source,
    row: usize,
    group_start: usize,
    group_end: usize,
    matrix: &M,
    bit_depth: u8,
    output: &mut [u16],
    Ghost(before): Ghost<Seq<u16>>,
    Ghost(raws): Ghost<Seq<(i32, i32, i32)>>,
) -> (extended: Ghost<Seq<(i32, i32, i32)>>)
    requires
        source.wf(),
        total(matrix),
        bit_depth <= 16,
        row < source.height,
        group_start <= group_end <= source.width,
        (group_end - group_start) % 4 == 0,
        group_start < group_end ==> (source.x_start + group_start) as int
            % source.subsample_x as int == 0,
        raws.len() == row * source.width,
        progress(matrix, source, 4, form_rgba16(bit_depth), before, old(output)@, raws),
    ensures
        extended@.len() == (row + 1) * source.width,
        progress(matrix, source, 4, form_rgba16(bit_depth), before, final(output)@, extended@),
{
    let prefix: Ghost<Seq<(i32, i32, i32)>> = write_rgba16_span(
        source,
        row,
        0,
        group_start,
        matrix,
        bit_depth,
        output,
        Ghost(before),
        Ghost(raws),
    );
    let ghost mut results = prefix@;
    let mut col: usize = group_start;
    while col < group_end
        invariant
            source.wf(),
            total(matrix),
            bit_depth <= 16,
            row < source.height,
            group_start <= col <= group_end <= source.width,
            (group_end - col) % 4 == 0,
            col < group_end ==> (source.x_start + col) as int % source.subsample_x as int == 0,
            results.len() == row * source.width + col,
            progress(matrix, source, 4, form_rgba16(bit_depth), before, output@, results),
        decreases group_end - col,
    {
        let group: Ghost<Seq<(i32, i32, i32)>> = write_rgba16_group(
            source,
            row,
            col,
            matrix,
            bit_depth,
            output,
            Ghost(before),
            Ghost(results),
        );
        proof {
            results = group@;
            if source.subsample_x == 2 {
                assert((source.x_start + col + 4) % 2 == 0);
            } else {
                assert((source.x_start + col + 4) % 1 == 0);
            }
        }
        col = col + 4;
    }
    let rest: Ghost<Seq<(i32, i32, i32)>> = write_rgba16_span(
        source,
        row,
        group_end,
        source.width,
        matrix,
        bit_depth,
        output,
        Ghost(before),
        Ghost(results),
    );
    assert(row * source.width + source.width == (row + 1) * source.width) by (nonlinear_arith);
    rest
}

/// Converts a rectangle to 16-bit RGBA pixels one by one. What `output` holds beyond the
/// converted pixels stays as it is.
pub fn convert_float_matrix_region_to_rgba16_scalar<
    M: Fn(u16, u16, u16) -> (i32, i32, i32),
>(
    y_plane: &[u16],
    cb_plane: &[u16],
    cr_plane: &[u16],
    y_stride: usize,
    chroma_stride: usize,
    subsample_x: usize,
    subsample_y: usize,
    x_start: usize,
    y_start: usize,
    width: usize,
    height: usize,
    bit_depth: u8,
    matrix: &M,
    output: &mut [u16],
)
    requires
        total(matrix),
        bit_depth <= 16,
        1 <= subsample_x <= 2,
        1 <= subsample_y <= 2,
        layout_of(
            y_stride,
            chroma_stride,
            subsample_x,
            subsample_y,
            x_start,
            y_start,
            width,
            height,
        ).readable(planes_of(y_plane, cb_plane, cr_plane)),
        height > 0 ==> y_start + height - 1 <= usize::MAX,
        width * height * 4 <= old(output)@.len(),
    ensures
        converted(
            matrix,
            layout_of(
                y_stride,
                chroma_stride,
                subsample_x,
                subsample_y,
                x_start,
                y_start,
                width,
                height,
            ),
            planes_of(y_plane, cb_plane, cr_plane),
            4,
            form_rgba16(bit_depth),
            final(output)@.take(width * height * 4),
        ),
        determined(matrix) ==> final(output)@.take(width * height * 4) == determined_output(
            matrix,
            layout_of(
                y_stride,
                chroma_stride,
                subsample_x,
                subsample_y,
                x_start,
                y_start,
                width,
                height,
            ),
            planes_of(y_plane, cb_plane, cr_plane),
            4,
            form_rgba16(bit_depth),
        ),
        final(output)@.skip(width * height * 4) == old(output)@.skip(
            width * height * 4,
        ),
        final(output)@.len() == old(output)@.len(),
{
    let source = Source {
        y_plane,
        cb_plane,
        cr_plane,
        y_stride,
        chroma_stride,
        subsample_x,
        subsample_y,
        x_start,
        y_start,
        width,
        height,
    };
    let ghost before = output@;
    let ghost mut raws = Seq::<(i32, i32, i32)>::empty();
    proof {
        lemma_progress_start(matrix, &source, 4, form_rgba16(bit_depth), before);
    }
    for output_y in 0..height
        invariant
            source.wf(),
            source.width == width,
            source.height == height,
            total(matrix),
            bit_depth <= 16,
            raws.len() == output_y * width,
            progress(matrix, &source, 4, form_rgba16(bit_depth), before, output@, raws),
    {
        let extended: Ghost<Seq<(i32, i32, i32)>> = write_rgba16_span(
            &source,
            output_y,
            0,
            width,
            matrix,
            bit_depth,
            output,
            Ghost(before),
            Ghost(raws),
        );
        proof {
            raws = extended@;
        }
        assert(output_y * width + width == (output_y + 1) * width) by (nonlinear_arith);
    }
    proof {
        lemma_mul_is_commutative(width as int, height as int);
        lemma_progress_complete(
            matrix,
            &source,
            4,
            form_rgba16(bit_depth),
            before,
            output@,
            raws,
        );
    }
}

/// Converts a rectangle to 16-bit RGBA pixels four at a time. A first pixel within a chroma
/// sample and a rest of fewer than four pixels are converted one by one, and so is
/// everything where `neon_safe` is not set. What `output` holds beyond the converted
/// pixels stays as it is.
pub fn convert_float_matrix_region_to_rgba16_neon<
    M: Fn(u16, u16, u16) -> (i32, i32, i32),
>(
    y_plane: &[u16],
    cb_plane: &[u16],
    cr_plane: &[u16],
    y_stride: usize,
    chroma_stride: usize,
    subsample_x: usize,
    subsample_y: usize,
    x_start: usize,
    y_start: usize,
    width: usize,
    height: usize,
    bit_depth: u8,
    matrix: &M,
    neon_safe: bool,
    output: &mut [u16],
)
    requires
        total(matrix),
        bit_depth <= 16,
        1 <= subsample_x <= 2,
        1 <= subsample_y <= 2,
        layout_of(
            y_stride,
            chroma_stride,
            subsample_x,
            subsample_y,
            x_start,
            y_start,
            width,
            height,
        ).readable(planes_of(y_plane, cb_plane, cr_plane)),
        height > 0 ==> y_start + height - 1 <= usize::MAX,
        width * height * 4 <= old(output)@.len(),
    ensures
        converted(
            matrix,
            layout_of(
                y_stride,
                chroma_stride,
                subsample_x,
                subsample_y,
                x_start,
                y_start,
                width,
                height,
            ),
            planes_of(y_plane, cb_plane, cr_plane),
            4,
            form_rgba16(bit_depth),
            final(output)@.take(width * height * 4),
        ),
        determined(matrix) ==> final(output)@.take(width * height * 4) == determined_output(
            matrix,
            layout_of(
                y_stride,
                chroma_stride,
                subsample_x,
                subsample_y,
                x_start,
                y_start,
                width,
                height,
            ),
            planes_of(y_plane, cb_plane, cr_plane),
            4,
            form_rgba16(bit_depth),
        ),
        final(output)@.skip(width * height * 4) == old(output)@.skip(
            width * height * 4,
        ),
        final(output)@.len() == old(output)@.len(),
{
    if !neon_safe {
        convert_float_matrix_region_to_rgba16_scalar(
            y_plane,
            cb_plane,
            cr_plane,
            y_stride,
            chroma_stride,
            subsample_x,
            subsample_y,
            x_start,
            y_start,
            width,
            height,
            bit_depth,
            matrix,
            output,
        );
        return;
    }
    let source = Source {
        y_plane,
        cb_plane,
        cr_plane,
        y_stride,
        chroma_stride,
        subsample_x,
        subsample_y,
        x_start,
        y_start,
        width,
        height,
    };
    let group_start: usize = source.group_start();
    let group_end: usize = group_start + (width - group_start) / 4 * 4;
    let ghost before = output@;
    let ghost mut raws = Seq::<(i32, i32, i32)>::empty();
    proof {
        lemma_progress_start(matrix, &source, 4, form_rgba16(bit_depth), before);
    }
    for output_y in 0..height
        invariant
            source.wf(),
            source.subsample_x == subsample_x,
            source.x_start == x_start,
            source.width == width,
            source.height == height,
            total(matrix),
            bit_depth <= 16,
            group_start <= group_end <= width,
            (group_end - group_start) % 4 == 0,
            group_start < group_end ==> (x_start + group_start) as int % subsample_x as int == 0,
            raws.len() == output_y * width,
            progress(matrix, &source, 4, form_rgba16(bit_depth), before, output@, raws),
    {
        let extended: Ghost<Seq<(i32, i32, i32)>> = write_rgba16_row(
            &source,
            output_y,
            group_start,
            group_end,
            matrix,
            bit_depth,
            output,
            Ghost(before),
            Ghost(raws),
        );
        proof {
            raws = extended@;
        }
    }
    proof {
        lemma_mul_is_commutative(width as int, height as int);
        lemma_progress_complete(
            matrix,
            &source,
            4,
            form_rgba16(bit_depth),
            before,
            output@,
            raws,
        );
    }
}

/// Converts a rectangle of planes of up to sixteen bits to 16-bit RGBA pixels.
///
/// Results of the matrix are clipped to the depth of the source and then expanded to
/// sixteen bits. The rectangle is given in the coordinates of the whole planes, the
/// result is tightly packed and fills `output`. `neon_safe` tells whether pixels may be
/// converted in groups where the processor offers it; what is stored is a result of the
/// matrix either way, and the same one where the matrix is a function of its samples.
pub fn convert_float_matrix_region_to_rgba16<
    M: Fn(u16, u16, u16) -> (i32, i32, i32),
>(
    y_plane: &[u16],
    cb_plane: &[u16],
    cr_plane: &[u16],
    y_stride: usize,
    chroma_stride: usize,
    subsample_x: usize,
    subsample_y: usize,
    x_start: usize,
    y_start: usize,
    width: usize,
    height: usize,
    bit_depth: u8,
    matrix: &M,
    neon_safe: bool,
    output: &mut [u16],
)
    requires
        total(matrix),
        1 <= bit_depth <= 16,
        region_fits(
            layout_of(
                y_stride,
                chroma_stride,
                subsample_x,
                subsample_y,
                x_start,
                y_start,
                width,
                height,
            ),
            planes_of(y_plane, cb_plane, cr_plane),
            4,
            old(output)@.len() as int,
        ),
    ensures
        final(output)@.len() == old(output)@.len(),
        converted(
            matrix,
            layout_of(
                y_stride,
                chroma_stride,
                subsample_x,
                subsample_y,
                x_start,
                y_start,
                width,
                height,
            ),
            planes_of(y_plane, cb_plane, cr_plane),
            4,
            form_rgba16(bit_depth),
            final(output)@,
        ),
        determined(matrix) ==> final(output)@ == determined_output(
            matrix,
            layout_of(
                y_stride,
                chroma_stride,
                subsample_x,
                subsample_y,
                x_start,
                y_start,
                width,
                height,
            ),
            planes_of(y_plane, cb_plane, cr_plane),
            4,
            form_rgba16(bit_depth),
        ),
{
    proof {
        lemma_fits_readable(
            layout_of(
                y_stride,
                chroma_stride,
                subsample_x,
                subsample_y,
                x_start,
                y_start,
                width,
                height,
            ),
            planes_of(y_plane, cb_plane, cr_plane),
            4,
            output@.len() as int,
        );
    }
    if neon_available() {
        convert_float_matrix_region_to_rgba16_neon(
            y_plane,
            cb_plane,
            cr_plane,
            y_stride,
            chroma_stride,
            subsample_x,
            subsample_y,
            x_start,
            y_start,
            width,
            height,
            bit_depth,
            matrix,
            neon_safe,
            output,
        );
    } else {
        convert_float_matrix_region_to_rgba16_scalar(
            y_plane,
            cb_plane,
            cr_plane,
            y_stride,
            chroma_stride,
            subsample_x,
            subsample_y,
            x_start,
            y_start,
            width,
            height,
            bit_depth,
            matrix,
            output,
        );
    }
    proof {
        assert(output@.take(output@.len() as int) =~= output@);
    }
}

} // verus!
