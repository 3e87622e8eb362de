//! Full-range 8-bit 4:2:0 conversion with 8-bit fixed-point coefficients.
use crate::arith::{clamp_byte, clamp_to_byte, lemma_i64_shr_8, lemma_product_bound};
use crate::dispatch::neon_available;
use crate::layout::{
    interleaved, layout_420, lemma_lane, lemma_pixel_number, lemma_pixel_number_bound,
    lemma_prefix_complete, lemma_prefix_empty, lemma_prefix_grows, lemma_prefix_grows_by_group,
    overwritten, packed, planes_of, prefix_written, Layout, Planes,
};
use crate::lanes::{
    add_lanes, clamp_lanes, duplicate_4, lane_pixels, lemma_products_bound, load_4, load_8,
    multiply, shift_right, splat, store_interleaved_8, subtract, widen,
};
use crate::region::{lemma_fits_readable, region_fits};
use crate::source::Source;
use vstd::arithmetic::mul::lemma_mul_is_commutative;
use vstd::arithmetic::power2::{lemma2_to64, pow2};
use vstd::math::abs;
use vstd::prelude::*;

verus! {

/// Chroma weights of a conversion matrix: how much of Cr and Cb goes into red,
/// green and blue.
pub struct Weights {
    pub r_cr: int,
    pub g_cb: int,
    pub g_cr: int,
    pub b_cb: int,
}

/// Weights given as machine integers.
pub open spec fn weights(r_cr: i32, g_cb: i32, g_cr: i32, b_cb: i32) -> Weights {
    Weights { r_cr: r_cr as int, g_cb: g_cb as int, g_cr: g_cr as int, b_cb: b_cb as int }
}

/// The colour of full-range samples. Chroma is centred on 128; the weights count
/// 1/256ths and the weighted chroma is rounded to the nearest integer before it
/// is added to luma.
pub open spec fn rgb_420_8bit(samples: (u16, u16, u16), w: Weights) -> (u8, u8, u8) {
    let y = samples.0;
    let cb = samples.1 - 128;
    let cr = samples.2 - 128;
    (
        clamp_byte(y + (w.r_cr * cr + 128) / 256),
        clamp_byte(y + (w.g_cb * cb + w.g_cr * cr + 128) / 256),
        clamp_byte(y + (w.b_cb * cb + 128) / 256),
    )
}

/// The stored form of each pixel of a rectangle.
pub open spec fn pixels_420_8bit(
    layout: Layout,
    planes: Planes,
    w: Weights,
    channels: int,
) -> spec_fn(int) -> Seq<u8> {
    |p: int| interleaved(rgb_420_8bit(planes.samples(layout, p), w), channels)
}

/// A converted rectangle: its pixels row by row, tightly packed.
pub open spec fn converted_420_8bit(
    layout: Layout,
    planes: Planes,
    w: Weights,
    channels: int,
) -> Seq<u8> {
    packed(layout.pixel_count(), channels, pixels_420_8bit(layout, planes, w, channels))
}

/// Converts one pixel and stores it in `output` from index `at` on.
pub fn write_420_8bit_pixel(
    y_sample: u16,
    cb_sample: u16,
    cr_sample: u16,
    r_cr: i32,
    g_cb: i32,
    g_cr: i32,
    b_cb: i32,
    channels: usize,
    output: &mut [u8],
    at: usize,
)
    requires
        at + (if channels == 4 { 4int } else { 3int }) <= old(output)@.len(),
    ensures
        final(output)@ == overwritten(
            old(output)@,
            at as int,
            interleaved(
                rgb_420_8bit(
                    (y_sample, cb_sample, cr_sample),
                    weights(r_cr, g_cb, g_cr, b_cb),
                ),
                channels as int,
            ),
        ),
{
    assert(output.len() == output@.len());
    let y: i64 = y_sample as i64;
    let cb: i64 = cb_sample as i64 - 128;
    let cr: i64 = cr_sample as i64 - 128;
    proof {
        lemma_product_bound(r_cr as int, cr as int, 0x8000_0000, 65535);
        lemma_product_bound(g_cb as int, cb as int, 0x8000_0000, 65535);
        lemma_product_bound(g_cr as int, cr as int, 0x8000_0000, 65535);
        lemma_product_bound(b_cb as int, cb as int, 0x8000_0000, 65535);
    }
    let r_term: i64 = r_cr as i64 * cr + 128;
    let g_term: i64 = g_cb as i64 * cb + g_cr as i64 * cr + 128;
    let b_term: i64 = b_cb as i64 * cb + 128;
    proof {
        lemma_i64_shr_8(r_term);
        lemma_i64_shr_8(g_term);
        lemma_i64_shr_8(b_term);
    }
    output[at] = clamp_to_byte(y + (r_term >> 8u32));
    output[at + 1] = clamp_to_byte(y + (g_term >> 8u32));
    output[at + 2] = clamp_to_byte(y + (b_term >> 8u32));
    if channels == 4 {
        output[at + 3] = u8::MAX;
    }
}

/// Converts the pixels in columns `from..to` of row `row` of a rectangle, where
/// all pixels before them are written already.
fn write_420_8bit_span(
    source: &Source,
    row: usize,
    from: usize,
    to: usize,
    r_cr: i32,
    g_cb: i32,
    g_cr: i32,
    b_cb: i32,
    channels: usize,
    output: &mut [u8],
    Ghost(before): Ghost<Seq<u8>>,
)
    requires
        source.wf(),
        channels == 3 || channels == 4,
        row < source.height,
        from <= to <= source.width,
        prefix_written(
            old(output)@,
            before,
            converted_420_8bit(
                source.layout(),
                source.planes(),
                weights(r_cr, g_cb, g_cr, b_cb),
                channels as int,
            ),
            (row * source.width + from) * channels,
        ),
    ensures
        prefix_written(
            final(output)@,
            before,
            converted_420_8bit(
                source.layout(),
                source.planes(),
                weights(r_cr, g_cb, g_cr, b_cb),
                channels as int,
            ),
            (row * source.width + to) * channels,
        ),
{
    let ghost w = weights(r_cr, g_cb, g_cr, b_cb);
    let ghost count = source.layout().pixel_count();
    let ghost pixel = pixels_420_8bit(source.layout(), source.planes(), w, channels as int);
    let mut col: usize = from;
    while col < to
        invariant
            source.wf(),
            channels == 3 || channels == 4,
            row < source.height,
            from <= col <= to <= source.width,
            w == weights(r_cr, g_cb, g_cr, b_cb),
            count == source.layout().pixel_count(),
            pixel == pixels_420_8bit(source.layout(), source.planes(), w, channels as int),
            prefix_written(
                output@,
                before,
                packed(count, channels as int, pixel),
                (row * source.width + col) * channels,
            ),
        decreases to - col,
    {
        let length: usize = output.len();
        let ghost p = row * source.width + col;
        proof {
            lemma_pixel_number(source.width as int, row as int, col as int);
            lemma_pixel_number_bound(
                source.width as int,
                source.height as int,
                row as int,
                col as int,
            );
            lemma_prefix_grows(output@, before, count, channels as int, pixel, p);
        }
        let (y, cb, cr): (u16, u16, u16) = source.samples(row, col);
        let at: usize = source.packed_index(row, col, channels, length);
        write_420_8bit_pixel(y, cb, cr, r_cr, g_cb, g_cr, b_cb, channels, output, at);
        col = col + 1;
    }
}

/// Converts a rectangle of full-range 8-bit 4:2:0 planes pixel by pixel. What
/// `output` holds beyond the converted pixels stays as it is.
pub fn convert_420_8bit_region_to_interleaved_scalar(
    y_plane: &[u16],
    cb_plane: &[u16],
    cr_plane: &[u16],
    y_stride: usize,
    chroma_stride: usize,
    x_start: usize,
    y_start: usize,
    width: usize,
    height: usize,
    r_cr: i32,
    g_cb: i32,
    g_cr: i32,
    b_cb: i32,
    channels: usize,
    output: &mut [u8],
)
    requires
        channels == 3 || channels == 4,
        layout_420(y_stride, chroma_stride, x_start, y_start, width, height).readable(
            planes_of(y_plane, cb_plane, cr_plane),
        ),
        height > 0 ==> y_start + height - 1 <= usize::MAX,
        width * height * channels <= old(output)@.len(),
    ensures
        final(output)@ == converted_420_8bit(
            layout_420(y_stride, chroma_stride, x_start, y_start, width, height),
            planes_of(y_plane, cb_plane, cr_plane),
            weights(r_cr, g_cb, g_cr, b_cb),
            channels as int,
        ) + old(output)@.skip(width * height * channels),
{
    let source = Source {
        y_plane,
        cb_plane,
        cr_plane,
        y_stride,
        chroma_stride,
        subsample_x: 2,
        subsample_y: 2,
        x_start,
        y_start,
        width,
        height,
    };
    let ghost before = output@;
    let ghost expected = converted_420_8bit(
        source.layout(),
        source.planes(),
        weights(r_cr, g_cb, g_cr, b_cb),
        channels as int,
    );
    proof {
        lemma_prefix_empty(
            before,
            width as int,
            height as int,
            channels as int,
            pixels_420_8bit(
                source.layout(),
                source.planes(),
                weights(r_cr, g_cb, g_cr, b_cb),
                channels as int,
            ),
        );
    }
    for output_y in 0..height
        invariant
            source.wf(),
            source.width == width,
            source.height == height,
            channels == 3 || channels == 4,
            expected == converted_420_8bit(
                source.layout(),
                source.planes(),
                weights(r_cr, g_cb, g_cr, b_cb),
                channels as int,
            ),
            prefix_written(output@, before, expected, (output_y * width) * channels),
    {
        write_420_8bit_span(
            &source,
            output_y,
            0,
            width,
            r_cr,
            g_cb,
            g_cr,
            b_cb,
            channels,
            output,
            Ghost(before),
        );
        assert(output_y * width + width == (output_y + 1) * width) by (nonlinear_arith);
    }
    proof {
        lemma_mul_is_commutative(width as int, height as int);
        lemma_prefix_complete(output@, before, expected);
    }
}

/// Whether a channel that gets `coefficient` times one chroma sample stays within
/// a 32-bit integer for all samples.
pub fn single_channel_fits(coefficient: i32) -> (fits: bool)
    ensures
        fits == (abs(coefficient as int) * 65407 + 65535 + 128 <= i32::MAX),
{
    magnitude(coefficient) * 65407 + 65535 + 128 <= i32::MAX as i64
}

/// The absolute value of a weight.
fn magnitude(coefficient: i32) -> (value: i64)
    ensures
        value == abs(coefficient as int),
        0 <= value <= 0x8000_0000,
{
    if coefficient < 0 {
        -(coefficient as i64)
    } else {
        coefficient as i64
    }
}

/// Whether the green channel, which gets both chroma samples, stays within a
/// 32-bit integer for all samples.
pub fn green_fits(g_cb: i32, g_cr: i32) -> (fits: bool)
    ensures
        fits == ((abs(g_cb as int) + abs(g_cr as int)) * 65407 + 65535 + 128 <= i32::MAX),
{
    (magnitude(g_cb) + magnitude(g_cr)) * 65407 + 65535 + 128 <= i32::MAX as i64
}

/// Weights for which 32-bit lanes hold every intermediate value, whatever the
/// samples are.
pub open spec fn lanes_suffice(w: Weights) -> bool {
    &&& abs(w.r_cr) * 65407 + 65535 + 128 <= i32::MAX
    &&& (abs(w.g_cb) + abs(w.g_cr)) * 65407 + 65535 + 128 <= i32::MAX
    &&& abs(w.b_cb) * 65407 + 65535 + 128 <= i32::MAX
}

/// The colours of eight pixels, in 32-bit lanes.
fn convert_420_8bit_lanes(
    y: [u16; 8],
    cb: [u16; 8],
    cr: [u16; 8],
    r_cr: i32,
    g_cb: i32,
    g_cr: i32,
    b_cb: i32,
) -> (rgb: ([u8; 8], [u8; 8], [u8; 8]))
    requires
        lanes_suffice(weights(r_cr, g_cb, g_cr, b_cb)),
    ensures
        forall|lane: int|
            0 <= lane < 8 ==> (#[trigger] rgb.0@[lane], rgb.1@[lane], rgb.2@[lane])
                == rgb_420_8bit(
                (y@[lane], cb@[lane], cr@[lane]),
                weights(r_cr, g_cb, g_cr, b_cb),
            ),
{
    let center: [i32; 8] = splat(128);
    let rounding: [i32; 8] = splat(128);
    let y_wide: [i32; 8] = widen(y);
    let cb_wide: [i32; 8] = subtract(widen(cb), center);
    let cr_wide: [i32; 8] = subtract(widen(cr), center);
    proof {
        lemma2_to64();
        lemma_products_bound(cr_wide, r_cr, abs(r_cr as int) as int, 65407);
        lemma_products_bound(cb_wide, g_cb, abs(g_cb as int) as int, 65407);
        lemma_products_bound(cr_wide, g_cr, abs(g_cr as int) as int, 65407);
        lemma_products_bound(cb_wide, b_cb, abs(b_cb as int) as int, 65407);
    }
    let r_term: [i32; 8] = add_lanes(multiply(cr_wide, r_cr), rounding);
    let g_term: [i32; 8] = add_lanes(
        add_lanes(multiply(cb_wide, g_cb), multiply(cr_wide, g_cr)),
        rounding,
    );
    let b_term: [i32; 8] = add_lanes(multiply(cb_wide, b_cb), rounding);
    let r_part: [i32; 8] = shift_right(r_term, 8);
    let g_part: [i32; 8] = shift_right(g_term, 8);
    let b_part: [i32; 8] = shift_right(b_term, 8);
    proof {
        assert(pow2(8) == 256);
        assert(forall|lane: int|
            0 <= lane < 8 ==> {
                &&& #[trigger] r_part@[lane] == r_term@[lane] as int / 256
                &&& g_part@[lane] == g_term@[lane] as int / 256
                &&& b_part@[lane] == b_term@[lane] as int / 256
            });
    }
    let r: [i32; 8] = add_lanes(y_wide, r_part);
    let g: [i32; 8] = add_lanes(y_wide, g_part);
    let b: [i32; 8] = add_lanes(y_wide, b_part);
    (clamp_lanes(r), clamp_lanes(g), clamp_lanes(b))
}

/// Converts the eight pixels from column `col` of row `row` of a rectangle on,
/// where all pixels before them are written already.
fn write_420_8bit_group(
    source: &Source,
    row: usize,
    col: usize,
    r_cr: i32,
    g_cb: i32,
    g_cr: i32,
    b_cb: i32,
    channels: usize,
    output: &mut [u8],
    Ghost(before): Ghost<Seq<u8>>,
)
    requires
        source.wf(),
        source.subsample_x == 2,
        channels == 3 || channels == 4,
        lanes_suffice(weights(r_cr, g_cb, g_cr, b_cb)),
        row < source.height,
        col + 8 <= source.width,
        (source.x_start + col) % 2 == 0,
        prefix_written(
            old(output)@,
            before,
            converted_420_8bit(
                source.layout(),
                source.planes(),
                weights(r_cr, g_cb, g_cr, b_cb),
                channels as int,
            ),
            (row * source.width + col) * channels,
        ),
    ensures
        prefix_written(
            final(output)@,
            before,
            converted_420_8bit(
                source.layout(),
                source.planes(),
                weights(r_cr, g_cb, g_cr, b_cb),
                channels as int,
            ),
            (row * source.width + (col + 8)) * channels,
        ),
{
    let length: usize = output.len();
    let ghost w = weights(r_cr, g_cb, g_cr, b_cb);
    let ghost count = source.layout().pixel_count();
    let ghost pixel = pixels_420_8bit(source.layout(), source.planes(), w, channels as int);
    let ghost p = row * source.width + col;
    let (luma, chroma): (usize, usize) = source.indices(row, col);
    let (last_luma, last_chroma): (usize, usize) = source.indices(row, col + 7);
    proof {
        lemma_pixel_number(source.width as int, row as int, col as int);
        lemma_pixel_number_bound(
            source.width as int,
            source.height as int,
            row as int,
            col + 7,
        );
        assert forall|lane: int| 0 <= lane < 8 implies {
            &&& #[trigger] source.layout().luma_index(p + lane) == luma + lane
            &&& source.layout().chroma_index(p + lane) == chroma + lane / 2
        } by {
            lemma_lane(source.layout(), row as int, col as int, lane);
        }
        assert(source.layout().luma_index(p + 7) == last_luma);
    }
    let y: [u16; 8] = load_8(source.y_plane, luma);
    let cb: [u16; 8] = duplicate_4(load_4(source.cb_plane, chroma));
    let cr: [u16; 8] = duplicate_4(load_4(source.cr_plane, chroma));
    let (r, g, b): ([u8; 8], [u8; 8], [u8; 8]) = convert_420_8bit_lanes(
        y,
        cb,
        cr,
        r_cr,
        g_cb,
        g_cr,
        b_cb,
    );
    let at: usize = source.packed_index(row, col, channels, length);
    let ghost group = lane_pixels(r, g, b, channels as int);
    proof {
        assert forall|lane: int| 0 <= lane < 8 implies #[trigger] group(lane) == pixel(
            p + lane,
        ) by {
            assert(source.layout().luma_index(p + lane) == luma + lane);
            assert((r@[lane], g@[lane], b@[lane]) == rgb_420_8bit(
                source.planes().samples(source.layout(), p + lane),
                w,
            ));
        }
        lemma_prefix_grows_by_group(
            output@,
            before,
            count,
            channels as int,
            pixel,
            p,
            8,
            group,
        );
    }
    store_interleaved_8(r, g, b, channels, output, at);
}

/// Converts row `row` of a rectangle, the columns `group_start..group_end` of it in groups
/// of eight pixels, where all rows before it are written already.
fn write_420_8bit_row(
    source: &Source,
    row: usize,
    group_start: usize,
    group_end: usize,
    r_cr: i32,
    g_cb: i32,
    g_cr: i32,
    b_cb: i32,
    channels: usize,
    output: &mut [u8],
    Ghost(before): Ghost<Seq<u8>>,
)
    requires
        source.wf(),
        source.subsample_x == 2,
        channels == 3 || channels == 4,
        lanes_suffice(weights(r_cr, g_cb, g_cr, b_cb)),
        row < source.height,
        group_start <= group_end <= source.width,
        (group_end - group_start) % 8 == 0,
        group_start < group_end ==> (source.x_start + group_start) % 2 == 0,
        prefix_written(
            old(output)@,
            before,
            converted_420_8bit(
                source.layout(),
                source.planes(),
                weights(r_cr, g_cb, g_cr, b_cb),
                channels as int,
            ),
            (row * source.width) * channels,
        ),
    ensures
        prefix_written(
            final(output)@,
            before,
            converted_420_8bit(
                source.layout(),
                source.planes(),
                weights(r_cr, g_cb, g_cr, b_cb),
                channels as int,
            ),
            ((row + 1) * source.width) * channels,
        ),
{
    let ghost expected = converted_420_8bit(
        source.layout(),
        source.planes(),
        weights(r_cr, g_cb, g_cr, b_cb),
        channels as int,
    );
    write_420_8bit_span(
        source,
        row,
        0,
        group_start,
        r_cr,
        g_cb,
        g_cr,
        b_cb,
        channels,
        output,
        Ghost(before),
    );
    let mut col: usize = group_start;
    while col < group_end
        invariant
            source.wf(),
            source.subsample_x == 2,
            row < source.height,
            channels == 3 || channels == 4,
            lanes_suffice(weights(r_cr, g_cb, g_cr, b_cb)),
            group_start <= col <= group_end <= source.width,
            (group_end - col) % 8 == 0,
            col < group_end ==> (source.x_start + col) % 2 == 0,
            expected == converted_420_8bit(
                source.layout(),
                source.planes(),
                weights(r_cr, g_cb, g_cr, b_cb),
                channels as int,
            ),
            prefix_written(output@, before, expected, (row * source.width + col) * channels),
        decreases group_end - col,
    {
        write_420_8bit_group(
            source,
            row,
            col,
            r_cr,
            g_cb,
            g_cr,
            b_cb,
            channels,
            output,
            Ghost(before),
        );
        col = col + 8;
    }
    write_420_8bit_span(
        source,
        row,
        group_end,
        source.width,
        r_cr,
        g_cb,
        g_cr,
        b_cb,
        channels,
        output,
        Ghost(before),
    );
    assert(row * source.width + source.width == (row + 1) * source.width) by (nonlinear_arith);
}

/// Converts a rectangle of full-range 8-bit 4:2:0 planes eight pixels at a time.
/// A first pixel in an odd column and a rest of fewer than eight pixels are
/// converted one by one, and so is everything where the weights are too large for
/// 32-bit lanes. What `output` holds beyond the converted pixels stays as it is.
pub fn convert_420_8bit_region_to_interleaved_neon(
    y_plane: &[u16],
    cb_plane: &[u16],
    cr_plane: &[u16],
    y_stride: usize,
    chroma_stride: usize,
    x_start: usize,
    y_start: usize,
    width: usize,
    height: usize,
    r_cr: i32,
    g_cb: i32,
    g_cr: i32,
    b_cb: i32,
    channels: usize,
    output: &mut [u8],
)
    requires
        channels == 3 || channels == 4,
        layout_420(y_stride, chroma_stride, x_start, y_start, width, height).readable(
            planes_of(y_plane, cb_plane, cr_plane),
        ),
        height > 0 ==> y_start + height - 1 <= usize::MAX,
        width * height * channels <= old(output)@.len(),
    ensures
        final(output)@ == converted_420_8bit(
            layout_420(y_stride, chroma_stride, x_start, y_start, width, height),
            planes_of(y_plane, cb_plane, cr_plane),
            weights(r_cr, g_cb, g_cr, b_cb),
            channels as int,
        ) + old(output)@.skip(width * height * channels),
{
    if !single_channel_fits(r_cr) || !green_fits(g_cb, g_cr) || !single_channel_fits(b_cb) {
        convert_420_8bit_region_to_interleaved_scalar(
            y_plane,
            cb_plane,
            cr_plane,
            y_stride,
            chroma_stride,
            x_start,
            y_start,
            width,
            height,
            r_cr,
            g_cb,
            g_cr,
            b_cb,
            channels,
            output,
        );
        return;
    }
    let source = Source {
        y_plane,
        cb_plane,
        cr_plane,
        y_stride,
        chroma_stride,
        subsample_x: 2,
        subsample_y: 2,
        x_start,
        y_start,
        width,
        height,
    };
    let group_start: usize = source.group_start();
    let group_end: usize = group_start + (width - group_start) / 8 * 8;
    let ghost before = output@;
    let ghost expected = converted_420_8bit(
        source.layout(),
        source.planes(),
        weights(r_cr, g_cb, g_cr, b_cb),
        channels as int,
    );
    proof {
        lemma_prefix_empty(
            before,
            width as int,
            height as int,
            channels as int,
            pixels_420_8bit(
                source.layout(),
                source.planes(),
                weights(r_cr, g_cb, g_cr, b_cb),
                channels as int,
            ),
        );
    }
    for output_y in 0..height
        invariant
            source.wf(),
            source.subsample_x == 2,
            source.x_start == x_start,
            source.width == width,
            source.height == height,
            channels == 3 || channels == 4,
            lanes_suffice(weights(r_cr, g_cb, g_cr, b_cb)),
            group_start <= group_end <= width,
            (group_end - group_start) % 8 == 0,
            group_start < group_end ==> (x_start + group_start) % 2 == 0,
            expected == converted_420_8bit(
                source.layout(),
                source.planes(),
                weights(r_cr, g_cb, g_cr, b_cb),
                channels as int,
            ),
            prefix_written(output@, before, expected, (output_y * width) * channels),
    {
        write_420_8bit_row(
            &source,
            output_y,
            group_start,
            group_end,
            r_cr,
            g_cb,
            g_cr,
            b_cb,
            channels,
            output,
            Ghost(before),
        );
    }
    proof {
        lemma_mul_is_commutative(width as int, height as int);
        lemma_prefix_complete(output@, before, expected);
    }
}

/// Converts a rectangle of full-range 8-bit 4:2:0 planes.
///
/// The rectangle is given in the coordinates of the whole planes, so an odd
/// `x_start` keeps the chroma phase of the picture. The result is tightly packed
/// and fills `output`. The kernel depends on the processor, the result does not.
pub fn convert_420_8bit_region_to_interleaved(
    y_plane: &[u16],
    cb_plane: &[u16],
    cr_plane: &[u16],
    y_stride: usize,
    chroma_stride: usize,
    x_start: usize,
    y_start: usize,
    width: usize,
    height: usize,
    r_cr: i32,
    g_cb: i32,
    g_cr: i32,
    b_cb: i32,
    channels: usize,
    output: &mut [u8],
)
    requires
        region_fits(
            layout_420(y_stride, chroma_stride, x_start, y_start, width, height),
            planes_of(y_plane, cb_plane, cr_plane),
            channels as int,
            old(output)@.len() as int,
        ),
    ensures
        final(output)@ == converted_420_8bit(
            layout_420(y_stride, chroma_stride, x_start, y_start, width, height),
            planes_of(y_plane, cb_plane, cr_plane),
            weights(r_cr, g_cb, g_cr, b_cb),
            channels as int,
        ),
{
    let ghost before = output@;
    proof {
        lemma_fits_readable(
            layout_420(y_stride, chroma_stride, x_start, y_start, width, height),
            planes_of(y_plane, cb_plane, cr_plane),
            channels as int,
            before.len() as int,
        );
        assert(before.skip(before.len() as int) =~= Seq::<u8>::empty());
    }
    if neon_available() {
        convert_420_8bit_region_to_interleaved_neon(
            y_plane,
            cb_plane,
            cr_plane,
            y_stride,
            chroma_stride,
            x_start,
            y_start,
            width,
            height,
            r_cr,
            g_cb,
            g_cr,
            b_cb,
            channels,
            output,
        );
    } else {
        convert_420_8bit_region_to_interleaved_scalar(
            y_plane,
            cb_plane,
            cr_plane,
            y_stride,
            chroma_stride,
            x_start,
            y_start,
            width,
            height,
            r_cr,
            g_cb,
            g_cr,
            b_cb,
            channels,
            output,
        );
    }
}

/// Converts whole full-range 8-bit 4:2:0 planes to packed RGB or RGBA.
pub fn convert_420_8bit_to_interleaved(
    y_plane: &[u16],
    cb_plane: &[u16],
    cr_plane: &[u16],
    width: usize,
    height: usize,
    chroma_width: usize,
    r_cr: i32,
    g_cb: i32,
    g_cr: i32,
    b_cb: i32,
    channels: usize,
    output: &mut [u8],
)
    requires
        region_fits(
            layout_420(width, chroma_width, 0, 0, width, height),
            planes_of(y_plane, cb_plane, cr_plane),
            channels as int,
            old(output)@.len() as int,
        ),
    ensures
        final(output)@ == converted_420_8bit(
            layout_420(width, chroma_width, 0, 0, width, height),
            planes_of(y_plane, cb_plane, cr_plane),
            weights(r_cr, g_cb, g_cr, b_cb),
            channels as int,
        ),
{
    convert_420_8bit_region_to_interleaved(
        y_plane,
        cb_plane,
        cr_plane,
        width,
        chroma_width,
        0,
        0,
        width,
        height,
        r_cr,
        g_cb,
        g_cr,
        b_cb,
        channels,
        output,
    );
}

} // verus!
