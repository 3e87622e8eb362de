//! 4:2:0 conversion of full-range and limited-range pictures to RGB bytes.
use crate::arith::{
    clamp_byte, clamp_to_byte, floor_shift, lemma_i32_shr, lemma_product_bound, lemma_u16_shr,
};
use crate::dispatch::v3_available;
use crate::lanes::{
    add_lanes, clamp_lanes, duplicate_4, lane_pixels, lemma_products_bound, load_4, load_8,
    multiply, shift_right, shift_samples, splat, store_interleaved_8, subtract, widen,
};
use crate::layout::{
    interleaved, layout_420, lemma_in_planes, lemma_lane, lemma_pixel_number,
    lemma_pixel_number_bound, lemma_prefix_complete, lemma_prefix_empty, lemma_prefix_grows,
    lemma_prefix_grows_by_group, overwritten, packed, planes_of, prefix_written, Layout, Planes,
};
use crate::source::Source;
use vstd::arithmetic::mul::lemma_mul_is_commutative;
use vstd::prelude::*;

verus! {

/// A fixed-point conversion matrix. Luma is taken relative to `y_bias` and
/// multiplied by `y_scale`; chroma, centred on 128, is multiplied by the other
/// factors; the sum plus `rounding` is divided by `2^shift_bits`.
pub struct Coefficients {
    pub cr_r: int,
    pub cb_g: int,
    pub cr_g: int,
    pub cb_b: int,
    pub y_bias: int,
    pub y_scale: int,
    pub rounding: int,
    pub shift_bits: int,
}

/// The matrix for a range and a matrix code: 1 is BT.709, 9 is BT.2020, and every
/// other code is taken for BT.601. Full range counts in 1/256ths, limited range in
/// 1/8192ths.
pub open spec fn coefficients(full_range: bool, matrix_coeffs: u8) -> Coefficients {
    if full_range {
        let (cr_r, cb_g, cr_g, cb_b) = if matrix_coeffs == 1 {
            (403int, -48int, -120int, 475int)
        } else if matrix_coeffs == 9 {
            (377int, -42int, -146int, 482int)
        } else {
            (359int, -88int, -183int, 454int)
        };
        Coefficients {
            cr_r,
            cb_g,
            cr_g,
            cb_b,
            y_bias: 0,
            y_scale: 256,
            rounding: 128,
            shift_bits: 8,
        }
    } else {
        let (cr_r, cb_g, cr_g, cb_b) = if matrix_coeffs == 1 {
            (14744int, -1754int, -4383int, 17373int)
        } else if matrix_coeffs == 9 {
            (13806int, -1541int, -5349int, 17615int)
        } else {
            (13126int, -3222int, -6686int, 16591int)
        };
        Coefficients {
            cr_r,
            cb_g,
            cr_g,
            cb_b,
            y_bias: 16,
            y_scale: 9576,
            rounding: 4096,
            shift_bits: 13,
        }
    }
}

/// A matrix given by machine integers.
pub open spec fn coefficients_of(
    cr_r: i32,
    cb_g: i32,
    cr_g: i32,
    cb_b: i32,
    y_bias: i32,
    y_scale: i32,
    rounding: i32,
    shift_bits: i32,
) -> Coefficients {
    Coefficients {
        cr_r: cr_r as int,
        cb_g: cb_g as int,
        cr_g: cr_g as int,
        cb_b: cb_b as int,
        y_bias: y_bias as int,
        y_scale: y_scale as int,
        rounding: rounding as int,
        shift_bits: shift_bits as int,
    }
}

impl Coefficients {
    /// The three sums that become red, green and blue.
    pub open spec fn sums(self, y: int, cb: int, cr: int) -> (int, int, int) {
        let luma = self.y_scale * (y - self.y_bias);
        (
            luma + self.cr_r * (cr - 128) + self.rounding,
            luma + self.cb_g * (cb - 128) + self.cr_g * (cr - 128) + self.rounding,
            luma + self.cb_b * (cb - 128) + self.rounding,
        )
    }

    /// The colour of 8-bit samples.
    pub open spec fn rgb(self, y: int, cb: int, cr: int) -> (u8, u8, u8) {
        let sums = self.sums(y, cb, cr);
        (
            clamp_byte(floor_shift(sums.0, self.shift_bits)),
            clamp_byte(floor_shift(sums.1, self.shift_bits)),
            clamp_byte(floor_shift(sums.2, self.shift_bits)),
        )
    }

    /// No intermediate value overflows a 32-bit integer.
    pub open spec fn fits(self, y: int, cb: int, cr: int) -> bool {
        let luma = self.y_scale * (y - self.y_bias);
        let sums = self.sums(y, cb, cr);
        &&& i32::MIN <= y - self.y_bias <= i32::MAX
        &&& i32::MIN <= luma <= i32::MAX
        &&& i32::MIN <= self.cr_r * (cr - 128) <= i32::MAX
        &&& i32::MIN <= luma + self.cr_r * (cr - 128) <= i32::MAX
        &&& i32::MIN <= sums.0 <= i32::MAX
        &&& i32::MIN <= self.cb_g * (cb - 128) <= i32::MAX
        &&& i32::MIN <= luma + self.cb_g * (cb - 128) <= i32::MAX
        &&& i32::MIN <= self.cr_g * (cr - 128) <= i32::MAX
        &&& i32::MIN <= luma + self.cb_g * (cb - 128) + self.cr_g * (cr - 128) <= i32::MAX
        &&& i32::MIN <= sums.1 <= i32::MAX
        &&& i32::MIN <= self.cb_b * (cb - 128) <= i32::MAX
        &&& i32::MIN <= luma + self.cb_b * (cb - 128) <= i32::MAX
        &&& i32::MIN <= sums.2 <= i32::MAX
    }

    /// Factors no larger than those of the matrices above.
    pub open spec fn moderate(self) -> bool {
        &&& -14744 <= self.cr_r <= 14744
        &&& -3222 <= self.cb_g <= 3222
        &&& -6686 <= self.cr_g <= 6686
        &&& -17615 <= self.cb_b <= 17615
        &&& 0 <= self.y_bias <= 16
        &&& 0 <= self.y_scale <= 9576
        &&& 0 <= self.rounding <= 4096
        &&& 0 <= self.shift_bits < 32
    }
}

/// The colour of samples that have `shift` bits more than eight.
pub open spec fn rgb_420(samples: (u16, u16, u16), shift: int, c: Coefficients) -> (u8, u8, u8) {
    c.rgb(
        floor_shift(samples.0 as int, shift),
        floor_shift(samples.1 as int, shift),
        floor_shift(samples.2 as int, shift),
    )
}

/// The stored form of each pixel of a rectangle.
pub open spec fn pixels_420(
    layout: Layout,
    planes: Planes,
    shift: int,
    c: Coefficients,
) -> spec_fn(int) -> Seq<u8> {
    |p: int| interleaved(rgb_420(planes.samples(layout, p), shift, c), 3)
}

/// A converted rectangle: its pixels row by row, three bytes each.
pub open spec fn converted_420(
    layout: Layout,
    planes: Planes,
    shift: int,
    c: Coefficients,
) -> Seq<u8> {
    packed(layout.pixel_count(), 3, pixels_420(layout, planes, shift, c))
}

/// Matrices with moderate factors do not overflow, whatever the samples are.
pub proof fn lemma_moderate_fits(c: Coefficients, y: int, cb: int, cr: int)
    requires
        c.moderate(),
        0 <= y <= 65535,
        0 <= cb <= 65535,
        0 <= cr <= 65535,
    ensures
        c.fits(y, cb, cr),
{
    assert(-16 * 9576 <= c.y_scale * (y - c.y_bias) <= 65535 * 9576) by (nonlinear_arith)
        requires
            0 <= y <= 65535,
            0 <= c.y_bias <= 16,
            0 <= c.y_scale <= 9576,
    ;
    lemma_product_bound(c.cr_r, cr - 128, 14744, 65535);
    lemma_product_bound(c.cb_g, cb - 128, 3222, 65535);
    lemma_product_bound(c.cr_g, cr - 128, 6686, 65535);
    lemma_product_bound(c.cb_b, cb - 128, 17615, 65535);
}

/// Matrix factors for a range and a matrix code, as `(cr_r, cb_g, cr_g, cb_b, y_bias,
/// y_scale, rounding, shift_bits)`.
pub fn get_coefficients(full_range: bool, matrix_coeffs: u8) -> (c: (
    i32,
    i32,
    i32,
    i32,
    i32,
    i32,
    i32,
    i32,
))
    ensures
        coefficients_of(c.0, c.1, c.2, c.3, c.4, c.5, c.6, c.7) == coefficients(
            full_range,
            matrix_coeffs,
        ),
{
    if full_range {
        let (cr_r, cb_g, cr_g, cb_b): (i32, i32, i32, i32) = match matrix_coeffs {
            1 => (403, -48, -120, 475),
            9 => (377, -42, -146, 482),
            _ => (359, -88, -183, 454),
        };
        (cr_r, cb_g, cr_g, cb_b, 0, 256, 128, 8)
    } else {
        let (cr_r, cb_g, cr_g, cb_b): (i32, i32, i32, i32) = match matrix_coeffs {
            1 => (14744, -1754, -4383, 17373),
            9 => (13806, -1541, -5349, 17615),
            _ => (13126, -3222, -6686, 16591),
        };
        (cr_r, cb_g, cr_g, cb_b, 16, 9576, 4096, 13)
    }
}

/// Converts the pixel in column `x` of the rows that begin at `y_row` in the luma
/// plane and at `c_row` in the chroma planes, stores it at `out_idx` and moves
/// `out_idx` behind it.
pub fn scalar_pixel(
    y_plane: &[u16],
    cb_plane: &[u16],
    cr_plane: &[u16],
    y_row: usize,
    c_row: usize,
    x: usize,
    shift: u32,
    y_bias: i32,
    y_scale: i32,
    cr_r: i32,
    cb_g: i32,
    cr_g: i32,
    cb_b: i32,
    rnd: i32,
    shr: i32,
    rgb: &mut [u8],
    out_idx: &mut usize,
)
    requires
        y_row + x < y_plane@.len(),
        c_row + x / 2 < cb_plane@.len(),
        c_row + x / 2 < cr_plane@.len(),
        shift < 16,
        0 <= shr < 32,
        coefficients_of(cr_r, cb_g, cr_g, cb_b, y_bias, y_scale, rnd, shr).fits(
            floor_shift(y_plane@[y_row + x] as int, shift as int),
            floor_shift(cb_plane@[c_row + x / 2] as int, shift as int),
            floor_shift(cr_plane@[c_row + x / 2] as int, shift as int),
        ),
        *old(out_idx) + 3 <= old(rgb)@.len(),
    ensures
        final(rgb)@ == overwritten(
            old(rgb)@,
            *old(out_idx) as int,
            interleaved(
                rgb_420(
                    (
                        y_plane@[y_row + x],
                        cb_plane@[c_row + x / 2],
                        cr_plane@[c_row + x / 2],
                    ),
                    shift as int,
                    coefficients_of(cr_r, cb_g, cr_g, cb_b, y_bias, y_scale, rnd, shr),
                ),
                3,
            ),
        ),
        *final(out_idx) == *old(out_idx) + 3,
{
    assert(y_plane.len() == y_plane@.len());
    assert(cb_plane.len() == cb_plane@.len());
    assert(rgb.len() == rgb@.len());
    let c_idx: usize = c_row + x / 2;
    proof {
        lemma_u16_shr(y_plane@[y_row + x], shift);
        lemma_u16_shr(cb_plane@[c_idx as int], shift);
        lemma_u16_shr(cr_plane@[c_idx as int], shift);
    }
    let y_val: i32 = (y_plane[y_row + x] >> shift) as i32;
    let cb: i32 = (cb_plane[c_idx] >> shift) as i32 - 128;
    let cr: i32 = (cr_plane[c_idx] >> shift) as i32 - 128;
    let yv: i32 = y_scale * (y_val - y_bias);
    let r_sum: i32 = yv + cr_r * cr + rnd;
    let g_sum: i32 = yv + cb_g * cb + cr_g * cr + rnd;
    let b_sum: i32 = yv + cb_b * cb + rnd;
    let bits: u32 = shr as u32;
    proof {
        lemma_i32_shr(r_sum, bits);
        lemma_i32_shr(g_sum, bits);
        lemma_i32_shr(b_sum, bits);
    }
    let at: usize = *out_idx;
    rgb[at] = clamp_to_byte((r_sum >> bits) as i64);
    rgb[at + 1] = clamp_to_byte((g_sum >> bits) as i64);
    rgb[at + 2] = clamp_to_byte((b_sum >> bits) as i64);
    *out_idx = at + 3;
}

/// How many columns or rows lie in `start..end`.
pub open spec fn extent(start: u32, end: u32) -> usize {
    if start < end {
        (end - start) as usize
    } else {
        0
    }
}

/// The rectangle of columns `x_start..x_end` and rows `y_start..y_end`.
pub open spec fn layout_between(
    y_stride: usize,
    c_stride: usize,
    y_start: u32,
    y_end: u32,
    x_start: u32,
    x_end: u32,
) -> Layout {
    layout_420(
        y_stride,
        c_stride,
        x_start as usize,
        y_start as usize,
        extent(x_start, x_end),
        extent(y_start, y_end),
    )
}

/// The rectangle of columns `x_start..x_end` and rows `y_start..y_end` of planes.
fn source_between<'a>(
    y_plane: &'a [u16],
    cb_plane: &'a [u16],
    cr_plane: &'a [u16],
    y_stride: usize,
    c_stride: usize,
    y_start: u32,
    y_end: u32,
    x_start: u32,
    x_end: u32,
) -> (source: Source<'a>)
    requires
        layout_between(y_stride, c_stride, y_start, y_end, x_start, x_end).readable(
            planes_of(y_plane, cb_plane, cr_plane),
        ),
    ensures
        source.wf(),
        source.layout() == layout_between(y_stride, c_stride, y_start, y_end, x_start, x_end),
        source.planes() == planes_of(y_plane, cb_plane, cr_plane),
        source.x_start == x_start,
        source.subsample_x == 2,
        source.subsample_y == 2,
{
    let width: u32 = if x_start < x_end {
        x_end - x_start
    } else {
        0
    };
    let height: u32 = if y_start < y_end {
        y_end - y_start
    } else {
        0
    };
    Source {
        y_plane,
        cb_plane,
        cr_plane,
        y_stride,
        chroma_stride: c_stride,
        subsample_x: 2,
        subsample_y: 2,
        x_start: x_start as usize,
        y_start: y_start as usize,
        width: width as usize,
        height: height as usize,
    }
}

/// Converts the pixels in columns `from..to` of row `row` of a rectangle, where
/// all pixels before them are written already.
fn write_420_span(
    source: &Source,
    row: usize,
    from: usize,
    to: usize,
    shift: u32,
    c: (i32, i32, i32, i32, i32, i32, i32, i32),
    rgb: &mut [u8],
    out_idx: &mut usize,
    Ghost(before): Ghost<Seq<u8>>,
)
    requires
        source.wf(),
        source.subsample_x == 2,
        source.subsample_y == 2,
        shift < 16,
        coefficients_of(c.0, c.1, c.2, c.3, c.4, c.5, c.6, c.7).moderate(),
        row < source.height,
        from <= to <= source.width,
        *old(out_idx) == (row * source.width + from) * 3,
        prefix_written(
            old(rgb)@,
            before,
            converted_420(
                source.layout(),
                source.planes(),
                shift as int,
                coefficients_of(c.0, c.1, c.2, c.3, c.4, c.5, c.6, c.7),
            ),
            *old(out_idx) as int,
        ),
    ensures
        *final(out_idx) == (row * source.width + to) * 3,
        prefix_written(
            final(rgb)@,
            before,
            converted_420(
                source.layout(),
                source.planes(),
                shift as int,
                coefficients_of(c.0, c.1, c.2, c.3, c.4, c.5, c.6, c.7),
            ),
            *final(out_idx) as int,
        ),
{
    if from >= to {
        return;
    }
    let ghost matrix = coefficients_of(c.0, c.1, c.2, c.3, c.4, c.5, c.6, c.7);
    let ghost count = source.layout().pixel_count();
    let ghost pixel = pixels_420(source.layout(), source.planes(), shift as int, matrix);
    let (y_row, c_row): (usize, usize) = source.row_indices(row);
    let mut col: usize = from;
    while col < to
        invariant
            source.wf(),
            source.subsample_x == 2,
            source.subsample_y == 2,
            shift < 16,
            matrix == coefficients_of(c.0, c.1, c.2, c.3, c.4, c.5, c.6, c.7),
            matrix.moderate(),
            row < source.height,
            from <= col <= to <= source.width,
            y_row == (source.y_start + row) * source.y_stride,
            c_row == ((source.y_start + row) as int / 2) * source.chroma_stride,
            count == source.layout().pixel_count(),
            pixel == pixels_420(source.layout(), source.planes(), shift as int, matrix),
            *out_idx == (row * source.width + col) * 3,
            prefix_written(rgb@, before, packed(count, 3, pixel), *out_idx as int),
        decreases to - col,
    {
        assert(source.y_plane.len() == source.y_plane@.len());
        let ghost p = row * source.width + col;
        proof {
            lemma_in_planes(source.layout(), source.planes(), row as int, col as int);
            lemma_pixel_number(source.width as int, row as int, col as int);
            lemma_pixel_number_bound(
                source.width as int,
                source.height as int,
                row as int,
                col as int,
            );
            lemma_prefix_grows(rgb@, before, count, 3, pixel, p);
            let samples = source.planes().samples(source.layout(), p);
            lemma_u16_shr(samples.0, shift);
            lemma_u16_shr(samples.1, shift);
            lemma_u16_shr(samples.2, shift);
            lemma_moderate_fits(
                matrix,
                floor_shift(samples.0 as int, shift as int),
                floor_shift(samples.1 as int, shift as int),
                floor_shift(samples.2 as int, shift as int),
            );
        }
        scalar_pixel(
            source.y_plane,
            source.cb_plane,
            source.cr_plane,
            y_row,
            c_row,
            source.x_start + col,
            shift,
            c.4,
            c.5,
            c.0,
            c.1,
            c.2,
            c.3,
            c.6,
            c.7,
            rgb,
            out_idx,
        );
        col = col + 1;
    }
}

/// Converts a rectangle pixel by pixel. What `rgb` holds beyond the converted pixels
/// stays as it is.
pub fn convert_420_to_rgb_scalar(
    y_plane: &[u16],
    cb_plane: &[u16],
    cr_plane: &[u16],
    y_stride: usize,
    c_stride: usize,
    y_start: u32,
    y_end: u32,
    x_start: u32,
    x_end: u32,
    shift: u32,
    full_range: bool,
    matrix_coeffs: u8,
    rgb: &mut [u8],
)
    requires
        layout_between(y_stride, c_stride, y_start, y_end, x_start, x_end).readable(
            planes_of(y_plane, cb_plane, cr_plane),
        ),
        y_start < y_end && x_start < x_end ==> shift < 16,
        extent(x_start, x_end) * extent(y_start, y_end) * 3 <= old(rgb)@.len(),
    ensures
        final(rgb)@ == converted_420(
            layout_between(y_stride, c_stride, y_start, y_end, x_start, x_end),
            planes_of(y_plane, cb_plane, cr_plane),
            shift as int,
            coefficients(full_range, matrix_coeffs),
        ) + old(rgb)@.skip(extent(x_start, x_end) * extent(y_start, y_end) * 3),
{
    let c: (i32, i32, i32, i32, i32, i32, i32, i32) = get_coefficients(full_range, matrix_coeffs);
    let source = source_between(
        y_plane,
        cb_plane,
        cr_plane,
        y_stride,
        c_stride,
        y_start,
        y_end,
        x_start,
        x_end,
    );
    let ghost matrix = coefficients(full_range, matrix_coeffs);
    let ghost before = rgb@;
    let ghost expected = converted_420(source.layout(), source.planes(), shift as int, matrix);
    proof {
        lemma_prefix_empty(
            before,
            source.width as int,
            source.height as int,
            3,
            pixels_420(source.layout(), source.planes(), shift as int, matrix),
        );
    }
    let mut out_idx: usize = 0;
    if source.width > 0 {
        for row in 0..source.height
            invariant
                source.wf(),
                source.subsample_x == 2,
                source.subsample_y == 2,
                source.width > 0,
                source.height > 0 ==> shift < 16,
                matrix == coefficients_of(c.0, c.1, c.2, c.3, c.4, c.5, c.6, c.7),
                matrix.moderate(),
                expected == converted_420(
                    source.layout(),
                    source.planes(),
                    shift as int,
                    matrix,
                ),
                out_idx == (row * source.width) * 3,
                prefix_written(rgb@, before, expected, out_idx as int),
        {
            write_420_span(
                &source,
                row,
                0,
                source.width,
                shift,
                c,
                rgb,
                &mut out_idx,
                Ghost(before),
            );
            assert(row * source.width + source.width == (row + 1) * source.width)
                by (nonlinear_arith);
        }
    }
    proof {
        lemma_mul_is_commutative(source.width as int, source.height as int);
        lemma_prefix_complete(rgb@, before, expected);
    }
}

/// The colours of eight pixels, in 32-bit lanes.
fn convert_420_lanes(
    y: [u16; 8],
    cb: [u16; 8],
    cr: [u16; 8],
    shift: u32,
    c: (i32, i32, i32, i32, i32, i32, i32, i32),
) -> (rgb: ([u8; 8], [u8; 8], [u8; 8]))
    requires
        shift < 16,
        coefficients_of(c.0, c.1, c.2, c.3, c.4, c.5, c.6, c.7).moderate(),
    ensures
        forall|lane: int|
            0 <= lane < 8 ==> (#[trigger] rgb.0@[lane], rgb.1@[lane], rgb.2@[lane]) == rgb_420(
                (y@[lane], cb@[lane], cr@[lane]),
                shift as int,
                coefficients_of(c.0, c.1, c.2, c.3, c.4, c.5, c.6, c.7),
            ),
{
    let (cr_r, cb_g, cr_g, cb_b, y_bias, y_scale, rnd, shr): (
        i32,
        i32,
        i32,
        i32,
        i32,
        i32,
        i32,
        i32,
    ) = c;
    let ghost matrix = coefficients_of(cr_r, cb_g, cr_g, cb_b, y_bias, y_scale, rnd, shr);
    let center: [i32; 8] = splat(128);
    let rounding: [i32; 8] = splat(rnd);
    let y_wide: [i32; 8] = widen(shift_samples(y, shift));
    let cb_wide: [i32; 8] = widen(shift_samples(cb, shift));
    let cr_wide: [i32; 8] = widen(shift_samples(cr, shift));
    let y_adj: [i32; 8] = subtract(y_wide, splat(y_bias));
    let cb_adj: [i32; 8] = subtract(cb_wide, center);
    let cr_adj: [i32; 8] = subtract(cr_wide, center);
    proof {
        lemma_products_bound(y_adj, y_scale, 9576, 65535);
        lemma_products_bound(cr_adj, cr_r, 14744, 65535);
        lemma_products_bound(cb_adj, cb_g, 3222, 65535);
        lemma_products_bound(cr_adj, cr_g, 6686, 65535);
        lemma_products_bound(cb_adj, cb_b, 17615, 65535);
    }
    let yv: [i32; 8] = multiply(y_adj, y_scale);
    let r_sum: [i32; 8] = add_lanes(add_lanes(yv, multiply(cr_adj, cr_r)), rounding);
    let g_sum: [i32; 8] = add_lanes(
        add_lanes(add_lanes(yv, multiply(cb_adj, cb_g)), multiply(cr_adj, cr_g)),
        rounding,
    );
    let b_sum: [i32; 8] = add_lanes(add_lanes(yv, multiply(cb_adj, cb_b)), rounding);
    let bits: u32 = shr as u32;
    (
        clamp_lanes(shift_right(r_sum, bits)),
        clamp_lanes(shift_right(g_sum, bits)),
        clamp_lanes(shift_right(b_sum, bits)),
    )
}

/// Converts the eight pixels from column `col` of row `row` of a rectangle on,
/// where all pixels before them are written already.
fn write_420_group(
    source: &Source,
    row: usize,
    col: usize,
    shift: u32,
    c: (i32, i32, i32, i32, i32, i32, i32, i32),
    rgb: &mut [u8],
    out_idx: &mut usize,
    Ghost(before): Ghost<Seq<u8>>,
)
    requires
        source.wf(),
        source.subsample_x == 2,
        shift < 16,
        coefficients_of(c.0, c.1, c.2, c.3, c.4, c.5, c.6, c.7).moderate(),
        row < source.height,
        col + 8 <= source.width,
        (source.x_start + col) % 2 == 0,
        *old(out_idx) == (row * source.width + col) * 3,
        prefix_written(
            old(rgb)@,
            before,
            converted_420(
                source.layout(),
                source.planes(),
                shift as int,
                coefficients_of(c.0, c.1, c.2, c.3, c.4, c.5, c.6, c.7),
            ),
            *old(out_idx) as int,
        ),
    ensures
        *final(out_idx) == (row * source.width + (col + 8)) * 3,
        prefix_written(
            final(rgb)@,
            before,
            converted_420(
                source.layout(),
                source.planes(),
                shift as int,
                coefficients_of(c.0, c.1, c.2, c.3, c.4, c.5, c.6, c.7),
            ),
            *final(out_idx) as int,
        ),
{
    assert(rgb.len() == rgb@.len());
    let ghost matrix = coefficients_of(c.0, c.1, c.2, c.3, c.4, c.5, c.6, c.7);
    let ghost count = source.layout().pixel_count();
    let ghost pixel = pixels_420(source.layout(), source.planes(), shift as int, matrix);
    let ghost p = row * source.width + col;
    let (luma, chroma): (usize, usize) = source.indices(row, col);
    let (last_luma, last_chroma): (usize, usize) = source.indices(row, col + 7);
    proof {
        lemma_pixel_number(source.width as int, row as int, col as int);
        lemma_pixel_number_bound(
            source.width as int,
            source.height as int,
            row as int,
            col + 7,
        );
        assert forall|lane: int| 0 <= lane < 8 implies {
            &&& #[trigger] source.layout().luma_index(p + lane) == luma + lane
            &&& source.layout().chroma_index(p + lane) == chroma + lane / 2
        } by {
            lemma_lane(source.layout(), row as int, col as int, lane);
        }
        assert(source.layout().luma_index(p + 7) == last_luma);
    }
    let y: [u16; 8] = load_8(source.y_plane, luma);
    let cb: [u16; 8] = duplicate_4(load_4(source.cb_plane, chroma));
    let cr: [u16; 8] = duplicate_4(load_4(source.cr_plane, chroma));
    let (r, g, b): ([u8; 8], [u8; 8], [u8; 8]) = convert_420_lanes(y, cb, cr, shift, c);
    let at: usize = *out_idx;
    let ghost group = lane_pixels(r, g, b, 3);
    proof {
        assert forall|lane: int| 0 <= lane < 8 implies #[trigger] group(lane) == pixel(
            p + lane,
        ) by {
            assert(source.layout().luma_index(p + lane) == luma + lane);
            assert((r@[lane], g@[lane], b@[lane]) == rgb_420(
                source.planes().samples(source.layout(), p + lane),
                shift as int,
                matrix,
            ));
        }
        lemma_prefix_grows_by_group(rgb@, before, count, 3, pixel, p, 8, group);
    }
    store_interleaved_8(r, g, b, 3, rgb, at);
    *out_idx = at + 24;
}

/// Converts row `row` of a rectangle, the columns `group_start..group_end` of it in groups
/// of eight pixels, where all rows before it are written already.
fn write_420_row(
    source: &Source,
    row: usize,
    group_start: usize,
    group_end: usize,
    shift: u32,
    c: (i32, i32, i32, i32, i32, i32, i32, i32),
    rgb: &mut [u8],
    out_idx: &mut usize,
    Ghost(before): Ghost<Seq<u8>>,
)
    requires
        source.wf(),
        source.subsample_x == 2,
        source.subsample_y == 2,
        shift < 16,
        coefficients_of(c.0, c.1, c.2, c.3, c.4, c.5, c.6, c.7).moderate(),
        row < source.height,
        group_start <= group_end <= source.width,
        (group_end - group_start) % 8 == 0,
        group_start < group_end ==> (source.x_start + group_start) % 2 == 0,
        *old(out_idx) == (row * source.width) * 3,
        prefix_written(
            old(rgb)@,
            before,
            converted_420(
                source.layout(),
                source.planes(),
                shift as int,
                coefficients_of(c.0, c.1, c.2, c.3, c.4, c.5, c.6, c.7),
            ),
            *old(out_idx) as int,
        ),
    ensures
        *final(out_idx) == ((row + 1) * source.width) * 3,
        prefix_written(
            final(rgb)@,
            before,
            converted_420(
                source.layout(),
                source.planes(),
                shift as int,
                coefficients_of(c.0, c.1, c.2, c.3, c.4, c.5, c.6, c.7),
            ),
            *final(out_idx) as int,
        ),
{
    let ghost matrix = coefficients_of(c.0, c.1, c.2, c.3, c.4, c.5, c.6, c.7);
    let ghost expected = converted_420(source.layout(), source.planes(), shift as int, matrix);
    write_420_span(source, row, 0, group_start, shift, c, rgb, out_idx, Ghost(before));
    let mut col: usize = group_start;
    while col < group_end
        invariant
            source.wf(),
            source.subsample_x == 2,
            shift < 16,
            row < source.height,
            group_start <= col <= group_end <= source.width,
            (group_end - col) % 8 == 0,
            col < group_end ==> (source.x_start + col) % 2 == 0,
            matrix == coefficients_of(c.0, c.1, c.2, c.3, c.4, c.5, c.6, c.7),
            matrix.moderate(),
            expected == converted_420(source.layout(), source.planes(), shift as int, matrix),
            *out_idx == (row * source.width + col) * 3,
            prefix_written(rgb@, before, expected, *out_idx as int),
        decreases group_end - col,
    {
        write_420_group(source, row, col, shift, c, rgb, out_idx, Ghost(before));
        col = col + 8;
    }
    write_420_span(source, row, group_end, source.width, shift, c, rgb, out_idx, Ghost(before));
    assert(row * source.width + source.width == (row + 1) * source.width) by (nonlinear_arith);
}

/// Converts a rectangle eight pixels at a time. A first pixel in an odd column and a
/// rest of fewer than eight pixels are converted one by one. What `rgb` holds beyond
/// the converted pixels stays as it is.
pub fn convert_420_to_rgb_v3(
    y_plane: &[u16],
    cb_plane: &[u16],
    cr_plane: &[u16],
    y_stride: usize,
    c_stride: usize,
    y_start: u32,
    y_end: u32,
    x_start: u32,
    x_end: u32,
    shift: u32,
    full_range: bool,
    matrix_coeffs: u8,
    rgb: &mut [u8],
)
    requires
        layout_between(y_stride, c_stride, y_start, y_end, x_start, x_end).readable(
            planes_of(y_plane, cb_plane, cr_plane),
        ),
        y_start < y_end && x_start < x_end ==> shift < 16,
        extent(x_start, x_end) * extent(y_start, y_end) * 3 <= old(rgb)@.len(),
    ensures
        final(rgb)@ == converted_420(
            layout_between(y_stride, c_stride, y_start, y_end, x_start, x_end),
            planes_of(y_plane, cb_plane, cr_plane),
            shift as int,
            coefficients(full_range, matrix_coeffs),
        ) + old(rgb)@.skip(extent(x_start, x_end) * extent(y_start, y_end) * 3),
{
    let c: (i32, i32, i32, i32, i32, i32, i32, i32) = get_coefficients(full_range, matrix_coeffs);
    let source = source_between(
        y_plane,
        cb_plane,
        cr_plane,
        y_stride,
        c_stride,
        y_start,
        y_end,
        x_start,
        x_end,
    );
    let ghost matrix = coefficients(full_range, matrix_coeffs);
    let ghost before = rgb@;
    let ghost expected = converted_420(source.layout(), source.planes(), shift as int, matrix);
    proof {
        lemma_prefix_empty(
            before,
            source.width as int,
            source.height as int,
            3,
            pixels_420(source.layout(), source.planes(), shift as int, matrix),
        );
    }
    let mut out_idx: usize = 0;
    if source.width > 0 {
        let group_start: usize = source.group_start();
        let group_end: usize = group_start + (source.width - group_start) / 8 * 8;
        for row in 0..source.height
            invariant
                source.wf(),
                source.subsample_x == 2,
                source.subsample_y == 2,
                source.width > 0,
                source.height > 0 ==> shift < 16,
                group_start <= group_end <= source.width,
                (group_end - group_start) % 8 == 0,
                group_start < group_end ==> (source.x_start + group_start) % 2 == 0,
                matrix == coefficients_of(c.0, c.1, c.2, c.3, c.4, c.5, c.6, c.7),
                matrix.moderate(),
                expected == converted_420(
                    source.layout(),
                    source.planes(),
                    shift as int,
                    matrix,
                ),
                out_idx == (row * source.width) * 3,
                prefix_written(rgb@, before, expected, out_idx as int),
        {
            write_420_row(
                &source,
                row,
                group_start,
                group_end,
                shift,
                c,
                rgb,
                &mut out_idx,
                Ghost(before),
            );
        }
    }
    proof {
        lemma_mul_is_commutative(source.width as int, source.height as int);
        lemma_prefix_complete(rgb@, before, expected);
    }
}

/// Converts the columns `x_start..x_end` of the rows `y_start..y_end` of 4:2:0 planes
/// to interleaved RGB bytes.
///
/// Samples have `shift` bits more than eight. Writes exactly
/// `(y_end - y_start) * (x_end - x_start) * 3` bytes to `rgb` and leaves what follows
/// them as it is. The kernel depends on the processor, the result does not.
pub fn convert_420_to_rgb(
    y_plane: &[u16],
    cb_plane: &[u16],
    cr_plane: &[u16],
    y_stride: usize,
    c_stride: usize,
    y_start: u32,
    y_end: u32,
    x_start: u32,
    x_end: u32,
    shift: u32,
    full_range: bool,
    matrix_coeffs: u8,
    rgb: &mut [u8],
)
    requires
        layout_between(y_stride, c_stride, y_start, y_end, x_start, x_end).readable(
            planes_of(y_plane, cb_plane, cr_plane),
        ),
        y_start < y_end && x_start < x_end ==> shift < 16,
        extent(x_start, x_end) * extent(y_start, y_end) * 3 <= old(rgb)@.len(),
    ensures
        final(rgb)@ == converted_420(
            layout_between(y_stride, c_stride, y_start, y_end, x_start, x_end),
            planes_of(y_plane, cb_plane, cr_plane),
            shift as int,
            coefficients(full_range, matrix_coeffs),
        ) + old(rgb)@.skip(extent(x_start, x_end) * extent(y_start, y_end) * 3),
{
    if v3_available() {
        convert_420_to_rgb_v3(
            y_plane,
            cb_plane,
            cr_plane,
            y_stride,
            c_stride,
            y_start,
            y_end,
            x_start,
            x_end,
            shift,
            full_range,
            matrix_coeffs,
            rgb,
        );
    } else {
        convert_420_to_rgb_scalar(
            y_plane,
            cb_plane,
            cr_plane,
            y_stride,
            c_stride,
            y_start,
            y_end,
            x_start,
            x_end,
            shift,
            full_range,
            matrix_coeffs,
            rgb,
        );
    }
}

} // verus!
