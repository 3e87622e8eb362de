//! Geometry of subsampled planes and of tightly packed output.
//!
//! Every conversion of this crate walks a rectangle of a luma plane row by row,
//! looks up the chroma samples that cover each luma sample, and appends one
//! interleaved pixel to its output. The definitions here say which samples
//! belong to the pixel with a given number and where its channels are stored.
use vstd::arithmetic::div_mod::{
    lemma_div_is_ordered, lemma_fundamental_div_mod, lemma_fundamental_div_mod_converse,
};
use vstd::arithmetic::mul::{
    lemma_mul_inequality, lemma_mul_is_commutative, lemma_mul_is_distributive_add_other_way,
    lemma_mul_nonnegative,
};
use vstd::prelude::*;

verus! {

/// A rectangle of a luma plane, in the coordinates of the whole plane, and the
/// chroma subsampling that goes with it.
pub struct Layout {
    pub y_stride: int,
    pub chroma_stride: int,
    pub subsample_x: int,
    pub subsample_y: int,
    pub x_start: int,
    pub y_start: int,
    pub width: int,
    pub height: int,
}

/// The contents of the three planes of a picture.
pub struct Planes {
    pub y: Seq<u16>,
    pub cb: Seq<u16>,
    pub cr: Seq<u16>,
}

impl Layout {
    /// No coordinate is negative, and chroma is stored at full or half
    /// resolution in each direction.
    pub open spec fn valid(self) -> bool {
        &&& 0 <= self.y_stride
        &&& 0 <= self.chroma_stride
        &&& 1 <= self.subsample_x <= 2
        &&& 1 <= self.subsample_y <= 2
        &&& 0 <= self.x_start
        &&& 0 <= self.y_start
        &&& 0 <= self.width
        &&& 0 <= self.height
    }

    /// How many pixels the rectangle has.
    pub open spec fn pixel_count(self) -> int {
        self.width * self.height
    }

    /// Index of the luma sample in column `x` of row `y` of the plane.
    pub open spec fn luma_at(self, x: int, y: int) -> int {
        y * self.y_stride + x
    }

    /// Index of the chroma sample that covers column `x` of row `y` of the luma
    /// plane.
    pub open spec fn chroma_at(self, x: int, y: int) -> int {
        (y / self.subsample_y) * self.chroma_stride + x / self.subsample_x
    }

    /// Column, in the plane, of the pixel with number `p`. Pixels are numbered
    /// row by row from zero.
    pub open spec fn column(self, p: int) -> int {
        self.x_start + p % self.width
    }

    /// Row, in the plane, of the pixel with number `p`.
    pub open spec fn row(self, p: int) -> int {
        self.y_start + p / self.width
    }

    /// Index of the luma sample of the pixel with number `p`.
    pub open spec fn luma_index(self, p: int) -> int {
        self.luma_at(self.column(p), self.row(p))
    }

    /// Index of the chroma samples of the pixel with number `p`.
    pub open spec fn chroma_index(self, p: int) -> int {
        self.chroma_at(self.column(p), self.row(p))
    }

    /// The rectangle of `width` by `height` pixels whose first pixel is in column `dx` of
    /// row `dy` of this one.
    pub open spec fn crop(self, dx: int, dy: int, width: int, height: int) -> Layout {
        Layout { x_start: self.x_start + dx, y_start: self.y_start + dy, width, height, ..self }
    }

    /// The planes hold every sample of the rectangle. The sample in
    /// the last column of the last row has the highest index.
    pub open spec fn readable(self, planes: Planes) -> bool {
        self.width > 0 && self.height > 0 ==> {
            let x = self.x_start + self.width - 1;
            let y = self.y_start + self.height - 1;
            &&& self.luma_at(x, y) < planes.y.len()
            &&& self.chroma_at(x, y) < planes.cb.len()
            &&& self.chroma_at(x, y) < planes.cr.len()
        }
    }
}

/// A rectangle given by machine integers.
pub open spec fn layout_of(
    y_stride: usize,
    chroma_stride: usize,
    subsample_x: usize,
    subsample_y: usize,
    x_start: usize,
    y_start: usize,
    width: usize,
    height: usize,
) -> Layout {
    Layout {
        y_stride: y_stride as int,
        chroma_stride: chroma_stride as int,
        subsample_x: subsample_x as int,
        subsample_y: subsample_y as int,
        x_start: x_start as int,
        y_start: y_start as int,
        width: width as int,
        height: height as int,
    }
}

/// A rectangle of planes whose chroma has half the resolution in both
/// directions.
pub open spec fn layout_420(
    y_stride: usize,
    chroma_stride: usize,
    x_start: usize,
    y_start: usize,
    width: usize,
    height: usize,
) -> Layout {
    layout_of(y_stride, chroma_stride, 2, 2, x_start, y_start, width, height)
}

/// The contents of three slices.
pub open spec fn planes_of(y_plane: &[u16], cb_plane: &[u16], cr_plane: &[u16]) -> Planes {
    Planes { y: y_plane@, cb: cb_plane@, cr: cr_plane@ }
}

impl Planes {
    /// The luma, Cb and Cr samples of the pixel with number `p`.
    pub open spec fn samples(self, layout: Layout, p: int) -> (u16, u16, u16) {
        (
            self.y[layout.luma_index(p)],
            self.cb[layout.chroma_index(p)],
            self.cr[layout.chroma_index(p)],
        )
    }
}

/// The channels of one pixel as they are stored: red, green and blue, and in
/// four-channel output an opaque alpha.
pub open spec fn interleaved(rgb: (u8, u8, u8), channels: int) -> Seq<u8> {
    if channels == 4 {
        seq![rgb.0, rgb.1, rgb.2, u8::MAX]
    } else {
        seq![rgb.0, rgb.1, rgb.2]
    }
}

/// `count` pixels of `channels` values each, one after another.
pub open spec fn packed<T>(count: int, channels: int, pixel: spec_fn(int) -> Seq<T>) -> Seq<T> {
    Seq::new((count * channels) as nat, |i: int| pixel(i / channels)[i % channels])
}

/// `s` with the values `values` stored from index `at` on.
pub open spec fn overwritten<T>(s: Seq<T>, at: int, values: Seq<T>) -> Seq<T> {
    Seq::new(
        s.len(),
        |i: int|
            if at <= i < at + values.len() {
                values[i - at]
            } else {
                s[i]
            },
    )
}

/// The first `n` values of `out` are those of `expected`, the others are still
/// those of `before`.
pub open spec fn prefix_written<T>(
    out: Seq<T>,
    before: Seq<T>,
    expected: Seq<T>,
    n: int,
) -> bool {
    &&& out.len() == before.len()
    &&& n <= expected.len() <= before.len()
    &&& forall|i: int| 0 <= i < n ==> out[i] == expected[i]
    &&& forall|i: int| n <= i < out.len() ==> out[i] == before[i]
}

/// The pixel in column `col` of row `row` of a rectangle that is `width` wide
/// has the number `row * width + col`.
pub proof fn lemma_pixel_number(width: int, row: int, col: int)
    requires
        0 <= row,
        0 <= col < width,
    ensures
        0 <= row * width + col,
        (row * width + col) / width == row,
        (row * width + col) % width == col,
{
    lemma_mul_nonnegative(row, width);
    lemma_fundamental_div_mod_converse(row * width + col, width, row, col);
}

/// The pixels of a row within the height have numbers below the pixel count.
pub proof fn lemma_pixel_number_bound(width: int, height: int, row: int, col: int)
    requires
        0 <= row < height,
        0 <= col < width,
    ensures
        row * width + col < width * height,
        row * width + width <= width * height,
{
    lemma_mul_inequality(row + 1, height, width);
    lemma_mul_is_distributive_add_other_way(width, row, 1);
    lemma_mul_is_commutative(width, height);
}

/// Where planes hold the last sample of a rectangle they hold each of its
/// samples.
pub proof fn lemma_in_planes(layout: Layout, planes: Planes, row: int, col: int)
    requires
        layout.valid(),
        layout.readable(planes),
        0 <= row < layout.height,
        0 <= col < layout.width,
    ensures
        ({
            let x = layout.x_start + col;
            let y = layout.y_start + row;
            &&& 0 <= y * layout.y_stride <= layout.luma_at(x, y) < planes.y.len()
            &&& 0 <= (y / layout.subsample_y) * layout.chroma_stride <= layout.chroma_at(x, y)
                < planes.cb.len()
            &&& layout.chroma_at(x, y) < planes.cr.len()
            &&& layout.luma_index(row * layout.width + col) == layout.luma_at(x, y)
            &&& layout.chroma_index(row * layout.width + col) == layout.chroma_at(x, y)
        }),
{
    let x = layout.x_start + col;
    let y = layout.y_start + row;
    let last_x = layout.x_start + layout.width - 1;
    let last_y = layout.y_start + layout.height - 1;
    lemma_pixel_number(layout.width, row, col);
    lemma_mul_nonnegative(y, layout.y_stride);
    lemma_mul_inequality(y, last_y, layout.y_stride);
    lemma_div_is_ordered(y, last_y, layout.subsample_y);
    lemma_div_is_ordered(x, last_x, layout.subsample_x);
    lemma_div_is_ordered(0, x, layout.subsample_x);
    lemma_div_is_ordered(0, y, layout.subsample_y);
    lemma_mul_nonnegative(y / layout.subsample_y, layout.chroma_stride);
    lemma_mul_inequality(
        y / layout.subsample_y,
        last_y / layout.subsample_y,
        layout.chroma_stride,
    );
}

/// Samples of neighbouring pixels of a row: luma samples follow one another, and
/// from a column on at which a chroma sample begins, each chroma sample serves
/// `subsample_x` pixels.
pub proof fn lemma_lane(layout: Layout, row: int, col: int, lane: int)
    requires
        layout.valid(),
        0 <= row,
        0 <= col,
        0 <= lane,
        col + lane < layout.width,
        (layout.x_start + col) % layout.subsample_x == 0,
    ensures
        ({
            let x = layout.x_start + col;
            let y = layout.y_start + row;
            let p = row * layout.width + col + lane;
            &&& layout.luma_index(p) == layout.luma_at(x, y) + lane
            &&& layout.chroma_index(p) == layout.chroma_at(x, y) + lane / layout.subsample_x
        }),
{
    lemma_pixel_number(layout.width, row, col + lane);
    let x = layout.x_start + col;
    if layout.subsample_x == 1 {
        assert((x + lane) / 1 == x / 1 + lane / 1);
    } else {
        assert((x + lane) / 2 == x / 2 + lane / 2);
    }
}

/// Storing the pixel with number `p` extends the written prefix by one pixel.
pub proof fn lemma_prefix_grows<T>(
    out: Seq<T>,
    before: Seq<T>,
    count: int,
    channels: int,
    pixel: spec_fn(int) -> Seq<T>,
    p: int,
)
    requires
        channels > 0,
        0 <= p < count,
        pixel(p).len() == channels,
        prefix_written(out, before, packed(count, channels, pixel), p * channels),
    ensures
        0 <= p * channels,
        p * channels + channels <= count * channels <= before.len(),
        prefix_written(
            overwritten(out, p * channels, pixel(p)),
            before,
            packed(count, channels, pixel),
            (p + 1) * channels,
        ),
{
    let at = p * channels;
    lemma_mul_nonnegative(p, channels);
    lemma_mul_is_distributive_add_other_way(channels, p, 1);
    lemma_mul_inequality(p + 1, count, channels);
    let expected = packed(count, channels, pixel);
    assert forall|i: int| 0 <= i < (p + 1) * channels implies overwritten(out, at, pixel(p))[i]
        == expected[i] by {
        if at <= i {
            lemma_fundamental_div_mod_converse(i, channels, p, i - at);
        }
    }
}

/// Storing the next values of `expected` extends the written prefix over them.
pub proof fn lemma_prefix_extends<T>(
    out: Seq<T>,
    before: Seq<T>,
    expected: Seq<T>,
    from: int,
    to: int,
)
    requires
        0 <= from <= to <= expected.len(),
        prefix_written(out, before, expected, from),
    ensures
        prefix_written(
            overwritten(out, from, expected.subrange(from, to)),
            before,
            expected,
            to,
        ),
{
}

/// Before anything is written the written prefix is empty.
pub proof fn lemma_prefix_empty<T>(
    before: Seq<T>,
    width: int,
    height: int,
    channels: int,
    pixel: spec_fn(int) -> Seq<T>,
)
    requires
        0 <= width,
        0 <= height,
        0 <= channels,
        width * height * channels <= before.len(),
    ensures
        packed(width * height, channels, pixel).len() == width * height * channels,
        prefix_written(before, before, packed(width * height, channels, pixel), 0),
        (0 * width) * channels == 0,
{
    lemma_mul_nonnegative(width, height);
    lemma_mul_nonnegative(width * height, channels);
}

/// Once all of `expected` is written, it is followed by what was there before.
pub proof fn lemma_prefix_complete<T>(out: Seq<T>, before: Seq<T>, expected: Seq<T>)
    requires
        prefix_written(out, before, expected, expected.len() as int),
    ensures
        out == expected + before.skip(expected.len() as int),
{
}

/// Consecutive pixels of packed output are packed output of their own.
pub proof fn lemma_packed_subrange<T>(
    count: int,
    channels: int,
    pixel: spec_fn(int) -> Seq<T>,
    from: int,
    to: int,
)
    requires
        channels > 0,
        0 <= from <= to <= count,
    ensures
        0 <= from * channels <= to * channels <= count * channels,
        packed(count, channels, pixel).subrange(from * channels, to * channels) == packed(
            to - from,
            channels,
            |p: int| pixel(from + p),
        ),
{
    lemma_mul_nonnegative(from, channels);
    lemma_mul_inequality(from, to, channels);
    lemma_mul_inequality(to, count, channels);
    assert((to - from) * channels == to * channels - from * channels) by (nonlinear_arith);
    let whole = packed(count, channels, pixel);
    let part = packed(to - from, channels, |p: int| pixel(from + p));
    assert forall|i: int| 0 <= i < (to - from) * channels implies whole[from * channels + i]
        == part[i] by {
        let q = i / channels;
        let r = i % channels;
        lemma_fundamental_div_mod(i, channels);
        assert(from * channels + i == (from + q) * channels + r) by (nonlinear_arith)
            requires
                i == channels * q + r,
        ;
        lemma_fundamental_div_mod_converse(from * channels + i, channels, from + q, r);
    }
    assert(whole.subrange(from * channels, to * channels) =~= part);
}

/// Storing a group of `size` pixels, the first of which has the number `p`,
/// extends the written prefix over the group.
pub proof fn lemma_prefix_grows_by_group<T>(
    out: Seq<T>,
    before: Seq<T>,
    count: int,
    channels: int,
    pixel: spec_fn(int) -> Seq<T>,
    p: int,
    size: int,
    group: spec_fn(int) -> Seq<T>,
)
    requires
        channels > 0,
        0 <= p,
        0 <= size,
        p + size <= count,
        prefix_written(out, before, packed(count, channels, pixel), p * channels),
        forall|lane: int| 0 <= lane < size ==> #[trigger] group(lane) == pixel(p + lane),
    ensures
        0 <= p * channels,
        p * channels + size * channels <= before.len(),
        prefix_written(
            overwritten(out, p * channels, packed(size, channels, group)),
            before,
            packed(count, channels, pixel),
            (p + size) * channels,
        ),
{
    let expected = packed(count, channels, pixel);
    let shifted = |lane: int| pixel(p + lane);
    lemma_packed_subrange(count, channels, pixel, p, p + size);
    assert((p + size) * channels == p * channels + size * channels) by (nonlinear_arith);
    assert forall|i: int| 0 <= i < size * channels implies packed(size, channels, group)[i]
        == packed(size, channels, shifted)[i] by {
        let lane = i / channels;
        lemma_fundamental_div_mod(i, channels);
        assert(0 <= lane < size) by (nonlinear_arith)
            requires
                0 <= i < size * channels,
                channels > 0,
                i == channels * lane + i % channels,
                0 <= i % channels < channels,
        ;
        assert(group(lane) == shifted(lane));
    }
    assert(packed(size, channels, group) =~= packed(size, channels, shifted));
    lemma_prefix_extends(out, before, expected, p * channels, (p + size) * channels);
}

/// Packed pixels followed by more packed pixels are all of them packed.
pub proof fn lemma_packed_concat<T>(
    first: int,
    more: int,
    channels: int,
    first_pixel: spec_fn(int) -> Seq<T>,
    more_pixel: spec_fn(int) -> Seq<T>,
    pixel: spec_fn(int) -> Seq<T>,
)
    requires
        channels > 0,
        0 <= first,
        0 <= more,
        forall|p: int| 0 <= p < first ==> #[trigger] pixel(p) == first_pixel(p),
        forall|p: int| 0 <= p < more ==> pixel(first + p) == #[trigger] more_pixel(p),
    ensures
        packed(first + more, channels, pixel) == packed(first, channels, first_pixel) + packed(
            more,
            channels,
            more_pixel,
        ),
        packed(first, channels, first_pixel).len() == first * channels,
        packed(more, channels, more_pixel).len() == more * channels,
        (first + more) * channels == first * channels + more * channels,
{
    let all = packed(first + more, channels, pixel);
    let head = packed(first, channels, first_pixel);
    let tail = packed(more, channels, more_pixel);
    lemma_mul_nonnegative(first, channels);
    lemma_mul_nonnegative(more, channels);
    lemma_mul_is_distributive_add_other_way(channels, first, more);
    assert forall|i: int| 0 <= i < all.len() implies all[i] == (head + tail)[i] by {
        if i < first * channels {
            let p = i / channels;
            lemma_fundamental_div_mod(i, channels);
            assert(0 <= p < first) by (nonlinear_arith)
                requires
                    0 <= i < first * channels,
                    channels > 0,
                    i == channels * p + i % channels,
                    0 <= i % channels < channels,
            ;
            assert(pixel(p) == first_pixel(p));
        } else {
            let j = i - first * channels;
            let p = j / channels;
            let c = j % channels;
            lemma_fundamental_div_mod(j, channels);
            assert(0 <= p < more) by (nonlinear_arith)
                requires
                    0 <= j < more * channels,
                    channels > 0,
                    j == channels * p + j % channels,
                    0 <= j % channels < channels,
            ;
            assert(i == (first + p) * channels + c) by (nonlinear_arith)
                requires
                    i == first * channels + j,
                    j == channels * p + c,
            ;
            lemma_fundamental_div_mod_converse(i, channels, first + p, c);
            assert(pixel(first + p) == more_pixel(p));
        }
    }
    assert(all =~= head + tail);
}

/// Packed output depends on its own pixels only.
pub proof fn lemma_packed_same<T>(
    count: int,
    channels: int,
    pixel: spec_fn(int) -> Seq<T>,
    other: spec_fn(int) -> Seq<T>,
)
    requires
        channels > 0,
        0 <= count,
        forall|p: int| 0 <= p < count ==> #[trigger] pixel(p) == other(p),
    ensures
        packed(count, channels, pixel) == packed(count, channels, other),
{
    let none = |p: int| Seq::<T>::empty();
    lemma_packed_concat(count, 0, channels, other, none, pixel);
    assert(packed(count, channels, pixel) =~= packed(count, channels, other));
}

/// One packed pixel is that pixel.
pub proof fn lemma_packed_one<T>(channels: int, pixel: spec_fn(int) -> Seq<T>)
    requires
        channels > 0,
        pixel(0).len() == channels,
    ensures
        packed(1, channels, pixel) == pixel(0),
{
    assert forall|i: int| 0 <= i < channels implies packed(1, channels, pixel)[i]
        == pixel(0)[i] by {
        lemma_fundamental_div_mod_converse(i, channels, 0, i);
    }
    assert(packed(1, channels, pixel) =~= pixel(0));
}

/// Storing values behind those that are stored already appends them.
pub proof fn lemma_append<T>(out: Seq<T>, before: Seq<T>, stored: Seq<T>, more: Seq<T>)
    requires
        stored.len() + more.len() <= before.len(),
        out == stored + before.skip(stored.len() as int),
    ensures
        overwritten(out, stored.len() as int, more) == (stored + more) + before.skip(
            (stored + more).len() as int,
        ),
{
    assert(overwritten(out, stored.len() as int, more) =~= (stored + more) + before.skip(
        (stored + more).len() as int,
    ));
}

/// Every channel of every pixel of packed output: channel `c` of pixel `p` is
/// stored at index `p * channels + c`.
pub proof fn lemma_packed_channel<T>(
    count: int,
    channels: int,
    pixel: spec_fn(int) -> Seq<T>,
    p: int,
    c: int,
)
    requires
        0 <= p < count,
        0 <= c < channels,
    ensures
        0 <= p * channels + c < packed(count, channels, pixel).len(),
        packed(count, channels, pixel)[p * channels + c] == pixel(p)[c],
{
    lemma_mul_nonnegative(p, channels);
    lemma_mul_is_distributive_add_other_way(channels, p, 1);
    lemma_mul_inequality(p + 1, count, channels);
    lemma_fundamental_div_mod_converse(p * channels + c, channels, p, c);
}

} // verus!
