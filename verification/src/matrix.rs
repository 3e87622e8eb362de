//! Conversion through a matrix that the caller evaluates.
//!
//! The generic conversion matrix works on real numbers. Its caller hands it in as a
//! function from the luma, Cb and Cr samples of a pixel to red, green and blue, each
//! rounded to an integer but not yet clipped. Everything else happens here: which
//! samples a pixel is made of, clipping to the sample depth, expansion to sixteen bits
//! and storing.
use crate::depth::{clamp_between, clamp_sample, clip, clip_sample};
use crate::lanes::{duplicate_4, load_4, load_8};
use crate::layout::{
    lemma_append, lemma_packed_concat, lemma_packed_one, lemma_packed_same, overwritten, packed,
    Layout, Planes,
};
use crate::source::Source;
use vstd::arithmetic::mul::{lemma_mul_inequality, lemma_mul_nonnegative};
use vstd::prelude::*;

verus! {

/// The matrix accepts all samples.
pub open spec fn total<M: Fn(u16, u16, u16) -> (i32, i32, i32)>(matrix: &M) -> bool {
    forall|y: u16, cb: u16, cr: u16| call_requires(matrix, (y, cb, cr))
}

/// `raws` holds a result of the matrix for each of the first pixels of a rectangle.
pub open spec fn matrix_results<M: Fn(u16, u16, u16) -> (i32, i32, i32)>(
    matrix: &M,
    layout: Layout,
    planes: Planes,
    raws: Seq<(i32, i32, i32)>,
) -> bool {
    forall|p: int|
        0 <= p < raws.len() ==> call_ensures(
            matrix,
            planes.samples(layout, p),
            #[trigger] raws[p],
        )
}

/// Three results of a matrix, clipped to a sample depth.
pub open spec fn clipped(raw: (i32, i32, i32), bit_depth: int) -> (u16, u16, u16) {
    (clip(raw.0, bit_depth), clip(raw.1, bit_depth), clip(raw.2, bit_depth))
}

/// Each pixel as it is stored, where `form` tells how a result of the matrix is stored.
pub open spec fn formed<T>(
    raws: Seq<(i32, i32, i32)>,
    form: spec_fn((i32, i32, i32)) -> Seq<T>,
) -> spec_fn(int) -> Seq<T> {
    |p: int| form(raws[p])
}

/// Results of a matrix as packed pixels.
pub open spec fn stored<T>(
    raws: Seq<(i32, i32, i32)>,
    channels: int,
    form: spec_fn((i32, i32, i32)) -> Seq<T>,
) -> Seq<T> {
    packed(raws.len() as int, channels, formed(raws, form))
}

/// `out` is a converted rectangle: it holds, for each pixel, a result of the matrix for
/// the samples of that pixel.
pub open spec fn converted<T, M: Fn(u16, u16, u16) -> (i32, i32, i32)>(
    matrix: &M,
    layout: Layout,
    planes: Planes,
    channels: int,
    form: spec_fn((i32, i32, i32)) -> Seq<T>,
    out: Seq<T>,
) -> bool {
    exists|raws: Seq<(i32, i32, i32)>|
        {
            &&& raws.len() == layout.pixel_count()
            &&& #[trigger] matrix_results(matrix, layout, planes, raws)
            &&& out == stored(raws, channels, form)
        }
}

/// The matrix is a function of its samples: it cannot give two results for the same ones.
pub open spec fn determined<M: Fn(u16, u16, u16) -> (i32, i32, i32)>(matrix: &M) -> bool {
    forall|samples: (u16, u16, u16), one: (i32, i32, i32), other: (i32, i32, i32)| #[trigger]
        call_ensures(matrix, samples, one) && #[trigger] call_ensures(matrix, samples, other)
            ==> one == other
}

/// A result of the matrix, and the only one where the matrix is determined.
pub open spec fn result_of<M: Fn(u16, u16, u16) -> (i32, i32, i32)>(
    matrix: &M,
    samples: (u16, u16, u16),
) -> (i32, i32, i32) {
    choose|raw: (i32, i32, i32)| call_ensures(matrix, samples, raw)
}

/// The rectangle that a determined matrix gives.
pub open spec fn determined_output<T, M: Fn(u16, u16, u16) -> (i32, i32, i32)>(
    matrix: &M,
    layout: Layout,
    planes: Planes,
    channels: int,
    form: spec_fn((i32, i32, i32)) -> Seq<T>,
) -> Seq<T> {
    packed(
        layout.pixel_count(),
        channels,
        |p: int| form(result_of(matrix, planes.samples(layout, p))),
    )
}

/// A rectangle converted by a determined matrix is the one that the matrix gives.
pub proof fn lemma_determined<T, M: Fn(u16, u16, u16) -> (i32, i32, i32)>(
    matrix: &M,
    layout: Layout,
    planes: Planes,
    channels: int,
    form: spec_fn((i32, i32, i32)) -> Seq<T>,
    out: Seq<T>,
)
    requires
        channels > 0,
        determined(matrix),
        converted(matrix, layout, planes, channels, form, out),
    ensures
        out == determined_output(matrix, layout, planes, channels, form),
        0 <= layout.pixel_count(),
{
    let raws = choose|raws: Seq<(i32, i32, i32)>|
        {
            &&& raws.len() == layout.pixel_count()
            &&& #[trigger] matrix_results(matrix, layout, planes, raws)
            &&& out == stored(raws, channels, form)
        };
    let pixel = |p: int| form(result_of(matrix, planes.samples(layout, p)));
    assert forall|p: int| 0 <= p < layout.pixel_count() implies #[trigger] formed(raws, form)(p)
        == pixel(p) by {
        assert(call_ensures(matrix, planes.samples(layout, p), raws[p]));
    }
    lemma_packed_same(layout.pixel_count(), channels, formed(raws, form), pixel);
}

/// Evaluates the matrix for one pixel and clips its results to the sample depth.
pub fn convert_float_matrix_pixel<M: Fn(u16, u16, u16) -> (i32, i32, i32)>(
    y_sample: u16,
    cb_sample: u16,
    cr_sample: u16,
    bit_depth: u8,
    matrix: &M,
) -> (rgb: (u16, u16, u16))
    requires
        bit_depth <= 30,
        total(matrix),
    ensures
        exists|raw: (i32, i32, i32)| #[trigger]
            call_ensures(matrix, (y_sample, cb_sample, cr_sample), raw) && rgb == clipped(
                raw,
                bit_depth as int,
            ),
{
    let raw: (i32, i32, i32) = matrix(y_sample, cb_sample, cr_sample);
    (
        clip_sample(raw.0, bit_depth),
        clip_sample(raw.1, bit_depth),
        clip_sample(raw.2, bit_depth),
    )
}

/// The chroma samples of eight pixels of a row, the first of which has the sample at
/// `index`: eight samples, or each of four twice where chroma has half the resolution.
pub fn load_float_matrix_chroma_8(plane: &[u16], index: usize, subsample_x: usize) -> (v: [u16; 8])
    requires
        1 <= subsample_x <= 2,
        index + 7int / (subsample_x as int) < plane@.len(),
    ensures
        forall|lane: int|
            0 <= lane < 8 ==> v@[lane] == plane@[index + lane / (subsample_x as int)],
{
    if subsample_x == 1 {
        let v: [u16; 8] = load_8(plane, index);
        assert forall|lane: int| 0 <= lane < 8 implies v@[lane] == plane@[index + lane / (
        subsample_x as int)] by {
            assert(lane / 1 == lane);
        }
        v
    } else {
        let half: [u16; 4] = load_4(plane, index);
        let v: [u16; 8] = duplicate_4(half);
        assert forall|lane: int| 0 <= lane < 8 implies v@[lane] == plane@[index + lane / (
        subsample_x as int)] by {
            assert(v@[lane] == half@[lane / 2]);
        }
        v
    }
}

/// The chroma samples of four pixels of a row, the first of which has the sample at
/// `index`: four samples, or each of two twice where chroma has half the resolution.
pub fn load_float_matrix_chroma_4(plane: &[u16], index: usize, subsample_x: usize) -> (v: [u16; 4])
    requires
        1 <= subsample_x <= 2,
        index + 3int / (subsample_x as int) < plane@.len(),
    ensures
        forall|lane: int|
            0 <= lane < 4 ==> v@[lane] == plane@[index + lane / (subsample_x as int)],
{
    assert(plane.len() == plane@.len());
    if subsample_x == 1 {
        let v: [u16; 4] = load_4(plane, index);
        assert forall|lane: int| 0 <= lane < 4 implies v@[lane] == plane@[index + lane / (
        subsample_x as int)] by {
            assert(lane / 1 == lane);
        }
        v
    } else {
        let v: [u16; 4] = [plane[index], plane[index], plane[index + 1], plane[index + 1]];
        assert forall|lane: int| 0 <= lane < 4 implies v@[lane] == plane@[index + lane / (
        subsample_x as int)] by {
            assert(v@[lane] == plane@[index + lane / 2]);
        }
        v
    }
}

/// `rgb` can be what the matrix gives for the samples of a pixel, clipped to `0..=max`,
/// and `raw` what it was before clipping.
pub open spec fn lane_result<M: Fn(u16, u16, u16) -> (i32, i32, i32)>(
    matrix: &M,
    samples: (u16, u16, u16),
    max: int,
    raw: (i32, i32, i32),
    rgb: (i32, i32, i32),
) -> bool {
    &&& call_ensures(matrix, samples, raw)
    &&& rgb.0 == clamp_between(raw.0 as int, 0, max)
    &&& rgb.1 == clamp_between(raw.1 as int, 0, max)
    &&& rgb.2 == clamp_between(raw.2 as int, 0, max)
}

/// `rgb` can be what the matrix gives for the samples of a pixel, clipped to `0..=max`.
pub open spec fn lane_clipped<M: Fn(u16, u16, u16) -> (i32, i32, i32)>(
    matrix: &M,
    samples: (u16, u16, u16),
    max: int,
    rgb: (i32, i32, i32),
) -> bool {
    exists|raw: (i32, i32, i32)| #[trigger] lane_result(matrix, samples, max, raw, rgb)
}

/// Evaluates the matrix for four pixels and clips its results to `0..=max`.
pub fn convert_float_matrix_neon_4<M: Fn(u16, u16, u16) -> (i32, i32, i32)>(
    y: [u16; 4],
    cb: [u16; 4],
    cr: [u16; 4],
    matrix: &M,
    max: i32,
) -> (rgb: ([i32; 4], [i32; 4], [i32; 4]))
    requires
        total(matrix),
        0 <= max,
    ensures
        forall|lane: int|
            0 <= lane < 4 ==> lane_clipped(
                matrix,
                (y@[lane], cb@[lane], cr@[lane]),
                max as int,
                (#[trigger] rgb.0@[lane], rgb.1@[lane], rgb.2@[lane]),
            ),
{
    let mut r: [i32; 4] = [0; 4];
    let mut g: [i32; 4] = [0; 4];
    let mut b: [i32; 4] = [0; 4];
    for lane in 0..4usize
        invariant
            total(matrix),
            0 <= max,
            forall|k: int|
                0 <= k < lane ==> lane_clipped(
                    matrix,
                    (y@[k], cb@[k], cr@[k]),
                    max as int,
                    (#[trigger] r@[k], g@[k], b@[k]),
                ),
    {
        let raw: (i32, i32, i32) = matrix(y[lane], cb[lane], cr[lane]);
        r[lane] = clamp_sample(raw.0, max);
        g[lane] = clamp_sample(raw.1, max);
        b[lane] = clamp_sample(raw.2, max);
        assert(lane_result(
            matrix,
            (y@[lane as int], cb@[lane as int], cr@[lane as int]),
            max as int,
            raw,
            (r@[lane as int], g@[lane as int], b@[lane as int]),
        ));
    }
    (r, g, b)
}

/// The first pixels of a rectangle are stored as the results `raws` of the matrix say,
/// and behind them `out` is still as it was.
pub open spec fn progress<T, M: Fn(u16, u16, u16) -> (i32, i32, i32)>(
    matrix: &M,
    source: &Source,
    channels: int,
    form: spec_fn((i32, i32, i32)) -> Seq<T>,
    before: Seq<T>,
    out: Seq<T>,
    raws: Seq<(i32, i32, i32)>,
) -> bool {
    &&& source.layout().pixel_count() * channels <= before.len()
    &&& matrix_results(matrix, source.layout(), source.planes(), raws)
    &&& out == stored(raws, channels, form) + before.skip(raws.len() * channels)
    &&& out.len() == before.len()
}

/// Before anything is stored there are no results.
pub proof fn lemma_progress_start<T, M: Fn(u16, u16, u16) -> (i32, i32, i32)>(
    matrix: &M,
    source: &Source,
    channels: int,
    form: spec_fn((i32, i32, i32)) -> Seq<T>,
    before: Seq<T>,
)
    requires
        source.layout().pixel_count() * channels <= before.len(),
    ensures
        progress(
            matrix,
            source,
            channels,
            form,
            before,
            before,
            Seq::<(i32, i32, i32)>::empty(),
        ),
        0 * source.width == 0,
{
    let none = Seq::<(i32, i32, i32)>::empty();
    assert(0 * channels == 0 && 0 * source.width == 0) by (nonlinear_arith);
    assert(stored(none, channels, form) =~= Seq::<T>::empty());
    assert(Seq::<T>::empty() + before.skip(0) =~= before);
}

/// Storing more results behind those that are stored already.
pub proof fn lemma_progress_step<T, M: Fn(u16, u16, u16) -> (i32, i32, i32)>(
    matrix: &M,
    source: &Source,
    channels: int,
    form: spec_fn((i32, i32, i32)) -> Seq<T>,
    before: Seq<T>,
    out: Seq<T>,
    raws: Seq<(i32, i32, i32)>,
    more: Seq<(i32, i32, i32)>,
)
    requires
        channels > 0,
        progress(matrix, source, channels, form, before, out, raws),
        raws.len() + more.len() <= source.layout().pixel_count(),
        forall|lane: int|
            0 <= lane < more.len() ==> call_ensures(
                matrix,
                source.planes().samples(source.layout(), raws.len() + lane),
                #[trigger] more[lane],
            ),
    ensures
        stored(more, channels, form).len() == more.len() * channels,
        raws.len() * channels + more.len() * channels <= before.len(),
        progress(
            matrix,
            source,
            channels,
            form,
            before,
            overwritten(out, raws.len() * channels, stored(more, channels, form)),
            raws + more,
        ),
{
    let all = raws + more;
    lemma_packed_concat(
        raws.len() as int,
        more.len() as int,
        channels,
        formed(raws, form),
        formed(more, form),
        formed(all, form),
    );
    lemma_mul_inequality(
        (raws.len() + more.len()) as int,
        source.layout().pixel_count(),
        channels,
    );
    lemma_append(out, before, stored(raws, channels, form), stored(more, channels, form));
    assert forall|q: int| 0 <= q < all.len() implies call_ensures(
        matrix,
        source.planes().samples(source.layout(), q),
        #[trigger] all[q],
    ) by {
        if q < raws.len() {
            assert(all[q] == raws[q]);
        } else {
            assert(all[q] == more[q - raws.len()]);
        }
    }
}

/// Storing the next result behind those that are stored already.
pub proof fn lemma_progress_one<T, M: Fn(u16, u16, u16) -> (i32, i32, i32)>(
    matrix: &M,
    source: &Source,
    channels: int,
    form: spec_fn((i32, i32, i32)) -> Seq<T>,
    before: Seq<T>,
    out: Seq<T>,
    raws: Seq<(i32, i32, i32)>,
    raw: (i32, i32, i32),
)
    requires
        channels > 0,
        form(raw).len() == channels,
        progress(matrix, source, channels, form, before, out, raws),
        raws.len() < source.layout().pixel_count(),
        call_ensures(
            matrix,
            source.planes().samples(source.layout(), raws.len() as int),
            raw,
        ),
    ensures
        raws.len() * channels + channels <= before.len(),
        progress(
            matrix,
            source,
            channels,
            form,
            before,
            overwritten(out, raws.len() * channels, form(raw)),
            raws.push(raw),
        ),
{
    let more = seq![raw];
    lemma_progress_step(matrix, source, channels, form, before, out, raws, more);
    lemma_packed_one(channels, formed(more, form));
    assert(raws + more =~= raws.push(raw));
}

/// Once there is a result for each pixel the rectangle is converted.
pub proof fn lemma_progress_complete<T, M: Fn(u16, u16, u16) -> (i32, i32, i32)>(
    matrix: &M,
    source: &Source,
    channels: int,
    form: spec_fn((i32, i32, i32)) -> Seq<T>,
    before: Seq<T>,
    out: Seq<T>,
    raws: Seq<(i32, i32, i32)>,
)
    requires
        channels > 0,
        progress(matrix, source, channels, form, before, out, raws),
        raws.len() == source.layout().pixel_count(),
    ensures
        converted(
            matrix,
            source.layout(),
            source.planes(),
            channels,
            form,
            out.take(source.layout().pixel_count() * channels),
        ),
        determined(matrix) ==> out.take(source.layout().pixel_count() * channels)
            == determined_output(matrix, source.layout(), source.planes(), channels, form),
        out.skip(source.layout().pixel_count() * channels) == before.skip(
            source.layout().pixel_count() * channels,
        ),
        out.len() == before.len(),
{
    let n = source.layout().pixel_count() * channels;
    lemma_mul_nonnegative(raws.len() as int, channels);
    assert(stored(raws, channels, form).len() == n);
    assert(out.take(n) =~= stored(raws, channels, form));
    assert(out.skip(n) =~= before.skip(n));
    if determined(matrix) {
        lemma_determined(
            matrix,
            source.layout(),
            source.planes(),
            channels,
            form,
            out.take(n),
        );
    }
}

} // verus!
