use color_convert::depth::{
    clamp_sample, clip_sample, max_sample, scale_float_matrix_sample_to_u16,
};
use color_convert::matrix::{
    convert_float_matrix_neon_4, convert_float_matrix_pixel, load_float_matrix_chroma_4,
    load_float_matrix_chroma_8,
};
use color_convert::matrix_8bit::{
    convert_float_matrix_8bit_region_to_interleaved,
    convert_float_matrix_8bit_region_to_interleaved_neon,
    convert_float_matrix_8bit_region_to_interleaved_scalar,
};
use color_convert::matrix_rgba16::{
    convert_float_matrix_region_to_rgba16, convert_float_matrix_region_to_rgba16_neon,
    convert_float_matrix_region_to_rgba16_scalar, scale_float_matrix_neon_to_u16,
};

#[derive(Clone, Copy)]
struct FloatMatrixParams {
    y_offset: f32,
    y_scale: f32,
    chroma_midpoint: f32,
    chroma_scale: f32,
    r_cr: f32,
    g_cb: f32,
    g_cr: f32,
    b_cb: f32,
}

fn float_matrix(params: FloatMatrixParams) -> impl Fn(u16, u16, u16) -> (i32, i32, i32) {
    move |y_sample, cb_sample, cr_sample| {
        let y = (f32::from(y_sample) - params.y_offset) * params.y_scale;
        let cb = (f32::from(cb_sample) - params.chroma_midpoint) * params.chroma_scale;
        let cr = (f32::from(cr_sample) - params.chroma_midpoint) * params.chroma_scale;
        let r = params.r_cr * cr + y;
        let g = params.g_cr * cr + (params.g_cb * cb + y);
        let b = params.b_cb * cb + y;
        ((r + 0.5) as i32, (g + 0.5) as i32, (b + 0.5) as i32)
    }
}

fn full_float_params(bit_depth: u8) -> FloatMatrixParams {
    FloatMatrixParams {
        y_offset: 0.0,
        y_scale: 1.0,
        chroma_midpoint: (1_u32 << (bit_depth - 1)) as f32,
        chroma_scale: 1.0,
        r_cr: 1.5748,
        g_cb: -0.187_324,
        g_cr: -0.468_124,
        b_cb: 1.8556,
    }
}

fn limited_float_params(bit_depth: u8) -> FloatMatrixParams {
    FloatMatrixParams {
        y_offset: (16_u32 << bit_depth.saturating_sub(8)) as f32,
        y_scale: 1.1689,
        chroma_midpoint: (1_u32 << (bit_depth - 1)) as f32,
        chroma_scale: 1.1429,
        r_cr: 1.402,
        g_cb: -0.344_136,
        g_cr: -0.714_136,
        b_cb: 1.772,
    }
}

#[test]
fn float_matrix_8bit_dispatch_matches_scalar_for_layouts_ranges_and_tails() {
    let source_width = 23_usize;
    let source_height = 9_usize;
    let mut state = 0xa1d3_7e29_u32;
    let mut sample = || {
        state = state.wrapping_mul(1_664_525).wrapping_add(1_013_904_223);
        ((state >> 16) & 255) as u16
    };
    let y_plane = (0..source_width * source_height)
        .map(|_| sample())
        .collect::<Vec<_>>();

    for (subsample_x, subsample_y) in [(2_usize, 2_usize), (2, 1), (1, 1)] {
        let chroma_stride = source_width.div_ceil(subsample_x);
        let chroma_height = source_height.div_ceil(subsample_y);
        let cb_plane = (0..chroma_stride * chroma_height)
            .map(|_| sample())
            .collect::<Vec<_>>();
        let cr_plane = (0..chroma_stride * chroma_height)
            .map(|_| sample())
            .collect::<Vec<_>>();

        for params in [full_float_params(8), limited_float_params(8)] {
            let matrix = float_matrix(params);
            for width in [1_usize, 3, 4, 7, 8, 9, 15, 16, 17] {
                let (x_start, y_start, height) = (1_usize, 1_usize, 7_usize);
                for channels in [3_usize, 4_usize] {
                    let mut expected = vec![0_u8; width * height * channels];
                    convert_float_matrix_8bit_region_to_interleaved_scalar(
                        &y_plane,
                        &cb_plane,
                        &cr_plane,
                        source_width,
                        chroma_stride,
                        subsample_x,
                        subsample_y,
                        x_start,
                        y_start,
                        width,
                        height,
                        &matrix,
                        channels,
                        &mut expected,
                    );
                    let mut actual = vec![0_u8; expected.len()];
                    convert_float_matrix_8bit_region_to_interleaved(
                        &y_plane,
                        &cb_plane,
                        &cr_plane,
                        source_width,
                        chroma_stride,
                        subsample_x,
                        subsample_y,
                        x_start,
                        y_start,
                        width,
                        height,
                        &matrix,
                        true,
                        channels,
                        &mut actual,
                    );
                    assert_eq!(
                        actual, expected,
                        "subsampling={subsample_x}x{subsample_y}, width={width}, channels={channels}"
                    );
                    let mut grouped = vec![0_u8; expected.len()];
                    convert_float_matrix_8bit_region_to_interleaved_neon(
                        &y_plane,
                        &cb_plane,
                        &cr_plane,
                        source_width,
                        chroma_stride,
                        subsample_x,
                        subsample_y,
                        x_start,
                        y_start,
                        width,
                        height,
                        &matrix,
                        true,
                        channels,
                        &mut grouped,
                    );
                    assert_eq!(
                        grouped, expected,
                        "subsampling={subsample_x}x{subsample_y}, width={width}, channels={channels}"
                    );
                }
            }
        }
    }
}

#[test]
fn float_matrix_rgba16_dispatch_matches_scalar_and_exact_bit_replication() {
    let source_width = 19_usize;
    let source_height = 8_usize;
    for bit_depth in [10_u8, 12_u8] {
        let sample_max = (1_u16 << bit_depth) - 1;
        let mut state = 0x59c8_0f13_u32 ^ u32::from(bit_depth);
        let mut sample = || {
            state = state.wrapping_mul(1_664_525).wrapping_add(1_013_904_223);
            ((state >> 16) as u16) & sample_max
        };
        let y_plane = (0..source_width * source_height)
            .map(|_| sample())
            .collect::<Vec<_>>();

        for (subsample_x, subsample_y) in [(2_usize, 2_usize), (2, 1), (1, 1)] {
            let chroma_stride = source_width.div_ceil(subsample_x);
            let chroma_height = source_height.div_ceil(subsample_y);
            let cb_plane = (0..chroma_stride * chroma_height)
                .map(|_| sample())
                .collect::<Vec<_>>();
            let cr_plane = (0..chroma_stride * chroma_height)
                .map(|_| sample())
                .collect::<Vec<_>>();

            for params in [
                full_float_params(bit_depth),
                limited_float_params(bit_depth),
            ] {
                let matrix = float_matrix(params);
                for width in [1_usize, 3, 4, 5, 7, 8, 9, 13, 16, 17] {
                    let (x_start, y_start, height) = (1_usize, 1_usize, 6_usize);
                    let mut expected = vec![0_u16; width * height * 4];
                    convert_float_matrix_region_to_rgba16_scalar(
                        &y_plane,
                        &cb_plane,
                        &cr_plane,
                        source_width,
                        chroma_stride,
                        subsample_x,
                        subsample_y,
                        x_start,
                        y_start,
                        width,
                        height,
                        bit_depth,
                        &matrix,
                        &mut expected,
                    );
                    let mut actual = vec![0_u16; expected.len()];
                    convert_float_matrix_region_to_rgba16(
                        &y_plane,
                        &cb_plane,
                        &cr_plane,
                        source_width,
                        chroma_stride,
                        subsample_x,
                        subsample_y,
                        x_start,
                        y_start,
                        width,
                        height,
                        bit_depth,
                        &matrix,
                        true,
                        &mut actual,
                    );
                    assert_eq!(
                        actual, expected,
                        "depth={bit_depth}, subsampling={subsample_x}x{subsample_y}, width={width}"
                    );
                    assert!(actual.chunks_exact(4).all(|pixel| pixel[3] == u16::MAX));
                    let mut grouped = vec![0_u16; expected.len()];
                    convert_float_matrix_region_to_rgba16_neon(
                        &y_plane,
                        &cb_plane,
                        &cr_plane,
                        source_width,
                        chroma_stride,
                        subsample_x,
                        subsample_y,
                        x_start,
                        y_start,
                        width,
                        height,
                        bit_depth,
                        &matrix,
                        true,
                        &mut grouped,
                    );
                    assert_eq!(
                        grouped, expected,
                        "depth={bit_depth}, subsampling={subsample_x}x{subsample_y}, width={width}"
                    );
                }
            }
        }

        for sample in [0_u16, 1, sample_max / 2, sample_max - 1, sample_max] {
            let shift = 16 - u32::from(bit_depth);
            let expected = ((u32::from(sample) << shift)
                | (u32::from(sample) >> u32::from(bit_depth).saturating_sub(shift)))
                as u16;
            assert_eq!(
                scale_float_matrix_sample_to_u16(sample, bit_depth),
                expected
            );
        }
    }
}

#[test]
fn float_matrix_dispatch_falls_back_for_non_finite_and_extreme_coefficients() {
    let y_plane = [0_u16, 1, 16, 128, 254, 255, 65_534, 65_535];
    let cb_plane = [0_u16, 16, 128, 255, 512, 1023, 4095, 65_535];
    let cr_plane = [65_535_u16, 4095, 1023, 512, 255, 128, 16, 0];
    let mut variants = [full_float_params(8); 4];
    variants[0].r_cr = f32::NAN;
    variants[1].g_cb = f32::INFINITY;
    variants[2].g_cr = f32::NEG_INFINITY;
    variants[3].b_cb = f32::MAX;

    for params in variants {
        let matrix = float_matrix(params);
        let mut expected = [0_u8; 8 * 4];
        convert_float_matrix_8bit_region_to_interleaved_scalar(
            &y_plane,
            &cb_plane,
            &cr_plane,
            8,
            8,
            1,
            1,
            0,
            0,
            8,
            1,
            &matrix,
            4,
            &mut expected,
        );
        let mut actual = [0_u8; 8 * 4];
        convert_float_matrix_8bit_region_to_interleaved(
            &y_plane,
            &cb_plane,
            &cr_plane,
            8,
            8,
            1,
            1,
            0,
            0,
            8,
            1,
            &matrix,
            false,
            4,
            &mut actual,
        );
        assert_eq!(actual, expected);
        for neon_safe in [false, true] {
            let mut grouped = [0_u8; 8 * 4];
            convert_float_matrix_8bit_region_to_interleaved_neon(
                &y_plane, &cb_plane, &cr_plane, 8, 8, 1, 1, 0, 0, 8, 1, &matrix, neon_safe, 4,
                &mut grouped,
            );
            assert_eq!(grouped, expected);
        }
    }
}

#[test]
fn results_are_clipped_to_the_depth() {
    let matrix =
        |y: u16, cb: u16, cr: u16| (i32::from(y) - 300, i32::from(cb), i32::from(cr) * 70_000);
    assert_eq!(convert_float_matrix_pixel(100, 77, 1, 8, &matrix), (0, 77, 255));
    assert_eq!(convert_float_matrix_pixel(900, 1023, 1, 10, &matrix), (600, 1023, 1023));
    assert_eq!(convert_float_matrix_pixel(300, 1, 1, 16, &matrix), (0, 1, 65_535));
    assert_eq!(convert_float_matrix_pixel(301, 2, 1, 0, &matrix), (0, 0, 0));
    assert_eq!(convert_float_matrix_pixel(300, 2, 1, 20, &matrix), (0, 2, 4_464));
}

#[test]
fn four_lanes_are_four_pixels() {
    let matrix = |y: u16, cb: u16, cr: u16| {
        (i32::from(y) + i32::from(cb), i32::from(cb) - i32::from(cr), i32::from(cr))
    };
    let (r, g, b) =
        convert_float_matrix_neon_4([1, 2, 3, 4], [10, 20, 30, 40], [11, 5, 100, 7], &matrix, 33);
    assert_eq!(r, [11, 22, 33, 33]);
    assert_eq!(g, [0, 15, 0, 33]);
    assert_eq!(b, [11, 5, 33, 7]);
}

#[test]
fn chroma_lanes_follow_the_subsampling() {
    let plane = [1_u16, 2, 3, 4, 5, 6, 7, 8, 9];
    assert_eq!(load_float_matrix_chroma_8(&plane, 1, 1), [2, 3, 4, 5, 6, 7, 8, 9]);
    assert_eq!(load_float_matrix_chroma_8(&plane, 5, 2), [6, 6, 7, 7, 8, 8, 9, 9]);
    assert_eq!(load_float_matrix_chroma_4(&plane, 5, 1), [6, 7, 8, 9]);
    assert_eq!(load_float_matrix_chroma_4(&plane, 7, 2), [8, 8, 9, 9]);
}

#[test]
fn stored_pixels_keep_the_chroma_phase() {
    // The matrix hands its samples through, so the output shows which samples were used.
    let matrix = |y: u16, cb: u16, cr: u16| (i32::from(y), i32::from(cb), i32::from(cr));
    let y_plane = [0_u16, 1, 2, 3, 4, 5, 6, 7];
    let cb_plane = [10_u16, 11];
    let cr_plane = [20_u16, 21];
    let mut rgb = [0_u8; 2 * 2 * 3];
    convert_float_matrix_8bit_region_to_interleaved(
        &y_plane, &cb_plane, &cr_plane, 4, 2, 2, 2, 1, 0, 2, 2, &matrix, true, 3, &mut rgb,
    );
    assert_eq!(rgb, [1, 10, 20, 2, 11, 21, 5, 10, 20, 6, 11, 21]);
    let mut rgba16 = [0_u16; 4];
    convert_float_matrix_region_to_rgba16(
        &y_plane, &cb_plane, &cr_plane, 4, 2, 2, 2, 3, 1, 1, 1, 8, &matrix, true, &mut rgba16,
    );
    assert_eq!(rgba16, [7 * 257, 11 * 257, 21 * 257, 65_535]);
}

#[test]
fn matrix_kernels_leave_what_follows() {
    let matrix = |y: u16, cb: u16, cr: u16| (i32::from(y), i32::from(cb), i32::from(cr));
    let mut bytes = [3_u8; 5];
    convert_float_matrix_8bit_region_to_interleaved_scalar(
        &[9], &[8], &[7], 1, 1, 1, 1, 0, 0, 1, 1, &matrix, 3, &mut bytes,
    );
    assert_eq!(bytes, [9, 8, 7, 3, 3]);
    let mut words = [3_u16; 6];
    convert_float_matrix_region_to_rgba16_neon(
        &[9], &[8], &[7], 1, 1, 1, 1, 0, 0, 1, 1, 16, &matrix, true, &mut words,
    );
    assert_eq!(words, [9, 8, 7, 65_535, 3, 3]);
}

#[test]
fn a_cropped_matrix_conversion_is_a_crop() {
    let matrix = float_matrix(full_float_params(8));
    let y_plane = (0..12 * 6).map(|i| (i * 7 % 256) as u16).collect::<Vec<_>>();
    let cb_plane = (0..6 * 3).map(|i| (i * 31 % 256) as u16).collect::<Vec<_>>();
    let cr_plane = (0..6 * 3).map(|i| (i * 53 % 256) as u16).collect::<Vec<_>>();
    let convert = |dx: usize, dy: usize, w: usize, h: usize| {
        let mut out = vec![0_u8; w * h * 4];
        convert_float_matrix_8bit_region_to_interleaved(
            &y_plane, &cb_plane, &cr_plane, 12, 6, 2, 2, dx, dy, w, h, &matrix, true, 4, &mut out,
        );
        out
    };
    let whole = convert(0, 0, 12, 6);
    let part = convert(3, 1, 9, 4);
    for row in 0..4 {
        let begin = ((1 + row) * 12 + 3) * 4;
        assert_eq!(part[row * 36..row * 36 + 36], whole[begin..begin + 36]);
    }
    assert!(whole.chunks_exact(4).all(|pixel| pixel[3] == 255));
}

#[test]
fn subsampled_chroma_is_replicated_chroma() {
    let matrix = float_matrix(limited_float_params(8));
    let (stride, rows) = (21_usize, 7_usize);
    let y_plane = (0..stride * rows).map(|i| (i * 7 % 256) as u16).collect::<Vec<_>>();
    for (sub_x, sub_y) in [(2_usize, 2_usize), (2, 1), (1, 2)] {
        let c_stride = stride.div_ceil(sub_x);
        let c_len = c_stride * rows.div_ceil(sub_y);
        let cb = (0..c_len).map(|i| (i * 31 % 256) as u16).collect::<Vec<_>>();
        let cr = (0..c_len).map(|i| (i * 53 % 256) as u16).collect::<Vec<_>>();
        let replicate = |plane: &[u16]| {
            (0..stride * rows)
                .map(|i| plane[(i / stride / sub_y) * c_stride + i % stride / sub_x])
                .collect::<Vec<u16>>()
        };
        let (full_cb, full_cr) = (replicate(&cb), replicate(&cr));
        for (x, y) in [(0_usize, 0_usize), (1, 0), (3, 1), (4, 2)] {
            let (w, h) = (stride - x, rows - y);
            let mut from_half = vec![0_u8; w * h * 3];
            convert_float_matrix_8bit_region_to_interleaved_neon(
                &y_plane, &cb, &cr, stride, c_stride, sub_x, sub_y, x, y, w, h, &matrix, true, 3,
                &mut from_half,
            );
            let mut from_full = vec![1_u8; w * h * 3];
            convert_float_matrix_8bit_region_to_interleaved(
                &y_plane, &full_cb, &full_cr, stride, stride, 1, 1, x, y, w, h, &matrix, true, 3,
                &mut from_full,
            );
            assert_eq!(from_half, from_full);
            let mut wide_half = vec![0_u16; w * h * 4];
            convert_float_matrix_region_to_rgba16_neon(
                &y_plane, &cb, &cr, stride, c_stride, sub_x, sub_y, x, y, w, h, 8, &matrix, true,
                &mut wide_half,
            );
            let mut wide_full = vec![1_u16; w * h * 4];
            convert_float_matrix_region_to_rgba16(
                &y_plane, &full_cb, &full_cr, stride, stride, 1, 1, x, y, w, h, 8, &matrix, true,
                &mut wide_full,
            );
            assert_eq!(wide_half, wide_full);
        }
    }
}

#[test]
fn outputs_of_a_matrix_agree_at_eight_bits() {
    let matrix = float_matrix(full_float_params(8));
    let y_plane = (0..13 * 6).map(|i| (i * 7 % 256) as u16).collect::<Vec<_>>();
    let cb_plane = (0..7 * 3).map(|i| (i * 31 % 256) as u16).collect::<Vec<_>>();
    let cr_plane = (0..7 * 3).map(|i| (i * 53 % 256) as u16).collect::<Vec<_>>();
    let convert = |channels: usize, from: usize, rows: usize| {
        let mut out = vec![0_u8; 12 * rows * channels];
        convert_float_matrix_8bit_region_to_interleaved(
            &y_plane, &cb_plane, &cr_plane, 13, 7, 2, 2, 1, from, 12, rows, &matrix, true,
            channels, &mut out,
        );
        out
    };
    let rgba = convert(4, 0, 6);
    let mut words = vec![0_u16; 12 * 6 * 4];
    convert_float_matrix_region_to_rgba16(
        &y_plane, &cb_plane, &cr_plane, 13, 7, 2, 2, 1, 0, 12, 6, 8, &matrix, true, &mut words,
    );
    for (byte, word) in rgba.iter().zip(&words) {
        assert_eq!(u32::from(*word), 257 * u32::from(*byte));
    }
    assert!(words.chunks_exact(4).all(|pixel| pixel[3] == 65_535));
    let rgb = convert(3, 0, 6);
    for (three, four) in rgb.chunks_exact(3).zip(rgba.chunks_exact(4)) {
        assert_eq!(three, &four[..3]);
        assert_eq!(four[3], 255);
    }
    let mut strips = convert(3, 0, 1);
    strips.extend(convert(3, 1, 5));
    assert_eq!(strips, rgb);
}

#[test]
fn expansion_replicates_bits() {
    assert_eq!(scale_float_matrix_sample_to_u16(0xab, 8), 0xabab);
    assert_eq!(scale_float_matrix_sample_to_u16(0x3ff, 10), 0xffff);
    assert_eq!(scale_float_matrix_sample_to_u16(0x201, 10), 0x8060);
    assert_eq!(scale_float_matrix_sample_to_u16(0xabc, 12), 0xabca);
    assert_eq!(scale_float_matrix_sample_to_u16(0x1234, 16), 0x1234);
    assert_eq!(scale_float_matrix_sample_to_u16(0x1234, 200), 0x1234);
    assert_eq!(scale_float_matrix_sample_to_u16(0xf, 4), 0xf00f);
    assert_eq!(scale_float_matrix_sample_to_u16(1, 0), 0xffff);
    assert_eq!(scale_float_matrix_sample_to_u16(0x400, 10), 0xffff);
    assert_eq!(
        scale_float_matrix_neon_to_u16([0, 1, 512, 1023], 10),
        [0, 64, 0x8020, 0xffff]
    );
}

#[test]
fn expansion_is_lossless_and_monotone() {
    for bit_depth in 1..=16_u8 {
        let max = max_sample(bit_depth) as u16;
        let mut last: Option<u16> = None;
        for sample in 0..=max {
            let wide = scale_float_matrix_sample_to_u16(sample, bit_depth);
            assert_eq!(u32::from(wide) >> (16 - u32::from(bit_depth)), u32::from(sample));
            assert!(last.map_or(true, |previous| previous < wide));
            last = Some(wide);
        }
        assert_eq!(scale_float_matrix_sample_to_u16(0, bit_depth), 0);
        if bit_depth >= 8 {
            assert_eq!(last, Some(u16::MAX));
        }
    }
}

#[test]
fn sample_limits() {
    assert_eq!(max_sample(0), 0);
    assert_eq!(max_sample(8), 255);
    assert_eq!(max_sample(30), 0x3fff_ffff);
    assert_eq!(clamp_sample(-5, 255), 0);
    assert_eq!(clamp_sample(256, 255), 255);
    assert_eq!(clamp_sample(99, 255), 99);
    assert_eq!(clip_sample(i32::MAX, 12), 4095);
    assert_eq!(clip_sample(i32::MIN, 12), 0);
    assert_eq!(clip_sample(0x1_0001, 20), 1);
}
