use color_convert::fixed_420::{
    convert_420_8bit_region_to_interleaved, convert_420_8bit_region_to_interleaved_neon,
    convert_420_8bit_region_to_interleaved_scalar, convert_420_8bit_to_interleaved, green_fits,
    single_channel_fits, write_420_8bit_pixel,
};

fn noise(seed: u32, count: usize) -> Vec<u16> {
    let mut state = seed;
    (0..count)
        .map(|_| {
            state = state.wrapping_mul(1_664_525).wrapping_add(1_013_904_223);
            (state >> 16) as u16
        })
        .collect()
}

#[test]
fn full_range_420_dispatch_matches_scalar_for_rgb_and_rgba() {
    let mut state = 0x7a31_4c95_u32;
    let mut sample = || {
        state = state.wrapping_mul(1_664_525).wrapping_add(1_013_904_223);
        (state >> 16) as u16
    };

    for (width, height) in [(1_usize, 1_usize), (7, 3), (8, 2), (9, 5), (24, 4)] {
        let chroma_width = width.div_ceil(2);
        let chroma_height = height.div_ceil(2);
        let y_plane = (0..width * height).map(|_| sample()).collect::<Vec<_>>();
        let cb_plane = (0..chroma_width * chroma_height)
            .map(|_| sample())
            .collect::<Vec<_>>();
        let cr_plane = (0..chroma_width * chroma_height)
            .map(|_| sample())
            .collect::<Vec<_>>();

        for channels in [3, 4] {
            let mut expected = vec![0_u8; width * height * channels];
            convert_420_8bit_region_to_interleaved_scalar(
                &y_plane,
                &cb_plane,
                &cr_plane,
                width,
                chroma_width,
                0,
                0,
                width,
                height,
                403,
                -48,
                -120,
                475,
                channels,
                &mut expected,
            );

            let mut actual = vec![0_u8; expected.len()];
            convert_420_8bit_to_interleaved(
                &y_plane,
                &cb_plane,
                &cr_plane,
                width,
                height,
                chroma_width,
                403,
                -48,
                -120,
                475,
                channels,
                &mut actual,
            );
            assert_eq!(actual, expected, "{width}x{height}, {channels} channels");

            let mut grouped = vec![0_u8; expected.len()];
            convert_420_8bit_region_to_interleaved_neon(
                &y_plane,
                &cb_plane,
                &cr_plane,
                width,
                chroma_width,
                0,
                0,
                width,
                height,
                403,
                -48,
                -120,
                475,
                channels,
                &mut grouped,
            );
            assert_eq!(grouped, expected, "{width}x{height}, {channels} channels");
        }
    }
}

#[test]
fn full_range_420_cropped_region_preserves_odd_chroma_phase() {
    let y_stride = 19_usize;
    let source_height = 7_usize;
    let chroma_stride = y_stride.div_ceil(2);
    let mut state = 0x6d28_1b45_u32;
    let mut sample = || {
        state = state.wrapping_mul(1_664_525).wrapping_add(1_013_904_223);
        (state >> 16) as u16
    };
    let y_plane = (0..y_stride * source_height)
        .map(|_| sample())
        .collect::<Vec<_>>();
    let cb_plane = (0..chroma_stride * source_height.div_ceil(2))
        .map(|_| sample())
        .collect::<Vec<_>>();
    let cr_plane = (0..chroma_stride * source_height.div_ceil(2))
        .map(|_| sample())
        .collect::<Vec<_>>();
    let (x_start, y_start, width, height) = (1, 1, 17, 5);

    for channels in [3, 4] {
        let mut expected = vec![0_u8; width * height * channels];
        convert_420_8bit_region_to_interleaved_scalar(
            &y_plane,
            &cb_plane,
            &cr_plane,
            y_stride,
            chroma_stride,
            x_start,
            y_start,
            width,
            height,
            403,
            -48,
            -120,
            475,
            channels,
            &mut expected,
        );

        let mut actual = vec![0_u8; expected.len()];
        convert_420_8bit_region_to_interleaved(
            &y_plane,
            &cb_plane,
            &cr_plane,
            y_stride,
            chroma_stride,
            x_start,
            y_start,
            width,
            height,
            403,
            -48,
            -120,
            475,
            channels,
            &mut actual,
        );
        assert_eq!(actual, expected, "{channels} channels");

        let mut grouped = vec![0_u8; expected.len()];
        convert_420_8bit_region_to_interleaved_neon(
            &y_plane,
            &cb_plane,
            &cr_plane,
            y_stride,
            chroma_stride,
            x_start,
            y_start,
            width,
            height,
            403,
            -48,
            -120,
            475,
            channels,
            &mut grouped,
        );
        assert_eq!(grouped, expected, "{channels} channels");
    }
}

#[test]
fn one_pixel_is_weighted_and_rounded() {
    // 403 * 72 + 128 = 29144, 29144 / 256 = 113.8
    // -48 * -28 - 120 * 72 + 128 = -7168, -7168 / 256 = -28
    // 475 * -28 + 128 = -13172, -13172 / 256 = -51.5, rounded down
    let mut out = [9_u8; 6];
    write_420_8bit_pixel(100, 100, 200, 403, -48, -120, 475, 3, &mut out, 1);
    assert_eq!(out, [9, 213, 72, 48, 9, 9]);
    write_420_8bit_pixel(100, 100, 200, 403, -48, -120, 475, 4, &mut out, 2);
    assert_eq!(out, [9, 213, 213, 72, 48, 255]);
}

#[test]
fn channels_saturate() {
    let mut out = [0_u8; 3];
    write_420_8bit_pixel(250, 128, 255, 403, -48, -120, 475, 3, &mut out, 0);
    assert_eq!(out, [255, 190, 250]);
    write_420_8bit_pixel(5, 128, 0, 403, -48, -120, 475, 3, &mut out, 0);
    assert_eq!(out, [0, 65, 5]);
    write_420_8bit_pixel(65535, 65535, 65535, i32::MIN, 0, 0, i32::MAX, 3, &mut out, 0);
    assert_eq!(out, [0, 255, 255]);
}

#[test]
fn neutral_chroma_is_grey() {
    for y in [0_u16, 1, 77, 254, 255, 256, 65535] {
        let grey = y.min(255) as u8;
        let mut out = [0_u8; 4];
        write_420_8bit_pixel(y, 128, 128, 403, -48, -120, 475, 4, &mut out, 0);
        assert_eq!(out, [grey, grey, grey, 255]);
    }
}

#[test]
fn large_weights_do_not_fit_lanes() {
    assert!(single_channel_fits(32_831));
    assert!(single_channel_fits(-32_831));
    assert!(!single_channel_fits(32_832));
    assert!(!single_channel_fits(-32_832));
    assert!(!single_channel_fits(i32::MIN));
    assert!(green_fits(-32_000, 831));
    assert!(!green_fits(-32_000, 832));
    assert!(!green_fits(i32::MIN, i32::MIN));
}

#[test]
fn standard_weights_fit_lanes() {
    for (r_cr, g_cb, g_cr, b_cb) in [
        (403, -48, -120, 475),
        (377, -42, -146, 482),
        (359, -88, -183, 454),
    ] {
        assert!(single_channel_fits(r_cr));
        assert!(green_fits(g_cb, g_cr));
        assert!(single_channel_fits(b_cb));
    }
}

#[test]
fn large_weights_are_converted_one_by_one() {
    let y_plane = noise(1, 16 * 2);
    let cb_plane = noise(2, 8);
    let cr_plane = noise(3, 8);
    for weight in [32_831, 32_832, i32::MAX, i32::MIN] {
        let mut expected = vec![0_u8; 16 * 2 * 3];
        convert_420_8bit_region_to_interleaved_scalar(
            &y_plane, &cb_plane, &cr_plane, 16, 8, 0, 0, 16, 2, weight, 0, weight, weight, 3,
            &mut expected,
        );
        let mut grouped = vec![0_u8; expected.len()];
        convert_420_8bit_region_to_interleaved_neon(
            &y_plane, &cb_plane, &cr_plane, 16, 8, 0, 0, 16, 2, weight, 0, weight, weight, 3,
            &mut grouped,
        );
        assert_eq!(grouped, expected, "{weight}");
    }
}

#[test]
fn crop_holds_the_pixels_of_the_whole() {
    let (width, height) = (21_usize, 9_usize);
    let chroma_width = width.div_ceil(2);
    let y_plane = noise(11, width * height);
    let cb_plane = noise(12, chroma_width * height.div_ceil(2));
    let cr_plane = noise(13, chroma_width * height.div_ceil(2));
    let mut whole = vec![0_u8; width * height * 4];
    convert_420_8bit_to_interleaved(
        &y_plane, &cb_plane, &cr_plane, width, height, chroma_width, 359, -88, -183, 454, 4,
        &mut whole,
    );
    for (dx, dy, w, h) in [(0, 0, 21, 9), (3, 1, 10, 4), (4, 2, 17, 7), (20, 8, 1, 1)] {
        let mut part = vec![0_u8; w * h * 4];
        convert_420_8bit_region_to_interleaved(
            &y_plane, &cb_plane, &cr_plane, width, chroma_width, dx, dy, w, h, 359, -88, -183, 454,
            4, &mut part,
        );
        for row in 0..h {
            let begin = ((dy + row) * width + dx) * 4;
            assert_eq!(part[row * w * 4..(row + 1) * w * 4], whole[begin..begin + w * 4]);
        }
    }
}

#[test]
fn strips_join_to_the_whole() {
    let (width, height) = (13_usize, 8_usize);
    let chroma_width = width.div_ceil(2);
    let y_plane = noise(21, width * height);
    let cb_plane = noise(22, chroma_width * height.div_ceil(2));
    let cr_plane = noise(23, chroma_width * height.div_ceil(2));
    let convert = |y_start: usize, rows: usize| {
        let mut out = vec![0_u8; width * rows * 3];
        convert_420_8bit_region_to_interleaved(
            &y_plane, &cb_plane, &cr_plane, width, chroma_width, 0, y_start, width, rows, 377, -42,
            -146, 482, 3, &mut out,
        );
        out
    };
    let whole = convert(0, height);
    for rows in 0..=height {
        let mut joined = convert(0, rows);
        joined.extend(convert(rows, height - rows));
        assert_eq!(joined, whole, "{rows}");
    }
}

#[test]
fn rgba_is_rgb_with_opaque_alpha() {
    let y_plane = noise(31, 10 * 3);
    let cb_plane = noise(32, 5 * 2);
    let cr_plane = noise(33, 5 * 2);
    let mut rgb = vec![0_u8; 10 * 3 * 3];
    let mut rgba = vec![0_u8; 10 * 3 * 4];
    convert_420_8bit_to_interleaved(
        &y_plane, &cb_plane, &cr_plane, 10, 3, 5, 403, -48, -120, 475, 3, &mut rgb,
    );
    convert_420_8bit_to_interleaved(
        &y_plane, &cb_plane, &cr_plane, 10, 3, 5, 403, -48, -120, 475, 4, &mut rgba,
    );
    for (three, four) in rgb.chunks_exact(3).zip(rgba.chunks_exact(4)) {
        assert_eq!(three, &four[..3]);
        assert_eq!(four[3], 255);
    }
}

#[test]
fn kernels_leave_what_follows() {
    for kernel in [0, 1] {
        let y_plane = noise(41, 9);
        let mut out = vec![7_u8; 9 * 3 + 5];
        let convert = if kernel == 0 {
            convert_420_8bit_region_to_interleaved_scalar
        } else {
            convert_420_8bit_region_to_interleaved_neon
        };
        convert(
            &y_plane, &[128; 5], &[128; 5], 9, 5, 0, 0, 9, 1, 403, -48, -120, 475, 3, &mut out,
        );
        for (i, y) in y_plane.iter().enumerate() {
            let grey = (*y).min(255) as u8;
            assert_eq!(out[3 * i..3 * i + 3], [grey, grey, grey]);
        }
        assert_eq!(out[27..], [7; 5]);
    }
}

#[test]
fn empty_regions_write_nothing() {
    let mut out: Vec<u8> = Vec::new();
    convert_420_8bit_region_to_interleaved(
        &[], &[], &[], 0, 0, 0, 0, 0, 0, 403, -48, -120, 475, 3, &mut out,
    );
    convert_420_8bit_region_to_interleaved_neon(
        &[], &[], &[], 5, 5, usize::MAX, 3, 0, 2, 403, -48, -120, 475, 4, &mut out,
    );
    assert_eq!(out, []);
}
