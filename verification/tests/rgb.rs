use color_convert::fixed_420::convert_420_8bit_to_interleaved;
use color_convert::rgb_420::{
    convert_420_to_rgb, convert_420_to_rgb_scalar, convert_420_to_rgb_v3, get_coefficients,
    scalar_pixel,
};

fn samples(seed: u32, count: usize, mask: u16) -> Vec<u16> {
    let mut state = seed;
    (0..count)
        .map(|_| {
            state = state.wrapping_mul(1_664_525).wrapping_add(1_013_904_223);
            ((state >> 16) as u16) & mask
        })
        .collect()
}

#[test]
fn matrix_factors() {
    assert_eq!(get_coefficients(true, 1), (403, -48, -120, 475, 0, 256, 128, 8));
    assert_eq!(get_coefficients(true, 9), (377, -42, -146, 482, 0, 256, 128, 8));
    assert_eq!(get_coefficients(true, 5), (359, -88, -183, 454, 0, 256, 128, 8));
    assert_eq!(
        get_coefficients(false, 1),
        (14744, -1754, -4383, 17373, 16, 9576, 4096, 13)
    );
    assert_eq!(
        get_coefficients(false, 9),
        (13806, -1541, -5349, 17615, 16, 9576, 4096, 13)
    );
    assert_eq!(
        get_coefficients(false, 255),
        (13126, -3222, -6686, 16591, 16, 9576, 4096, 13)
    );
}

#[test]
fn limited_range_pixel() {
    // luma: 84 * 9576 = 804384
    // red: 804384 + 13126 * 22 + 4096 = 1097252, 1097252 / 8192 = 133.9
    // green: 804384 - 3222 * -38 - 6686 * 22 + 4096 = 783824, 783824 / 8192 = 95.7
    // blue: 804384 + 16591 * -38 + 4096 = 178022, 178022 / 8192 = 21.7
    let mut rgb = [1_u8; 3];
    convert_420_to_rgb(&[100], &[90], &[150], 1, 1, 0, 1, 0, 1, 0, false, 6, &mut rgb);
    assert_eq!(rgb, [133, 95, 21]);
}

#[test]
fn limited_range_black_and_white() {
    for (y, grey) in [(0_u16, 0_u8), (16, 0), (17, 1), (125, 127), (235, 255), (255, 255)] {
        for matrix in [1, 6, 9] {
            let mut rgb = [1_u8; 3];
            convert_420_to_rgb(&[y], &[128], &[128], 1, 1, 0, 1, 0, 1, 0, false, matrix, &mut rgb);
            assert_eq!(rgb, [grey; 3], "{y}");
        }
    }
}

#[test]
fn neutral_levels_at_any_depth() {
    for shift in [0_u32, 1, 2, 4, 8] {
        let low_bits = (1_u16 << shift) - 1;
        let chroma = (128 << shift) | low_bits;
        for full_range in [false, true] {
            let mut last = 0_u8;
            for luma in 0..=255_u16 {
                let y = (luma << shift) | (low_bits / 2);
                let mut rgb = [1_u8; 3];
                convert_420_to_rgb(
                    &[y], &[chroma], &[chroma], 1, 1, 0, 1, 0, 1, shift, full_range, 9, &mut rgb,
                );
                assert_eq!(rgb, [rgb[0]; 3]);
                assert!(last <= rgb[0]);
                last = rgb[0];
                if full_range {
                    assert_eq!(u16::from(rgb[0]), luma);
                } else {
                    assert_eq!(rgb[0] == 0, luma <= 16);
                    assert_eq!(rgb[0] == 255, luma >= 234);
                }
            }
        }
    }
}

#[test]
fn scalar_pixel_advances() {
    let mut rgb = [9_u8; 8];
    let mut out_idx = 2_usize;
    scalar_pixel(
        &[0, 0, 0, 100], &[0, 400], &[0, 800], 1, 0, 2, 2, 0, 256, 403, -48, -120, 475, 128, 8,
        &mut rgb, &mut out_idx,
    );
    assert_eq!(out_idx, 5);
    // luma 25, Cb 100, Cr 200
    assert_eq!(rgb, [9, 9, 138, 0, 0, 9, 9, 9]);
}

#[test]
fn kernels_agree() {
    let (y_stride, rows) = (43_usize, 9_usize);
    let c_stride = y_stride.div_ceil(2) + 1;
    for (shift, mask) in [(0_u32, 0xff_u16), (2, 0x3ff), (8, 0xffff), (0, 0xffff)] {
        let y = samples(5, y_stride * rows, mask);
        let cb = samples(6, c_stride * rows.div_ceil(2), mask);
        let cr = samples(7, c_stride * rows.div_ceil(2), mask);
        for (x_start, x_end) in [(0_u32, 43_u32), (1, 43), (3, 11), (4, 12), (7, 8), (8, 8), (9, 2)] {
            for full_range in [false, true] {
                for matrix in [1_u8, 2, 9] {
                    let width = x_end.saturating_sub(x_start) as usize;
                    let len = width * 6 * 3;
                    let mut scalar = vec![3_u8; len + 4];
                    let mut grouped = scalar.clone();
                    let mut chosen = scalar.clone();
                    convert_420_to_rgb_scalar(
                        &y, &cb, &cr, y_stride, c_stride, 1, 7, x_start, x_end, shift, full_range,
                        matrix, &mut scalar,
                    );
                    convert_420_to_rgb_v3(
                        &y, &cb, &cr, y_stride, c_stride, 1, 7, x_start, x_end, shift, full_range,
                        matrix, &mut grouped,
                    );
                    convert_420_to_rgb(
                        &y, &cb, &cr, y_stride, c_stride, 1, 7, x_start, x_end, shift, full_range,
                        matrix, &mut chosen,
                    );
                    assert_eq!(grouped, scalar);
                    assert_eq!(chosen, scalar);
                    assert_eq!(scalar[len..], [3; 4]);
                }
            }
        }
    }
}

#[test]
fn empty_rectangles_are_accepted() {
    let mut rgb = [5_u8; 2];
    convert_420_to_rgb(&[], &[], &[], 7, 7, 4, 4, 0, 9, 40, true, 1, &mut rgb);
    convert_420_to_rgb(&[], &[], &[], 7, 7, 9, 4, 0, 9, 40, true, 1, &mut rgb);
    convert_420_to_rgb_v3(&[], &[], &[], 7, 7, 0, 4, u32::MAX, u32::MAX, 0, true, 1, &mut rgb);
    convert_420_to_rgb_scalar(&[], &[], &[], usize::MAX, 7, 0, 4, 3, 2, 0, true, 1, &mut rgb);
    assert_eq!(rgb, [5, 5]);
}

#[test]
fn full_range_conversions_agree() {
    let (width, height) = (18_usize, 5_usize);
    let y = samples(1, width * height, 0xff);
    let cb = samples(2, 9 * 3, 0xff);
    let cr = samples(3, 9 * 3, 0xff);
    for matrix in [1_u8, 6, 9] {
        let (cr_r, cb_g, cr_g, cb_b, ..) = get_coefficients(true, matrix);
        let mut bytes = vec![0_u8; width * height * 3];
        let mut interleaved = bytes.clone();
        convert_420_to_rgb(
            &y, &cb, &cr, width, 9, 0, height as u32, 0, width as u32, 0, true, matrix, &mut bytes,
        );
        convert_420_8bit_to_interleaved(
            &y, &cb, &cr, width, height, 9, cr_r, cb_g, cr_g, cb_b, 3, &mut interleaved,
        );
        assert_eq!(bytes, interleaved);
    }
}

#[test]
fn shift_reduces_depth() {
    let y = samples(1, 20 * 4, 0x3ff);
    let cb = samples(2, 10 * 2, 0x3ff);
    let cr = samples(3, 10 * 2, 0x3ff);
    let low = |plane: &[u16]| plane.iter().map(|v| v >> 2).collect::<Vec<_>>();
    let mut shifted = vec![0_u8; 20 * 4 * 3];
    let mut reduced = shifted.clone();
    convert_420_to_rgb(&y, &cb, &cr, 20, 10, 0, 4, 0, 20, 2, false, 9, &mut shifted);
    convert_420_to_rgb(
        &low(&y), &low(&cb), &low(&cr), 20, 10, 0, 4, 0, 20, 0, false, 9, &mut reduced,
    );
    assert_eq!(shifted, reduced);
}

#[test]
fn cropped_bytes_are_those_of_the_whole() {
    let (width, height) = (22_usize, 7_usize);
    let y = samples(1, width * height, 0xff);
    let cb = samples(2, 11 * 4, 0xff);
    let cr = samples(3, 11 * 4, 0xff);
    let mut whole = vec![0_u8; width * height * 3];
    convert_420_to_rgb(&y, &cb, &cr, width, 11, 0, 7, 0, 22, 0, false, 1, &mut whole);
    let mut part = vec![0_u8; 17 * 3 * 3];
    convert_420_to_rgb(&y, &cb, &cr, width, 11, 3, 6, 5, 22, 0, false, 1, &mut part);
    for row in 0..3 {
        let begin = ((3 + row) * width + 5) * 3;
        assert_eq!(part[row * 51..row * 51 + 51], whole[begin..begin + 51]);
    }
}
