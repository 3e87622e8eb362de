use color_convert::region::{
    validate_420_region, validate_float_matrix_region, RegionError,
};

const MAX: usize = usize::MAX;

/// Eight by four pixels of 4:2:0 planes, changed by the caller.
#[derive(Clone, Copy)]
struct Case {
    y_len: usize,
    cb_len: usize,
    cr_len: usize,
    y_stride: usize,
    chroma_stride: usize,
    subsample_x: usize,
    subsample_y: usize,
    x_start: usize,
    y_start: usize,
    width: usize,
    height: usize,
    channels: usize,
    output_len: usize,
}

const GOOD: Case = Case {
    y_len: 32,
    cb_len: 8,
    cr_len: 8,
    y_stride: 8,
    chroma_stride: 4,
    subsample_x: 2,
    subsample_y: 2,
    x_start: 1,
    y_start: 1,
    width: 7,
    height: 3,
    channels: 3,
    output_len: 63,
};

fn check_420(c: Case) -> Result<(), RegionError> {
    validate_420_region(
        &vec![0; c.y_len],
        &vec![0; c.cb_len],
        &vec![0; c.cr_len],
        c.y_stride,
        c.chroma_stride,
        c.x_start,
        c.y_start,
        c.width,
        c.height,
        c.channels,
        c.output_len,
    )
}

fn check_matrix(c: Case) -> Result<(), RegionError> {
    validate_float_matrix_region(
        &vec![0; c.y_len],
        &vec![0; c.cb_len],
        &vec![0; c.cr_len],
        c.y_stride,
        c.chroma_stride,
        c.subsample_x,
        c.subsample_y,
        c.x_start,
        c.y_start,
        c.width,
        c.height,
        c.channels,
        c.output_len,
    )
}

#[test]
fn fitting_regions_are_accepted() {
    assert_eq!(check_420(GOOD), Ok(()));
    assert_eq!(check_matrix(GOOD), Ok(()));
    let rgba = Case { channels: 4, output_len: 84, ..GOOD };
    assert_eq!(check_420(rgba), Ok(()));
    assert_eq!(check_matrix(rgba), Ok(()));
    let full_chroma = Case {
        subsample_x: 1, subsample_y: 1, chroma_stride: 8, cb_len: 32, cr_len: 32, ..GOOD
    };
    assert_eq!(check_matrix(full_chroma), Ok(()));
    let empty = Case { width: 0, height: 0, output_len: 0, ..GOOD };
    assert_eq!(check_420(empty), Ok(()));
}

#[test]
fn region_errors_of_both_checks() {
    let cases = [
        (Case { channels: 2, ..GOOD }, RegionError::Channels),
        (Case { channels: 5, ..GOOD }, RegionError::Channels),
        (Case { x_start: MAX, ..GOOD }, RegionError::XExtent),
        (Case { y_start: MAX, ..GOOD }, RegionError::YExtent),
        (Case { y_start: MAX - 3, ..GOOD }, RegionError::LumaExtent),
        (
            Case { y_stride: 1, chroma_stride: MAX, ..GOOD },
            RegionError::ChromaExtent,
        ),
        (Case { output_len: 62, ..GOOD }, RegionError::OutputLength),
        (Case { output_len: 64, ..GOOD }, RegionError::OutputLength),
        (Case { y_stride: 7, ..GOOD }, RegionError::LumaRow),
        (Case { y_len: 31, ..GOOD }, RegionError::LumaPlane),
        (Case { chroma_stride: 3, ..GOOD }, RegionError::ChromaRow),
        (Case { cb_len: 7, ..GOOD }, RegionError::CbPlane),
        (Case { cr_len: 7, ..GOOD }, RegionError::CrPlane),
    ];
    for (case, error) in cases {
        assert_eq!(check_420(case), Err(error));
        assert_eq!(check_matrix(case), Err(error));
    }
}

#[test]
fn region_errors_of_one_check() {
    let pixels = Case { width: MAX / 2, height: 3, x_start: 0, ..GOOD };
    assert_eq!(check_420(pixels), Err(RegionError::PixelCount));
    assert_eq!(check_matrix(pixels), Err(RegionError::OutputExtent));
    let output = Case { width: MAX / 3, height: 3, x_start: 0, ..GOOD };
    assert_eq!(check_420(output), Err(RegionError::OutputExtent));
    assert_eq!(check_matrix(output), Err(RegionError::OutputExtent));
    for bad in [0, 3] {
        assert_eq!(
            check_matrix(Case { subsample_x: bad, subsample_y: bad, channels: 9, ..GOOD }),
            Err(RegionError::HorizontalSubsampling)
        );
        assert_eq!(
            check_matrix(Case { subsample_y: bad, channels: 9, ..GOOD }),
            Err(RegionError::VerticalSubsampling)
        );
    }
}

#[test]
fn odd_heights_need_the_last_chroma_row() {
    let odd = Case { y_start: 0, height: 3, y_len: 24, ..GOOD };
    assert_eq!(check_420(odd), Ok(()));
    assert_eq!(check_420(Case { cb_len: 7, ..odd }), Err(RegionError::CbPlane));
}
