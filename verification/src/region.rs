//! Which rectangles fit their planes and their output.
use crate::layout::{layout_420, layout_of, planes_of, Layout, Planes};
use vstd::arithmetic::mul::{
    lemma_mul_is_commutative, lemma_mul_is_distributive_add_other_way, lemma_mul_nonnegative,
};
use vstd::prelude::*;

verus! {

/// Why a rectangle cannot be converted.
#[derive(Clone, Copy, Debug, PartialEq, Eq, Structural)]
pub enum RegionError {
    /// Horizontal chroma subsampling is neither one nor two.
    HorizontalSubsampling,
    /// Vertical chroma subsampling is neither one nor two.
    VerticalSubsampling,
    /// The output has neither three nor four channels.
    Channels,
    /// The number of pixels does not fit in a `usize`.
    PixelCount,
    /// The length of the packed output does not fit in a `usize`.
    OutputExtent,
    /// The column after the last one does not fit in a `usize`.
    XExtent,
    /// The row after the last one does not fit in a `usize`.
    YExtent,
    /// The length of the luma plane does not fit in a `usize`.
    LumaExtent,
    /// The length of a chroma plane does not fit in a `usize`.
    ChromaExtent,
    /// The output is not as long as the packed pixels.
    OutputLength,
    /// The rectangle reaches beyond the rows of the luma plane.
    LumaRow,
    /// The luma plane has too few rows.
    LumaPlane,
    /// The rectangle reaches beyond the rows of the chroma planes.
    ChromaRow,
    /// The Cb plane has too few rows.
    CbPlane,
    /// The Cr plane has too few rows.
    CrPlane,
}

/// `value / divisor`, rounded up.
pub open spec fn ceil_div(value: int, divisor: int) -> int {
    (value + divisor - 1) / divisor
}

impl Layout {
    /// The column after the last one.
    pub open spec fn x_end(self) -> int {
        self.x_start + self.width
    }

    /// The row after the last one.
    pub open spec fn y_end(self) -> int {
        self.y_start + self.height
    }

    /// Length of a luma plane that holds all rows up to the last one.
    pub open spec fn luma_len(self) -> int {
        self.y_stride * self.y_end()
    }

    /// Length of a chroma plane that holds all rows up to the last one.
    pub open spec fn chroma_len(self) -> int {
        self.chroma_stride * ceil_div(self.y_end(), self.subsample_y)
    }
}

/// The rectangle lies within the rows of its planes, the planes have all its rows,
/// and the output is exactly as long as the packed pixels.
pub open spec fn region_fits(
    layout: Layout,
    planes: Planes,
    channels: int,
    output_len: int,
) -> bool {
    &&& layout.subsample_x == 1 || layout.subsample_x == 2
    &&& layout.subsample_y == 1 || layout.subsample_y == 2
    &&& channels == 3 || channels == 4
    &&& layout.y_end() <= usize::MAX
    &&& output_len == layout.pixel_count() * channels
    &&& layout.x_end() <= layout.y_stride
    &&& layout.luma_len() <= planes.y.len()
    &&& ceil_div(layout.x_end(), layout.subsample_x) <= layout.chroma_stride
    &&& layout.chroma_len() <= planes.cb.len()
    &&& layout.chroma_len() <= planes.cr.len()
}

/// What a check of a 4:2:0 rectangle reports: the first of its conditions that
/// fails.
pub open spec fn check_420(
    layout: Layout,
    planes: Planes,
    channels: int,
    output_len: int,
) -> Result<(), RegionError> {
    if channels != 3 && channels != 4 {
        Err(RegionError::Channels)
    } else if layout.pixel_count() > usize::MAX {
        Err(RegionError::PixelCount)
    } else if layout.pixel_count() * channels > usize::MAX {
        Err(RegionError::OutputExtent)
    } else if layout.x_end() > usize::MAX {
        Err(RegionError::XExtent)
    } else if layout.y_end() > usize::MAX {
        Err(RegionError::YExtent)
    } else {
        check_extents(layout, planes, channels, output_len)
    }
}

/// What a check of a rectangle for the generic matrix reports: the first of its
/// conditions that fails.
pub open spec fn check_float_matrix(
    layout: Layout,
    planes: Planes,
    channels: int,
    output_len: int,
) -> Result<(), RegionError> {
    if layout.subsample_x != 1 && layout.subsample_x != 2 {
        Err(RegionError::HorizontalSubsampling)
    } else if layout.subsample_y != 1 && layout.subsample_y != 2 {
        Err(RegionError::VerticalSubsampling)
    } else if channels != 3 && channels != 4 {
        Err(RegionError::Channels)
    } else if layout.x_end() > usize::MAX {
        Err(RegionError::XExtent)
    } else if layout.y_end() > usize::MAX {
        Err(RegionError::YExtent)
    } else if layout.pixel_count() * channels > usize::MAX {
        Err(RegionError::OutputExtent)
    } else {
        check_extents(layout, planes, channels, output_len)
    }
}

/// The conditions that both checks end with.
pub open spec fn check_extents(
    layout: Layout,
    planes: Planes,
    channels: int,
    output_len: int,
) -> Result<(), RegionError> {
    if layout.luma_len() > usize::MAX {
        Err(RegionError::LumaExtent)
    } else if layout.chroma_len() > usize::MAX {
        Err(RegionError::ChromaExtent)
    } else if output_len != layout.pixel_count() * channels {
        Err(RegionError::OutputLength)
    } else if layout.x_end() > layout.y_stride {
        Err(RegionError::LumaRow)
    } else if planes.y.len() < layout.luma_len() {
        Err(RegionError::LumaPlane)
    } else if layout.chroma_stride < ceil_div(layout.x_end(), layout.subsample_x) {
        Err(RegionError::ChromaRow)
    } else if planes.cb.len() < layout.chroma_len() {
        Err(RegionError::CbPlane)
    } else if planes.cr.len() < layout.chroma_len() {
        Err(RegionError::CrPlane)
    } else {
        Ok(())
    }
}

/// Dividing rounded up counts the block that holds the last unit.
pub proof fn lemma_ceil_div(value: int, divisor: int)
    requires
        1 <= divisor <= 2,
    ensures
        ceil_div(value, divisor) == (value - 1) / divisor + 1,
        ceil_div(value, divisor) == value / divisor + (if value % divisor == 0 {
            0int
        } else {
            1int
        }),
{
    if divisor == 1 {
        assert((value - 1) / 1 == value - 1);
        assert(value / 1 == value);
    } else {
        assert((value + 1) / 2 == (value - 1) / 2 + 1);
    }
}

/// Planes that have all rows of a rectangle hold all its samples.
pub proof fn lemma_fits_readable(
    layout: Layout,
    planes: Planes,
    channels: int,
    output_len: int,
)
    requires
        layout.valid(),
        region_fits(layout, planes, channels, output_len),
    ensures
        layout.readable(planes),
{
    if layout.width > 0 && layout.height > 0 {
        let x = layout.x_end() - 1;
        let y = layout.y_end() - 1;
        lemma_mul_is_distributive_add_other_way(layout.y_stride, y, 1);
        lemma_mul_is_commutative(layout.y_stride, y + 1);
        let chroma_y = y / layout.subsample_y;
        lemma_ceil_div(layout.y_end(), layout.subsample_y);
        lemma_ceil_div(layout.x_end(), layout.subsample_x);
        lemma_mul_is_distributive_add_other_way(layout.chroma_stride, chroma_y, 1);
        lemma_mul_is_commutative(layout.chroma_stride, chroma_y + 1);
    }
}

/// A 4:2:0 check succeeds just for the rectangles that fit.
pub proof fn lemma_check_420_ok(
    layout: Layout,
    planes: Planes,
    channels: int,
    output_len: usize,
)
    requires
        layout.valid(),
        layout.subsample_x == 2,
        layout.subsample_y == 2,
        layout.y_stride <= usize::MAX,
        planes.y.len() <= usize::MAX,
        planes.cb.len() <= usize::MAX,
    ensures
        check_420(
            layout,
            planes,
            channels,
            output_len as int,
        ) is Ok <==> region_fits(
            layout,
            planes,
            channels,
            output_len as int,
        ),
{
    lemma_mul_nonnegative(layout.width, layout.height);
}

/// A check for the generic matrix succeeds just for the rectangles that fit.
pub proof fn lemma_check_float_matrix_ok(
    layout: Layout,
    planes: Planes,
    channels: int,
    output_len: usize,
)
    requires
        0 <= layout.width,
        0 <= layout.height,
        layout.y_stride <= usize::MAX,
        planes.y.len() <= usize::MAX,
        planes.cb.len() <= usize::MAX,
    ensures
        check_float_matrix(
            layout,
            planes,
            channels,
            output_len as int,
        ) is Ok <==> region_fits(
            layout,
            planes,
            channels,
            output_len as int,
        ),
{
}

/// `value / divisor`, rounded up, for a divisor of one or two.
fn div_ceil(value: usize, divisor: usize) -> (quotient: usize)
    requires
        1 <= divisor <= 2,
    ensures
        quotient == ceil_div(value as int, divisor as int),
{
    proof {
        lemma_ceil_div(value as int, divisor as int);
        assert(value / divisor <= value && (value % divisor > 0 ==> value / divisor < value)) by {
            if divisor == 1 {
                assert(value as int / 1 == value);
            }
        }
    }
    value / divisor + (if value % divisor == 0 {
        0usize
    } else {
        1usize
    })
}

/// The conditions on planes and output that both checks end with.
fn validate_extents(
    y_plane: &[u16],
    cb_plane: &[u16],
    cr_plane: &[u16],
    y_stride: usize,
    chroma_stride: usize,
    subsample_x: usize,
    subsample_y: usize,
    x_end: usize,
    y_end: usize,
    expected_output_len: usize,
    output_len: usize,
    Ghost(layout): Ghost<Layout>,
    Ghost(channels): Ghost<int>,
) -> (checked: Result<(), RegionError>)
    requires
        1 <= subsample_x <= 2,
        1 <= subsample_y <= 2,
        layout.y_stride == y_stride,
        layout.chroma_stride == chroma_stride,
        layout.subsample_x == subsample_x,
        layout.subsample_y == subsample_y,
        layout.x_end() == x_end,
        layout.y_end() == y_end,
        layout.pixel_count() * channels == expected_output_len,
    ensures
        checked == check_extents(
            layout,
            planes_of(y_plane, cb_plane, cr_plane),
            channels,
            output_len as int,
        ),
{
    let y_len: usize = match y_stride.checked_mul(y_end) {
        Some(length) => length,
        None => {
            return Err(RegionError::LumaExtent);
        },
    };
    let chroma_rows: usize = div_ceil(y_end, subsample_y);
    let chroma_len: usize = match chroma_stride.checked_mul(chroma_rows) {
        Some(length) => length,
        None => {
            return Err(RegionError::ChromaExtent);
        },
    };
    if output_len != expected_output_len {
        Err(RegionError::OutputLength)
    } else if x_end > y_stride {
        Err(RegionError::LumaRow)
    } else if y_plane.len() < y_len {
        Err(RegionError::LumaPlane)
    } else if chroma_stride < div_ceil(x_end, subsample_x) {
        Err(RegionError::ChromaRow)
    } else if cb_plane.len() < chroma_len {
        Err(RegionError::CbPlane)
    } else if cr_plane.len() < chroma_len {
        Err(RegionError::CrPlane)
    } else {
        Ok(())
    }
}

/// Checks that a rectangle of 4:2:0 planes can be converted to packed output of
/// `output_len` values.
pub fn validate_420_region(
    y_plane: &[u16],
    cb_plane: &[u16],
    cr_plane: &[u16],
    y_stride: usize,
    chroma_stride: usize,
    x_start: usize,
    y_start: usize,
    width: usize,
    height: usize,
    channels: usize,
    output_len: usize,
) -> (checked: Result<(), RegionError>)
    ensures
        checked == check_420(
            layout_420(y_stride, chroma_stride, x_start, y_start, width, height),
            planes_of(y_plane, cb_plane, cr_plane),
            channels as int,
            output_len as int,
        ),
        checked is Ok <==> region_fits(
            layout_420(y_stride, chroma_stride, x_start, y_start, width, height),
            planes_of(y_plane, cb_plane, cr_plane),
            channels as int,
            output_len as int,
        ),
{
    let ghost layout = layout_420(y_stride, chroma_stride, x_start, y_start, width, height);
    proof {
        assert(y_plane.len() == y_plane@.len() && cb_plane.len() == cb_plane@.len());
        lemma_check_420_ok(
            layout,
            planes_of(y_plane, cb_plane, cr_plane),
            channels as int,
            output_len,
        );
    }
    if channels != 3 && channels != 4 {
        return Err(RegionError::Channels);
    }
    let pixel_count: usize = match width.checked_mul(height) {
        Some(count) => count,
        None => {
            return Err(RegionError::PixelCount);
        },
    };
    let expected_output_len: usize = match pixel_count.checked_mul(channels) {
        Some(length) => length,
        None => {
            return Err(RegionError::OutputExtent);
        },
    };
    let x_end: usize = match x_start.checked_add(width) {
        Some(end) => end,
        None => {
            return Err(RegionError::XExtent);
        },
    };
    let y_end: usize = match y_start.checked_add(height) {
        Some(end) => end,
        None => {
            return Err(RegionError::YExtent);
        },
    };
    validate_extents(
        y_plane,
        cb_plane,
        cr_plane,
        y_stride,
        chroma_stride,
        2,
        2,
        x_end,
        y_end,
        expected_output_len,
        output_len,
        Ghost(layout),
        Ghost(channels as int),
    )
}

/// Checks that a rectangle of planes can be converted by a generic matrix to packed
/// output of `output_len` values.
pub fn validate_float_matrix_region(
    y_plane: &[u16],
    cb_plane: &[u16],
    cr_plane: &[u16],
    y_stride: usize,
    chroma_stride: usize,
    subsample_x: usize,
    subsample_y: usize,
    x_start: usize,
    y_start: usize,
    width: usize,
    height: usize,
    channels: usize,
    output_len: usize,
) -> (checked: Result<(), RegionError>)
    ensures
        checked == check_float_matrix(
            layout_of(
                y_stride,
                chroma_stride,
                subsample_x,
                subsample_y,
                x_start,
                y_start,
                width,
                height,
            ),
            planes_of(y_plane, cb_plane, cr_plane),
            channels as int,
            output_len as int,
        ),
        checked is Ok <==> region_fits(
            layout_of(
                y_stride,
                chroma_stride,
                subsample_x,
                subsample_y,
                x_start,
                y_start,
                width,
                height,
            ),
            planes_of(y_plane, cb_plane, cr_plane),
            channels as int,
            output_len as int,
        ),
{
    let ghost layout = layout_of(
        y_stride,
        chroma_stride,
        subsample_x,
        subsample_y,
        x_start,
        y_start,
        width,
        height,
    );
    proof {
        assert(y_plane.len() == y_plane@.len() && cb_plane.len() == cb_plane@.len());
        lemma_check_float_matrix_ok(
            layout,
            planes_of(y_plane, cb_plane, cr_plane),
            channels as int,
            output_len,
        );
    }
    if subsample_x != 1 && subsample_x != 2 {
        return Err(RegionError::HorizontalSubsampling);
    }
    if subsample_y != 1 && subsample_y != 2 {
        return Err(RegionError::VerticalSubsampling);
    }
    if channels != 3 && channels != 4 {
        return Err(RegionError::Channels);
    }
    let x_end: usize = match x_start.checked_add(width) {
        Some(end) => end,
        None => {
            return Err(RegionError::XExtent);
        },
    };
    let y_end: usize = match y_start.checked_add(height) {
        Some(end) => end,
        None => {
            return Err(RegionError::YExtent);
        },
    };
    let pixel_count: usize = match width.checked_mul(height) {
        Some(count) => count,
        None => {
            return Err(RegionError::OutputExtent);
        },
    };
    let expected_output_len: usize = match pixel_count.checked_mul(channels) {
        Some(length) => length,
        None => {
            return Err(RegionError::OutputExtent);
        },
    };
    validate_extents(
        y_plane,
        cb_plane,
        cr_plane,
        y_stride,
        chroma_stride,
        subsample_x,
        subsample_y,
        x_end,
        y_end,
        expected_output_len,
        output_len,
        Ghost(layout),
        Ghost(channels as int),
    )
}

} // verus!
