//! A rectangle of planes in memory.
use crate::layout::{
    layout_of, lemma_in_planes, lemma_pixel_number, lemma_pixel_number_bound, planes_of, Layout,
    Planes,
};
use vstd::prelude::*;

verus! {

/// The planes of a picture and the rectangle of them that is to be converted.
pub struct Source<'a> {
    pub y_plane: &'a [u16],
    pub cb_plane: &'a [u16],
    pub cr_plane: &'a [u16],
    pub y_stride: usize,
    pub chroma_stride: usize,
    pub subsample_x: usize,
    pub subsample_y: usize,
    pub x_start: usize,
    pub y_start: usize,
    pub width: usize,
    pub height: usize,
}

impl<'a> Source<'a> {
    /// The geometry of the rectangle.
    pub open spec fn layout(self) -> Layout {
        layout_of(
            self.y_stride,
            self.chroma_stride,
            self.subsample_x,
            self.subsample_y,
            self.x_start,
            self.y_start,
            self.width,
            self.height,
        )
    }

    /// The contents of the planes.
    pub open spec fn planes(self) -> Planes {
        planes_of(self.y_plane, self.cb_plane, self.cr_plane)
    }

    /// The planes hold every sample of the rectangle, and its rows have numbers
    /// that fit in a machine word.
    pub open spec fn wf(self) -> bool {
        &&& self.layout().valid()
        &&& self.height > 0 ==> self.y_start + self.height - 1 <= usize::MAX
        &&& self.layout().readable(self.planes())
    }

    /// Indices, in the luma and in the chroma planes, of the samples of the pixel
    /// in column `col` of row `row` of the rectangle.
    pub fn indices(&self, row: usize, col: usize) -> (indices: (usize, usize))
        requires
            self.wf(),
            row < self.height,
            col < self.width,
        ensures
            indices.0 == self.layout().luma_at(self.x_start + col, self.y_start + row),
            indices.1 == self.layout().chroma_at(self.x_start + col, self.y_start + row),
            indices.0 == self.layout().luma_index(row * self.width + col),
            indices.1 == self.layout().chroma_index(row * self.width + col),
            indices.0 < self.y_plane@.len(),
            indices.1 < self.cb_plane@.len(),
            indices.1 < self.cr_plane@.len(),
    {
        assert(self.y_plane.len() == self.y_plane@.len());
        assert(self.cb_plane.len() == self.cb_plane@.len());
        proof {
            lemma_in_planes(
                self.layout(),
                self.planes(),
                row as int,
                col as int,
            );
        }
        let x: usize = self.x_start + col;
        let y: usize = self.y_start + row;
        (
            y * self.y_stride + x,
            (y / self.subsample_y) * self.chroma_stride + x / self.subsample_x,
        )
    }

    /// Indices at which row `row` of the rectangle begins in the luma plane and at
    /// which the row that covers it begins in the chroma planes.
    pub fn row_indices(&self, row: usize) -> (indices: (usize, usize))
        requires
            self.wf(),
            row < self.height,
            self.width > 0,
        ensures
            indices.0 == (self.y_start + row) * self.y_stride,
            indices.1 == ((self.y_start + row) as int / self.subsample_y as int)
                * self.chroma_stride,
    {
        assert(self.y_plane.len() == self.y_plane@.len());
        assert(self.cb_plane.len() == self.cb_plane@.len());
        proof {
            lemma_in_planes(self.layout(), self.planes(), row as int, 0);
        }
        let y: usize = self.y_start + row;
        (y * self.y_stride, (y / self.subsample_y) * self.chroma_stride)
    }

    /// The luma, Cb and Cr samples of the pixel in column `col` of row `row` of the
    /// rectangle.
    pub fn samples(&self, row: usize, col: usize) -> (samples: (u16, u16, u16))
        requires
            self.wf(),
            row < self.height,
            col < self.width,
        ensures
            samples == self.planes().samples(self.layout(), row * self.width + col),
    {
        let (luma, chroma): (usize, usize) = self.indices(row, col);
        (self.y_plane[luma], self.cb_plane[chroma], self.cr_plane[chroma])
    }

    /// The first column of the rectangle at which a chroma sample begins. Groups of
    /// pixels begin there.
    pub fn group_start(&self) -> (col: usize)
        requires
            1 <= self.subsample_x <= 2,
        ensures
            col <= self.width,
            col == self.width || (self.x_start + col) as int % self.subsample_x as int == 0,
            col <= 1,
            col == 1 ==> self.subsample_x == 2 && self.x_start % 2 == 1,
    {
        if self.subsample_x == 2 && self.x_start % 2 == 1 && self.width > 0 {
            1
        } else {
            assert(self.subsample_x == 1 ==> self.x_start as int % 1 == 0);
            0
        }
    }

    /// Index, in packed output of `length` values, of the pixel in column `col` of
    /// row `row` of the rectangle.
    pub fn packed_index(
        &self,
        row: usize,
        col: usize,
        channels: usize,
        length: usize,
    ) -> (at: usize)
        requires
            row < self.height,
            col < self.width,
            channels > 0,
            self.layout().pixel_count() * channels <= length,
        ensures
            at == (row * self.width + col) * channels,
    {
        proof {
            let p = row * self.width + col;
            let count = self.layout().pixel_count();
            lemma_pixel_number(self.width as int, row as int, col as int);
            lemma_pixel_number_bound(
                self.width as int,
                self.height as int,
                row as int,
                col as int,
            );
            assert(0 <= row * self.width <= p <= p * channels <= count * channels)
                by (nonlinear_arith)
                requires
                    0 <= row * self.width <= p < count,
                    channels > 0,
            ;
        }
        (row * self.width + col) * channels
    }
}

} // verus!
