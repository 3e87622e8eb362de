//! Conversion of YCbCr planes to interleaved RGB.
//!
//! A picture comes as a luma plane and two chroma planes whose resolution may be
//! halved in either direction. Each conversion takes a rectangle of it, in the
//! coordinates of the whole planes, and stores its pixels row by row, tightly packed:
//!
//! - [`rgb_420`]: 4:2:0 planes of any depth, full or limited range, to RGB bytes,
//! - [`fixed_420`]: full-range 8-bit 4:2:0 planes to RGB or RGBA bytes,
//! - [`matrix_8bit`] and [`matrix_rgba16`]: planes of any subsampling through a matrix
//!   that the caller evaluates, to 8-bit RGB or RGBA and to 16-bit RGBA.
//!
//! Every conversion has a kernel that works pixel by pixel and one that works on groups
//! of neighbouring pixels; which of them runs depends on the processor. Both are proved
//! to give the same result, which [`layout`] and the module of the conversion define.
//! [`laws`] holds what follows for the conversions as a whole.
pub mod arith;
pub mod depth;
mod dispatch;
pub mod fixed_420;
pub mod lanes;
pub mod laws;
pub mod layout;
pub mod matrix;
pub mod matrix_8bit;
pub mod matrix_rgba16;
pub mod region;
pub mod rgb_420;
pub mod source;

pub use fixed_420::{convert_420_8bit_region_to_interleaved, convert_420_8bit_to_interleaved};
pub use matrix_8bit::convert_float_matrix_8bit_region_to_interleaved;
pub use matrix_rgba16::convert_float_matrix_region_to_rgba16;
pub use region::{validate_420_region, validate_float_matrix_region, RegionError};
pub use rgb_420::convert_420_to_rgb;
