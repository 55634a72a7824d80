//! The numeric kernel of a ray tracer: tuples that stand for points, vectors
//! and colours, a canvas of coloured pixels, and the rendering of a canvas as
//! a plain-text pixmap.
//!
//! Every number is a binary32 floating-point number that is held as its
//! 32-bit pattern. The arithmetic is done on the patterns, with whole
//! numbers only. Every result that is a number is the one that the standard
//! for floating-point arithmetic asks for, pattern for pattern; every result
//! that is not a number is the one pattern `binary32::NAN`.

pub mod accuracy;
pub mod arith;
pub mod binary32;
pub mod canvas;
pub mod decimal;
pub mod level;
pub mod lines;
pub mod matrix;
pub mod ppm;
pub mod rounding;
pub mod tuples;
pub mod util;
