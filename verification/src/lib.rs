//! A codec between byte values and bit offsets in the binary expansion of
//! the fractional part of pi.
//!
//! The hexadecimal digits of pi are computed on demand with the
//! Bailey-Borwein-Plouffe digit-extraction series, carried out in 64-bit
//! fixed-point integer arithmetic.  Reading the digits most-significant-bit
//! first yields an unbounded bit stream; every byte value is represented by
//! the first bit offset at which it appears as an 8-bit window of that
//! stream.  The encoder table records that first occurrence for each of the
//! 256 byte values, and the decoder table inverts it.

pub mod codec;
pub mod digits;
pub mod stream;
