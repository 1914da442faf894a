//! Bit-exact conversions between binary integers and IEEE-754 binary
//! floating-point values (single and double precision), computed without
//! executing any floating-point instruction.
//!
//! All functions in [`soft`] take or return the bits of the floating point
//! value as `u32` or `u64` instead of `f32` or `f64`, so the library can be
//! linked into code that forbids or lacks an FPU.
//!
//! Integer to float conversions round to the nearest representable value,
//! breaking ties to even, and are lossless whenever the integer fits in the
//! target mantissa.  The only conversion that can overflow is
//! `u128_to_f32`, which then returns the bits of positive infinity.
//! Float to integer conversions truncate toward zero, saturate at the
//! integer range (infinities included), and map NaN to zero.
//!
//! The module [`model`] defines what each conversion returns as arithmetic
//! over unbounded integers; [`laws`] proves the properties relating the
//! conversions to one another.

pub mod laws;
pub mod lemmas;
pub mod model;
pub mod soft;
