//! Lexical number parsing: byte strings to machine integers and to the bit
//! patterns of IEEE-754 binary floats, with verified contracts.
//!
//! - `digit`: one byte as a digit of a radix from 2 to 36.
//! - `atoi`: the integer parser, its partial and strict surfaces, and the laws
//!   that relate them; `api` gives the typed entry points.
//! - `exponent`, `mantissa`, `precise`: a float's exponent and mantissa, their
//!   normalisation, and the exact paths.
//! - `bignum`, `float`: arbitrary-precision integers and round-to-nearest-even
//!   by exact comparison.
//! - `atof`: the float driver, whose results are correctly rounded.
//! - `extended`: extended-precision floats and their error accounting.
//!
//! Floats are handled as bit patterns; `f32::from_bits` and `f64::from_bits`
//! turn them into values.

pub mod digit;
pub mod error;
pub mod primitive;
pub mod atoi;
pub mod api;
pub mod exponent;
pub mod mantissa;
pub mod precise;
pub mod bignum;
pub mod float;
pub mod atof;
pub mod extended;
