use vstd::prelude::*;
use crate::atoi::{parse_strict, standalone_signed, standalone_unsigned, partial_parse_ok, strict_parse_ok};
use crate::digit::valid_radix;
use crate::error::Error;

verus! {

/// Parse a decimal `u8` that fills all of `bytes`.
pub fn atou8_slice(bytes: &[u8]) -> (r: Result<u8, Error>)
    ensures
        strict_parse_ok(bytes@, 10, false, r),
{
    parse_strict(10, bytes, false)
}

/// Parse a `u8` in `radix` that fills all of `bytes`.
pub fn atou8_radix_slice(radix: u8, bytes: &[u8]) -> (r: Result<u8, Error>)
    requires
        valid_radix(radix as u32),
    ensures
        strict_parse_ok(bytes@, radix as u32, false, r),
{
    parse_strict(radix as u32, bytes, false)
}

/// Parse a decimal `u8` from the start of `bytes`, with the count of bytes read.
pub fn leading_atou8_slice(bytes: &[u8]) -> (r: Result<(u8, usize), Error>)
    ensures
        partial_parse_ok(bytes@, 10, false, r),
{
    standalone_unsigned(10, bytes)
}

/// Parse a `u8` in `radix` from the start of `bytes`, with the count of bytes read.
pub fn leading_atou8_radix_slice(radix: u8, bytes: &[u8]) -> (r: Result<(u8, usize), Error>)
    requires
        valid_radix(radix as u32),
    ensures
        partial_parse_ok(bytes@, radix as u32, false, r),
{
    standalone_unsigned(radix as u32, bytes)
}

/// Parse a decimal `u16` that fills all of `bytes`.
pub fn atou16_slice(bytes: &[u8]) -> (r: Result<u16, Error>)
    ensures
        strict_parse_ok(bytes@, 10, false, r),
{
    parse_strict(10, bytes, false)
}

/// Parse a `u16` in `radix` that fills all of `bytes`.
pub fn atou16_radix_slice(radix: u8, bytes: &[u8]) -> (r: Result<u16, Error>)
    requires
        valid_radix(radix as u32),
    ensures
        strict_parse_ok(bytes@, radix as u32, false, r),
{
    parse_strict(radix as u32, bytes, false)
}

/// Parse a decimal `u16` from the start of `bytes`, with the count of bytes read.
pub fn leading_atou16_slice(bytes: &[u8]) -> (r: Result<(u16, usize), Error>)
    ensures
        partial_parse_ok(bytes@, 10, false, r),
{
    standalone_unsigned(10, bytes)
}

/// Parse a `u16` in `radix` from the start of `bytes`, with the count of bytes read.
pub fn leading_atou16_radix_slice(radix: u8, bytes: &[u8]) -> (r: Result<(u16, usize), Error>)
    requires
        valid_radix(radix as u32),
    ensures
        partial_parse_ok(bytes@, radix as u32, false, r),
{
    standalone_unsigned(radix as u32, bytes)
}

/// Parse a decimal `u32` that fills all of `bytes`.
pub fn atou32_slice(bytes: &[u8]) -> (r: Result<u32, Error>)
    ensures
        strict_parse_ok(bytes@, 10, false, r),
{
    parse_strict(10, bytes, false)
}

/// Parse a `u32` in `radix` that fills all of `bytes`.
pub fn atou32_radix_slice(radix: u8, bytes: &[u8]) -> (r: Result<u32, Error>)
    requires
        valid_radix(radix as u32),
    ensures
        strict_parse_ok(bytes@, radix as u32, false, r),
{
    parse_strict(radix as u32, bytes, false)
}

/// Parse a decimal `u32` from the start of `bytes`, with the count of bytes read.
pub fn leading_atou32_slice(bytes: &[u8]) -> (r: Result<(u32, usize), Error>)
    ensures
        partial_parse_ok(bytes@, 10, false, r),
{
    standalone_unsigned(10, bytes)
}

/// Parse a `u32` in `radix` from the start of `bytes`, with the count of bytes read.
pub fn leading_atou32_radix_slice(radix: u8, bytes: &[u8]) -> (r: Result<(u32, usize), Error>)
    requires
        valid_radix(radix as u32),
    ensures
        partial_parse_ok(bytes@, radix as u32, false, r),
{
    standalone_unsigned(radix as u32, bytes)
}

/// Parse a decimal `u64` that fills all of `bytes`.
pub fn atou64_slice(bytes: &[u8]) -> (r: Result<u64, Error>)
    ensures
        strict_parse_ok(bytes@, 10, false, r),
{
    parse_strict(10, bytes, false)
}

/// Parse a `u64` in `radix` that fills all of `bytes`.
pub fn atou64_radix_slice(radix: u8, bytes: &[u8]) -> (r: Result<u64, Error>)
    requires
        valid_radix(radix as u32),
    ensures
        strict_parse_ok(bytes@, radix as u32, false, r),
{
    parse_strict(radix as u32, bytes, false)
}

/// Parse a decimal `u64` from the start of `bytes`, with the count of bytes read.
pub fn leading_atou64_slice(bytes: &[u8]) -> (r: Result<(u64, usize), Error>)
    ensures
        partial_parse_ok(bytes@, 10, false, r),
{
    standalone_unsigned(10, bytes)
}

/// Parse a `u64` in `radix` from the start of `bytes`, with the count of bytes read.
pub fn leading_atou64_radix_slice(radix: u8, bytes: &[u8]) -> (r: Result<(u64, usize), Error>)
    requires
        valid_radix(radix as u32),
    ensures
        partial_parse_ok(bytes@, radix as u32, false, r),
{
    standalone_unsigned(radix as u32, bytes)
}

/// Parse a decimal `usize` that fills all of `bytes`.
pub fn atousize_slice(bytes: &[u8]) -> (r: Result<usize, Error>)
    ensures
        strict_parse_ok(bytes@, 10, false, r),
{
    parse_strict(10, bytes, false)
}

/// Parse a `usize` in `radix` that fills all of `bytes`.
pub fn atousize_radix_slice(radix: u8, bytes: &[u8]) -> (r: Result<usize, Error>)
    requires
        valid_radix(radix as u32),
    ensures
        strict_parse_ok(bytes@, radix as u32, false, r),
{
    parse_strict(radix as u32, bytes, false)
}

/// Parse a decimal `usize` from the start of `bytes`, with the count of bytes read.
pub fn leading_atousize_slice(bytes: &[u8]) -> (r: Result<(usize, usize), Error>)
    ensures
        partial_parse_ok(bytes@, 10, false, r),
{
    standalone_unsigned(10, bytes)
}

/// Parse a `usize` in `radix` from the start of `bytes`, with the count of bytes read.
pub fn leading_atousize_radix_slice(radix: u8, bytes: &[u8]) -> (r: Result<(usize, usize), Error>)
    requires
        valid_radix(radix as u32),
    ensures
        partial_parse_ok(bytes@, radix as u32, false, r),
{
    standalone_unsigned(radix as u32, bytes)
}

/// Parse a decimal `i8` that fills all of `bytes`.
pub fn atoi8_slice(bytes: &[u8]) -> (r: Result<i8, Error>)
    ensures
        strict_parse_ok(bytes@, 10, true, r),
{
    parse_strict(10, bytes, true)
}

/// Parse a `i8` in `radix` that fills all of `bytes`.
pub fn atoi8_radix_slice(radix: u8, bytes: &[u8]) -> (r: Result<i8, Error>)
    requires
        valid_radix(radix as u32),
    ensures
        strict_parse_ok(bytes@, radix as u32, true, r),
{
    parse_strict(radix as u32, bytes, true)
}

/// Parse a decimal `i8` from the start of `bytes`, with the count of bytes read.
pub fn leading_atoi8_slice(bytes: &[u8]) -> (r: Result<(i8, usize), Error>)
    ensures
        partial_parse_ok(bytes@, 10, true, r),
{
    standalone_signed(10, bytes)
}

/// Parse a `i8` in `radix` from the start of `bytes`, with the count of bytes read.
pub fn leading_atoi8_radix_slice(radix: u8, bytes: &[u8]) -> (r: Result<(i8, usize), Error>)
    requires
        valid_radix(radix as u32),
    ensures
        partial_parse_ok(bytes@, radix as u32, true, r),
{
    standalone_signed(radix as u32, bytes)
}

/// Parse a decimal `i16` that fills all of `bytes`.
pub fn atoi16_slice(bytes: &[u8]) -> (r: Result<i16, Error>)
    ensures
        strict_parse_ok(bytes@, 10, true, r),
{
    parse_strict(10, bytes, true)
}

/// Parse a `i16` in `radix` that fills all of `bytes`.
pub fn atoi16_radix_slice(radix: u8, bytes: &[u8]) -> (r: Result<i16, Error>)
    requires
        valid_radix(radix as u32),
    ensures
        strict_parse_ok(bytes@, radix as u32, true, r),
{
    parse_strict(radix as u32, bytes, true)
}

/// Parse a decimal `i16` from the start of `bytes`, with the count of bytes read.
pub fn leading_atoi16_slice(bytes: &[u8]) -> (r: Result<(i16, usize), Error>)
    ensures
        partial_parse_ok(bytes@, 10, true, r),
{
    standalone_signed(10, bytes)
}

/// Parse a `i16` in `radix` from the start of `bytes`, with the count of bytes read.
pub fn leading_atoi16_radix_slice(radix: u8, bytes: &[u8]) -> (r: Result<(i16, usize), Error>)
    requires
        valid_radix(radix as u32),
    ensures
        partial_parse_ok(bytes@, radix as u32, true, r),
{
    standalone_signed(radix as u32, bytes)
}

/// Parse a decimal `i32` that fills all of `bytes`.
pub fn atoi32_slice(bytes: &[u8]) -> (r: Result<i32, Error>)
    ensures
        strict_parse_ok(bytes@, 10, true, r),
{
    parse_strict(10, bytes, true)
}

/// Parse a `i32` in `radix` that fills all of `bytes`.
pub fn atoi32_radix_slice(radix: u8, bytes: &[u8]) -> (r: Result<i32, Error>)
    requires
        valid_radix(radix as u32),
    ensures
        strict_parse_ok(bytes@, radix as u32, true, r),
{
    parse_strict(radix as u32, bytes, true)
}

/// Parse a decimal `i32` from the start of `bytes`, with the count of bytes read.
pub fn leading_atoi32_slice(bytes: &[u8]) -> (r: Result<(i32, usize), Error>)
    ensures
        partial_parse_ok(bytes@, 10, true, r),
{
    standalone_signed(10, bytes)
}

/// Parse a `i32` in `radix` from the start of `bytes`, with the count of bytes read.
pub fn leading_atoi32_radix_slice(radix: u8, bytes: &[u8]) -> (r: Result<(i32, usize), Error>)
    requires
        valid_radix(radix as u32),
    ensures
        partial_parse_ok(bytes@, radix as u32, true, r),
{
    standalone_signed(radix as u32, bytes)
}

/// Parse a decimal `i64` that fills all of `bytes`.
pub fn atoi64_slice(bytes: &[u8]) -> (r: Result<i64, Error>)
    ensures
        strict_parse_ok(bytes@, 10, true, r),
{
    parse_strict(10, bytes, true)
}

/// Parse a `i64` in `radix` that fills all of `bytes`.
pub fn atoi64_radix_slice(radix: u8, bytes: &[u8]) -> (r: Result<i64, Error>)
    requires
        valid_radix(radix as u32),
    ensures
        strict_parse_ok(bytes@, radix as u32, true, r),
{
    parse_strict(radix as u32, bytes, true)
}

/// Parse a decimal `i64` from the start of `bytes`, with the count of bytes read.
pub fn leading_atoi64_slice(bytes: &[u8]) -> (r: Result<(i64, usize), Error>)
    ensures
        partial_parse_ok(bytes@, 10, true, r),
{
    standalone_signed(10, bytes)
}

/// Parse a `i64` in `radix` from the start of `bytes`, with the count of bytes read.
pub fn leading_atoi64_radix_slice(radix: u8, bytes: &[u8]) -> (r: Result<(i64, usize), Error>)
    requires
        valid_radix(radix as u32),
    ensures
        partial_parse_ok(bytes@, radix as u32, true, r),
{
    standalone_signed(radix as u32, bytes)
}

/// Parse a decimal `isize` that fills all of `bytes`.
pub fn atoisize_slice(bytes: &[u8]) -> (r: Result<isize, Error>)
    ensures
        strict_parse_ok(bytes@, 10, true, r),
{
    parse_strict(10, bytes, true)
}

/// Parse a `isize` in `radix` that fills all of `bytes`.
pub fn atoisize_radix_slice(radix: u8, bytes: &[u8]) -> (r: Result<isize, Error>)
    requires
        valid_radix(radix as u32),
    ensures
        strict_parse_ok(bytes@, radix as u32, true, r),
{
    parse_strict(radix as u32, bytes, true)
}

/// Parse a decimal `isize` from the start of `bytes`, with the count of bytes read.
pub fn leading_atoisize_slice(bytes: &[u8]) -> (r: Result<(isize, usize), Error>)
    ensures
        partial_parse_ok(bytes@, 10, true, r),
{
    standalone_signed(10, bytes)
}

/// Parse a `isize` in `radix` from the start of `bytes`, with the count of bytes read.
pub fn leading_atoisize_radix_slice(radix: u8, bytes: &[u8]) -> (r: Result<(isize, usize), Error>)
    requires
        valid_radix(radix as u32),
    ensures
        partial_parse_ok(bytes@, radix as u32, true, r),
{
    standalone_signed(radix as u32, bytes)
}

} // verus!
