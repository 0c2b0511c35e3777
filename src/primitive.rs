use vstd::prelude::*;

verus! {

/// A machine integer type that the integer parser can produce.
///
/// Its range is `[spec_min(), spec_max()]`, with `spec_min() <= 0`; the parser
/// accumulates the magnitude of a value and converts it at the end.
pub trait Primitive: Sized + Copy {
    /// Smallest value of the type.
    spec fn spec_min() -> int;

    /// Largest value of the type.
    spec fn spec_max() -> int;

    /// Mathematical value of `self`.
    spec fn spec_value(self) -> int;

    /// The magnitude of the smallest value and the largest value.
    fn magnitude_bounds() -> (r: (u128, u128))
        ensures
            r.0 as int == -Self::spec_min(),
            r.1 as int == Self::spec_max(),
            0 < r.1 <= u64::MAX,
            r.0 <= 0x8000_0000_0000_0000u128,
    ;

    /// The value of sign `neg` and magnitude `m`.
    fn from_magnitude(neg: bool, m: u128) -> (r: Self)
        requires
            neg ==> m <= -Self::spec_min(),
            !neg ==> m <= Self::spec_max(),
        ensures
            r.spec_value() == (if neg { -(m as int) } else { m as int }),
    ;
}

impl Primitive for u8 {
    open spec fn spec_min() -> int { 0 }
    open spec fn spec_max() -> int { u8::MAX as int }
    open spec fn spec_value(self) -> int { self as int }

    fn magnitude_bounds() -> (r: (u128, u128)) {
        (0, u8::MAX as u128)
    }

    fn from_magnitude(neg: bool, m: u128) -> (r: u8) {
        m as u8
    }
}

impl Primitive for u16 {
    open spec fn spec_min() -> int { 0 }
    open spec fn spec_max() -> int { u16::MAX as int }
    open spec fn spec_value(self) -> int { self as int }

    fn magnitude_bounds() -> (r: (u128, u128)) {
        (0, u16::MAX as u128)
    }

    fn from_magnitude(neg: bool, m: u128) -> (r: u16) {
        m as u16
    }
}

impl Primitive for u32 {
    open spec fn spec_min() -> int { 0 }
    open spec fn spec_max() -> int { u32::MAX as int }
    open spec fn spec_value(self) -> int { self as int }

    fn magnitude_bounds() -> (r: (u128, u128)) {
        (0, u32::MAX as u128)
    }

    fn from_magnitude(neg: bool, m: u128) -> (r: u32) {
        m as u32
    }
}

impl Primitive for u64 {
    open spec fn spec_min() -> int { 0 }
    open spec fn spec_max() -> int { u64::MAX as int }
    open spec fn spec_value(self) -> int { self as int }

    fn magnitude_bounds() -> (r: (u128, u128)) {
        (0, u64::MAX as u128)
    }

    fn from_magnitude(neg: bool, m: u128) -> (r: u64) {
        m as u64
    }
}

impl Primitive for usize {
    open spec fn spec_min() -> int { 0 }
    open spec fn spec_max() -> int { usize::MAX as int }
    open spec fn spec_value(self) -> int { self as int }

    fn magnitude_bounds() -> (r: (u128, u128)) {
        (0, usize::MAX as u128)
    }

    fn from_magnitude(neg: bool, m: u128) -> (r: usize) {
        m as usize
    }
}

impl Primitive for i8 {
    open spec fn spec_min() -> int { i8::MIN as int }
    open spec fn spec_max() -> int { i8::MAX as int }
    open spec fn spec_value(self) -> int { self as int }

    fn magnitude_bounds() -> (r: (u128, u128)) {
        (0x80, i8::MAX as u128)
    }

    fn from_magnitude(neg: bool, m: u128) -> (r: i8) {
        if neg {
            (0 - (m as i16)) as i8
        } else {
            m as i8
        }
    }
}

impl Primitive for i16 {
    open spec fn spec_min() -> int { i16::MIN as int }
    open spec fn spec_max() -> int { i16::MAX as int }
    open spec fn spec_value(self) -> int { self as int }

    fn magnitude_bounds() -> (r: (u128, u128)) {
        (0x8000, i16::MAX as u128)
    }

    fn from_magnitude(neg: bool, m: u128) -> (r: i16) {
        if neg {
            (0 - (m as i32)) as i16
        } else {
            m as i16
        }
    }
}

impl Primitive for i32 {
    open spec fn spec_min() -> int { i32::MIN as int }
    open spec fn spec_max() -> int { i32::MAX as int }
    open spec fn spec_value(self) -> int { self as int }

    fn magnitude_bounds() -> (r: (u128, u128)) {
        (0x8000_0000, i32::MAX as u128)
    }

    fn from_magnitude(neg: bool, m: u128) -> (r: i32) {
        if neg {
            (0 - (m as i64)) as i32
        } else {
            m as i32
        }
    }
}

impl Primitive for i64 {
    open spec fn spec_min() -> int { i64::MIN as int }
    open spec fn spec_max() -> int { i64::MAX as int }
    open spec fn spec_value(self) -> int { self as int }

    fn magnitude_bounds() -> (r: (u128, u128)) {
        (0x8000_0000_0000_0000, i64::MAX as u128)
    }

    fn from_magnitude(neg: bool, m: u128) -> (r: i64) {
        if neg {
            (0 - (m as i128)) as i64
        } else {
            m as i64
        }
    }
}

impl Primitive for isize {
    open spec fn spec_min() -> int { isize::MIN as int }
    open spec fn spec_max() -> int { isize::MAX as int }
    open spec fn spec_value(self) -> int { self as int }

    fn magnitude_bounds() -> (r: (u128, u128)) {
        ((0 - (isize::MIN as i128)) as u128, isize::MAX as u128)
    }

    fn from_magnitude(neg: bool, m: u128) -> (r: isize) {
        if neg {
            (0 - (m as i128)) as isize
        } else {
            m as isize
        }
    }
}

} // verus!
