use vstd::prelude::*;

verus! {

pub const ASCII_0: u8 = 0x30;
pub const ASCII_9: u8 = 0x39;
pub const ASCII_UPPER_A: u8 = 0x41;
pub const ASCII_UPPER_Z: u8 = 0x5a;
pub const ASCII_LOWER_A: u8 = 0x61;
pub const ASCII_LOWER_Z: u8 = 0x7a;
pub const ASCII_PLUS: u8 = 0x2b;
pub const ASCII_MINUS: u8 = 0x2d;
pub const ASCII_DOT: u8 = 0x2e;
pub const ASCII_CARET: u8 = 0x5e;
pub const ASCII_UPPER_E: u8 = 0x45;
pub const ASCII_LOWER_E: u8 = 0x65;

/// Value of a byte read as a digit in radix 36, or 36 for a byte that is no
/// digit in any radix.
pub open spec fn digit_value(c: u8) -> nat {
    if ASCII_0 <= c && c <= ASCII_9 {
        (c - ASCII_0) as nat
    } else if ASCII_LOWER_A <= c && c <= ASCII_LOWER_Z {
        (c - ASCII_LOWER_A + 10) as nat
    } else if ASCII_UPPER_A <= c && c <= ASCII_UPPER_Z {
        (c - ASCII_UPPER_A + 10) as nat
    } else {
        36
    }
}

/// Whether `c` is a digit in `radix`.
pub open spec fn is_digit(c: u8, radix: u32) -> bool {
    digit_value(c) < radix
}

pub open spec fn valid_radix(radix: u32) -> bool {
    2 <= radix && radix <= 36
}

/// Decode one byte as a digit of `radix`.
pub fn to_digit(c: u8, radix: u32) -> (r: Option<u32>)
    requires
        valid_radix(radix),
    ensures
        r == (if is_digit(c, radix) { Some(digit_value(c) as u32) } else { None::<u32> }),
{
    let v: u32 = if ASCII_0 <= c && c <= ASCII_9 {
        (c - ASCII_0) as u32
    } else if ASCII_LOWER_A <= c && c <= ASCII_LOWER_Z {
        (c - ASCII_LOWER_A) as u32 + 10
    } else if ASCII_UPPER_A <= c && c <= ASCII_UPPER_Z {
        (c - ASCII_UPPER_A) as u32 + 10
    } else {
        36
    };
    if v < radix {
        Some(v)
    } else {
        None
    }
}

/// Whether `c` is not a digit of `radix`.
pub fn is_not_digit_char(c: u8, radix: u32) -> (r: bool)
    requires
        valid_radix(radix),
    ensures
        r == !is_digit(c, radix),
{
    to_digit(c, radix).is_none()
}

/// For every radix in 2..=36, the digits are exactly `'0'` up to
/// `'0' + min(radix, 10) - 1`, `'A'` up to `'A' + max(radix - 10, 0) - 1`, and
/// the lowercase counterparts of the letters.
pub proof fn lemma_digit_range(radix: u32, c: u8)
    requires
        valid_radix(radix),
    ensures
        is_digit(c, radix) <==> {
            let nd: int = if radix < 10 { radix as int } else { 10 };
            let nl: int = if radix > 10 { radix - 10 } else { 0 };
            ||| (ASCII_0 as int <= c && c < ASCII_0 + nd)
            ||| (ASCII_UPPER_A as int <= c && c < ASCII_UPPER_A + nl)
            ||| (ASCII_LOWER_A as int <= c && c < ASCII_LOWER_A + nl)
        },
{
}

} // verus!
