use vstd::prelude::*;

verus! {

/// Kind of a parse failure.
#[derive(Clone, Copy, Debug, PartialEq, Eq, Structural)]
pub enum ErrorCode {
    /// No digits where some were needed.
    Empty,
    /// An exponent marker with no digits after it.
    EmptyExponent,
    /// A byte that is not a digit where one was needed.
    InvalidDigit,
    /// The value is above the largest value of the type.
    Overflow,
    /// The value is below the smallest value of the type.
    Underflow,
}

/// A parse failure and the byte index where it was found.
#[derive(Clone, Copy, Debug, PartialEq, Eq, Structural)]
pub struct Error {
    pub code: ErrorCode,
    pub index: usize,
}

impl Error {
    pub fn new(code: ErrorCode, index: usize) -> (r: Error)
        ensures
            r == (Error { code, index }),
    {
        Error { code, index }
    }
}

impl From<(ErrorCode, usize)> for Error {
    fn from(t: (ErrorCode, usize)) -> (r: Error) {
        Error { code: t.0, index: t.1 }
    }
}

impl vstd::std_specs::convert::FromSpecImpl<(ErrorCode, usize)> for Error {
    open spec fn obeys_from_spec() -> bool {
        true
    }

    open spec fn from_spec(t: (ErrorCode, usize)) -> Error {
        Error { code: t.0, index: t.1 }
    }
}

} // verus!
