//! The error types of the library.

use vstd::prelude::*;

verus! {

/// Why a 3n+1 sequence could not be walked to its end.
#[derive(Debug, Clone, Copy, PartialEq, Eq, Structural)]
pub enum SequenceError {
    /// The sequence leaves 32 bits before it reaches 1.
    Overflow,
    /// The sequence runs in a circle that does not hold 1.
    Endless,
}

/// Why a token is no 32-bit unsigned number in decimal.
#[derive(Debug, Clone, Copy, PartialEq, Eq, Structural)]
pub enum ParseFailure {
    /// The token holds no character.
    Empty,
    /// A character of the token is no decimal digit, or the token holds a
    /// sign and nothing else.
    InvalidDigit,
    /// The digits spell a number beyond 32 bits.
    PosOverflow,
}

/// `std::io::Error`, the failure of a read from the input source. The
/// library hands such a value on and never looks inside it: nothing is
/// claimed of what it holds.
#[verifier::external_type_specification]
#[verifier::external_body]
pub struct ExIoError(std::io::Error);

/// Why a line of input gave no range.
#[derive(Debug)]
pub enum InputError {
    /// The line could not be read.
    IOError(std::io::Error),
    /// A word of the line is no 32-bit unsigned number.
    ParseError(ParseFailure),
    /// The line holds some other number of words than two.
    ArgCountError { count: usize },
    /// One of the two numbers is zero.
    ZeroError,
    /// The second number is smaller than the first. Reading a line never
    /// gives this error: it swaps the two and goes on.
    OutOfOrderError,
}

/// The failure of a word is an error of its line.
impl From<ParseFailure> for InputError {
    fn from(e: ParseFailure) -> (r: InputError) {
        InputError::ParseError(e)
    }
}

impl vstd::std_specs::convert::FromSpecImpl<ParseFailure> for InputError {
    open spec fn obeys_from_spec() -> bool {
        true
    }

    open spec fn from_spec(e: ParseFailure) -> InputError {
        InputError::ParseError(e)
    }
}

/// The failure of a read is an error of the line that was to be read.
impl From<std::io::Error> for InputError {
    fn from(e: std::io::Error) -> (r: InputError) {
        InputError::IOError(e)
    }
}

impl vstd::std_specs::convert::FromSpecImpl<std::io::Error> for InputError {
    open spec fn obeys_from_spec() -> bool {
        true
    }

    open spec fn from_spec(e: std::io::Error) -> InputError {
        InputError::IOError(e)
    }
}

} // verus!
