//! The 3n+1 problem, verified.
//!
//! For a closed range of positive integers this library finds the length of
//! the longest 3n+1 sequence that starts inside the range. It also holds the
//! rules by which one line of text becomes such a range, and the decisions of
//! a session that answers one line after another.
//!
//! - [`orbit`]: the 3n+1 map, its orbits, and what it means for a sequence
//!   held in 32 bits to end, to overflow, or to do neither.
//! - [`sequence`]: the generator [`ThreeN`] and the length of one sequence.
//! - [`words`] and [`decimal`]: a line into words, a word into a number.
//! - [`input`]: a line into a validated range.
//! - [`session`]: the longest sequence of a range, and what a session does
//!   with each line.
//! - [`error`]: the errors of all of these.
//!
//! Reading lines and writing answers is left to the caller.

pub mod decimal;
pub mod error;
pub mod input;
pub mod orbit;
pub mod sequence;
pub mod session;
pub mod words;

pub use error::{InputError, ParseFailure, SequenceError};
pub use input::{parse_and_validate, BoundPair};
pub use sequence::{cycle_length, ThreeN};
pub use session::{max_cycle_length, step, Action, SessionResult};
