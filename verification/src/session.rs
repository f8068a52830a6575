//! The answer to one range, and the decisions of a session that reads line
//! after line.

use vstd::prelude::*;
use crate::error::{InputError, SequenceError};
use crate::input::{parse_and_validate, parsed_and_validated, BoundPair};
use crate::orbit::{completes, ends, lemma_length_is, length};
use crate::sequence::{cycle_length, lemma_outcome, outcome};

verus! {

/// Every sequence that starts in `[low, high]` has an end.
pub open spec fn all_end(low: nat, high: nat) -> bool {
    forall|k: nat| low <= k <= high ==> #[trigger] ends(k)
}

/// `max` is the length of the longest sequence that starts in `[low, high]`:
/// every sequence from there ends, none has more elements, and one has as
/// many.
pub open spec fn is_longest(low: nat, high: nat, max: nat) -> bool {
    &&& all_end(low, high)
    &&& forall|k: nat| low <= k <= high ==> #[trigger] length(k) <= max
    &&& exists|k: nat| low <= k <= high && #[trigger] completes(k, max)
}

/// The first number of `[low, high]` whose sequence has no end fails with
/// `e`.
pub open spec fn first_failure(low: nat, high: nat, e: SequenceError) -> bool {
    exists|k: nat|
        {
            &&& low <= k <= high
            &&& #[trigger] outcome(k) == Err::<usize, SequenceError>(e)
            &&& forall|j: nat| low <= j < k ==> #[trigger] ends(j)
        }
}

/// The length of the longest sequence that starts in `[low, high]`, or the
/// failure of the first sequence from there that has no end.
pub fn max_cycle_length(low: u32, high: u32) -> (r: Result<usize, SequenceError>)
    requires
        1 <= low <= high,
    ensures
        r is Ok <==> all_end(low as nat, high as nat),
        match r {
            Ok(max) => max >= 1 && is_longest(low as nat, high as nat, max as nat),
            Err(e) => first_failure(low as nat, high as nat, e),
        },
{
    let mut best: usize = 0;
    let mut best_start: Ghost<nat> = Ghost(0);
    let mut k: u32 = low;
    loop
        invariant
            1 <= low <= k <= high,
            all_end(low as nat, (k - 1) as nat),
            forall|j: nat| low <= j < k ==> #[trigger] length(j) <= best,
            k == low ==> best == 0,
            k > low ==> low <= best_start@ < k && completes(best_start@, best as nat),
        decreases high - k,
    {
        proof {
            lemma_outcome(k as nat);
        }
        match cycle_length(k) {
            Err(e) => {
                proof {
                    lemma_failure_once(low as nat, high as nat, e, e);
                }
                return Err(e);
            },
            Ok(len) => {
                if len > best {
                    best = len;
                    proof {
                        best_start@ = k as nat;
                    }
                }
            },
        }
        if k == high {
            return Ok(best);
        }
        k = k + 1;
    }
}

/// The answer to one line: the range in order and the length of the longest
/// sequence that starts in it.
#[derive(Debug, Clone, Copy, PartialEq, Eq, Structural)]
pub struct SessionResult {
    pub low: u32,
    pub high: u32,
    pub max_cycle_length: usize,
}

/// What a session does after one attempt to read a line.
#[derive(Debug)]
pub enum Action {
    /// The line held no word: the session ends without error.
    Stop,
    /// The line gave a range: the answer goes out, after a warning where the
    /// line had its two numbers in the wrong order, and the session goes on.
    Emit { result: SessionResult, warning: bool },
    /// The line gave no range: the error is reported and the session goes
    /// on.
    Report(InputError),
    /// The line could not be read: the session ends with this error.
    Abort(InputError),
    /// A sequence of the range has no end within 32 bits: the session cannot
    /// go on.
    Fail(SequenceError),
}

impl Action {
    /// The session is over after this action.
    pub open spec fn is_last(&self) -> bool {
        self is Stop || self is Abort || self is Fail
    }

    /// Whether the session is over after this action.
    pub fn ends_session(&self) -> (b: bool)
        ensures
            b == self.is_last(),
    {
        match self {
            Action::Stop => true,
            Action::Abort(_) => true,
            Action::Fail(_) => true,
            Action::Emit { .. } => false,
            Action::Report(_) => false,
        }
    }
}

/// `action` is what the session owes to a line that stands for `line`: to
/// stop for no range; to end with the error where the line could not be
/// read, and to report any other error; and for a range the answer where
/// every sequence of the range ends, else the failure of the first that does
/// not.
pub open spec fn answers(line: Result<Option<BoundPair>, InputError>, action: Action) -> bool {
    match line {
        Ok(None) => action is Stop,
        Err(e) => if e is IOError {
            action == Action::Abort(e)
        } else {
            action == Action::Report(e)
        },
        Ok(Some(pair)) => match action {
            Action::Emit { result, warning } => {
                &&& all_end(pair.low as nat, pair.high as nat)
                &&& result.low == pair.low
                &&& result.high == pair.high
                &&& result.max_cycle_length >= 1
                &&& is_longest(pair.low as nat, pair.high as nat, result.max_cycle_length as nat)
                &&& warning == pair.reordered
            },
            Action::Fail(e) => {
                &&& !all_end(pair.low as nat, pair.high as nat)
                &&& first_failure(pair.low as nat, pair.high as nat, e)
            },
            _ => false,
        },
    }
}

/// What an attempt to read a line stands for: what the line stands for
/// where there is one, else the failure of the read.
pub open spec fn heard(event: Result<&str, std::io::Error>) -> Result<
    Option<BoundPair>,
    InputError,
> {
    match event {
        Ok(line) => parsed_and_validated(line@),
        Err(e) => Err(InputError::IOError(e)),
    }
}

/// Decides what to do with what reading a line has given.
pub fn respond(line: Result<Option<BoundPair>, InputError>) -> (action: Action)
    requires
        line matches Ok(Some(pair)) ==> pair.wf(),
    ensures
        answers(line, action),
{
    match line {
        Ok(None) => Action::Stop,
        Err(InputError::IOError(e)) => Action::Abort(InputError::IOError(e)),
        Err(e) => Action::Report(e),
        Ok(Some(pair)) => match max_cycle_length(pair.low, pair.high) {
            Ok(max) => Action::Emit {
                result: SessionResult { low: pair.low, high: pair.high, max_cycle_length: max },
                warning: pair.reordered,
            },
            Err(e) => Action::Fail(e),
        },
    }
}

/// One step of a session: from the attempt to read a line to what the
/// session does next.
pub fn step(event: Result<&str, std::io::Error>) -> (action: Action)
    ensures
        answers(heard(event), action),
{
    let line = match event {
        Ok(text) => parse_and_validate(text),
        Err(e) => Err(InputError::from(e)),
    };
    respond(line)
}

/// A range has one longest length at most.
pub proof fn lemma_longest_once(low: nat, high: nat, max: nat, other: nat)
    requires
        is_longest(low, high, max),
        is_longest(low, high, other),
    ensures
        max == other,
{
    let k = choose|k: nat| low <= k <= high && #[trigger] completes(k, max);
    let j = choose|j: nat| low <= j <= high && #[trigger] completes(j, other);
    lemma_length_is(k, max);
    lemma_length_is(j, other);
    assert(length(k) <= other && length(j) <= max);
}

/// A range fails in one way at most, and then not all its sequences end.
pub proof fn lemma_failure_once(low: nat, high: nat, e: SequenceError, other: SequenceError)
    requires
        first_failure(low, high, e),
    ensures
        first_failure(low, high, other) ==> e == other,
        !all_end(low, high),
{
    let k = choose|k: nat|
        {
            &&& low <= k <= high
            &&& #[trigger] outcome(k) == Err::<usize, SequenceError>(e)
            &&& forall|j: nat| low <= j < k ==> #[trigger] ends(j)
        };
    assert(!ends(k));
    if first_failure(low, high, other) {
        let m = choose|m: nat|
            {
                &&& low <= m <= high
                &&& #[trigger] outcome(m) == Err::<usize, SequenceError>(other)
                &&& forall|j: nat| low <= j < m ==> #[trigger] ends(j)
            };
        assert(!ends(m));
        assert(k == m);
    }
}

} // verus!
