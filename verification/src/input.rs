//! From one line of text to a validated range.

use vstd::prelude::*;
use crate::error::{InputError, ParseFailure};
use crate::decimal::{parse_u32, parsed};
use crate::words::{is_word, lemma_tokens_are_words, spelled, split_whitespace, tokens};

verus! {

/// The two bounds of a range, in order, and whether they had to be swapped
/// to be so.
#[derive(Debug, Clone, Copy, PartialEq, Eq, Structural)]
pub struct BoundPair {
    pub low: u32,
    pub high: u32,
    pub reordered: bool,
}

impl BoundPair {
    /// Both bounds are positive and the lower one comes first.
    pub open spec fn wf(&self) -> bool {
        1 <= self.low <= self.high
    }
}

/// The numbers that `words` spell, or the failure of the first word that
/// spells none.
pub open spec fn parsed_all(words: Seq<Seq<char>>) -> Result<Seq<u32>, ParseFailure>
    decreases words.len(),
{
    if words.len() == 0 {
        Ok(Seq::empty())
    } else {
        match parsed_all(words.drop_last()) {
            Err(e) => Err(e),
            Ok(values) => match parsed(words.last()) {
                Err(e) => Err(e),
                Ok(v) => Ok(values.push(v)),
            },
        }
    }
}

/// The range that the numbers of a line stand for: none for no number, a
/// pair in order for two positive numbers, an error for anything else.
pub open spec fn validated(args: Seq<u32>) -> Result<Option<BoundPair>, InputError> {
    if args.len() == 0 {
        Ok(None)
    } else if args.len() != 2 {
        Err(InputError::ArgCountError { count: args.len() as usize })
    } else if args[0] == 0 || args[1] == 0 {
        Err(InputError::ZeroError)
    } else if args[0] > args[1] {
        Ok(Some(BoundPair { low: args[1], high: args[0], reordered: true }))
    } else {
        Ok(Some(BoundPair { low: args[0], high: args[1], reordered: false }))
    }
}

/// What a line of text stands for: the failure of its first word that is no
/// number, else what its numbers stand for.
pub open spec fn parsed_and_validated(line: Seq<char>) -> Result<Option<BoundPair>, InputError> {
    match parsed_all(tokens(line)) {
        Err(e) => Err(InputError::ParseError(e)),
        Ok(args) => validated(args),
    }
}

/// Reads each of `words` as a number, up to the first that is none.
pub fn parse_all(words: &Vec<Vec<char>>) -> (r: Result<Vec<u32>, ParseFailure>)
    ensures
        match r {
            Ok(args) => parsed_all(spelled(words@)) == Ok::<Seq<u32>, ParseFailure>(args@),
            Err(e) => parsed_all(spelled(words@)) == Err::<Seq<u32>, ParseFailure>(e),
        },
{
    let mut args: Vec<u32> = Vec::new();
    let mut i: usize = 0;
    while i < words.len()
        invariant
            i <= words@.len(),
            parsed_all(spelled(words@).take(i as int)) == Ok::<Seq<u32>, ParseFailure>(args@),
        decreases words@.len() - i,
    {
        let ghost all = spelled(words@);
        assert(all.take(i + 1).drop_last() =~= all.take(i as int));
        match parse_u32(words[i].as_slice()) {
            Ok(v) => {
                args.push(v);
            },
            Err(e) => {
                proof {
                    lemma_failure_stays(all, (i + 1) as nat);
                }
                return Err(e);
            },
        }
        i = i + 1;
    }
    assert(spelled(words@).take(i as int) =~= spelled(words@));
    Ok(args)
}

/// Decides what the numbers of a line stand for.
pub fn validate(args: &[u32]) -> (r: Result<Option<BoundPair>, InputError>)
    ensures
        r == validated(args@),
        r matches Ok(Some(pair)) ==> pair.wf(),
{
    if args.len() == 0 {
        Ok(None)
    } else if args.len() != 2 {
        Err(InputError::ArgCountError { count: args.len() })
    } else if args[0] == 0 || args[1] == 0 {
        Err(InputError::ZeroError)
    } else if args[0] > args[1] {
        Ok(Some(BoundPair { low: args[1], high: args[0], reordered: true }))
    } else {
        Ok(Some(BoundPair { low: args[0], high: args[1], reordered: false }))
    }
}

/// Reads one line of text: no range for a line without words, a range in
/// order for two positive numbers, an error for anything else.
pub fn parse_and_validate(line: &str) -> (r: Result<Option<BoundPair>, InputError>)
    ensures
        r == parsed_and_validated(line@),
        r matches Ok(Some(pair)) ==> pair.wf(),
{
    let words = split_whitespace(line);
    match parse_all(&words) {
        Err(e) => Err(InputError::from(e)),
        Ok(args) => validate(args.as_slice()),
    }
}

/// Once a word has failed, the words after it change nothing.
pub proof fn lemma_failure_stays(words: Seq<Seq<char>>, k: nat)
    requires
        k <= words.len(),
        parsed_all(words.take(k as int)) is Err,
    ensures
        parsed_all(words) == parsed_all(words.take(k as int)),
    decreases words.len(),
{
    if k < words.len() {
        assert(words.drop_last().take(k as int) =~= words.take(k as int));
        lemma_failure_stays(words.drop_last(), k);
    } else {
        assert(words.take(k as int) =~= words);
    }
}

/// Words spell numbers together where each of them spells one, and fail
/// together as the first of them that spells none does.
pub proof fn lemma_parsed_all_each(words: Seq<Seq<char>>)
    ensures
        match parsed_all(words) {
            Ok(values) => {
                &&& values.len() == words.len()
                &&& forall|i: int|
                    0 <= i < words.len() ==> parsed(#[trigger] words[i]) == Ok::<u32, ParseFailure>(
                        values[i],
                    )
            },
            Err(e) => exists|i: int|
                {
                    &&& 0 <= i < words.len()
                    &&& parsed(#[trigger] words[i]) == Err::<u32, ParseFailure>(e)
                    &&& forall|j: int| 0 <= j < i ==> parsed(#[trigger] words[j]) is Ok
                },
        },
    decreases words.len(),
{
    if words.len() > 0 {
        let front = words.drop_last();
        let last = words.len() - 1;
        lemma_parsed_all_each(front);
        match parsed_all(front) {
            Ok(values) => {
                assert forall|j: int| 0 <= j < last implies parsed(#[trigger] words[j]) is Ok by {
                    assert(words[j] == front[j]);
                }
                match parsed(words.last()) {
                    Ok(v) => {
                        assert forall|i: int| 0 <= i < words.len() implies parsed(
                            #[trigger] words[i],
                        ) == Ok::<u32, ParseFailure>(values.push(v)[i]) by {
                            if i < last {
                                assert(words[i] == front[i]);
                            }
                        }
                    },
                    Err(e) => {
                        assert(parsed(words[last]) == Err::<u32, ParseFailure>(e));
                    },
                }
            },
            Err(e) => {
                let i = choose|i: int|
                    {
                        &&& 0 <= i < front.len()
                        &&& parsed(#[trigger] front[i]) == Err::<u32, ParseFailure>(e)
                        &&& forall|j: int| 0 <= j < i ==> parsed(#[trigger] front[j]) is Ok
                    };
                assert(words[i] == front[i]);
                assert forall|j: int| 0 <= j < i implies parsed(#[trigger] words[j]) is Ok by {
                    assert(words[j] == front[j]);
                }
            },
        }
    }
}

/// A line fails in three ways only: by a word that is no number, which is
/// never an empty word; by the number of its words, where that is neither
/// none nor two; or by a zero. Numbers in the wrong order are no error, and
/// every range that a line gives is in order.
pub proof fn lemma_errors_of_a_line(line: Seq<char>)
    ensures
        match parsed_and_validated(line) {
            Ok(Some(pair)) => pair.wf(),
            Ok(None) => tokens(line).len() == 0,
            Err(InputError::ParseError(e)) => e != ParseFailure::Empty,
            Err(InputError::ArgCountError { count }) => {
                &&& count == tokens(line).len() as usize
                &&& tokens(line).len() != 0
                &&& tokens(line).len() != 2
            },
            Err(InputError::ZeroError) => true,
            Err(InputError::OutOfOrderError) => false,
            Err(InputError::IOError(_)) => false,
        },
{
    let words = tokens(line);
    lemma_tokens_are_words(line);
    lemma_parsed_all_each(words);
    if let Err(e) = parsed_all(words) {
        let i = choose|i: int|
            {
                &&& 0 <= i < words.len()
                &&& parsed(#[trigger] words[i]) == Err::<u32, ParseFailure>(e)
                &&& forall|j: int| 0 <= j < i ==> parsed(#[trigger] words[j]) is Ok
            };
        assert(is_word(words[i]));
    }
}

} // verus!
