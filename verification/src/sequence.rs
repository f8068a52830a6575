//! The generator that walks one 3n+1 sequence.

use vstd::prelude::*;
use crate::error::SequenceError;
use crate::orbit::{
    clean, completes, diverges, ends, lemma_length_bounded, lemma_length_is,
    lemma_long_sequence_diverges, lemma_one_way, lemma_three_ways, length, orbit, overflows,
    prefix, successor, LIMIT,
};

verus! {

/// The state of a generator after it has been asked once more: the next
/// number of the sequence, or nothing once 1 has been produced.
pub open spec fn advance(state: Option<nat>) -> Option<nat> {
    match state {
        Some(n) => successor(n),
        None => None,
    }
}

/// The state of a generator that started in `start`, after it has been asked
/// `steps` times.
pub open spec fn state_after(start: Option<nat>, steps: nat) -> Option<nat>
    decreases steps,
{
    if steps == 0 {
        start
    } else {
        advance(state_after(start, (steps - 1) as nat))
    }
}

/// A machine number as a natural number.
pub open spec fn widen(value: Option<u32>) -> Option<nat> {
    match value {
        Some(v) => Some(v as nat),
        None => None,
    }
}

/// The natural numbers that a vector of sequence elements holds.
pub open spec fn numbers(elements: Seq<u32>) -> Seq<nat> {
    elements.map_values(|v: u32| v as nat)
}

/// What walking the sequence of `n` comes to: its length where it has an
/// end, else the error that says why it has none.
pub open spec fn outcome(n: nat) -> Result<usize, SequenceError> {
    if ends(n) {
        Ok(length(n) as usize)
    } else if overflows(n) {
        Err(SequenceError::Overflow)
    } else {
        Err(SequenceError::Endless)
    }
}

/// A generator of the 3n+1 sequence that starts from a positive integer and
/// ends after it has produced 1.
pub struct ThreeN {
    next: Option<u32>,
}

impl View for ThreeN {
    type V = Option<nat>;

    /// The number that the generator will produce next, if any.
    closed spec fn view(&self) -> Option<nat> {
        widen(self.next)
    }
}

impl ThreeN {
    /// A generator never stands at zero.
    #[verifier::type_invariant]
    spec fn positive(self) -> bool {
        self.next != Some(0u32)
    }

    /// The generator would have to produce a number beyond 32 bits when asked
    /// for its next element.
    pub open spec fn stuck(&self) -> bool {
        self@ matches Some(n) && successor(n) matches Some(m) && m > LIMIT
    }

    /// Creates a generator that starts at `n`.
    pub fn new(n: u32) -> (r: ThreeN)
        requires
            n > 0,
        ensures
            r@ == Some(n as nat),
    {
        ThreeN { next: Some(n) }
    }

    /// The step of the algorithm from `num`: `None` after 1, else the next
    /// number, which the caller knows to fit in 32 bits.
    pub fn threen(num: u32) -> (r: Option<u32>)
        requires
            successor(num as nat) matches Some(m) ==> m <= LIMIT,
        ensures
            widen(r) == successor(num as nat),
    {
        if num == 1 {
            None
        } else if num % 2 == 1 {
            Some(3 * num + 1)
        } else {
            Some(num / 2)
        }
    }

    /// Whether the step from `num` stays within 32 bits.
    pub fn fits(num: u32) -> (b: bool)
        ensures
            b == (successor(num as nat) matches Some(m) ==> m <= LIMIT),
    {
        num == 1 || num % 2 == 0 || num <= (LIMIT - 1) / 3
    }

    /// Produces the next element of the sequence, or `None` once the
    /// sequence has ended.
    pub fn next(&mut self) -> (r: Option<u32>)
        requires
            !old(self).stuck(),
        ensures
            widen(r) == old(self)@,
            final(self)@ == advance(old(self)@),
    {
        proof {
            use_type_invariant(&*self);
        }
        let current = self.next;
        if let Some(num) = current {
            let following = ThreeN::threen(num);
            self.next = following;
        }
        current
    }

    /// Produces the next element of the sequence like `next`, but reports a
    /// number beyond 32 bits as an error and then leaves the generator as it
    /// was.
    pub fn try_next(&mut self) -> (r: Result<Option<u32>, SequenceError>)
        ensures
            match r {
                Ok(value) => {
                    &&& !old(self).stuck()
                    &&& widen(value) == old(self)@
                    &&& final(self)@ == advance(old(self)@)
                },
                Err(e) => {
                    &&& old(self).stuck()
                    &&& e == SequenceError::Overflow
                    &&& final(self)@ == old(self)@
                },
            },
    {
        let safe = match self.next {
            Some(num) => ThreeN::fits(num),
            None => true,
        };
        if safe {
            Ok(self.next())
        } else {
            Err(SequenceError::Overflow)
        }
    }

    /// Walks the rest of the sequence and counts its elements.
    pub fn count(self) -> (r: Result<usize, SequenceError>)
        ensures
            match self@ {
                Some(n) => r == outcome(n),
                None => r == Ok::<usize, SequenceError>(0),
            },
    {
        proof {
            use_type_invariant(&self);
        }
        let mut current = match self.next {
            Some(first) => first,
            None => {
                return Ok(0);
            },
        };
        let ghost n = current as nat;
        let mut produced: usize = 1;
        loop
            invariant
                self@ == Some(n),
                n >= 1,
                1 <= produced <= LIMIT,
                current == orbit(n, (produced - 1) as nat),
                clean(n, (produced - 1) as nat),
            decreases LIMIT - produced,
        {
            if !ThreeN::fits(current) {
                proof {
                    assert(orbit(n, produced as nat) > LIMIT);
                    lemma_outcome(n);
                }
                return Err(SequenceError::Overflow);
            }
            match ThreeN::threen(current) {
                None => {
                    proof {
                        lemma_length_is(n, produced as nat);
                    }
                    return Ok(produced);
                },
                Some(following) => {
                    if produced == LIMIT as usize {
                        proof {
                            lemma_long_sequence_diverges(n, produced as nat);
                            lemma_outcome(n);
                        }
                        return Err(SequenceError::Endless);
                    }
                    current = following;
                    produced = produced + 1;
                },
            }
        }
    }

    /// Walks the rest of the sequence and gathers its elements in order.
    pub fn collect(self) -> (r: Result<Vec<u32>, SequenceError>)
        ensures
            match self@ {
                Some(n) => match r {
                    Ok(elements) => {
                        &&& outcome(n) == Ok::<usize, SequenceError>(elements.len())
                        &&& numbers(elements@) == prefix(n, elements@.len())
                        &&& elements@.last() == 1
                    },
                    Err(e) => outcome(n) == Err::<usize, SequenceError>(e),
                },
                None => r matches Ok(elements) && elements@.len() == 0,
            },
    {
        proof {
            use_type_invariant(&self);
        }
        let mut elements: Vec<u32> = Vec::new();
        let mut current = match self.next {
            Some(first) => first,
            None => {
                return Ok(elements);
            },
        };
        let ghost n = current as nat;
        loop
            invariant
                self@ == Some(n),
                n >= 1,
                elements@.len() < LIMIT,
                current == orbit(n, elements@.len()),
                clean(n, elements@.len()),
                numbers(elements@) == prefix(n, elements@.len()),
            decreases LIMIT - elements@.len(),
        {
            if !ThreeN::fits(current) {
                proof {
                    assert(orbit(n, (elements@.len() + 1) as nat) > LIMIT);
                    lemma_outcome(n);
                }
                return Err(SequenceError::Overflow);
            }
            let ghost before = elements@;
            elements.push(current);
            assert(numbers(elements@) =~= prefix(n, elements@.len())) by {
                assert forall|k: int| 0 <= k < elements@.len() implies numbers(elements@)[k]
                    == prefix(n, elements@.len())[k] by {
                    if k < before.len() {
                        assert(numbers(before)[k] == prefix(n, before.len())[k]);
                    }
                }
            }
            match ThreeN::threen(current) {
                None => {
                    proof {
                        lemma_length_is(n, elements@.len());
                    }
                    return Ok(elements);
                },
                Some(following) => {
                    if elements.len() == LIMIT as usize {
                        proof {
                            lemma_long_sequence_diverges(n, elements@.len());
                            lemma_outcome(n);
                        }
                        return Err(SequenceError::Endless);
                    }
                    current = following;
                },
            }
        }
    }
}

/// The number of elements of the sequence that starts at `n`.
pub fn cycle_length(n: u32) -> (r: Result<usize, SequenceError>)
    requires
        n > 0,
    ensures
        r == outcome(n as nat),
{
    ThreeN::new(n).count()
}

/// The outcome of a sequence names the one way that it goes: a length
/// exactly where the sequence ends, which then is its number of elements and
/// fits the machine; an overflow exactly where it leaves 32 bits before it
/// reaches 1; and no end exactly where it does neither for ever.
pub proof fn lemma_outcome(n: nat)
    ensures
        outcome(n) is Ok <==> ends(n),
        outcome(n) matches Ok(len) ==> completes(n, len as nat) && len <= LIMIT,
        outcome(n) == Err::<usize, SequenceError>(SequenceError::Overflow) <==> overflows(n),
        outcome(n) == Err::<usize, SequenceError>(SequenceError::Endless) <==> diverges(n),
{
    lemma_three_ways(n);
    lemma_one_way(n);
    if ends(n) {
        lemma_length_bounded(n, length(n));
    }
}

/// As long as it has not produced 1, a generator stands at the number of the
/// orbit that its count of steps gives.
pub proof fn lemma_state_follows_orbit(n: nat, steps: nat)
    requires
        forall|j: nat| j < steps ==> #[trigger] orbit(n, j) != 1,
    ensures
        state_after(Some(n), steps) == Some(orbit(n, steps)),
    decreases steps,
{
    if steps > 0 {
        lemma_state_follows_orbit(n, (steps - 1) as nat);
    }
}

/// A generator that has ended stays ended.
pub proof fn lemma_end_is_final(steps: nat)
    ensures
        state_after(None, steps) is None,
    decreases steps,
{
    if steps > 0 {
        lemma_end_is_final((steps - 1) as nat);
    }
}

/// The sequence of a positive number that neither overflows nor runs in a
/// circle ends, and its last element is 1: after some number of steps the
/// generator has just produced 1 and has nothing more to produce.
pub proof fn lemma_sequence_ends_in_one(n: nat)
    requires
        n >= 1,
        !overflows(n),
        !diverges(n),
    ensures
        exists|len: nat|
            {
                &&& #[trigger] completes(n, len)
                &&& prefix(n, len).last() == 1
                &&& state_after(Some(n), (len - 1) as nat) == Some(1nat)
                &&& state_after(Some(n), len) is None
            },
{
    lemma_three_ways(n);
    let len = length(n);
    lemma_state_follows_orbit(n, (len - 1) as nat);
}

} // verus!
