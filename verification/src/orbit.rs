//! The mathematics of the 3n+1 sequence: the map, its orbits, and the three
//! ways in which a sequence held in 32 bits can go.

use vstd::prelude::*;
use vstd::set_lib::{lemma_int_range, lemma_len_subset, set_int_range};

verus! {

/// The largest number that an element of a sequence can be: elements are
/// held in 32 bits, and a sequence that would go beyond them is given up.
pub const LIMIT: u32 = 0xffff_ffff;

/// The 3n+1 map on the natural numbers: halve an even number, triple an odd
/// one and add one.
pub open spec fn collatz(n: nat) -> nat {
    if n % 2 == 0 {
        n / 2
    } else {
        3 * n + 1
    }
}

/// What follows `n` in its sequence: nothing after 1, else `collatz(n)`.
pub open spec fn successor(n: nat) -> Option<nat> {
    if n == 1 {
        None
    } else {
        Some(collatz(n))
    }
}

/// The number reached from `n` by `i` applications of the map, carried on
/// past 1 and past any machine limit.
pub open spec fn orbit(n: nat, i: nat) -> nat
    decreases i,
{
    if i == 0 {
        n
    } else {
        collatz(orbit(n, (i - 1) as nat))
    }
}

/// The first `len` numbers of the orbit of `n`.
pub open spec fn prefix(n: nat, len: nat) -> Seq<nat> {
    Seq::new(len, |i: int| orbit(n, i as nat))
}

/// None of the first `len` numbers of the orbit of `n` is 1, and each of
/// them fits in 32 bits.
pub open spec fn clean(n: nat, len: nat) -> bool {
    forall|j: nat| j < len ==> orbit(n, j) != 1 && #[trigger] orbit(n, j) <= LIMIT
}

/// The sequence of `n` has exactly `len` elements: it reaches 1 with its
/// element of index `len - 1`, not before, and never leaves 32 bits.
pub open spec fn completes(n: nat, len: nat) -> bool {
    &&& len >= 1
    &&& clean(n, (len - 1) as nat)
    &&& orbit(n, (len - 1) as nat) == 1
}

/// The sequence of `n` has an end.
pub open spec fn ends(n: nat) -> bool {
    exists|len: nat| completes(n, len)
}

/// The number of elements of the sequence of `n`, where it has an end.
pub open spec fn length(n: nat) -> nat {
    choose|len: nat| completes(n, len)
}

/// The sequence of `n` leaves 32 bits before it reaches 1.
pub open spec fn overflows(n: nat) -> bool {
    exists|i: nat| clean(n, i) && #[trigger] orbit(n, i) > LIMIT
}

/// The sequence of `n` never reaches 1 and never leaves 32 bits.
pub open spec fn diverges(n: nat) -> bool {
    forall|i: nat| orbit(n, i) != 1 && #[trigger] orbit(n, i) <= LIMIT
}

/// A sequence goes one of three ways: it ends, it overflows, or it never
/// does either.
pub proof fn lemma_three_ways(n: nat)
    ensures
        ends(n) || overflows(n) || diverges(n),
{
    if !diverges(n) {
        let i = choose|i: nat| !(orbit(n, i) != 1 && #[trigger] orbit(n, i) <= LIMIT);
        let k = lemma_first_event(n, i);
        if orbit(n, k) == 1 {
            assert(completes(n, k + 1));
        }
    }
}

/// A sequence goes one way only: one that ends neither overflows nor
/// diverges, and one that overflows does not diverge.
pub proof fn lemma_one_way(n: nat)
    ensures
        ends(n) ==> !overflows(n) && !diverges(n),
        overflows(n) ==> !diverges(n),
{
    if ends(n) {
        let last = (length(n) - 1) as nat;
        assert(orbit(n, last) == 1);
        if overflows(n) {
            let i = choose|i: nat| clean(n, i) && #[trigger] orbit(n, i) > LIMIT;
            if i < last {
                assert(orbit(n, i) <= LIMIT);
            } else if i > last {
                assert(orbit(n, last) != 1);
            }
        }
    }
    if overflows(n) {
        let i = choose|i: nat| clean(n, i) && #[trigger] orbit(n, i) > LIMIT;
        assert(orbit(n, i) > LIMIT);
    }
}

/// A sequence has one length at most.
pub proof fn lemma_length_unique(n: nat, len: nat, other: nat)
    requires
        completes(n, len),
        completes(n, other),
    ensures
        len == other,
{
    if len < other {
        assert(orbit(n, (len - 1) as nat) != 1);
    } else if other < len {
        assert(orbit(n, (other - 1) as nat) != 1);
    }
}

/// A sequence of `len` elements has an end, and `len` is its length.
pub proof fn lemma_length_is(n: nat, len: nat)
    requires
        completes(n, len),
    ensures
        ends(n),
        length(n) == len,
{
    lemma_length_unique(n, len, length(n));
}

/// A sequence that ends has no more elements than there are numbers to
/// hold.
pub proof fn lemma_length_bounded(n: nat, len: nat)
    requires
        completes(n, len),
    ensures
        len <= LIMIT,
{
    if len > LIMIT {
        if n >= 1 {
            lemma_long_sequence_diverges(n, (len - 1) as nat);
        } else {
            lemma_orbit_of_zero((len - 1) as nat);
        }
        assert(orbit(n, (len - 1) as nat) != 1);
    }
}

/// A sequence that is still short of 1 after as many elements as there are
/// numbers to hold will never reach it.
pub proof fn lemma_long_sequence_diverges(n: nat, count: nat)
    requires
        n >= 1,
        count >= LIMIT,
        clean(n, count),
    ensures
        diverges(n),
{
    assert forall|j: nat| j < count implies 2 <= #[trigger] orbit(n, j) < LIMIT + 1 by {
        lemma_orbit_positive(n, j);
    }
    lemma_orbit_repeats(n, 2, (LIMIT + 1) as nat, count);
    let (a, b) = choose|a: nat, b: nat| a < b < count && orbit(n, a) == orbit(n, b);
    assert forall|i: nat| orbit(n, i) != 1 && #[trigger] orbit(n, i) <= LIMIT by {
        if i >= a {
            lemma_orbit_periodic(n, a, b, i);
            let k = choose|k: nat| a <= k < b && orbit(n, k) == orbit(n, i);
            assert(orbit(n, k) != 1 && orbit(n, k) <= LIMIT);
        }
    }
}

/// A sequence that never reaches 1 and never leaves 32 bits comes back to a
/// number that it has held before.
pub proof fn lemma_diverging_sequence_circles(n: nat)
    requires
        diverges(n),
    ensures
        exists|a: nat, b: nat| a < b && orbit(n, a) == orbit(n, b),
{
    lemma_orbit_repeats(n, 0, (LIMIT + 1) as nat, (LIMIT + 2) as nat);
}

/// A positive number stays positive under the map.
pub proof fn lemma_orbit_positive(n: nat, i: nat)
    requires
        n >= 1,
    ensures
        orbit(n, i) >= 1,
    decreases i,
{
    if i > 0 {
        lemma_orbit_positive(n, (i - 1) as nat);
    }
}

/// Zero stays zero under the map.
pub proof fn lemma_orbit_of_zero(i: nat)
    ensures
        orbit(0, i) == 0,
    decreases i,
{
    if i > 0 {
        lemma_orbit_of_zero((i - 1) as nat);
    }
}

/// Walking `i` steps and then `j` more is walking `i + j` steps.
pub proof fn lemma_orbit_add(n: nat, i: nat, j: nat)
    ensures
        orbit(n, i + j) == orbit(orbit(n, i), j),
    decreases j,
{
    if j > 0 {
        lemma_orbit_add(n, i, (j - 1) as nat);
    }
}

/// Among more numbers of an orbit than an interval holds, all of them inside
/// the interval, two are equal.
pub proof fn lemma_orbit_repeats(n: nat, lo: nat, hi: nat, count: nat)
    requires
        lo <= hi,
        count > hi - lo,
        forall|j: nat| j < count ==> lo <= #[trigger] orbit(n, j) < hi,
    ensures
        exists|a: nat, b: nat| a < b < count && orbit(n, a) == orbit(n, b),
{
    let s = Seq::new(count, |j: int| orbit(n, j as nat) as int);
    if s.no_duplicates() {
        s.unique_seq_to_set();
        lemma_int_range(lo as int, hi as int);
        assert(s.to_set().subset_of(set_int_range(lo as int, hi as int))) by {
            assert forall|v: int| s.to_set().contains(v) implies set_int_range(
                lo as int,
                hi as int,
            ).contains(v) by {
                let j = choose|j: int| 0 <= j < s.len() && s[j] == v;
                assert(lo <= orbit(n, j as nat) < hi);
            }
        }
        lemma_len_subset(s.to_set(), set_int_range(lo as int, hi as int));
    } else {
        let (i, j) = choose|i: int, j: int|
            0 <= i < s.len() && 0 <= j < s.len() && i != j && s[i] == s[j];
        let a = if i < j { i as nat } else { j as nat };
        let b = if i < j { j as nat } else { i as nat };
        assert(a < b < count && orbit(n, a) == orbit(n, b));
    }
}

/// Once an orbit has come back to a number, it holds no numbers but those
/// between the two visits.
pub proof fn lemma_orbit_periodic(n: nat, a: nat, b: nat, m: nat)
    requires
        a < b,
        orbit(n, a) == orbit(n, b),
        m >= a,
    ensures
        exists|k: nat| a <= k < b && orbit(n, k) == orbit(n, m),
    decreases m,
{
    if m >= b {
        let back = (a + (m - b)) as nat;
        lemma_orbit_add(n, b, (m - b) as nat);
        lemma_orbit_add(n, a, (m - b) as nat);
        assert(orbit(n, back) == orbit(n, m));
        lemma_orbit_periodic(n, a, b, back);
    }
}

/// Before the first number of an orbit that is 1 or beyond 32 bits, the
/// orbit is clean.
proof fn lemma_first_event(n: nat, i: nat) -> (k: nat)
    requires
        orbit(n, i) == 1 || orbit(n, i) > LIMIT,
    ensures
        k <= i,
        clean(n, k),
        orbit(n, k) == 1 || orbit(n, k) > LIMIT,
    decreases i,
{
    if clean(n, i) {
        i
    } else {
        let j = choose|j: nat| j < i && !(orbit(n, j) != 1 && #[trigger] orbit(n, j) <= LIMIT);
        lemma_first_event(n, j)
    }
}

} // verus!
