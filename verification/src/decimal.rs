//! Decimal numbers: from the characters of a word to a 32-bit unsigned
//! number.

use vstd::prelude::*;
use crate::error::ParseFailure;

verus! {

/// Whether `c` is one of the ten decimal digits.
pub open spec fn is_digit(c: char) -> bool {
    '0' as u32 <= c as u32 <= '9' as u32
}

/// The number that the digit `c` stands for.
pub open spec fn digit_value(c: char) -> nat {
    (c as u32 - '0' as u32) as nat
}

/// The number of characters of `s` that come before its first character
/// that is no digit.
pub open spec fn digit_run(s: Seq<char>) -> nat
    decreases s.len(),
{
    if s.len() == 0 || !is_digit(s[0]) {
        0
    } else {
        1 + digit_run(s.drop_first())
    }
}

/// The number that the digits of `s` spell in decimal.
pub open spec fn decimal(s: Seq<char>) -> nat
    decreases s.len(),
{
    if s.len() == 0 {
        0
    } else {
        10 * decimal(s.drop_last()) + digit_value(s.last())
    }
}

/// `s` without the plus sign that it may begin with.
pub open spec fn unsigned(s: Seq<char>) -> Seq<char> {
    if s.len() > 0 && s[0] == '+' {
        s.drop_first()
    } else {
        s
    }
}

/// What `s` is as a 32-bit unsigned number in decimal: an optional plus
/// sign, then digits and nothing else. Reading stops at the first fault: a
/// number that has grown beyond 32 bits before any other character is met is
/// an overflow.
pub open spec fn parsed(s: Seq<char>) -> Result<u32, ParseFailure> {
    let body = unsigned(s);
    let digits = body.take(digit_run(body) as int);
    if s.len() == 0 {
        Err(ParseFailure::Empty)
    } else if body.len() == 0 {
        Err(ParseFailure::InvalidDigit)
    } else if decimal(digits) > u32::MAX {
        Err(ParseFailure::PosOverflow)
    } else if digits.len() < body.len() {
        Err(ParseFailure::InvalidDigit)
    } else {
        Ok(decimal(body) as u32)
    }
}

/// Reads `token` as a 32-bit unsigned number in decimal.
pub fn parse_u32(token: &[char]) -> (r: Result<u32, ParseFailure>)
    ensures
        r == parsed(token@),
{
    let n = token.len();
    if n == 0 {
        return Err(ParseFailure::Empty);
    }
    let start: usize = if token[0] == '+' {
        1
    } else {
        0
    };
    if start == n {
        return Err(ParseFailure::InvalidDigit);
    }
    let ghost body = unsigned(token@);
    let mut value: u32 = 0;
    let mut i: usize = start;
    while i < n
        invariant
            start <= i <= n,
            n == token@.len(),
            body == unsigned(token@),
            body == token@.skip(start as int),
            forall|j: int| 0 <= j < i - start ==> is_digit(#[trigger] body[j]),
            value == decimal(body.take(i - start)),
        decreases n - i,
    {
        let c = token[i];
        let code: u32 = c as u32;
        let ghost k = i - start;
        if code < 0x30 || code > 0x39 {
            proof {
                lemma_digit_run_is(body, k as nat);
            }
            return Err(ParseFailure::InvalidDigit);
        }
        let digit: u32 = code - 0x30;
        assert(body.take(k + 1).drop_last() =~= body.take(k));
        if value > (u32::MAX - digit) / 10 {
            proof {
                lemma_digit_run_bounds(body);
                lemma_decimal_grows(body, (k + 1) as nat, digit_run(body));
            }
            return Err(ParseFailure::PosOverflow);
        }
        value = 10 * value + digit;
        i = i + 1;
    }
    proof {
        lemma_digit_run_is(body, body.len());
        assert(body.take(body.len() as int) =~= body);
    }
    Ok(value)
}

/// The leading run of digits lies within its text, holds digits only, and
/// ends at the end of the text or at a character that is no digit.
pub proof fn lemma_digit_run_bounds(s: Seq<char>)
    ensures
        digit_run(s) <= s.len(),
        forall|j: int| 0 <= j < digit_run(s) ==> is_digit(#[trigger] s[j]),
        digit_run(s) == s.len() || !is_digit(s[digit_run(s) as int]),
    decreases s.len(),
{
    if s.len() > 0 && is_digit(s[0]) {
        let rest = s.drop_first();
        lemma_digit_run_bounds(rest);
        assert forall|j: int| 0 <= j < digit_run(s) implies is_digit(#[trigger] s[j]) by {
            if j > 0 {
                assert(s[j] == rest[j - 1]);
            }
        }
    }
}

/// A run of digits that ends at another character or at the end of the text
/// is the leading run.
pub proof fn lemma_digit_run_is(s: Seq<char>, k: nat)
    requires
        k <= s.len(),
        forall|j: int| 0 <= j < k ==> is_digit(#[trigger] s[j]),
        k == s.len() || !is_digit(s[k as int]),
    ensures
        digit_run(s) == k,
    decreases k,
{
    if k > 0 {
        lemma_digit_run_is(s.drop_first(), (k - 1) as nat);
    }
}

/// More digits spell no smaller a number.
pub proof fn lemma_decimal_grows(s: Seq<char>, k: nat, m: nat)
    requires
        k <= m <= s.len(),
    ensures
        decimal(s.take(k as int)) <= decimal(s.take(m as int)),
    decreases m,
{
    if k < m {
        lemma_decimal_grows(s, k, (m - 1) as nat);
        assert(s.take(m as int).drop_last() =~= s.take(m - 1));
    }
}

/// A text is a number exactly where, after the plus sign that it may begin
/// with, it holds a digit, holds digits only, and these spell no more than
/// 32 bits hold; it then is the number that they spell.
pub proof fn lemma_parsed_number(s: Seq<char>)
    ensures
        parsed(s) is Ok <==> {
            &&& unsigned(s).len() > 0
            &&& forall|j: int| 0 <= j < unsigned(s).len() ==> is_digit(#[trigger] unsigned(s)[j])
            &&& decimal(unsigned(s)) <= u32::MAX
        },
        parsed(s) matches Ok(v) ==> v == decimal(unsigned(s)),
{
    let body = unsigned(s);
    lemma_digit_run_bounds(body);
    if digit_run(body) == body.len() {
        assert(body.take(body.len() as int) =~= body);
    }
    if forall|j: int| 0 <= j < body.len() ==> is_digit(#[trigger] body[j]) {
        lemma_digit_run_is(body, body.len());
    }
}

} // verus!
