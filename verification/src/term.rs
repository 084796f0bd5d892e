//! Term classification: turning one raw token into an operator or an integer
//! literal.

use vstd::prelude::*;

use crate::{ASTERISK, MAX_TOKEN_LENGTH, MINUS, NINE, PERCENT, PLUS, SLASH, ZERO};

verus! {

/// One of the five arithmetic operators of the calculator.
#[derive(Clone, Copy, Debug, PartialEq, Eq, Structural)]
pub enum Operator {
    Plus,
    Minus,
    Multiply,
    Divide,
    Remainder,
}

/// One unit of an expression: a literal integer or an operator.
#[derive(Clone, Copy, Debug, PartialEq, Eq, Structural)]
pub enum Term {
    Value(i64),
    Operator(Operator),
}

/// The outcomes that abort the current expression.  Each is recoverable: the
/// driver reports it and prompts for the next expression.
#[derive(Clone, Copy, Debug, PartialEq, Eq, Structural)]
pub enum Error {
    InvalidTerm,
    TooManyTerms,
    ReadError,
    TokenTooLong,
    StackOverflow,
    StackUnderflow,
    DivisionByZero,
}

/// Whether `b` spells one of the five operators.
pub open spec fn is_operator_byte(b: u8) -> bool {
    b == PLUS || b == MINUS || b == ASTERISK || b == SLASH || b == PERCENT
}

/// The operator spelled by `b`, for an operator byte.
pub open spec fn operator_of_byte(b: u8) -> Operator {
    if b == PLUS {
        Operator::Plus
    } else if b == MINUS {
        Operator::Minus
    } else if b == ASTERISK {
        Operator::Multiply
    } else if b == SLASH {
        Operator::Divide
    } else {
        Operator::Remainder
    }
}

/// Whether `b` is an ASCII decimal digit.
pub open spec fn is_digit(b: u8) -> bool {
    ZERO <= b && b <= NINE
}

/// Whether every byte of `s` is an ASCII decimal digit.
pub open spec fn all_digits(s: Seq<u8>) -> bool {
    forall|i: int| 0 <= i < s.len() ==> is_digit(#[trigger] s[i])
}

/// The value of a digit string read left to right in decimal.
pub open spec fn digits_value(s: Seq<u8>) -> int
    decreases s.len(),
{
    if s.len() == 0 {
        0
    } else {
        digits_value(s.drop_last()) * 10 + (s.last() - ZERO)
    }
}

/// Whether `s` is an integer literal: an optional leading minus sign followed
/// by one or more digits.
pub open spec fn is_integer_token(s: Seq<u8>) -> bool {
    if s.len() >= 1 && s[0] == MINUS {
        s.len() >= 2 && all_digits(s.skip(1))
    } else {
        s.len() >= 1 && all_digits(s)
    }
}

/// The signed value of the integer literal `s`.
pub open spec fn integer_value(s: Seq<u8>) -> int {
    if s.len() >= 1 && s[0] == MINUS {
        -digits_value(s.skip(1))
    } else {
        digits_value(s)
    }
}

/// The term produced by the operator rule: a single operator byte.
pub open spec fn operator_term(s: Seq<u8>) -> Option<Term> {
    if s.len() == 1 && is_operator_byte(s[0]) {
        Some(Term::Operator(operator_of_byte(s[0])))
    } else {
        None
    }
}

/// The term produced by the integer rule.
pub open spec fn value_term(s: Seq<u8>) -> Option<Term> {
    if is_integer_token(s) {
        Some(Term::Value(integer_value(s) as i64))
    } else {
        None
    }
}

/// Classification of one token: the operator rule is tried first, then the
/// integer rule; any other content is rejected.
pub open spec fn classify(s: Seq<u8>) -> Option<Term> {
    match operator_term(s) {
        Some(t) => Some(t),
        None => value_term(s),
    }
}

/// Ten to the power `n`.
pub open spec fn pow10(n: nat) -> int
    decreases n,
{
    if n == 0 {
        1
    } else {
        10 * pow10((n - 1) as nat)
    }
}

/// A digit string of length `n` denotes a value below ten to the `n`.
pub proof fn lemma_digits_value_bound(s: Seq<u8>)
    requires
        all_digits(s),
    ensures
        0 <= digits_value(s) < pow10(s.len()),
    decreases s.len(),
{
    if s.len() > 0 {
        assert(all_digits(s.drop_last()));
        lemma_digits_value_bound(s.drop_last());
    }
}

/// Tokens never exceed sixteen bytes, so their value stays far below the
/// largest `i64`.
pub proof fn lemma_pow10_16()
    ensures
        pow10(16) == 10000000000000000,
{
    reveal_with_fuel(pow10, 17);
}

/// The operator rule, on one token.
pub fn read_operator(token: &Vec<u8>) -> (r: Option<Term>)
    ensures
        r == operator_term(token@),
{
    if token.len() != 1 {
        None
    } else {
        let b = token[0];
        if b == PLUS {
            Some(Term::Operator(Operator::Plus))
        } else if b == MINUS {
            Some(Term::Operator(Operator::Minus))
        } else if b == ASTERISK {
            Some(Term::Operator(Operator::Multiply))
        } else if b == SLASH {
            Some(Term::Operator(Operator::Divide))
        } else if b == PERCENT {
            Some(Term::Operator(Operator::Remainder))
        } else {
            None
        }
    }
}

/// The integer rule, on one token: an optional leading minus sign, then one
/// or more digits, accumulated left to right in decimal.
#[verifier::loop_isolation(false)]
pub fn read_value(token: &Vec<u8>) -> (r: Option<Term>)
    requires
        token@.len() <= MAX_TOKEN_LENGTH,
    ensures
        r == value_term(token@),
{
    if token.len() == 0 {
        return None;
    }
    let negative = token[0] == MINUS;
    let digits_start: usize = if negative {
        1
    } else {
        0
    };
    if token.len() == digits_start {
        // A bare minus sign is not a literal.
        return None;
    }
    let mut magnitude: i64 = 0;
    let mut index: usize = digits_start;
    proof {
        lemma_pow10_16();
        assert(token@.subrange(digits_start as int, digits_start as int) =~= Seq::<u8>::empty());
    }
    while index < token.len()
        invariant
            digits_start <= index <= token@.len() <= MAX_TOKEN_LENGTH,
            all_digits(token@.subrange(digits_start as int, index as int)),
            magnitude == digits_value(token@.subrange(digits_start as int, index as int)),
            0 <= magnitude < pow10((index - digits_start) as nat),
            pow10(16) == 10000000000000000,
        decreases token@.len() - index,
    {
        let b = token[index];
        if b < ZERO || b > NINE {
            proof {
                assert(!is_digit(token@[index as int]));
                if negative {
                    let tail = token@.subrange(1, token@.len() as int);
                    assert(token@.skip(1) =~= tail);
                    assert(tail[index - 1] == token@[index as int]);
                    assert(!all_digits(token@.skip(1)));
                } else {
                    assert(!all_digits(token@));
                }
                assert(!is_integer_token(token@));
            }
            return None;
        }
        proof {
            let done = token@.subrange(digits_start as int, index as int);
            let next = token@.subrange(digits_start as int, index as int + 1);
            assert(next =~= done.push(token@[index as int]));
            assert(next.drop_last() =~= done);
            lemma_digits_value_bound(next);
            assert(pow10(next.len()) <= pow10(16)) by {
                lemma_pow10_increases(next.len(), 16);
            }
        }
        magnitude = magnitude * 10 + ((b - ZERO) as i64);
        index += 1;
    }
    proof {
        let whole = if negative {
            token@.skip(1)
        } else {
            token@
        };
        assert(token@.subrange(digits_start as int, token@.len() as int) =~= whole);
        assert(is_integer_token(token@));
        lemma_digits_value_bound(whole);
        assert(pow10(whole.len()) <= pow10(16)) by {
            lemma_pow10_increases(whole.len(), 16);
        }
    }
    let value = if negative {
        -magnitude
    } else {
        magnitude
    };
    Some(Term::Value(value))
}

/// Ten to a power grows with the exponent.
pub proof fn lemma_pow10_increases(m: nat, n: nat)
    requires
        m <= n,
    ensures
        pow10(m) <= pow10(n),
    decreases n,
{
    if m < n {
        lemma_pow10_increases(m, (n - 1) as nat);
        assert(pow10((n - 1) as nat) >= 1) by {
            lemma_pow10_positive((n - 1) as nat);
        }
    }
}

/// Ten to a power is positive.
pub proof fn lemma_pow10_positive(n: nat)
    ensures
        pow10(n) >= 1,
    decreases n,
{
    if n > 0 {
        lemma_pow10_positive((n - 1) as nat);
    }
}

} // verus!
