//! The stack machine: a bounded integer stack and the postfix evaluator.

use vstd::prelude::*;

use crate::term::{Error, Operator, Term};
use crate::STACK_SIZE;

verus! {

/// A fixed-capacity stack of signed integers.  Its view is the sequence of
/// live entries, bottom first.
pub struct Stack {
    values: Vec<i64>,
}

impl View for Stack {
    type V = Seq<i64>;

    closed spec fn view(&self) -> Seq<i64> {
        self.values@
    }
}

impl Default for Stack {
    /// A fresh, empty stack.
    fn default() -> (result: Self)
        ensures
            result@ == Seq::<i64>::empty(),
            result.wf(),
    {
        let stack = Stack { values: Vec::new() };
        proof {
            assert(stack@ =~= Seq::<i64>::empty());
        }
        stack
    }
}

impl Stack {
    /// The capacity invariant: never more than `STACK_SIZE` live entries.
    pub open spec fn wf(&self) -> bool {
        self@.len() <= STACK_SIZE
    }

    /// Pushes `value`; fails with `StackOverflow` when the stack is full.
    pub fn push(&mut self, value: i64) -> (r: Result<(), Error>)
        requires
            old(self).wf(),
        ensures
            final(self).wf(),
            old(self)@.len() == STACK_SIZE ==> r == Err::<(), Error>(Error::StackOverflow)
                && final(self)@ == old(self)@,
            old(self)@.len() < STACK_SIZE ==> r == Ok::<(), Error>(())
                && final(self)@ == old(self)@.push(value),
    {
        if self.values.len() == STACK_SIZE {
            Err(Error::StackOverflow)
        } else {
            self.values.push(value);
            Ok(())
        }
    }

    /// Pops the most recent entry; fails with `StackUnderflow` when the stack
    /// is empty.
    pub fn pop(&mut self) -> (r: Result<i64, Error>)
        ensures
            final(self)@.len() <= old(self)@.len(),
            old(self)@.len() == 0 ==> r == Err::<i64, Error>(Error::StackUnderflow)
                && final(self)@ == old(self)@,
            old(self)@.len() > 0 ==> r == Ok::<i64, Error>(old(self)@.last())
                && final(self)@ == old(self)@.drop_last(),
    {
        if self.values.len() == 0 {
            Err(Error::StackUnderflow)
        } else {
            match self.values.pop() {
                Some(value) => Ok(value),
                None => Err(Error::StackUnderflow),
            }
        }
    }
}

/// What one operator yields on its two operands.  Addition, subtraction and
/// multiplication wrap around the `i64` range; division and remainder
/// truncate toward zero, reject a zero divisor, and wrap on the one
/// overflowing case (the smallest `i64` divided by minus one).
pub open spec fn apply_spec(operator: Operator, first: i64, second: i64) -> Result<i64, Error> {
    match operator {
        Operator::Plus => Ok(first.wrapping_add(second)),
        Operator::Minus => Ok(first.wrapping_sub(second)),
        Operator::Multiply => Ok(first.wrapping_mul(second)),
        Operator::Divide => if second == 0 {
            Err(Error::DivisionByZero)
        } else {
            match first.checked_div(second) {
                Some(quotient) => Ok(quotient),
                None => Ok(i64::MIN),
            }
        },
        Operator::Remainder => if second == 0 {
            Err(Error::DivisionByZero)
        } else {
            match first.checked_rem(second) {
                Some(remainder) => Ok(remainder),
                None => Ok(0),
            }
        },
    }
}

/// Applies one operator to its operands, `first <op> second`.
pub fn apply(operator: Operator, first: i64, second: i64) -> (r: Result<i64, Error>)
    ensures
        r == apply_spec(operator, first, second),
{
    match operator {
        Operator::Plus => Ok(first.wrapping_add(second)),
        Operator::Minus => Ok(first.wrapping_sub(second)),
        Operator::Multiply => Ok(first.wrapping_mul(second)),
        Operator::Divide => if second == 0 {
            Err(Error::DivisionByZero)
        } else {
            match first.checked_div(second) {
                Some(quotient) => Ok(quotient),
                None => Ok(i64::MIN),
            }
        },
        Operator::Remainder => if second == 0 {
            Err(Error::DivisionByZero)
        } else {
            match first.checked_rem(second) {
                Some(remainder) => Ok(remainder),
                None => Ok(0),
            }
        },
    }
}

/// Folds the terms over a stack, starting from `stack`: a value is pushed, an
/// operator pops its right operand, then its left operand, and pushes what it
/// yields.  The result is the final stack, or the error that stopped the fold.
pub open spec fn eval_fold(terms: Seq<Term>, stack: Seq<i64>) -> Result<Seq<i64>, Error>
    decreases terms.len(),
{
    if terms.len() == 0 {
        Ok(stack)
    } else {
        match terms[0] {
            Term::Value(value) => if stack.len() == STACK_SIZE {
                Err(Error::StackOverflow)
            } else {
                eval_fold(terms.skip(1), stack.push(value))
            },
            Term::Operator(operator) => if stack.len() < 2 {
                Err(Error::StackUnderflow)
            } else {
                match apply_spec(operator, stack[stack.len() - 2], stack.last()) {
                    Ok(result) => eval_fold(
                        terms.skip(1),
                        stack.drop_last().drop_last().push(result),
                    ),
                    Err(e) => Err(e),
                }
            },
        }
    }
}

/// The result of evaluating a whole expression: fold every term over an
/// empty stack, then take the top of what remains.  Entries below the top are
/// deliberately ignored; an empty final stack is a `StackUnderflow`.
pub open spec fn eval_terms(terms: Seq<Term>) -> Result<i64, Error> {
    match eval_fold(terms, Seq::empty()) {
        Ok(stack) => if stack.len() == 0 {
            Err(Error::StackUnderflow)
        } else {
            Ok(stack.last())
        },
        Err(e) => Err(e),
    }
}

/// Law: an expression whose terms fold to a non-empty stack without error
/// evaluates without error to the top of that stack; entries left below the
/// top are ignored.
pub proof fn lemma_eval_returns_top(terms: Seq<Term>, stack: Seq<i64>)
    requires
        eval_fold(terms, Seq::empty()) == Ok::<Seq<i64>, Error>(stack),
        stack.len() >= 1,
    ensures
        eval_terms(terms) == Ok::<i64, Error>(stack.last()),
{
}

/// Law: an expression whose terms fold to exactly one remaining value
/// evaluates to that value.
pub proof fn lemma_eval_single_value(terms: Seq<Term>, value: i64)
    requires
        eval_fold(terms, Seq::empty()) == Ok::<Seq<i64>, Error>(seq![value]),
    ensures
        eval_terms(terms) == Ok::<i64, Error>(value),
{
    lemma_eval_returns_top(terms, seq![value]);
}

/// Evaluates the terms of one expression against a fresh stack.
#[verifier::loop_isolation(false)]
pub fn evaluate(terms: &Vec<Term>) -> (r: Result<i64, Error>)
    ensures
        r == eval_terms(terms@),
{
    let mut stack: Stack = Default::default();
    let mut index: usize = 0;
    proof {
        assert(terms@.skip(0) =~= terms@);
    }
    while index < terms.len()
        invariant
            index <= terms@.len(),
            stack.wf(),
            eval_fold(terms@, Seq::empty()) == eval_fold(terms@.skip(index as int), stack@),
        decreases terms@.len() - index,
    {
        proof {
            assert(terms@.skip(index as int)[0] == terms@[index as int]);
            assert(terms@.skip(index as int).skip(1) =~= terms@.skip(index as int + 1));
        }
        match terms[index] {
            Term::Value(value) => {
                match stack.push(value) {
                    Ok(_) => {},
                    Err(e) => {
                        return Err(e);
                    },
                }
            },
            Term::Operator(operator) => {
                let second = match stack.pop() {
                    Ok(v) => v,
                    Err(e) => {
                        return Err(e);
                    },
                };
                let first = match stack.pop() {
                    Ok(v) => v,
                    Err(e) => {
                        return Err(e);
                    },
                };
                let result = match apply(operator, first, second) {
                    Ok(v) => v,
                    Err(e) => {
                        return Err(e);
                    },
                };
                match stack.push(result) {
                    Ok(_) => {},
                    Err(e) => {
                        return Err(e);
                    },
                }
            },
        }
        index += 1;
    }
    proof {
        assert(terms@.skip(terms@.len() as int) =~= Seq::<Term>::empty());
    }
    stack.pop()
}

} // verus!

