//! An interactive postfix (RPN) calculator engine.
//!
//! The calculator reads a byte stream of whitespace-separated tokens, each an
//! integer literal or an arithmetic operator, evaluates the expression against
//! a bounded stack machine, and writes the decimal result (or a textual error)
//! back out.  All I/O goes through the [`io::ByteIo`] capability so the engine
//! can be driven by real hardware or by an in-memory harness.

use vstd::prelude::*;

pub mod io;
pub mod repl;
pub mod stack;
pub mod term;

verus! {

/// Capacity of the term buffer for one expression.
pub const MAX_TERMS: usize = 32;

/// Longest token (in bytes) that the tokenizer accepts.
pub const MAX_TOKEN_LENGTH: usize = 16;

/// Capacity of the evaluation stack.
pub const STACK_SIZE: usize = 32;

/// ASCII space, a token delimiter.
pub const SPACE: u8 = 32;

/// ASCII horizontal tab, a token delimiter.
pub const TAB: u8 = 9;

/// ASCII carriage return, the end-of-expression delimiter.
pub const CARRIAGE_RETURN: u8 = 13;

/// ASCII line feed, written after an echoed carriage return.
pub const LINE_FEED: u8 = 10;

/// ASCII digit zero.
pub const ZERO: u8 = 48;

/// ASCII digit nine.
pub const NINE: u8 = 57;

/// ASCII plus sign.
pub const PLUS: u8 = 43;

/// ASCII minus sign, both the subtraction operator and the literal sign.
pub const MINUS: u8 = 45;

/// ASCII asterisk, the multiplication operator.
pub const ASTERISK: u8 = 42;

/// ASCII slash, the division operator.
pub const SLASH: u8 = 47;

/// ASCII percent sign, the remainder operator.
pub const PERCENT: u8 = 37;

} // verus!
