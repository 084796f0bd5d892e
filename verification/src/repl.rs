//! The tokenizer, the output formatting and the interactive
//! read-evaluate-print driver.

use vstd::prelude::*;
use vstd::utf8::encode_utf8;

use crate::io::ByteIo;
use crate::stack::{evaluate, eval_terms};
use crate::term::{classify, read_operator, read_value, Error, Term};
use crate::{CARRIAGE_RETURN, LINE_FEED, MAX_TERMS, MAX_TOKEN_LENGTH, MINUS, SPACE, TAB, ZERO};

verus! {

/// Whether `b` ends a token: space and tab end it inside a line, carriage
/// return ends it together with the whole expression.
pub open spec fn is_delimiter(b: u8) -> bool {
    b == SPACE || b == TAB || b == CARRIAGE_RETURN
}

/// Whether no byte of `s` is a delimiter.
pub open spec fn no_delimiters(s: Seq<u8>) -> bool {
    forall|i: int| 0 <= i < s.len() ==> !is_delimiter(#[trigger] s[i])
}

/// The echo of one read byte: itself, except a carriage return, which is
/// echoed as carriage return plus line feed.
pub open spec fn echo_one(b: u8) -> Seq<u8> {
    if b == CARRIAGE_RETURN {
        seq![CARRIAGE_RETURN, LINE_FEED]
    } else {
        seq![b]
    }
}

/// The echo of a whole sequence of read bytes.
pub open spec fn echo_of(s: Seq<u8>) -> Seq<u8>
    decreases s.len(),
{
    if s.len() == 0 {
        Seq::empty()
    } else {
        echo_of(s.drop_last()) + echo_one(s.last())
    }
}

/// Echoing one more byte appends that byte's echo.
pub proof fn lemma_echo_push(s: Seq<u8>, b: u8)
    ensures
        echo_of(s.push(b)) == echo_of(s) + echo_one(b),
{
    assert(s.push(b).drop_last() =~= s);
}

/// The index of the first delimiter in `s`, or `s.len()` when `s` holds
/// none.
pub open spec fn first_delimiter(s: Seq<u8>) -> nat
    decreases s.len(),
{
    if s.len() == 0 {
        0
    } else if is_delimiter(s[0]) {
        0
    } else {
        1 + first_delimiter(s.skip(1))
    }
}

/// A delimiter-free sequence has no first delimiter.
pub proof fn lemma_first_delimiter_none(s: Seq<u8>)
    requires
        no_delimiters(s),
    ensures
        first_delimiter(s) == s.len(),
    decreases s.len(),
{
    if s.len() > 0 {
        assert(!is_delimiter(s[0]));
        assert(no_delimiters(s.skip(1))) by {
            assert(forall|i: int|
                0 <= i < s.skip(1).len() ==> #[trigger] s.skip(1)[i] == s[i + 1]);
        }
        lemma_first_delimiter_none(s.skip(1));
    }
}

/// After a delimiter-free token, the first delimiter of `token + [d] + rest`
/// is exactly the byte `d`.
pub proof fn lemma_first_delimiter_concat(token: Seq<u8>, d: u8, rest: Seq<u8>)
    requires
        no_delimiters(token),
        is_delimiter(d),
    ensures
        first_delimiter(token + seq![d] + rest) == token.len(),
    decreases token.len(),
{
    let s = token + seq![d] + rest;
    if token.len() == 0 {
        assert(s[0] == d);
    } else {
        assert(!is_delimiter(s[0]));
        assert(no_delimiters(token.skip(1))) by {
            assert(forall|i: int|
                0 <= i < token.skip(1).len() ==> #[trigger] token.skip(1)[i] == token[i + 1]);
        }
        lemma_first_delimiter_concat(token.skip(1), d, rest);
        assert(s.skip(1) =~= token.skip(1) + seq![d] + rest);
    }
}

/// What reading one expression from the byte sequence `s` yields, with the
/// terms `acc` already gathered.  `None` means `s` ends before the
/// expression does (only a failed read stops it there); otherwise the result
/// is the gathered terms, or the error that cut the expression short.
pub open spec fn parse_terms(s: Seq<u8>, acc: Seq<Term>) -> Option<Result<Seq<Term>, Error>>
    decreases s.len(),
{
    let i = first_delimiter(s) as int;
    if i >= s.len() {
        if s.len() > MAX_TOKEN_LENGTH {
            Some(Err(Error::TokenTooLong))
        } else {
            None
        }
    } else if i > MAX_TOKEN_LENGTH {
        Some(Err(Error::TokenTooLong))
    } else {
        match classify(s.take(i)) {
            None => Some(Err(Error::InvalidTerm)),
            Some(term) => if acc.len() == MAX_TERMS {
                Some(Err(Error::TooManyTerms))
            } else if s[i] == CARRIAGE_RETURN {
                Some(Ok(acc.push(term)))
            } else {
                parse_terms(s.skip(i + 1), acc.push(term))
            },
        }
    }
}

/// One token step of `parse_terms`, spelled out: reading `token + [d] + rest`
/// classifies the token, then either stops or goes on with `rest`.
pub proof fn lemma_parse_step(token: Seq<u8>, d: u8, rest: Seq<u8>, acc: Seq<Term>)
    requires
        no_delimiters(token),
        token.len() <= MAX_TOKEN_LENGTH,
        is_delimiter(d),
    ensures
        parse_terms(token + seq![d] + rest, acc) == (match classify(token) {
            None => Some(Err::<Seq<Term>, Error>(Error::InvalidTerm)),
            Some(term) => if acc.len() == MAX_TERMS {
                Some(Err::<Seq<Term>, Error>(Error::TooManyTerms))
            } else if d == CARRIAGE_RETURN {
                Some(Ok::<Seq<Term>, Error>(acc.push(term)))
            } else {
                parse_terms(rest, acc.push(term))
            }
        }),
{
    let s = token + seq![d] + rest;
    lemma_first_delimiter_concat(token, d, rest);
    assert(s.take(token.len() as int) =~= token);
    assert(s[token.len() as int] == d);
    assert(s.skip(token.len() as int + 1) =~= rest);
}

/// Writes one byte.
pub fn print_byte<T: ByteIo>(byte: u8, output: &mut T)
    ensures
        final(output).input_read() == old(output).input_read(),
        final(output).output_written() == old(output).output_written().push(byte),
{
    output.write_byte(byte);
}

/// Writes the carriage-return/line-feed pair that ends an output line.
pub fn end_line<T: ByteIo>(output: &mut T)
    ensures
        final(output).input_read() == old(output).input_read(),
        final(output).output_written() == old(output).output_written()
            + seq![CARRIAGE_RETURN, LINE_FEED],
{
    print_byte(CARRIAGE_RETURN, output);
    print_byte(LINE_FEED, output);
    proof {
        assert(old(output).output_written().push(CARRIAGE_RETURN).push(LINE_FEED)
            =~= old(output).output_written() + seq![CARRIAGE_RETURN, LINE_FEED]);
    }
}

/// Writes every byte of `message`, in order.
#[verifier::loop_isolation(false)]
pub fn print<T: ByteIo>(message: &str, output: &mut T)
    ensures
        final(output).input_read() == old(output).input_read(),
        final(output).output_written() == old(output).output_written()
            + encode_utf8(message@),
{
    let bytes: &[u8] = message.as_bytes();
    let length = bytes.len();
    let mut index: usize = 0;
    proof {
        assert(output.output_written() =~= old(output).output_written() + bytes@.take(0));
    }
    while index < length
        invariant
            index <= length,
            output.input_read() == old(output).input_read(),
            output.output_written() == old(output).output_written()
                + bytes@.take(index as int),
        decreases length - index,
    {
        let byte = *vstd::slice::slice_index_get(bytes, index);
        print_byte(byte, output);
        proof {
            assert(bytes@.take(index as int + 1)
                =~= bytes@.take(index as int).push(bytes@[index as int]));
            assert(old(output).output_written() + bytes@.take(index as int + 1)
                =~= (old(output).output_written() + bytes@.take(index as int)).push(
                bytes@[index as int]));
        }
        index += 1;
    }
    proof {
        assert(bytes@.take(length as int) =~= bytes@);
    }
}

/// Reads one byte and echoes it back out unchanged.  A failed read is
/// reported as `ReadError` and echoes nothing.
pub fn echoing_read<T: ByteIo>(port: &mut T) -> (r: Result<u8, Error>)
    ensures
        match r {
            Ok(byte) => final(port).input_read() == old(port).input_read().push(byte)
                && final(port).output_written() == old(port).output_written().push(byte),
            Err(e) => e == Error::ReadError
                && final(port).input_read() == old(port).input_read()
                && final(port).output_written() == old(port).output_written(),
        },
{
    match port.read_byte() {
        Ok(byte) => {
            print_byte(byte, port);
            Ok(byte)
        },
        Err(_) => Err(Error::ReadError),
    }
}

/// Reads one token: bytes are gathered until a delimiter arrives, each one
/// echoed as it is read.  Returns the token and whether the expression ended
/// with it; fails with `TokenTooLong` past `MAX_TOKEN_LENGTH` bytes and with
/// `ReadError` when a read fails.
#[verifier::loop_isolation(false)]
pub fn read_token<T: ByteIo>(port: &mut T) -> (r: Result<(Vec<u8>, bool), Error>)
    ensures
        ({
            let consumed = final(port).input_read().skip(old(port).input_read().len() as int);
            old(port).input_read().is_prefix_of(final(port).input_read())
                && final(port).output_written() == old(port).output_written()
                + echo_of(consumed) && match r {
                Ok((token, end_of_line)) => consumed.len() == token@.len() + 1
                    && token@.len() <= MAX_TOKEN_LENGTH && token@ == consumed.drop_last()
                    && no_delimiters(token@) && is_delimiter(consumed.last()) && (end_of_line
                    <==> consumed.last() == CARRIAGE_RETURN),
                Err(e) => (e == Error::TokenTooLong && consumed.len() == MAX_TOKEN_LENGTH + 1
                    && no_delimiters(consumed)) || (e == Error::ReadError
                    && consumed.len() <= MAX_TOKEN_LENGTH && no_delimiters(consumed)),
            }
        }),
{
    let mut token: Vec<u8> = Vec::new();
    proof {
        assert(port.input_read() =~= old(port).input_read() + token@);
        assert(port.output_written() =~= old(port).output_written() + echo_of(token@));
    }
    loop
        invariant
            token@.len() <= MAX_TOKEN_LENGTH,
            no_delimiters(token@),
            port.input_read() == old(port).input_read() + token@,
            port.output_written() == old(port).output_written() + echo_of(token@),
        decreases MAX_TOKEN_LENGTH - token@.len(),
    {
        let ghost gathered = token@;
        let byte = match echoing_read(port) {
            Ok(b) => b,
            Err(e) => {
                proof {
                    lemma_skip_of_concat(old(port).input_read(), gathered);
                }
                return Err(e);
            },
        };
        proof {
            lemma_skip_of_concat(old(port).input_read(), gathered.push(byte));
            assert(old(port).input_read() + gathered.push(byte)
                =~= (old(port).input_read() + gathered).push(byte));
            lemma_echo_push(gathered, byte);
        }
        if byte == SPACE || byte == TAB {
            proof {
                assert((old(port).output_written() + echo_of(gathered)).push(byte)
                    =~= old(port).output_written() + echo_of(gathered.push(byte)));
                assert(gathered.push(byte).drop_last() =~= gathered);
            }
            return Ok((token, false));
        } else if byte == CARRIAGE_RETURN {
            print_byte(LINE_FEED, port);
            proof {
                assert((old(port).output_written() + echo_of(gathered)).push(byte).push(LINE_FEED)
                    =~= old(port).output_written() + echo_of(gathered.push(byte)));
                assert(gathered.push(byte).drop_last() =~= gathered);
            }
            return Ok((token, true));
        } else if token.len() == MAX_TOKEN_LENGTH {
            proof {
                assert((old(port).output_written() + echo_of(gathered)).push(byte)
                    =~= old(port).output_written() + echo_of(gathered.push(byte)));
                assert(forall|i: int|
                    0 <= i < gathered.push(byte).len() ==> !is_delimiter(
                        #[trigger] gathered.push(byte)[i],
                    ));
            }
            return Err(Error::TokenTooLong);
        } else {
            token.push(byte);
            proof {
                assert((old(port).output_written() + echo_of(gathered)).push(byte)
                    =~= old(port).output_written() + echo_of(gathered.push(byte)));
                assert(forall|i: int|
                    0 <= i < token@.len() ==> !is_delimiter(#[trigger] token@[i]));
            }
        }
    }
}

/// Skipping the first part of a concatenation leaves the second.
pub proof fn lemma_skip_of_concat(a: Seq<u8>, b: Seq<u8>)
    ensures
        (a + b).skip(a.len() as int) == b,
{
    assert((a + b).skip(a.len() as int) =~= b);
}

/// The echo of a concatenation is the concatenation of the echoes.
pub proof fn lemma_echo_concat(a: Seq<u8>, b: Seq<u8>)
    ensures
        echo_of(a + b) == echo_of(a) + echo_of(b),
    decreases b.len(),
{
    if b.len() == 0 {
        assert(a + b =~= a);
        assert(echo_of(a) + echo_of(b) =~= echo_of(a));
    } else {
        lemma_echo_concat(a, b.drop_last());
        assert((a + b).drop_last() =~= a + b.drop_last());
        assert((a + b).last() == b.last());
        assert((echo_of(a) + echo_of(b.drop_last())) + echo_one(b.last())
            =~= echo_of(a) + (echo_of(b.drop_last()) + echo_one(b.last())));
    }
}

/// Reads one whole expression: tokens are read and classified one at a time
/// until one ends with a carriage return or an error cuts the expression
/// short.  At most `MAX_TERMS` terms are gathered; one more valid term fails
/// with `TooManyTerms`.
#[verifier::loop_isolation(false)]
pub fn read_expression<T: ByteIo>(port: &mut T) -> (r: Result<Vec<Term>, Error>)
    ensures
        ({
            let consumed = final(port).input_read().skip(old(port).input_read().len() as int);
            old(port).input_read().is_prefix_of(final(port).input_read())
                && final(port).output_written() == old(port).output_written()
                + echo_of(consumed) && match r {
                Ok(terms) => terms@.len() <= MAX_TERMS && parse_terms(consumed, Seq::empty())
                    == Some(Ok::<Seq<Term>, Error>(terms@)),
                Err(e) => if e == Error::ReadError {
                    parse_terms(consumed, Seq::empty()) == None::<Result<Seq<Term>, Error>>
                } else {
                    parse_terms(consumed, Seq::empty()) == Some(Err::<Seq<Term>, Error>(e))
                },
            }
        }),
{
    let mut terms: Vec<Term> = Vec::new();
    proof {
        assert(port.input_read() =~= old(port).input_read() + Seq::<u8>::empty());
        lemma_skip_of_concat(old(port).input_read(), Seq::<u8>::empty());
        assert(port.output_written() =~= old(port).output_written()
            + echo_of(Seq::<u8>::empty()));
        assert forall|rest: Seq<u8>|
            (#[trigger] parse_terms(
                port.input_read().skip(old(port).input_read().len() as int) + rest,
                Seq::empty(),
            )) == parse_terms(rest, terms@) by {
            assert(Seq::<u8>::empty() + rest =~= rest);
        }
    }
    loop
        invariant
            terms@.len() <= MAX_TERMS,
            old(port).input_read().is_prefix_of(port.input_read()),
            port.output_written() == old(port).output_written() + echo_of(
                port.input_read().skip(old(port).input_read().len() as int),
            ),
            forall|rest: Seq<u8>|
                (#[trigger] parse_terms(
                    port.input_read().skip(old(port).input_read().len() as int) + rest,
                    Seq::empty(),
                )) == parse_terms(rest, terms@),
        decreases MAX_TERMS - terms@.len(),
    {
        let ghost gathered = port.input_read().skip(old(port).input_read().len() as int);
        let ghost mid_input = port.input_read();
        let token_result = read_token(port);
        let ghost delta = port.input_read().skip(mid_input.len() as int);
        proof {
            assert(mid_input =~= old(port).input_read() + gathered);
            assert(port.input_read() =~= old(port).input_read() + (gathered + delta));
            lemma_skip_of_concat(old(port).input_read(), gathered + delta);
            lemma_echo_concat(gathered, delta);
            assert(old(port).output_written() + echo_of(gathered) + echo_of(delta)
                =~= old(port).output_written() + (echo_of(gathered) + echo_of(delta)));
            assert(parse_terms(gathered + delta, Seq::empty()) == parse_terms(delta, terms@));
        }
        let (token, end_of_line) = match token_result {
            Ok(pair) => pair,
            Err(e) => {
                proof {
                    lemma_first_delimiter_none(delta);
                }
                return Err(e);
            },
        };
        let term_option = match read_operator(&token) {
            Some(t) => Some(t),
            None => read_value(&token),
        };
        let ghost delim = delta.last();
        proof {
            assert(delta =~= token@ + seq![delim] + Seq::<u8>::empty());
        }
        let term = match term_option {
            Some(t) => t,
            None => {
                proof {
                    lemma_parse_step(token@, delim, Seq::<u8>::empty(), terms@);
                }
                return Err(Error::InvalidTerm);
            },
        };
        if terms.len() == MAX_TERMS {
            proof {
                lemma_parse_step(token@, delim, Seq::<u8>::empty(), terms@);
            }
            return Err(Error::TooManyTerms);
        }
        let ghost previous_terms = terms@;
        terms.push(term);
        if end_of_line {
            proof {
                lemma_parse_step(token@, delim, Seq::<u8>::empty(), previous_terms);
            }
            return Ok(terms);
        }
        proof {
            let consumed = port.input_read().skip(old(port).input_read().len() as int);
            assert(consumed =~= gathered + delta);
            assert forall|rest: Seq<u8>|
                (#[trigger] parse_terms(consumed + rest, Seq::empty())) == parse_terms(
                    rest,
                    terms@,
                ) by {
                assert(consumed + rest =~= gathered + (token@ + seq![delim] + rest));
                assert(parse_terms(gathered + (token@ + seq![delim] + rest), Seq::empty())
                    == parse_terms(token@ + seq![delim] + rest, previous_terms));
                lemma_parse_step(token@, delim, rest, previous_terms);
            }
        }
    }
}

/// The decimal digits of `n`, most significant first, with no leading zeros
/// and at least one digit.
pub open spec fn dec_digits(n: nat) -> Seq<u8>
    decreases n,
{
    if n < 10 {
        seq![(ZERO + n) as u8]
    } else {
        dec_digits(n / 10).push((ZERO + n % 10) as u8)
    }
}

/// The output line for the result `value`: an optional minus sign, the
/// decimal digits of its magnitude, and the line ending.
pub open spec fn result_line(value: int) -> Seq<u8> {
    (if value < 0 {
        seq![MINUS]
    } else {
        Seq::<u8>::empty()
    }) + dec_digits(
        (if value < 0 {
            -value
        } else {
            value
        }) as nat,
    ) + seq![CARRIAGE_RETURN, LINE_FEED]
}

/// The fixed human-readable message for each error kind.
pub open spec fn message_chars(error: Error) -> Seq<char> {
    match error {
        Error::InvalidTerm => "a term in the expression was invalid"@,
        Error::TooManyTerms => "too many terms in the expression"@,
        Error::ReadError => "error while reading input"@,
        Error::TokenTooLong => "a term in the expression was too long"@,
        Error::StackOverflow => "the stack overflowed"@,
        Error::StackUnderflow => "the stack underflowed"@,
        Error::DivisionByZero => "division by zero"@,
    }
}

/// The output for a failed expression: a fresh line, then `Error: ` and the
/// message, then the line ending.
pub open spec fn error_line(error: Error) -> Seq<u8> {
    seq![CARRIAGE_RETURN, LINE_FEED] + encode_utf8("Error: "@) + encode_utf8(
        message_chars(error),
    ) + seq![CARRIAGE_RETURN, LINE_FEED]
}

/// The bytes of the prompt that opens every expression.
pub open spec fn prompt_bytes() -> Seq<u8> {
    encode_utf8("> "@)
}

/// Writes the result of a successful evaluation: its decimal digits, with a
/// leading minus sign for a negative value, then the line ending.
#[verifier::loop_isolation(false)]
pub fn print_result<T: ByteIo>(result: i64, output: &mut T)
    ensures
        final(output).input_read() == old(output).input_read(),
        final(output).output_written() == old(output).output_written() + result_line(
            result as int,
        ),
{
    let mut remaining: u64;
    if result < 0 {
        print_byte(MINUS, output);
        remaining = if result == i64::MIN {
            9223372036854775808u64
        } else {
            (-result) as u64
        };
    } else {
        remaining = result as u64;
    }
    let ghost magnitude = remaining as nat;
    let ghost sign_output = output.output_written();
    let mut digits: Vec<u8> = Vec::new();
    let digit = (remaining % 10) as u8;
    digits.push(ZERO + digit);
    remaining = remaining / 10;
    proof {
        if magnitude < 10 {
            assert(digits@.reverse() =~= dec_digits(magnitude));
        } else {
            assert(digits@.reverse() =~= seq![(ZERO + magnitude % 10) as u8]);
            assert(dec_digits(magnitude / 10) + seq![(ZERO + magnitude % 10) as u8]
                =~= dec_digits(magnitude));
        }
    }
    while remaining > 0
        invariant
            digits@.len() >= 1,
            output.input_read() == old(output).input_read(),
            output.output_written() == sign_output,
            remaining == 0 ==> dec_digits(magnitude) == digits@.reverse(),
            remaining > 0 ==> dec_digits(magnitude) == dec_digits(remaining as nat)
                + digits@.reverse(),
        decreases remaining,
    {
        let ghost before = remaining as nat;
        let ghost before_digits = digits@;
        let digit = (remaining % 10) as u8;
        digits.push(ZERO + digit);
        remaining = remaining / 10;
        proof {
            assert(digits@.reverse() =~= seq![(ZERO + before % 10) as u8]
                + before_digits.reverse());
            if before < 10 {
                assert(dec_digits(before) =~= seq![(ZERO + before) as u8]);
                assert(dec_digits(magnitude) =~= digits@.reverse());
            } else {
                assert(dec_digits(before) == dec_digits(before / 10).push(
                    (ZERO + before % 10) as u8,
                ));
                assert(dec_digits(before / 10) + digits@.reverse() =~= dec_digits(before)
                    + before_digits.reverse());
                assert(dec_digits(magnitude) =~= dec_digits(remaining as nat)
                    + digits@.reverse());
            }
        }
    }
    let mut index = digits.len();
    while index > 0
        invariant
            index <= digits@.len(),
            output.input_read() == old(output).input_read(),
            output.output_written() == sign_output + digits@.reverse().take(
                (digits@.len() - index) as int,
            ),
        decreases index,
    {
        index -= 1;
        let byte = digits[index];
        print_byte(byte, output);
        proof {
            let written = (digits@.len() - index) as int;
            assert(digits@.reverse()[written - 1] == digits@[index as int]);
            assert(digits@.reverse().take(written) =~= digits@.reverse().take(written - 1).push(
                digits@[index as int],
            ));
            assert(sign_output + digits@.reverse().take(written) =~= (sign_output
                + digits@.reverse().take(written - 1)).push(digits@[index as int]));
        }
    }
    proof {
        assert(digits@.reverse().take(digits@.len() as int) =~= digits@.reverse());
    }
    end_line(output);
    proof {
        if result < 0 {
            assert(sign_output =~= old(output).output_written() + seq![MINUS]);
        } else {
            assert(sign_output =~= old(output).output_written() + Seq::<u8>::empty());
        }
        assert(old(output).output_written() + result_line(result as int)
            =~= sign_output + dec_digits(magnitude) + seq![CARRIAGE_RETURN, LINE_FEED]);
    }
}

/// Writes the error report for a failed expression.
pub fn print_error<T: ByteIo>(error: Error, output: &mut T)
    ensures
        final(output).input_read() == old(output).input_read(),
        final(output).output_written() == old(output).output_written() + error_line(error),
{
    let message: &str = match error {
        Error::InvalidTerm => "a term in the expression was invalid",
        Error::TooManyTerms => "too many terms in the expression",
        Error::ReadError => "error while reading input",
        Error::TokenTooLong => "a term in the expression was too long",
        Error::StackOverflow => "the stack overflowed",
        Error::StackUnderflow => "the stack underflowed",
        Error::DivisionByZero => "division by zero",
    };
    proof {
        assert(message@ == message_chars(error));
    }
    end_line(output);
    print("Error: ", output);
    print(message, output);
    end_line(output);
    proof {
        assert(old(output).output_written() + error_line(error) =~= old(
            output,
        ).output_written() + seq![CARRIAGE_RETURN, LINE_FEED] + encode_utf8("Error: "@)
            + encode_utf8(message_chars(error)) + seq![CARRIAGE_RETURN, LINE_FEED]);
    }
}

/// The reply the driver owes for one expression whose read bytes were `s`:
/// the printed result on success, the error report otherwise.  Bytes on
/// which reading could not have completed mean the read failed.
pub open spec fn response_of(s: Seq<u8>) -> Seq<u8> {
    match parse_terms(s, Seq::empty()) {
        None => error_line(Error::ReadError),
        Some(Ok(terms)) => match eval_terms(terms) {
            Ok(value) => result_line(value as int),
            Err(e) => error_line(e),
        },
        Some(Err(e)) => error_line(e),
    }
}

/// One interaction: prints the prompt, reads one expression (echoing its
/// bytes), evaluates it, and prints the result or the error report.
pub fn repl_once<T: ByteIo>(port: &mut T)
    ensures
        ({
            let consumed = final(port).input_read().skip(old(port).input_read().len() as int);
            old(port).input_read().is_prefix_of(final(port).input_read())
                && final(port).output_written() == old(port).output_written() + prompt_bytes()
                + echo_of(consumed) + response_of(consumed)
        }),
{
    print("> ", port);
    let ghost prompted_input = port.input_read();
    let ghost prompted_output = port.output_written();
    let expression = read_expression(port);
    let ghost consumed = port.input_read().skip(prompted_input.len() as int);
    match expression {
        Ok(terms) => {
            match evaluate(&terms) {
                Ok(result) => print_result(result, port),
                Err(error) => print_error(error, port),
            }
        },
        Err(error) => print_error(error, port),
    }
    proof {
        assert(final(port).input_read().skip(old(port).input_read().len() as int) == consumed);
        assert(final(port).output_written() =~= old(port).output_written() + prompt_bytes()
            + echo_of(consumed) + response_of(consumed));
    }
}

} // verus!
