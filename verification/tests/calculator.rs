use rpn_calculator::io::MemoryPort;
use rpn_calculator::repl::repl_once;
use rpn_calculator::stack::{evaluate, Stack};
use rpn_calculator::term::{read_operator, read_value, Error, Operator, Term};

/// Feeds `input` to one prompt/read/evaluate/print interaction and returns
/// everything the driver wrote.
fn run_line(input: &str) -> String {
    let mut port = MemoryPort::new(input.as_bytes().to_vec());
    repl_once(&mut port);
    String::from_utf8(port.output().clone()).unwrap()
}

#[test]
fn addition() {
    assert_eq!(run_line("3 4 +\r"), "> 3 4 +\r\n7\r\n");
}

#[test]
fn subtraction_is_left_to_right() {
    assert_eq!(run_line("5 2 -\r"), "> 5 2 -\r\n3\r\n");
    assert_eq!(run_line("3 4 -\r"), "> 3 4 -\r\n-1\r\n");
}

#[test]
fn division_truncates() {
    assert_eq!(run_line("10 3 /\r"), "> 10 3 /\r\n3\r\n");
    assert_eq!(run_line("-7 2 /\r"), "> -7 2 /\r\n-3\r\n");
    assert_eq!(run_line("7 -2 /\r"), "> 7 -2 /\r\n-3\r\n");
}

#[test]
fn remainder_follows_the_dividend() {
    assert_eq!(run_line("10 3 %\r"), "> 10 3 %\r\n1\r\n");
    assert_eq!(run_line("-7 2 %\r"), "> -7 2 %\r\n-1\r\n");
    assert_eq!(run_line("7 -2 %\r"), "> 7 -2 %\r\n1\r\n");
}

#[test]
fn multiplication() {
    assert_eq!(run_line("6 7 *\r"), "> 6 7 *\r\n42\r\n");
}

#[test]
fn multiplication_wraps_on_overflow() {
    assert_eq!(
        run_line("9999999999999999 9999999999999999 *\r"),
        "> 9999999999999999 9999999999999999 *\r\n-8834407033341083647\r\n"
    );
}

#[test]
fn negative_literals() {
    assert_eq!(run_line("-5 -3 +\r"), "> -5 -3 +\r\n-8\r\n");
}

#[test]
fn zero_prints_one_digit() {
    assert_eq!(run_line("0\r"), "> 0\r\n0\r\n");
}

#[test]
fn leftover_stack_entries_are_ignored() {
    assert_eq!(run_line("1 2 3\r"), "> 1 2 3\r\n3\r\n");
}

#[test]
fn tab_delimits_tokens() {
    assert_eq!(run_line("1\t2 +\r"), "> 1\t2 +\r\n3\r\n");
}

#[test]
fn garbage_token_is_invalid() {
    assert_eq!(
        run_line("abc\r"),
        "> abc\r\n\r\nError: a term in the expression was invalid\r\n"
    );
}

#[test]
fn mixed_token_is_invalid() {
    assert_eq!(
        run_line("12a 3 +\r"),
        "> 12a \r\nError: a term in the expression was invalid\r\n"
    );
}

#[test]
fn empty_token_is_invalid() {
    assert_eq!(
        run_line("1  2 +\r"),
        "> 1  \r\nError: a term in the expression was invalid\r\n"
    );
}

#[test]
fn operator_with_empty_stack_underflows() {
    assert_eq!(
        run_line("+\r"),
        "> +\r\n\r\nError: the stack underflowed\r\n"
    );
}

#[test]
fn too_many_terms() {
    let mut input = String::new();
    for _ in 0..33 {
        input.push_str("1 ");
    }
    input.push('\r');
    let mut expected = String::from("> ");
    for _ in 0..33 {
        expected.push_str("1 ");
    }
    expected.push_str("\r\nError: too many terms in the expression\r\n");
    assert_eq!(run_line(&input), expected);
}

#[test]
fn exactly_max_terms_still_evaluates() {
    // Thirty-one values and one operator fill the buffer exactly.
    let mut input = String::new();
    for _ in 0..31 {
        input.push_str("1 ");
    }
    input.push_str("+\r");
    let output = run_line(&input);
    assert!(output.ends_with("\r\n2\r\n"), "unexpected output: {output:?}");
}

#[test]
fn over_long_token() {
    assert_eq!(
        run_line("12345678901234567\r"),
        "> 12345678901234567\r\nError: a term in the expression was too long\r\n"
    );
}

#[test]
fn token_of_maximum_length_is_accepted() {
    assert_eq!(
        run_line("9999999999999999\r"),
        "> 9999999999999999\r\n9999999999999999\r\n"
    );
}

#[test]
fn division_by_zero_is_reported() {
    assert_eq!(
        run_line("1 0 /\r"),
        "> 1 0 /\r\n\r\nError: division by zero\r\n"
    );
}

#[test]
fn remainder_by_zero_is_reported() {
    assert_eq!(
        run_line("1 0 %\r"),
        "> 1 0 %\r\n\r\nError: division by zero\r\n"
    );
}

#[test]
fn exhausted_input_is_a_read_error() {
    assert_eq!(run_line(""), "> \r\nError: error while reading input\r\n");
    assert_eq!(
        run_line("1 2"),
        "> 1 2\r\nError: error while reading input\r\n"
    );
}

#[test]
fn carriage_return_echoes_as_both_line_bytes() {
    let mut port = MemoryPort::new(b"7\r".to_vec());
    repl_once(&mut port);
    let output = port.output();
    assert_eq!(&output[..5], b"> 7\r\n");
}

#[test]
fn stack_overflows_past_capacity() {
    let mut stack: Stack = Default::default();
    for i in 0i64..32 {
        assert!(stack.push(i).is_ok());
    }
    assert_eq!(stack.push(99), Err(Error::StackOverflow));
}

#[test]
fn empty_stack_underflows() {
    let mut stack: Stack = Default::default();
    assert_eq!(stack.pop(), Err(Error::StackUnderflow));
    assert!(stack.push(5).is_ok());
    assert_eq!(stack.pop(), Ok(5));
    assert_eq!(stack.pop(), Err(Error::StackUnderflow));
}

#[test]
fn evaluate_empty_expression_underflows() {
    let terms: Vec<Term> = Vec::new();
    assert_eq!(evaluate(&terms), Err(Error::StackUnderflow));
}

#[test]
fn evaluate_applies_operators_in_order() {
    let terms = vec![
        Term::Value(3),
        Term::Value(4),
        Term::Operator(Operator::Minus),
    ];
    assert_eq!(evaluate(&terms), Ok(-1));
}

#[test]
fn bare_minus_is_the_operator() {
    let token = b"-".to_vec();
    assert_eq!(
        read_operator(&token),
        Some(Term::Operator(Operator::Minus))
    );
    assert_eq!(read_value(&token), None);
}

#[test]
fn classification_rejects_garbage() {
    assert_eq!(read_operator(&b"abc".to_vec()), None);
    assert_eq!(read_value(&b"abc".to_vec()), None);
    assert_eq!(read_value(&b"12a".to_vec()), None);
    assert_eq!(read_value(&b"".to_vec()), None);
    assert_eq!(read_value(&b"-12".to_vec()), Some(Term::Value(-12)));
    assert_eq!(read_value(&b"007".to_vec()), Some(Term::Value(7)));
}
