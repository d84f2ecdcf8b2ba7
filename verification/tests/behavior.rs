use lettercalc::error::Error;
use lettercalc::expression::{evaluate_input, Bracket, Expression, Operator};
use lettercalc::number::{Number, NumberStack};

fn run(input: &str) -> Result<isize, Error> {
    Expression::try_from(input)?.evaluate().map(|n| n.0)
}

#[test]
fn left_to_right_fold() {
    // (3 + 4) * 2, never 3 + (4 * 2)
    assert_eq!(run("3a4c2").unwrap(), 14);
    // (10 - 2) / 4
    assert_eq!(run("10b2d4").unwrap(), 2);
}

#[test]
fn bracket_wrap_is_identity() {
    assert_eq!(run("5a6").unwrap(), run("e5a6f").unwrap());
    assert_eq!(run("e5a6f").unwrap(), 11);
    assert_eq!(run("7").unwrap(), run("e7f").unwrap());
}

#[test]
fn same_input_same_output() {
    assert_eq!(run("3ae4c66fb32").unwrap(), run("3ae4c66fb32").unwrap());
    assert!(matches!(run("3aa2"), Err(Error::InvalidInput(_))));
    assert!(matches!(run("3aa2"), Err(Error::InvalidInput(_))));
}

#[test]
fn truncating_division() {
    assert_eq!(run("7d2").unwrap(), 3);
    // (0 - 7) / 2 truncates toward zero
    assert_eq!(run("0b7d2").unwrap(), -3);
}

#[test]
fn divide_by_zero_is_arithmetic_error() {
    assert!(matches!(run("8d0"), Err(Error::ArithmeticError)));
    assert!(matches!(run("3ae2b2fd0"), Err(Error::ArithmeticError)));
}

#[test]
fn arithmetic_overflow_is_arithmetic_error() {
    assert!(matches!(
        run("9223372036854775807a1"),
        Err(Error::ArithmeticError)
    ));
}

#[test]
fn too_large_number_is_integer_parse_error() {
    assert!(matches!(
        run("99999999999999999999"),
        Err(Error::IntegerParse)
    ));
}

#[test]
fn unmatched_right_bracket() {
    match run("3f") {
        Err(Error::InvalidInput(m)) => assert_eq!(m, "unexpected right bracket"),
        other => panic!("expected invalid input, got {other:?}"),
    }
    assert!(matches!(run("e1ff"), Err(Error::InvalidInput(_))));
}

#[test]
fn two_operators_in_a_row() {
    match run("3ab2") {
        Err(Error::InvalidInput(m)) => assert_eq!(m, "two operators in a row: Add, Sub"),
        other => panic!("expected invalid input, got {other:?}"),
    }
    match run("1cc2") {
        Err(Error::InvalidInput(m)) => assert_eq!(m, "two operators in a row: Mul, Mul"),
        other => panic!("expected invalid input, got {other:?}"),
    }
    assert!(matches!(run("1e2ccf3"), Err(Error::InvalidInput(_))));
}

#[test]
fn trailing_operator() {
    match run("3a") {
        Err(Error::InvalidInput(m)) => assert_eq!(m, "trailing operator"),
        other => panic!("expected invalid input, got {other:?}"),
    }
    // a leading operator is still pending at the end
    assert!(matches!(run("a3"), Err(Error::InvalidInput(_))));
}

#[test]
fn empty_expression() {
    match run("") {
        Err(Error::InvalidInput(m)) => assert_eq!(m, "no numbers in input"),
        other => panic!("expected invalid input, got {other:?}"),
    }
    assert!(matches!(run("eeff"), Err(Error::InvalidInput(_))));
}

#[test]
fn number_after_closed_bracket() {
    match run("e3f4") {
        Err(Error::InvalidInput(m)) => assert_eq!(m, "number after right bracket"),
        other => panic!("expected invalid input, got {other:?}"),
    }
}

#[test]
fn number_before_open_bracket() {
    match run("2e3f") {
        Err(Error::InvalidInput(m)) => assert_eq!(m, "number followed by bracket"),
        other => panic!("expected invalid input, got {other:?}"),
    }
}

#[test]
fn unrecognized_character() {
    match run("3x2") {
        Err(Error::InvalidInput(m)) => assert_eq!(m, "x"),
        other => panic!("expected invalid input, got {other:?}"),
    }
    match run("3A2") {
        Err(Error::InvalidInput(m)) => assert_eq!(m, "A"),
        other => panic!("expected invalid input, got {other:?}"),
    }
}

#[test]
fn unmatched_open_bracket_is_permissive() {
    // a level left open by `e` is dropped with everything before it
    assert_eq!(run("e2").unwrap(), 2);
    assert_eq!(run("aae2").unwrap(), 2);
}

#[test]
fn one_call_matches_two_steps() {
    assert_eq!(evaluate_input("3c4d2aee2a4c41fc4f").unwrap(), Number(990));
    assert_eq!(evaluate_input("7d2").unwrap().0, run("7d2").unwrap());
    assert!(matches!(evaluate_input("3f"), Err(Error::InvalidInput(_))));
}

#[test]
fn operator_letters() {
    assert_eq!(Operator::try_from('a'), Some(Operator::Add));
    assert_eq!(Operator::try_from('b'), Some(Operator::Sub));
    assert_eq!(Operator::try_from('c'), Some(Operator::Mul));
    assert_eq!(Operator::try_from('d'), Some(Operator::Div));
    assert_eq!(Operator::try_from('e'), None);
    assert_eq!(Operator::try_from('+'), None);
}

#[test]
fn bracket_letters() {
    assert_eq!(Bracket::try_from('e'), Some(Bracket::Left));
    assert_eq!(Bracket::try_from('f'), Some(Bracket::Right));
    assert_eq!(Bracket::try_from('a'), None);
}

#[test]
fn number_stack_accumulates_digits() {
    let mut stack = NumberStack::new();
    assert_eq!(stack.finalize().unwrap(), None);
    stack.push('4');
    stack.push('2');
    assert_eq!(stack.finalize().unwrap(), Some(Number(42)));
    // finalizing clears the buffer
    assert_eq!(stack.finalize().unwrap(), None);
}

#[test]
fn empty_expression_evaluates_to_error() {
    let exp = Expression::new();
    assert!(matches!(exp.evaluate(), Err(Error::InvalidInput(_))));
}

#[test]
fn errors_describe_themselves() {
    match run("3a") {
        Err(e) => assert_eq!(e.describe(), "trailing operator"),
        other => panic!("expected an error, got {other:?}"),
    }
    assert_eq!(
        Error::ExpressionNotProvided.describe(),
        "no expression provided"
    );
}
