//! The error type every parse or evaluation failure is reported through.

use vstd::prelude::*;

use crate::expression::Operator;
use crate::model::Fault;

verus! {

/// The name each operator carries in error messages.
pub open spec fn operator_name(op: Operator) -> Seq<char> {
    match op {
        Operator::Add => "Add"@,
        Operator::Sub => "Sub"@,
        Operator::Mul => "Mul"@,
        Operator::Div => "Div"@,
    }
}

/// The message that reports two operators in a row, naming both: the one that
/// was already pending, then the one that doubled it.
pub open spec fn doubled_operator_message(first: Operator, second: Operator) -> Seq<char> {
    "two operators in a row: "@ + operator_name(first) + ", "@ + operator_name(second)
}

/// Relies on `String::push`: appends exactly the given character.
#[verifier::external_body]
fn push_char(s: &mut String, c: char)
    ensures
        final(s)@ == old(s)@.push(c),
{
    s.push(c);
}

/// Relies on `String::push_str`: appends exactly the given characters.
#[verifier::external_body]
fn append_str(s: &mut String, t: &str)
    ensures
        final(s)@ == old(s)@ + t@,
{
    s.push_str(t);
}

/// An error which can be returned.
#[derive(Debug)]
pub enum Error {
    /// The caller supplied no input expression at all.
    ExpressionNotProvided,
    /// Malformed input, with a human-readable reason.
    InvalidInput(String),
    /// A number in the input does not fit the numeric type.
    IntegerParse,
    /// Division by zero, or an operator result out of the numeric range.
    ArithmeticError,
}

impl Error {
    /// Which error value stands for each fault of the model, reason message
    /// included.
    pub open spec fn denotes(self, f: Fault) -> bool {
        match f {
            Fault::UnrecognizedChar(c) => self matches Error::InvalidInput(m) && m@ == seq![c],
            Fault::UnmatchedRightBracket => self matches Error::InvalidInput(m)
                && m@ == "unexpected right bracket"@,
            Fault::NumberTooLarge => self == Error::IntegerParse,
            Fault::MissingOperatorBeforeNumber => self matches Error::InvalidInput(m)
                && m@ == "number after right bracket"@,
            Fault::MissingOperatorBeforeGroup => self matches Error::InvalidInput(m)
                && m@ == "number followed by bracket"@,
            Fault::DoubledOperator(p, q) => self matches Error::InvalidInput(m)
                && m@ == doubled_operator_message(p, q),
            Fault::TrailingOperator => self matches Error::InvalidInput(m)
                && m@ == "trailing operator"@,
            Fault::EmptyExpression => self matches Error::InvalidInput(m)
                && m@ == "no numbers in input"@,
            Fault::DivisionByZero => self == Error::ArithmeticError,
            Fault::ResultOutOfRange => self == Error::ArithmeticError,
        }
    }

    /// The error for one unrecognized character, naming that character.
    pub fn unrecognized(c: char) -> (r: Error)
        ensures
            r.denotes(Fault::UnrecognizedChar(c)),
    {
        let mut m = String::new();
        push_char(&mut m, c);
        proof {
            assert(m@ =~= seq![c]);
        }
        Error::InvalidInput(m)
    }

    /// The error for two operators in a row, naming both: the pending one,
    /// then the one that doubled it.
    pub fn doubled(first: Operator, second: Operator) -> (r: Error)
        ensures
            r.denotes(Fault::DoubledOperator(first, second)),
    {
        let mut m = "two operators in a row: ".to_owned();
        append_str(&mut m, first.name());
        append_str(&mut m, ", ");
        append_str(&mut m, second.name());
        proof {
            assert(m@ =~= doubled_operator_message(first, second));
        }
        Error::InvalidInput(m)
    }

    /// A human-readable description, for callers that report the error.
    pub fn describe(&self) -> (r: &str)
        ensures
            self matches Error::ExpressionNotProvided ==> r@ == "no expression provided"@,
            self matches Error::IntegerParse ==> r@ == "number does not fit the numeric type"@,
            self matches Error::ArithmeticError ==> r@ == "division by zero or result out of range"@,
            self matches Error::InvalidInput(m) ==> r@ == m@,
    {
        match self {
            Error::ExpressionNotProvided => "no expression provided",
            Error::InvalidInput(m) => m.as_str(),
            Error::IntegerParse => "number does not fit the numeric type",
            Error::ArithmeticError => "division by zero or result out of range",
        }
    }
}

} // verus!
