//! The mathematical model of parsing and evaluation.
//!
//! Everything here is specification-level: a ghost mirror of the token tree
//! ([`Item`]), the classification of input characters, and two recursive
//! functions that say exactly what parsing ([`parse_input`]) and evaluation
//! ([`eval_items`]) return, error cases included. The executable code in
//! `expression` and `number` is verified against these functions.

use vstd::prelude::*;

use crate::expression::Operator;

verus! {

/// One element of a parsed expression at one bracket-nesting level: a literal
/// number, an operator, or the contents of one bracketed sub-expression.
pub enum Item {
    Num(int),
    Oper(Operator),
    Group(Seq<Item>),
}

/// The ways a parse or an evaluation can fail. The executable error type
/// (`error::Error`) states through `Error::denotes` which of its values
/// stands for each fault.
pub enum Fault {
    /// A character outside the recognized alphabet.
    UnrecognizedChar(char),
    /// A close-bracket letter with no bracket open at that point.
    UnmatchedRightBracket,
    /// A digit run whose value does not fit the numeric type.
    NumberTooLarge,
    /// A number with a preceding operand and no operator between them
    /// (a number directly after a closed bracket).
    MissingOperatorBeforeNumber,
    /// A bracketed sub-expression with a preceding operand and no operator
    /// between them (a bracket directly after a number).
    MissingOperatorBeforeGroup,
    /// Two operators in a row: the one already pending, then the new one.
    DoubledOperator(Operator, Operator),
    /// An operator left pending at the end of a bracket level.
    TrailingOperator,
    /// A bracket level with no operand at all.
    EmptyExpression,
    /// A division whose right operand is zero.
    DivisionByZero,
    /// An operator application whose result does not fit the numeric type.
    ResultOutOfRange,
}

// ---------------------------------------------------------------------------
// Characters
// ---------------------------------------------------------------------------

/// Whether `c` is a decimal digit.
pub open spec fn is_digit_char(c: char) -> bool {
    ('0' as u32) <= (c as u32) && (c as u32) <= ('9' as u32)
}

/// The numeric value of one digit character.
pub open spec fn digit_value(c: char) -> int {
    (c as u32) as int - ('0' as u32) as int
}

/// The operator a letter stands for, if any: `a` `b` `c` `d` are
/// `+` `-` `*` `/`.
pub open spec fn operator_of_char(c: char) -> Option<Operator> {
    if c == 'a' {
        Some(Operator::Add)
    } else if c == 'b' {
        Some(Operator::Sub)
    } else if c == 'c' {
        Some(Operator::Mul)
    } else if c == 'd' {
        Some(Operator::Div)
    } else {
        None
    }
}

/// Whether `c` belongs to the recognized alphabet: a digit, an operator
/// letter, or one of the two bracket letters.
pub open spec fn recognized_char(c: char) -> bool {
    is_digit_char(c) || operator_of_char(c) is Some || c == 'e' || c == 'f'
}

/// The contribution of one character to the count of open brackets.
pub open spec fn bracket_step(c: char) -> int {
    if c == 'e' {
        1
    } else if c == 'f' {
        -1
    } else {
        0
    }
}

/// The count of open-bracket letters minus close-bracket letters in `s`.
pub open spec fn bracket_excess(s: Seq<char>) -> int
    decreases s.len(),
{
    if s.len() == 0 {
        0
    } else {
        bracket_step(s[0]) + bracket_excess(s.drop_first())
    }
}

/// The value of a run of decimal digits, most significant first.
pub open spec fn digits_value(ds: Seq<char>) -> int
    decreases ds.len(),
{
    if ds.len() == 0 {
        0
    } else {
        digits_value(ds.drop_last()) * 10 + digit_value(ds.last())
    }
}

// ---------------------------------------------------------------------------
// Arithmetic
// ---------------------------------------------------------------------------

/// Whether `v` fits the numeric type of the calculator.
pub open spec fn fits(v: int) -> bool {
    isize::MIN <= v <= isize::MAX
}

/// Integer division truncating toward zero, the host's `/` rounding.
pub open spec fn trunc_div(a: int, b: int) -> int
    recommends
        b != 0,
{
    if a == 0 {
        0
    } else if a > 0 && b > 0 {
        a / b
    } else if a < 0 && b < 0 {
        (a * -1) / (b * -1)
    } else if a < 0 {
        ((a * -1) / b) * -1
    } else {
        (a / (b * -1)) * -1
    }
}

/// `v` itself when it fits the numeric type, and the out-of-range fault
/// otherwise.
pub open spec fn ranged(v: int) -> Result<int, Fault> {
    if fits(v) {
        Ok(v)
    } else {
        Err(Fault::ResultOutOfRange)
    }
}

/// What applying one operator to two operands yields: the exact value for
/// `+` `-` `*`, truncating division for `/`, a fault on division by zero or
/// on a result out of the numeric range.
pub open spec fn apply_op(op: Operator, lhs: int, rhs: int) -> Result<int, Fault> {
    match op {
        Operator::Add => ranged(lhs + rhs),
        Operator::Sub => ranged(lhs - rhs),
        Operator::Mul => ranged(lhs * rhs),
        Operator::Div => if rhs == 0 {
            Err(Fault::DivisionByZero)
        } else {
            ranged(trunc_div(lhs, rhs))
        },
    }
}

// ---------------------------------------------------------------------------
// Evaluation
// ---------------------------------------------------------------------------

/// Folds one operand (a literal number, or the value of a sub-expression when
/// `group` is set) into the running evaluation state: it becomes the left
/// operand when none is held yet, and is otherwise combined with the held
/// operand through the pending operator.
pub open spec fn take_operand(
    lhs: Option<int>,
    pending: Option<Operator>,
    v: int,
    group: bool,
) -> Result<(Option<int>, Option<Operator>), Fault> {
    match lhs {
        None => Ok((Some(v), pending)),
        Some(l) => match pending {
            None => if group {
                Err(Fault::MissingOperatorBeforeGroup)
            } else {
                Err(Fault::MissingOperatorBeforeNumber)
            },
            Some(op) => match apply_op(op, l, v) {
                Ok(r) => Ok((Some(r), None)),
                Err(f) => Err(f),
            },
        },
    }
}

/// One bracket level evaluated strictly left to right from position `i`,
/// carrying the operand and the operator accumulated so far. Sub-expressions
/// are evaluated depth-first where they stand. At the end of the level a
/// pending operator is a fault, and so is a level that held no operand.
pub open spec fn eval_from(
    items: Seq<Item>,
    i: int,
    lhs: Option<int>,
    pending: Option<Operator>,
) -> Result<int, Fault>
    decreases items, items.len() - i,
{
    if !(0 <= i < items.len()) {
        match pending {
            Some(_) => Err(Fault::TrailingOperator),
            None => match lhs {
                Some(v) => Ok(v),
                None => Err(Fault::EmptyExpression),
            },
        }
    } else {
        match items[i] {
            Item::Num(n) => match take_operand(lhs, pending, n, false) {
                Ok(st) => eval_from(items, i + 1, st.0, st.1),
                Err(f) => Err(f),
            },
            Item::Oper(op) => match pending {
                Some(p) => Err(Fault::DoubledOperator(p, op)),
                None => eval_from(items, i + 1, lhs, Some(op)),
            },
            Item::Group(sub) => match eval_from(sub, 0, None, None) {
                Ok(v) => match take_operand(lhs, pending, v, true) {
                    Ok(st) => eval_from(items, i + 1, st.0, st.1),
                    Err(f) => Err(f),
                },
                Err(f) => Err(f),
            },
        }
    }
}

/// What evaluating one bracket level yields.
pub open spec fn eval_items(items: Seq<Item>) -> Result<int, Fault> {
    eval_from(items, 0, None, None)
}

// ---------------------------------------------------------------------------
// Parsing
// ---------------------------------------------------------------------------

/// Finalizes a pending digit run into the expression under construction:
/// nothing happens on an empty run, the parsed number is appended when its
/// value fits the numeric type, and a too-large run is a fault.
pub open spec fn flush_digits(top: Seq<Item>, digits: Seq<char>) -> Result<Seq<Item>, Fault> {
    if digits.len() == 0 {
        Ok(top)
    } else if digits_value(digits) <= isize::MAX {
        Ok(top.push(Item::Num(digits_value(digits))))
    } else {
        Err(Fault::NumberTooLarge)
    }
}

/// The parser from position `i` on, carrying its whole state: `stack` holds
/// one expression under construction per open bracket level (bottom first,
/// top last, never empty), and `digits` the pending digit run.
///
/// A digit extends the run; any other character first finalizes the run into
/// the top expression. An operator letter appends an operator item; `e` opens
/// a level; `f` closes the top level into a `Group` item of the level below,
/// and is a fault when only the outermost level remains; anything else is a
/// fault. At the end of the input the top expression, with its digit run
/// finalized, is the result — levels left open by unmatched `e` are dropped,
/// a deliberate permissiveness of this calculator.
pub open spec fn parse_from(
    input: Seq<char>,
    i: int,
    stack: Seq<Seq<Item>>,
    digits: Seq<char>,
) -> Result<Seq<Item>, Fault>
    recommends
        0 <= i <= input.len(),
        stack.len() >= 1,
    decreases input.len() - i,
{
    if !(0 <= i < input.len()) {
        flush_digits(stack.last(), digits)
    } else {
        let c = input[i];
        if is_digit_char(c) {
            parse_from(input, i + 1, stack, digits.push(c))
        } else {
            match flush_digits(stack.last(), digits) {
                Err(f) => Err(f),
                Ok(top) => {
                    let flushed = stack.update(stack.len() - 1, top);
                    match operator_of_char(c) {
                        Some(op) => parse_from(
                            input,
                            i + 1,
                            flushed.update(flushed.len() - 1, top.push(Item::Oper(op))),
                            Seq::empty(),
                        ),
                        None => if c == 'e' {
                            parse_from(input, i + 1, flushed.push(Seq::empty()), Seq::empty())
                        } else if c == 'f' {
                            if flushed.len() == 1 {
                                Err(Fault::UnmatchedRightBracket)
                            } else {
                                let below = flushed.drop_last();
                                parse_from(
                                    input,
                                    i + 1,
                                    below.update(
                                        below.len() - 1,
                                        below.last().push(Item::Group(top)),
                                    ),
                                    Seq::empty(),
                                )
                            }
                        } else {
                            Err(Fault::UnrecognizedChar(c))
                        },
                    }
                },
            }
        }
    }
}

/// What parsing a whole input yields: the items of the resulting expression
/// tree, or the first fault met.
pub open spec fn parse_input(input: Seq<char>) -> Result<Seq<Item>, Fault> {
    parse_from(input, 0, seq![Seq::empty()], Seq::empty())
}

/// The one defined outcome of a whole run: parse, then evaluate. Both public
/// entry points are verified against this function, so the outcome depends on
/// the characters of the input alone.
pub open spec fn outcome(input: Seq<char>) -> Result<int, Fault> {
    match parse_input(input) {
        Ok(items) => eval_items(items),
        Err(f) => Err(f),
    }
}

} // verus!
