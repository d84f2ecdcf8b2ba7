//! The executable token tree, its parser and its evaluator.

use vstd::prelude::*;

use vstd::std_specs::iter::IteratorSpec;

use crate::error::Error;
use crate::model::{
    apply_op, eval_from, eval_items, is_digit_char, operator_of_char, outcome, parse_from,
    parse_input, Fault, Item,
};
use crate::number::{Number, NumberStack};

verus! {

/// Supported operators.
#[derive(Debug, Clone, Copy, PartialEq, Eq, Structural)]
pub enum Operator {
    Add,
    Sub,
    Mul,
    Div,
}

impl Operator {
    /// The operator a letter stands for: `a` is `+`, `b` is `-`, `c` is `*`,
    /// `d` is `/`.
    pub fn try_from(ch: char) -> (r: Option<Operator>)
        ensures
            r == operator_of_char(ch),
    {
        match ch {
            'a' => Some(Operator::Add),
            'b' => Some(Operator::Sub),
            'c' => Some(Operator::Mul),
            'd' => Some(Operator::Div),
            _ => None,
        }
    }

    /// The operator's name, as error messages print it.
    pub fn name(self) -> (r: &'static str)
        ensures
            r@ == crate::error::operator_name(self),
    {
        match self {
            Operator::Add => "Add",
            Operator::Sub => "Sub",
            Operator::Mul => "Mul",
            Operator::Div => "Div",
        }
    }

    /// Applies the operator to the given operands: one step of the
    /// left-to-right fold. Division by zero and a result out of the numeric
    /// range are reported as [`Error::ArithmeticError`], never a crash.
    pub fn apply(self, lhs: Number, rhs: Number) -> (r: Result<Number, Error>)
        ensures
            match apply_op(self, lhs.0 as int, rhs.0 as int) {
                Ok(v) => r matches Ok(n) && n.0 == v,
                Err(f) => r matches Err(e) && e.denotes(f),
            },
    {
        let res = match self {
            Operator::Add => lhs.0.checked_add(rhs.0),
            Operator::Sub => lhs.0.checked_sub(rhs.0),
            Operator::Mul => lhs.0.checked_mul(rhs.0),
            Operator::Div => {
                if rhs.0 == 0 {
                    return Err(Error::ArithmeticError);
                }
                lhs.0.checked_div(rhs.0)
            },
        };
        match res {
            Some(v) => Ok(Number(v)),
            None => Err(Error::ArithmeticError),
        }
    }
}

/// Brackets open and close nested sub-expressions.
#[derive(Debug, Clone, Copy, PartialEq, Eq, Structural)]
pub enum Bracket {
    Left,
    Right,
}

impl Bracket {
    /// The bracket a letter stands for: `e` is `(`, `f` is `)`.
    pub fn try_from(ch: char) -> (r: Option<Bracket>)
        ensures
            ch == 'e' ==> r == Some(Bracket::Left),
            ch == 'f' ==> r == Some(Bracket::Right),
            ch != 'e' && ch != 'f' ==> r is None,
    {
        match ch {
            'e' => Some(Bracket::Left),
            'f' => Some(Bracket::Right),
            _ => None,
        }
    }
}

/// One lexical unit of a parsed expression: a number, an operator, or a
/// nested sub-expression.
#[derive(Debug)]
pub enum Token {
    Number(Number),
    Operator(Operator),
    Expression(Expression),
}

/// A mathematical expression: the ordered tokens of one bracket-nesting
/// level, the sub-levels nested inside their tokens.
#[derive(Debug)]
pub struct Expression {
    tokens: Vec<Token>,
}

impl Token {
    /// The model item this token stands for.
    pub closed spec fn item(self) -> Item
        decreases self,
    {
        match self {
            Token::Number(n) => Item::Num(n.0 as int),
            Token::Operator(op) => Item::Oper(op),
            Token::Expression(e) => Item::Group(items_of(e.tokens@)),
        }
    }
}

/// The model items a token sequence stands for, in order.
pub closed spec fn items_of(tokens: Seq<Token>) -> Seq<Item>
    decreases tokens,
{
    if tokens.len() == 0 {
        Seq::empty()
    } else {
        items_of(tokens.drop_last()).push(tokens.last().item())
    }
}

/// `items_of` maps the sequence pointwise.
proof fn lemma_items_of(tokens: Seq<Token>)
    ensures
        items_of(tokens).len() == tokens.len(),
        forall|k: int| 0 <= k < tokens.len() ==> items_of(tokens)[k] == #[trigger] tokens[k].item(),
    decreases tokens.len(),
{
    if tokens.len() > 0 {
        lemma_items_of(tokens.drop_last());
        assert forall|k: int| 0 <= k < tokens.len() implies items_of(tokens)[k]
            == #[trigger] tokens[k].item() by {
            if k < tokens.len() - 1 {
                assert(tokens.drop_last()[k] == tokens[k]);
                assert(items_of(tokens)[k] == items_of(tokens.drop_last())[k]);
            } else {
                assert(tokens[k] == tokens.last());
            }
        }
    }
}

/// Appending a token appends its item.
proof fn lemma_items_of_push(tokens: Seq<Token>, t: Token)
    ensures
        items_of(tokens.push(t)) == items_of(tokens).push(t.item()),
{
    assert(tokens.push(t).drop_last() =~= tokens);
    assert(tokens.push(t).last() == t);
}

impl View for Expression {
    type V = Seq<Item>;

    closed spec fn view(&self) -> Seq<Item> {
        items_of(self.tokens@)
    }
}

impl Expression {
    /// Creates an empty expression.
    pub fn new() -> (r: Self)
        ensures
            r@ == Seq::<Item>::empty(),
    {
        Expression { tokens: Vec::new() }
    }
}

/// Parse-time stack of in-progress expressions, one per currently open
/// bracket level, the outermost level at the bottom.
struct ExpressionsStack {
    inner: Vec<Expression>,
}

impl View for ExpressionsStack {
    type V = Seq<Seq<Item>>;

    closed spec fn view(&self) -> Seq<Seq<Item>> {
        Seq::new(self.inner@.len(), |k: int| self.inner@[k]@)
    }
}

impl ExpressionsStack {
    /// Creates an empty stack.
    fn new() -> (r: Self)
        ensures
            r@ == Seq::<Seq<Item>>::empty(),
    {
        let r = ExpressionsStack { inner: Vec::new() };
        proof {
            assert(r@ =~= Seq::<Seq<Item>>::empty());
        }
        r
    }

    /// Opens a new, empty expression on top of the stack.
    fn push_expression(&mut self)
        ensures
            final(self)@ == old(self)@.push(Seq::<Item>::empty()),
    {
        self.inner.push(Expression::new());
        proof {
            assert(final(self)@ =~= old(self)@.push(Seq::<Item>::empty()));
        }
    }

    /// Closes the expression on top of the stack and hands it out.
    fn pop_expression(&mut self) -> (r: Expression)
        requires
            old(self)@.len() >= 1,
        ensures
            r@ == old(self)@.last(),
            final(self)@ == old(self)@.drop_last(),
    {
        let r = self.inner.pop().unwrap();
        proof {
            assert(final(self)@ =~= old(self)@.drop_last());
        }
        r
    }

    /// Appends a token to the expression on top of the stack; an empty stack
    /// means a right bracket closed the outermost level, which is an error.
    fn add_token(&mut self, token: Token) -> (r: Result<(), Error>)
        ensures
            old(self)@.len() == 0 ==> final(self)@ == old(self)@ && (r matches Err(e)
                && e.denotes(Fault::UnmatchedRightBracket)),
            old(self)@.len() >= 1 ==> r == Ok::<(), Error>(()) && final(self)@ == old(self)@.update(
                old(self)@.len() - 1,
                old(self)@.last().push(token.item()),
            ),
    {
        if self.inner.len() == 0 {
            return Err(Error::InvalidInput("unexpected right bracket".to_owned()));
        }
        let ghost t = token;
        let mut top = self.inner.pop().unwrap();
        top.tokens.push(token);
        self.inner.push(top);
        proof {
            lemma_items_of_push(old(self).inner@.last().tokens@, t);
            assert(final(self)@ =~= old(self)@.update(
                old(self)@.len() - 1,
                old(self)@.last().push(t.item()),
            ));
        }
        Ok(())
    }
}

/// Whether `ch` is a decimal digit.
fn is_digit(ch: char) -> (r: bool)
    ensures
        r == is_digit_char(ch),
{
    let lo = '0' as u32;
    let hi = '9' as u32;
    let u = ch as u32;
    lo <= u && u <= hi
}

/// The running operand as a model value.
spec fn num_opt(o: Option<Number>) -> Option<int> {
    match o {
        Some(n) => Some(n.0 as int),
        None => None,
    }
}

impl Expression {
    /// Tries to parse the input string into an expression tree: exactly what
    /// the model's `parse_input` says on the input's characters, with each
    /// fault reported as the corresponding [`Error`].
    pub fn try_from(input: &str) -> (r: Result<Expression, Error>)
        ensures
            match parse_input(input@) {
                Ok(items) => r matches Ok(e) && e@ == items,
                Err(f) => r matches Err(err) && err.denotes(f),
            },
    {
        let mut num_stack = NumberStack::new();
        let mut stack = ExpressionsStack::new();
        stack.push_expression();
        let ghost mut i: int = 0;
        let mut it = input.chars();
        loop
            invariant
                0 <= i <= input@.len(),
                it.remaining() == input@.skip(i),
                stack@.len() >= 1,
                num_stack.wf(),
                parse_from(input@, i, stack@, num_stack@) == parse_input(input@),
            ensures
                i == input@.len(),
                stack@.len() >= 1,
                num_stack.wf(),
                parse_from(input@, i, stack@, num_stack@) == parse_input(input@),
            decreases input@.len() - i,
        {
            let ghost stack0 = stack@;
            let ghost digits0 = num_stack@;
            let next = it.next();
            proof {
                assert(input@.skip(i).len() == input@.len() - i);
                if i < input@.len() {
                    assert(input@.skip(i)[0] == input@[i]);
                    assert(input@.skip(i).drop_first() =~= input@.skip(i + 1));
                }
            }
            let ch = match next {
                Some(c) => c,
                None => break,
            };
            proof {
                assert(ch == input@[i]);
            }
            if is_digit(ch) {
                num_stack.push(ch);
            } else {
                // Finalize any pending number into the top expression.
                match num_stack.finalize() {
                    Err(e) => {
                        return Err(e);
                    },
                    Ok(Some(num)) => {
                        match stack.add_token(Token::Number(num)) {
                            Ok(()) => {},
                            Err(e) => {
                                return Err(e);
                            },
                        }
                    },
                    Ok(None) => {
                        proof {
                            assert(stack@ =~= stack0.update(stack0.len() - 1, stack0.last()));
                        }
                    },
                }
                let ghost flushed = stack@;
                if let Some(op) = Operator::try_from(ch) {
                    match stack.add_token(Token::Operator(op)) {
                        Ok(()) => {},
                        Err(e) => {
                            return Err(e);
                        },
                    }
                } else if let Some(br) = Bracket::try_from(ch) {
                    match br {
                        Bracket::Left => stack.push_expression(),
                        Bracket::Right => {
                            let exp = stack.pop_expression();
                            match stack.add_token(Token::Expression(exp)) {
                                Ok(()) => {},
                                Err(e) => {
                                    return Err(e);
                                },
                            }
                        },
                    }
                } else {
                    return Err(Error::unrecognized(ch));
                }
            }
            proof {
                i = i + 1;
            }
        }
        // End of input: finalize the trailing number, then the top expression
        // is the result; levels left open by unmatched `e` are dropped.
        match num_stack.finalize() {
            Err(e) => {
                return Err(e);
            },
            Ok(Some(num)) => {
                match stack.add_token(Token::Number(num)) {
                    Ok(()) => {},
                    Err(e) => {
                        return Err(e);
                    },
                }
            },
            Ok(None) => {},
        }
        let res = stack.pop_expression();
        Ok(res)
    }

    /// Evaluates the expression strictly left to right, consuming it: exactly
    /// what the model's `eval_items` says on this expression's items, with
    /// each fault reported as the corresponding [`Error`].
    pub fn evaluate(self) -> (r: Result<Number, Error>)
        ensures
            match eval_items(self@) {
                Ok(v) => r matches Ok(n) && n.0 == v,
                Err(f) => r matches Err(e) && e.denotes(f),
            },
    {
        evaluate_tokens(&self)
    }
}

/// Parses and evaluates one input: the whole calculator in one call.
///
/// For every input this terminates and returns either the computed value or
/// the defined error that the model's `outcome` names for that input — never
/// a crash — and the same characters always yield the same result.
pub fn evaluate_input(input: &str) -> (r: Result<Number, Error>)
    ensures
        match outcome(input@) {
            Ok(v) => r matches Ok(n) && n.0 == v,
            Err(f) => r matches Err(e) && e.denotes(f),
        },
{
    match Expression::try_from(input) {
        Ok(exp) => exp.evaluate(),
        Err(e) => Err(e),
    }
}

/// The evaluator's walk over one bracket level, recursing depth-first into
/// sub-expressions.
fn evaluate_tokens(e: &Expression) -> (r: Result<Number, Error>)
    ensures
        match eval_items(e@) {
            Ok(v) => r matches Ok(n) && n.0 == v,
            Err(f) => r matches Err(err) && err.denotes(f),
        },
    decreases *e,
{
    let mut lhs: Option<Number> = None;
    let mut pending: Option<Operator> = None;
    let mut k: usize = 0;
    proof {
        lemma_items_of(e.tokens@);
    }
    while k < e.tokens.len()
        invariant
            0 <= k <= e.tokens@.len(),
            e@.len() == e.tokens@.len(),
            forall|j: int| 0 <= j < e.tokens@.len() ==> e@[j] == #[trigger] e.tokens@[j].item(),
            eval_from(e@, k as int, num_opt(lhs), pending) == eval_items(e@),
        decreases e.tokens@.len() - k,
    {
        proof {
            assert(e@[k as int] == e.tokens@[k as int].item());
        }
        let token = &e.tokens[k];
        match token {
            Token::Number(num) => {
                if let Some(left) = lhs {
                    let op = match pending {
                        Some(op) => op,
                        None => {
                            return Err(
                                Error::InvalidInput("number after right bracket".to_owned()),
                            );
                        },
                    };
                    pending = None;
                    match op.apply(left, *num) {
                        Ok(n) => {
                            lhs = Some(n);
                        },
                        Err(e2) => {
                            return Err(e2);
                        },
                    }
                } else {
                    lhs = Some(*num);
                }
            },
            Token::Operator(op) => {
                match pending {
                    Some(p) => {
                        return Err(Error::doubled(p, *op));
                    },
                    None => {
                        pending = Some(*op);
                    },
                }
            },
            Token::Expression(sub) => {
                let sub_val = match evaluate_tokens(sub) {
                    Ok(n) => n,
                    Err(e2) => {
                        return Err(e2);
                    },
                };
                if let Some(left) = lhs {
                    let op = match pending {
                        Some(op) => op,
                        None => {
                            return Err(
                                Error::InvalidInput("number followed by bracket".to_owned()),
                            );
                        },
                    };
                    pending = None;
                    match op.apply(left, sub_val) {
                        Ok(n) => {
                            lhs = Some(n);
                        },
                        Err(e2) => {
                            return Err(e2);
                        },
                    }
                } else {
                    lhs = Some(sub_val);
                }
            },
        }
        k = k + 1;
    }
    if let Some(_op) = pending {
        return Err(Error::InvalidInput("trailing operator".to_owned()));
    }
    match lhs {
        Some(n) => Ok(n),
        None => Err(Error::InvalidInput("no numbers in input".to_owned())),
    }
}

} // verus!
