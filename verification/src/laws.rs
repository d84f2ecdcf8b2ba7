//! General laws of the calculator, stated over the model and proved once for
//! all inputs.

use vstd::prelude::*;

use crate::expression::Operator;
use crate::model::{
    apply_op, bracket_excess, bracket_step, digits_value, eval_from, eval_items, is_digit_char,
    operator_of_char, outcome, parse_from, parse_input, recognized_char, Fault, Item,
};

verus! {

/// Left-to-right fold: a flat three-operand expression `x op1 y op2 z`
/// evaluates as `op2(op1(x, y), z)` — the first operator is applied first,
/// never by precedence — with the first arithmetic fault, if any, reported.
pub proof fn lemma_left_to_right_fold(x: int, y: int, z: int, op1: Operator, op2: Operator)
    ensures
        eval_items(
            seq![Item::Num(x), Item::Oper(op1), Item::Num(y), Item::Oper(op2), Item::Num(z)],
        ) == match apply_op(op1, x, y) {
            Ok(v) => apply_op(op2, v, z),
            Err(f) => Err::<int, Fault>(f),
        },
{
    reveal_with_fuel(eval_from, 7);
}

/// Bracketing: an expression that is exactly one bracketed sub-expression
/// evaluates as the sub-expression alone.
pub proof fn lemma_bracket_wrap(items: Seq<Item>)
    ensures
        eval_items(seq![Item::Group(items)]) == eval_items(items),
{
    reveal_with_fuel(eval_from, 2);
}

/// Division by zero is a fault, whatever the left operand.
pub proof fn lemma_divide_by_zero(lhs: int)
    ensures
        apply_op(Operator::Div, lhs, 0) == Err::<int, Fault>(Fault::DivisionByZero),
{
}

// ---------------------------------------------------------------------------
// Input-level laws
// ---------------------------------------------------------------------------

/// Whether every character of `s` is a decimal digit.
pub open spec fn all_digits(s: Seq<char>) -> bool {
    forall|k: int| 0 <= k < s.len() ==> is_digit_char(#[trigger] s[k])
}

/// Whether every character of `s` belongs to the recognized alphabet.
pub open spec fn all_recognized(s: Seq<char>) -> bool {
    forall|k: int| 0 <= k < s.len() ==> recognized_char(#[trigger] s[k])
}

/// Whether every run of consecutive digits in `s` has a value that fits the
/// numeric type, so that no number in `s` overflows while it is parsed.
pub open spec fn digit_runs_fit(s: Seq<char>) -> bool {
    forall|p: int, q: int|
        0 <= p <= q <= s.len() && all_digits(#[trigger] s.subrange(p, q)) ==> digits_value(
            s.subrange(p, q),
        ) <= isize::MAX
}

/// Splitting the first character off a bracket count.
proof fn lemma_excess_unfold(input: Seq<char>, i: int, j: int)
    requires
        0 <= i < j <= input.len(),
    ensures
        bracket_excess(input.subrange(i, j)) == bracket_step(input[i]) + bracket_excess(
            input.subrange(i + 1, j),
        ),
{
    assert(input.subrange(i, j)[0] == input[i]);
    assert(input.subrange(i, j).drop_first() =~= input.subrange(i + 1, j));
}

/// The parser's walk to a close bracket that has no bracket open at that
/// point, standing at position `jc`: with every character before it
/// recognized and every digit run before it fitting, nothing else can fail
/// first, so the parse ends in the unmatched-bracket fault whatever follows.
proof fn lemma_parse_hits_unmatched(
    input: Seq<char>,
    i: int,
    stack: Seq<Seq<Item>>,
    digits: Seq<char>,
    jc: int,
)
    requires
        0 <= i <= jc < input.len(),
        stack.len() >= 1,
        all_digits(digits),
        stack.len() as int + bracket_excess(input.subrange(i, jc + 1)) <= 0,
        forall|k: int| i <= k < jc ==> recognized_char(#[trigger] input[k]),
        forall|p: int, q: int|
            i <= p <= q <= jc && all_digits(#[trigger] input.subrange(p, q)) ==> digits_value(
                input.subrange(p, q),
            ) <= isize::MAX,
        forall|q: int|
            i <= q <= jc && all_digits(#[trigger] input.subrange(i, q)) ==> digits_value(
                digits + input.subrange(i, q),
            ) <= isize::MAX,
    ensures
        parse_from(input, i, stack, digits) == Err::<Seq<Item>, Fault>(
            Fault::UnmatchedRightBracket,
        ),
    decreases input.len() - i,
{
    let c = input[i];
    // the pending digit run fits: instantiate the digit condition at the
    // empty run
    assert(all_digits(input.subrange(i, i)));
    assert(digits + input.subrange(i, i) =~= digits);
    assert(digits_value(digits) <= isize::MAX);
    lemma_excess_unfold(input, i, jc + 1);
    if is_digit_char(c) {
        // a digit moves no bracket, so the offending position lies ahead
        assert(i < jc);
        assert forall|q: int|
            i + 1 <= q <= jc && all_digits(#[trigger] input.subrange(i + 1, q)) implies
            digits_value(digits.push(c) + input.subrange(i + 1, q)) <= isize::MAX by {
            assert forall|k: int| 0 <= k < q - i implies is_digit_char(
                #[trigger] input.subrange(i, q)[k],
            ) by {
                if k == 0 {
                    assert(input.subrange(i, q)[0] == c);
                } else {
                    assert(input.subrange(i, q)[k] == input.subrange(i + 1, q)[k - 1]);
                }
            }
            assert(all_digits(input.subrange(i, q)));
            assert(digits.push(c) + input.subrange(i + 1, q) =~= digits + input.subrange(i, q));
        }
        assert(stack.len() as int + bracket_excess(input.subrange(i + 1, jc + 1)) <= 0);
        lemma_parse_hits_unmatched(input, i + 1, stack, digits.push(c), jc);
    } else {
        // after the flush the pending run is empty, and every later run up to
        // the offending position is a plain digit substring of the input
        assert forall|q: int|
            i + 1 <= q <= jc && all_digits(#[trigger] input.subrange(i + 1, q)) implies
            digits_value(Seq::<char>::empty() + input.subrange(i + 1, q)) <= isize::MAX by {
            assert(Seq::<char>::empty() + input.subrange(i + 1, q) =~= input.subrange(i + 1, q));
        }
        match operator_of_char(c) {
            Some(op) => {
                assert(i < jc);
                assert(stack.len() as int + bracket_excess(input.subrange(i + 1, jc + 1)) <= 0);
                match crate::model::flush_digits(stack.last(), digits) {
                    Ok(top) => {
                        let flushed = stack.update(stack.len() - 1, top);
                        lemma_parse_hits_unmatched(
                            input,
                            i + 1,
                            flushed.update(flushed.len() - 1, top.push(Item::Oper(op))),
                            Seq::empty(),
                            jc,
                        );
                    },
                    Err(_) => {
                        assert(false);
                    },
                }
            },
            None => {
                if c == 'e' {
                    assert(i < jc);
                    match crate::model::flush_digits(stack.last(), digits) {
                        Ok(top) => {
                            let grown = stack.update(stack.len() - 1, top).push(Seq::empty());
                            assert(grown.len() as int + bracket_excess(
                                input.subrange(i + 1, jc + 1),
                            ) <= 0);
                            lemma_parse_hits_unmatched(input, i + 1, grown, Seq::empty(), jc);
                        },
                        Err(_) => {
                            assert(false);
                        },
                    }
                } else if c == 'f' {
                    match crate::model::flush_digits(stack.last(), digits) {
                        Ok(top) => {
                            let flushed = stack.update(stack.len() - 1, top);
                            if flushed.len() > 1 {
                                assert(i < jc);
                                let below = flushed.drop_last();
                                let shrunk = below.update(
                                    below.len() - 1,
                                    below.last().push(Item::Group(top)),
                                );
                                assert(shrunk.len() as int + bracket_excess(
                                    input.subrange(i + 1, jc + 1),
                                ) <= 0);
                                lemma_parse_hits_unmatched(input, i + 1, shrunk, Seq::empty(), jc);
                            }
                        },
                        Err(_) => {
                            assert(false);
                        },
                    }
                } else {
                    // before `jc` every character is recognized, and at `jc`
                    // only a close bracket moves the count below the level
                    if i < jc {
                        assert(recognized_char(c));
                    }
                    assert(false);
                }
            },
        }
    }
}

/// Whether an item is a bracketed group whose contents, at any depth, hold
/// two operators in a row.
pub open spec fn item_has_doubled(item: Item) -> bool
    decreases item,
{
    match item {
        Item::Group(sub) => has_doubled_operator(sub),
        _ => false,
    }
}

/// Whether a bracket level, at any depth, holds two operators in a row.
pub open spec fn has_doubled_operator(items: Seq<Item>) -> bool
    decreases items,
{
    if items.len() == 0 {
        false
    } else {
        (items.len() >= 2 && items[0] is Oper && items[1] is Oper) || item_has_doubled(items[0])
            || has_doubled_operator(items.drop_first())
    }
}

/// Two adjacent operators anywhere in a level are a doubled operator.
proof fn lemma_doubled_at(s: Seq<Item>, m: int)
    requires
        0 <= m,
        m + 1 < s.len(),
        s[m] is Oper,
        s[m + 1] is Oper,
    ensures
        has_doubled_operator(s),
    decreases s.len(),
{
    if m > 0 {
        lemma_doubled_at(s.drop_first(), m - 1);
        assert(s.drop_first()[m - 1] == s[m]);
        assert(s.drop_first()[m] == s[m + 1]);
    }
}

/// Appending an item keeps a doubled operator.
proof fn lemma_doubled_push(s: Seq<Item>, x: Item)
    requires
        has_doubled_operator(s),
    ensures
        has_doubled_operator(s.push(x)),
    decreases s.len(),
{
    assert(s.push(x)[0] == s[0]);
    if s.len() >= 2 && s[0] is Oper && s[1] is Oper {
        assert(s.push(x)[1] == s[1]);
    } else if item_has_doubled(s[0]) {
    } else {
        lemma_doubled_push(s.drop_first(), x);
        assert(s.push(x).drop_first() =~= s.drop_first().push(x));
    }
}

/// Appending a group with a doubled operator gives the level one.
proof fn lemma_doubled_push_group(s: Seq<Item>, x: Item)
    requires
        item_has_doubled(x),
    ensures
        has_doubled_operator(s.push(x)),
    decreases s.len(),
{
    if s.len() == 0 {
        assert(s.push(x)[0] == x);
    } else {
        lemma_doubled_push_group(s.drop_first(), x);
        assert(s.push(x)[0] == s[0]);
        assert(s.push(x).drop_first() =~= s.drop_first().push(x));
    }
}

/// A level that holds two operators in a row, at any depth, never evaluates
/// to a value: the walk either fails before reaching them or fails on them.
proof fn lemma_eval_doubled_errs(items: Seq<Item>, i: int, lhs: Option<int>, pending: Option<
    Operator,
>)
    requires
        0 <= i <= items.len(),
        has_doubled_operator(items.skip(i)),
    ensures
        eval_from(items, i, lhs, pending) is Err,
    decreases items, items.len() - i,
{
    let rest = items.skip(i);
    assert(rest.len() > 0);
    assert(rest[0] == items[i]);
    assert(rest.drop_first() =~= items.skip(i + 1));
    if rest.len() >= 2 {
        assert(rest[1] == items[i + 1]);
    }
    match items[i] {
        Item::Num(n) => {
            assert(has_doubled_operator(items.skip(i + 1))) by {
                assert(!(rest[0] is Oper));
                assert(!item_has_doubled(rest[0]));
                assert((rest.len() >= 2 && rest[0] is Oper && rest[1] is Oper)
                    || item_has_doubled(rest[0]) || has_doubled_operator(rest.drop_first()));
                assert(has_doubled_operator(rest.drop_first()));
                assert(rest.drop_first() == items.skip(i + 1));
            };
            match crate::model::take_operand(lhs, pending, n, false) {
                Ok(st) => {
                    lemma_eval_doubled_errs(items, i + 1, st.0, st.1);
                },
                Err(_) => {},
            }
        },
        Item::Oper(op) => {
            if pending is Some {
            } else if rest.len() >= 2 && rest[1] is Oper {
                assert(eval_from(items, i + 1, lhs, Some(op)) is Err);
            } else {
                assert(has_doubled_operator(items.skip(i + 1))) by {
                    assert(!(rest.len() >= 2 && rest[0] is Oper && rest[1] is Oper));
                    assert(!item_has_doubled(rest[0]));
                    assert(has_doubled_operator(rest.drop_first()));
                    assert(rest.drop_first() == items.skip(i + 1));
                };
                lemma_eval_doubled_errs(items, i + 1, lhs, Some(op));
            }
        },
        Item::Group(sub) => {
            if item_has_doubled(rest[0]) {
                assert(sub.skip(0) =~= sub);
                lemma_eval_doubled_errs(sub, 0, None, None);
            } else {
                assert(has_doubled_operator(items.skip(i + 1))) by {
                    assert(!(rest[0] is Oper));
                    assert(!item_has_doubled(rest[0]));
                    assert(has_doubled_operator(rest.drop_first()));
                    assert(rest.drop_first() == items.skip(i + 1));
                };
                match eval_from(sub, 0, None, None) {
                    Ok(v) => {
                        match crate::model::take_operand(lhs, pending, v, true) {
                            Ok(st) => {
                                lemma_eval_doubled_errs(items, i + 1, st.0, st.1);
                            },
                            Err(_) => {},
                        }
                    },
                    Err(_) => {},
                }
            }
        },
    }
}

/// Bracket bookkeeping for one consumed character: a balance that held from
/// position `i` still holds from `i + 1` after the open-bracket count moved
/// by that character's step.
proof fn lemma_balance_shift(input: Seq<char>, i: int, n_old: int, n_new: int)
    requires
        0 <= i < input.len(),
        n_new == n_old + bracket_step(input[i]),
        forall|j: int|
            i <= j <= input.len() ==> n_old + bracket_excess(#[trigger] input.subrange(i, j)) >= 1,
        n_old + bracket_excess(input.subrange(i, input.len() as int)) == 1,
    ensures
        forall|j: int|
            i + 1 <= j <= input.len() ==> n_new + bracket_excess(
                #[trigger] input.subrange(i + 1, j),
            ) >= 1,
        n_new + bracket_excess(input.subrange(i + 1, input.len() as int)) == 1,
{
    assert forall|j: int|
        i + 1 <= j <= input.len() implies n_new + bracket_excess(
        #[trigger] input.subrange(i + 1, j),
    ) >= 1 by {
        lemma_excess_unfold(input, i, j);
        assert(n_old + bracket_excess(input.subrange(i, j)) >= 1);
    }
    lemma_excess_unfold(input, i, input.len() as int);
}

/// The parser's walk once a doubled operator is in sight: either two
/// operator letters stand side by side ahead, or one already sits at the end
/// of an open level with its twin next, or two already sit in an open level.
/// With the brackets of the remainder balanced — they never close the
/// outermost level and close every other level — whatever the parser
/// returns, if it returns anything, holds two operators in a row somewhere.
proof fn lemma_parse_carries_doubled(
    input: Seq<char>,
    i: int,
    stack: Seq<Seq<Item>>,
    digits: Seq<char>,
)
    requires
        0 <= i <= input.len(),
        stack.len() >= 1,
        forall|j: int|
            i <= j <= input.len() ==> stack.len() as int + bracket_excess(
                #[trigger] input.subrange(i, j),
            ) >= 1,
        stack.len() as int + bracket_excess(input.subrange(i, input.len() as int)) == 1,
        (exists|lvl: int| 0 <= lvl < stack.len() && has_doubled_operator(#[trigger] stack[lvl]))
            || (exists|k: int|
            i <= k && k + 1 < input.len() && operator_of_char(input[k]) is Some
                && operator_of_char(#[trigger] input[k + 1]) is Some) || (i < input.len()
            && operator_of_char(input[i]) is Some && digits.len() == 0 && stack.last().len() >= 1
            && stack.last().last() is Oper),
    ensures
        match parse_from(input, i, stack, digits) {
            Ok(res) => has_doubled_operator(res),
            Err(_) => true,
        },
    decreases input.len() - i,
{
    let w1 = exists|lvl: int| 0 <= lvl < stack.len() && has_doubled_operator(#[trigger] stack[lvl]);
    let w2 = exists|k: int|
        i <= k && k + 1 < input.len() && operator_of_char(input[k]) is Some && operator_of_char(
            #[trigger] input[k + 1],
        ) is Some;
    if i == input.len() {
        assert(input.subrange(i, i).len() == 0);
        assert(stack.len() == 1);
        let lvl = choose|lvl: int|
            0 <= lvl < stack.len() && has_doubled_operator(#[trigger] stack[lvl]);
        assert(lvl == 0);
        assert(stack.last() == stack[0]);
        match crate::model::flush_digits(stack.last(), digits) {
            Ok(top) => {
                if digits.len() > 0 && digits_value(digits) <= isize::MAX {
                    lemma_doubled_push(stack[0], Item::Num(digits_value(digits)));
                }
            },
            Err(_) => {},
        }
    } else {
        let c = input[i];
        if is_digit_char(c) {
            lemma_balance_shift(input, i, stack.len() as int, stack.len() as int);
            // the witness lies ahead: a digit is no operator letter
            if w1 {
            } else {
                let k = choose|k: int|
                    i <= k && k + 1 < input.len() && operator_of_char(input[k]) is Some
                        && operator_of_char(#[trigger] input[k + 1]) is Some;
                assert(k >= i + 1);
            }
            lemma_parse_carries_doubled(input, i + 1, stack, digits.push(c));
        } else {
            match crate::model::flush_digits(stack.last(), digits) {
                Err(_) => {},
                Ok(top) => {
                    let flushed = stack.update(stack.len() - 1, top);
                    // appending the finalized number keeps a doubled operator
                    if digits.len() > 0 && has_doubled_operator(stack.last()) {
                        lemma_doubled_push(stack.last(), Item::Num(digits_value(digits)));
                    }
                    match operator_of_char(c) {
                        Some(op) => {
                            let new_top = top.push(Item::Oper(op));
                            let new_stack = flushed.update(flushed.len() - 1, new_top);
                            lemma_balance_shift(
                                input,
                                i,
                                stack.len() as int,
                                new_stack.len() as int,
                            );
                            // establish the witness for the next position
                            if w1 {
                                let lvl = choose|lvl: int|
                                    0 <= lvl < stack.len() && has_doubled_operator(
                                        #[trigger] stack[lvl],
                                    );
                                if lvl == stack.len() - 1 {
                                    lemma_doubled_push(top, Item::Oper(op));
                                    assert(has_doubled_operator(new_stack[lvl]));
                                } else {
                                    assert(has_doubled_operator(new_stack[lvl]));
                                }
                            } else if w2 {
                                let k = choose|k: int|
                                    i <= k && k + 1 < input.len() && operator_of_char(
                                        input[k],
                                    ) is Some && operator_of_char(#[trigger] input[k + 1]) is Some;
                                if k == i {
                                    // the twin letter is next: the new top
                                    // ends with this operator
                                    assert(new_stack.last() == new_top);
                                    assert(new_top.last() is Oper);
                                } else {
                                    assert(k >= i + 1);
                                }
                            } else {
                                // an operator already ends the top level, and
                                // this character doubles it
                                assert(digits.len() == 0);
                                assert(top == stack.last());
                                lemma_doubled_at(new_top, top.len() - 1);
                                assert(has_doubled_operator(new_stack[stack.len() - 1]));
                            }
                            lemma_parse_carries_doubled(input, i + 1, new_stack, Seq::empty());
                        },
                        None => {
                            if c == 'e' {
                                let new_stack = flushed.push(Seq::empty());
                                lemma_balance_shift(
                                    input,
                                    i,
                                    stack.len() as int,
                                    new_stack.len() as int,
                                );
                                if w1 {
                                    let lvl = choose|lvl: int|
                                        0 <= lvl < stack.len() && has_doubled_operator(
                                            #[trigger] stack[lvl],
                                        );
                                    assert(new_stack[lvl] == flushed[lvl]);
                                    assert(has_doubled_operator(new_stack[lvl]));
                                } else {
                                    let k = choose|k: int|
                                        i <= k && k + 1 < input.len() && operator_of_char(
                                            input[k],
                                        ) is Some && operator_of_char(
                                            #[trigger] input[k + 1],
                                        ) is Some;
                                    assert(k >= i + 1);
                                }
                                lemma_parse_carries_doubled(input, i + 1, new_stack, Seq::empty());
                            } else if c == 'f' {
                                // the remainder's balance keeps the outermost
                                // level: this close bracket matches
                                assert(stack.len() as int + bracket_excess(
                                    input.subrange(i, i + 1),
                                ) >= 1);
                                assert(input.subrange(i, i + 1) =~= seq![c]);
                                assert(bracket_excess(seq![c]) == bracket_step(c) + bracket_excess(
                                    seq![c].drop_first(),
                                ));
                                assert(seq![c].drop_first().len() == 0);
                                assert(flushed.len() >= 2);
                                let below = flushed.drop_last();
                                let grouped = below.last().push(Item::Group(top));
                                let new_stack = below.update(below.len() - 1, grouped);
                                lemma_balance_shift(
                                    input,
                                    i,
                                    stack.len() as int,
                                    new_stack.len() as int,
                                );
                                if w1 {
                                    let lvl = choose|lvl: int|
                                        0 <= lvl < stack.len() && has_doubled_operator(
                                            #[trigger] stack[lvl],
                                        );
                                    if lvl == stack.len() - 1 {
                                        lemma_doubled_push_group(below.last(), Item::Group(top));
                                        assert(has_doubled_operator(new_stack[below.len() - 1]));
                                    } else if lvl == stack.len() - 2 {
                                        lemma_doubled_push(below.last(), Item::Group(top));
                                        assert(has_doubled_operator(new_stack[below.len() - 1]));
                                    } else {
                                        assert(has_doubled_operator(new_stack[lvl]));
                                    }
                                } else {
                                    let k = choose|k: int|
                                        i <= k && k + 1 < input.len() && operator_of_char(
                                            input[k],
                                        ) is Some && operator_of_char(
                                            #[trigger] input[k + 1],
                                        ) is Some;
                                    assert(k >= i + 1);
                                }
                                lemma_parse_carries_doubled(input, i + 1, new_stack, Seq::empty());
                            } else {
                                // an unrecognized character: the parse fails,
                                // which is all the law claims here
                            }
                        },
                    }
                },
            }
        }
    }
}

/// Two-operators-in-a-row detection: an input holding two operator letters
/// side by side never evaluates to a value, provided its brackets are
/// balanced — a level left open by an unmatched `e` is dropped with
/// everything in it, doubled operators included.
pub proof fn lemma_doubled_operator_rejected(input: Seq<char>)
    requires
        exists|k: int|
            0 <= k && k + 1 < input.len() && operator_of_char(input[k]) is Some
                && operator_of_char(#[trigger] input[k + 1]) is Some,
        forall|j: int|
            0 <= j <= input.len() ==> bracket_excess(#[trigger] input.subrange(0, j)) >= 0,
        bracket_excess(input.subrange(0, input.len() as int)) == 0,
    ensures
        outcome(input) is Err,
{
    let start: Seq<Seq<Item>> = seq![Seq::empty()];
    assert forall|j: int|
        0 <= j <= input.len() implies start.len() as int + bracket_excess(
        #[trigger] input.subrange(0, j),
    ) >= 1 by {}
    lemma_parse_carries_doubled(input, 0, start, Seq::empty());
    match parse_input(input) {
        Ok(items) => {
            assert(items.skip(0) =~= items);
            lemma_eval_doubled_errs(items, 0, None, None);
        },
        Err(_) => {},
    }
}

/// Unmatched-bracket detection: an input with a close bracket that has no
/// bracket open at that point — at position `j`, where the text through `j`
/// closes more brackets than it opened — is rejected as an unmatched right
/// bracket, provided the text before `j` is made of recognized characters
/// and of digit runs that fit the numeric type: an unrecognized character or
/// a too-large number standing earlier would be reported first. What follows
/// the offending bracket does not matter.
pub proof fn lemma_unmatched_right_bracket(input: Seq<char>, j: int)
    requires
        0 <= j < input.len(),
        bracket_excess(input.subrange(0, j + 1)) < 0,
        all_recognized(input.subrange(0, j)),
        digit_runs_fit(input.subrange(0, j)),
    ensures
        parse_input(input) == Err::<Seq<Item>, Fault>(Fault::UnmatchedRightBracket),
        outcome(input) == Err::<int, Fault>(Fault::UnmatchedRightBracket),
{
    let start: Seq<Seq<Item>> = seq![Seq::empty()];
    let prefix = input.subrange(0, j);
    assert forall|k: int| 0 <= k < j implies recognized_char(#[trigger] input[k]) by {
        assert(prefix[k] == input[k]);
    }
    assert forall|p: int, q: int|
        0 <= p <= q <= j && all_digits(#[trigger] input.subrange(p, q)) implies digits_value(
        input.subrange(p, q),
    ) <= isize::MAX by {
        assert(prefix.subrange(p, q) =~= input.subrange(p, q));
        assert(all_digits(prefix.subrange(p, q)));
    }
    assert forall|q: int|
        0 <= q <= j && all_digits(#[trigger] input.subrange(0, q)) implies digits_value(
        Seq::<char>::empty() + input.subrange(0, q),
    ) <= isize::MAX by {
        assert(Seq::<char>::empty() + input.subrange(0, q) =~= input.subrange(0, q));
    }
    lemma_parse_hits_unmatched(input, 0, start, Seq::empty(), j);
}

} // verus!
