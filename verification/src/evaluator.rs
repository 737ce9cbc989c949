//! Evaluating an expression: its tokens in postfix order are worked off
//! against a stack of operands.
//!
//! Operands stay text until an operator needs them. Then each is read as a
//! decimal literal, or else looked up by name. What an operator computes
//! goes back on the stack as text.

use vstd::prelude::*;
use std::collections::VecDeque;
use crate::context::Context;
use crate::decimal::{
    checked_add, checked_div, checked_mul, checked_pow, checked_rem, checked_sub, decimal_difference,
    decimal_literal, decimal_parsed, decimal_power, decimal_product, decimal_quotient,
    decimal_remainder, decimal_sum, decimal_text, equal, parse_exact, parse_rounded, to_text,
};
use crate::error::{is_outcome, EvalError, Failure};
use crate::laws::lemma_every_operator_is_known;
use crate::number::{truth_value, Number};
use crate::operator::{operator_precedence, precedence_of, NOT_AN_OPERATOR};
use crate::postfix::{postfix_of_text, to_postfix};
use crate::tokenizer::{texts, tokenize, tokens_of};
use crate::tree::{lemma_evaluation_follows_the_tree, Tree};

verus! {

/// The value of an operand, given what it spells as a literal: that
/// number, or else the value that the context binds the operand to, or
/// else none.
pub open spec fn literal_or_name(
    literal: Option<Number>,
    known: Map<Seq<char>, Number>,
    operand: Seq<char>,
) -> Option<Number> {
    match literal {
        Some(n) => Some(n),
        None => if known.contains_key(operand) {
            Some(known[operand])
        } else {
            None
        },
    }
}

/// The value that an operand stands for: the number it spells, or else the
/// value that the context binds it to, or else none.
pub open spec fn value_of(known: Map<Seq<char>, Number>, operand: Seq<char>) -> Option<Number> {
    literal_or_name(decimal_literal(operand), known, operand)
}

/// The values of the two operands of an operator, or the failure that
/// names the operand without a value: both where both have none.
pub open spec fn both_values(x: Seq<char>, y: Seq<char>, a: Option<Number>, b: Option<Number>)
    -> Result<(Number, Number), Failure> {
    match (a, b) {
        (None, None) => Err(Failure::UnknownVariables(x, y)),
        (None, Some(_)) => Err(Failure::UnknownVariable(x)),
        (Some(_), None) => Err(Failure::UnknownVariable(y)),
        (Some(a), Some(b)) => Ok((a, b)),
    }
}

/// A result of decimal arithmetic, with a missing one read as overflow.
pub open spec fn in_range_or_overflow(computed: Option<Number>) -> Result<Number, Failure> {
    match computed {
        Some(n) => Ok(n),
        None => Err(Failure::Overflow),
    }
}

/// What the operator with the given symbol makes of `x` and `y`.
///
/// `=` compares by value and gives 1.0 or 0.0. Division and remainder by
/// zero fail as such; any other result that decimal arithmetic cannot give
/// is an overflow.
pub open spec fn operation(symbol: char, x: Number, y: Number) -> Result<Number, Failure> {
    match symbol {
        '=' => Ok(truth_value(x.same_value(y))),
        '^' => in_range_or_overflow(decimal_power(x, y)),
        '+' => in_range_or_overflow(decimal_sum(x, y)),
        '-' => in_range_or_overflow(decimal_difference(x, y)),
        '*' => in_range_or_overflow(decimal_product(x, y)),
        '/' => if y.spec_mantissa() == 0 {
            Err(Failure::DivisionByZero)
        } else {
            in_range_or_overflow(decimal_quotient(x, y))
        },
        '%' => if y.spec_mantissa() == 0 {
            Err(Failure::DivisionByZero)
        } else {
            in_range_or_overflow(decimal_remainder(x, y))
        },
        _ => Err(Failure::UnknownOperator(symbol)),
    }
}

/// The text that an operator token makes of its operands `x` and `y`.
///
/// Both operands must stand for a value; the failure names the one that
/// does not, or both.
pub open spec fn application(
    token: Seq<char>,
    x: Seq<char>,
    y: Seq<char>,
    known: Map<Seq<char>, Number>,
) -> Result<Seq<char>, Failure> {
    match both_values(x, y, value_of(known, x), value_of(known, y)) {
        Ok((a, b)) => match operation(precedence_of(token).1, a, b) {
            Ok(v) => Ok(decimal_text(v)),
            Err(failure) => Err(failure),
        },
        Err(failure) => Err(failure),
    }
}

/// The operand stack after one token of a postfix program.
///
/// An operand goes on the stack. An operator takes the two operands on top,
/// the upper one as its right operand, and leaves its result as text.
pub open spec fn step(token: Seq<char>, stack: Seq<Seq<char>>, known: Map<Seq<char>, Number>)
    -> Result<Seq<Seq<char>>, Failure> {
    if precedence_of(token).0 == NOT_AN_OPERATOR {
        Ok(stack.push(token))
    } else if stack.len() < 2 {
        Err(Failure::MissingOperand(token))
    } else {
        let y = stack[stack.len() - 1];
        let x = stack[stack.len() - 2];
        match application(token, x, y, known) {
            Ok(text) => Ok(stack.subrange(0, stack.len() - 2).push(text)),
            Err(failure) => Err(failure),
        }
    }
}

/// The result of an expression, given the operand that is left on top and
/// what it reads as.
pub open spec fn number_or_malformed(top: Seq<char>, parsed: Option<Number>) -> Result<
    Number,
    Failure,
> {
    match parsed {
        Some(v) => Ok(v),
        None => Err(Failure::MalformedNumber(top)),
    }
}

/// The value of a stack once the program has ended: the operand on top,
/// read as a number.
pub open spec fn outcome(stack: Seq<Seq<char>>) -> Result<Number, Failure> {
    if stack.len() == 0 {
        Err(Failure::EmptyExpression)
    } else {
        number_or_malformed(stack.last(), decimal_parsed(stack.last()))
    }
}

/// The value of the rest of a postfix program, run from a given stack.
pub open spec fn run(program: Seq<Seq<char>>, stack: Seq<Seq<char>>, known: Map<Seq<char>, Number>)
    -> Result<Number, Failure>
    decreases program.len(),
{
    if program.len() == 0 {
        outcome(stack)
    } else {
        match step(program[0], stack, known) {
            Ok(next) => run(program.drop_first(), next, known),
            Err(failure) => Err(failure),
        }
    }
}

/// The value of a postfix program.
pub open spec fn value_of_program(program: Seq<Seq<char>>, known: Map<Seq<char>, Number>) -> Result<
    Number,
    Failure,
> {
    run(program, Seq::empty(), known)
}

/// The value of an expression: its text is split into tokens, the tokens
/// are put in postfix order, and the postfix program is run.
pub open spec fn evaluation_of(text: Seq<char>, known: Map<Seq<char>, Number>) -> Result<
    Number,
    Failure,
> {
    match postfix_of_text(text) {
        Ok(program) => value_of_program(program, known),
        Err(failure) => Err(failure),
    }
}

/// The value of an operand whose reading as a literal is given: the
/// literal where there is one, and else what the context holds under the
/// operand's name.
pub fn operand_value(literal: Option<Number>, context: &Context, token: &String) -> (value: Option<
    Number,
>)
    ensures
        value == literal_or_name(literal, context@, token@),
{
    match literal {
        Some(value) => Some(value),
        None => match context.find(token) {
            Some(value) => Some(*value),
            None => None,
        },
    }
}

/// The value of an operand: a literal is read as such, anything else is
/// looked up by name.
pub fn get_val(context: &Context, token: &String) -> (value: Option<Number>)
    ensures
        value == value_of(context@, token@),
{
    operand_value(parse_exact(token.as_str()), context, token)
}

/// The values of both operands of an operator, or the error that names
/// the operand without a value: both where both have none.
pub fn operand_values(x: String, y: String, x_val: Option<Number>, y_val: Option<Number>) -> (result:
    Result<(Number, Number), EvalError>)
    ensures
        is_outcome(result, both_values(x@, y@, x_val, y_val)),
{
    match (x_val, y_val) {
        (None, None) => Err(EvalError::UnknownVariables(x, y)),
        (None, Some(_)) => Err(EvalError::UnknownVariable(x)),
        (Some(_), None) => Err(EvalError::UnknownVariable(y)),
        (Some(a), Some(b)) => Ok((a, b)),
    }
}

/// What decimal arithmetic has computed, or the overflow that it reports
/// by computing nothing.
pub fn arithmetic_result(computed: Option<Number>) -> (result: Result<Number, EvalError>)
    ensures
        is_outcome(result, in_range_or_overflow(computed)),
{
    match computed {
        Some(v) => Ok(v),
        None => Err(EvalError::Overflow),
    }
}

/// The result of an expression, given the operand left on top and what it
/// reads as: that number, or the error that holds the operand.
pub fn final_value(top: String, parsed: Option<Number>) -> (result: Result<Number, EvalError>)
    ensures
        is_outcome(result, number_or_malformed(top@, parsed)),
{
    match parsed {
        Some(v) => Ok(v),
        None => Err(EvalError::MalformedNumber(top)),
    }
}

/// Applies the operator with the given symbol to `x` and `y`.
pub fn evaluate_operator(x: Number, y: Number, op: char) -> (result: Result<Number, EvalError>)
    ensures
        is_outcome(result, operation(op, x, y)),
{
    match op {
        '=' => Ok(Number::truth(equal(x, y))),
        '^' => arithmetic_result(checked_pow(x, y)),
        '+' => arithmetic_result(checked_add(x, y)),
        '-' => arithmetic_result(checked_sub(x, y)),
        '*' => arithmetic_result(checked_mul(x, y)),
        '/' => if y.is_zero() {
            Err(EvalError::DivisionByZero)
        } else {
            arithmetic_result(checked_div(x, y))
        },
        '%' => if y.is_zero() {
            Err(EvalError::DivisionByZero)
        } else {
            arithmetic_result(checked_rem(x, y))
        },
        _ => Err(EvalError::UnknownOperator(op)),
    }
}

/// Runs a postfix program against a context.
///
/// Fails where an operator lacks an operand, where an operand of an
/// operator is neither a number nor a name of the context, where an
/// operator cannot give a result, and where the operand left on top at the
/// end is no number.
pub fn evaluate_postfix(program: &VecDeque<String>, context: &Context) -> (result: Result<
    Number,
    EvalError,
>)
    ensures
        is_outcome(result, value_of_program(texts(program@), context@)),
{
    let mut stack: Vec<String> = Vec::new();
    let mut i: usize = 0;
    assert(texts(stack@) =~= Seq::<Seq<char>>::empty());
    assert(texts(program@).skip(0) =~= texts(program@));
    while i < program.len()
        invariant
            i <= program.len(),
            run(texts(program@).skip(i as int), texts(stack@), context@) == value_of_program(
                texts(program@),
                context@,
            ),
        decreases program.len() - i,
    {
        let ghost before = stack@;
        let next = &program[i];
        assert(texts(program@).skip(i as int)[0] == next@);
        assert(texts(program@).skip(i as int).drop_first() =~= texts(program@).skip(i + 1));
        let precedence = operator_precedence(next.as_str());
        if precedence.0 != NOT_AN_OPERATOR {
            if stack.len() < 2 {
                return Err(EvalError::MissingOperand(next.clone()));
            }
            let y = stack.pop().unwrap();
            let x = stack.pop().unwrap();
            assert(texts(before)[before.len() - 1] == y@);
            assert(texts(before)[before.len() - 2] == x@);
            assert(texts(stack@) =~= texts(before).subrange(0, before.len() - 2));
            let x_val = get_val(context, &x);
            let y_val = get_val(context, &y);
            let (a, b) = match operand_values(x, y, x_val, y_val) {
                Ok(values) => values,
                Err(e) => {
                    return Err(e);
                },
            };
            match evaluate_operator(a, b, precedence.1) {
                Ok(v) => {
                    let ghost popped = stack@;
                    let text = to_text(v);
                    stack.push(text);
                    assert(texts(stack@) =~= texts(popped).push(decimal_text(v)));
                },
                Err(e) => {
                    return Err(e);
                },
            }
        } else {
            stack.push(next.clone());
            assert(texts(stack@) =~= texts(before).push(next@));
        }
        i = i + 1;
    }
    let ghost last = stack@;
    match stack.pop() {
        None => Err(EvalError::EmptyExpression),
        Some(top) => {
            assert(texts(last).last() == top@);
            let parsed = parse_rounded(top.as_str());
            final_value(top, parsed)
        },
    }
}

/// Evaluates an arithmetic expression against a context of named values.
///
/// The operators are `+`, `-`, `*`, `/`, `%` (remainder), `^` (power) and
/// `=` (1.0 where both sides have the same value, else 0.0), with
/// parentheses for grouping. `*`, `/` and `%` bind most tightly, then `+`
/// and `-`, then `^`, then `=`. Operators of equal precedence group to the
/// left, `^` too. All arithmetic is decimal arithmetic.
pub fn evaluate_expression(expression: &str, context: &Context) -> (result: Result<
    Number,
    EvalError,
>)
    ensures
        is_outcome(result, evaluation_of(expression@, context@)),
        forall|tree: Tree|
            tree.well_formed() && tokens_of(expression@) == Ok::<Seq<Seq<char>>, Failure>(
                #[trigger] tree.infix(),
            ) ==> is_outcome(result, tree.value(context@)),
        result matches Err(e) ==> !(e@ is UnknownOperator),
{
    proof {
        lemma_every_operator_is_known(expression@, context@);
        assert forall|tree: Tree|
            tree.well_formed() && tokens_of(expression@) == Ok::<Seq<Seq<char>>, Failure>(
                #[trigger] tree.infix(),
            ) implies evaluation_of(expression@, context@) == tree.value(context@) by {
            lemma_evaluation_follows_the_tree(expression@, tree, context@);
        }
    }
    let tokens = match tokenize(expression) {
        Ok(tokens) => tokens,
        Err(e) => {
            return Err(e);
        },
    };
    match to_postfix(&tokens) {
        Ok(program) => evaluate_postfix(&program, context),
        Err(e) => Err(e),
    }
}

} // verus!
