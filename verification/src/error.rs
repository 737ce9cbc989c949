//! What can go wrong while an expression is read or evaluated.

use vstd::prelude::*;

verus! {

/// The ways in which reading or evaluating an expression fails, as
/// mathematical values: names and symbols are sequences of characters.
pub enum Failure {
    /// The text holds a character that belongs to no token.
    UnexpectedCharacter(char),
    /// A `)` has no `(` before it to close.
    MissingLeftParenthesis,
    /// A `(` is still open when the tokens end.
    MissingRightParenthesis,
    /// One operand of an operator is neither a number nor a known name.
    UnknownVariable(Seq<char>),
    /// Neither operand of an operator is a number or a known name:
    /// the left one, then the right one.
    UnknownVariables(Seq<char>, Seq<char>),
    /// An operator found fewer than two operands before it.
    MissingOperand(Seq<char>),
    /// A token of the operator table has a symbol that names no operation:
    /// a parenthesis stands where only operators and operands may. A
    /// program made by hand can fail so; evaluating a text never does.
    UnknownOperator(char),
    /// The right operand of `/` or `%` is zero.
    DivisionByZero,
    /// Decimal arithmetic gives no result for an operator: the value is
    /// out of its range.
    Overflow,
    /// The expression holds no operand at all.
    EmptyExpression,
    /// What is left as the result does not read as a number.
    MalformedNumber(Seq<char>),
}

impl Failure {
    /// Whether evaluating again with more names known might succeed.
    /// Every other failure is fatal: the expression itself is at fault.
    pub open spec fn is_recoverable(self) -> bool {
        self is UnknownVariable || self is UnknownVariables
    }

    /// Whether the failure was found before any value was looked up, in
    /// the characters or in the parentheses.
    pub open spec fn is_syntactic(self) -> bool {
        self is UnexpectedCharacter || self is MissingLeftParenthesis
            || self is MissingRightParenthesis
    }
}

/// The error of every fallible function of this crate.
#[derive(Debug, PartialEq, Eq)]
pub enum EvalError {
    /// The text holds a character that belongs to no token.
    UnexpectedCharacter(char),
    /// A `)` has no `(` before it to close.
    MissingLeftParenthesis,
    /// A `(` is still open when the tokens end.
    MissingRightParenthesis,
    /// One operand of an operator is neither a number nor a known name.
    UnknownVariable(String),
    /// Neither operand of an operator is a number or a known name:
    /// the left one, then the right one.
    UnknownVariables(String, String),
    /// An operator found fewer than two operands before it.
    MissingOperand(String),
    /// A token of the operator table has a symbol that names no operation:
    /// a parenthesis stands where only operators and operands may. A
    /// program made by hand can fail so; evaluating a text never does.
    UnknownOperator(char),
    /// The right operand of `/` or `%` is zero.
    DivisionByZero,
    /// Decimal arithmetic gives no result for an operator: the value is
    /// out of its range.
    Overflow,
    /// The expression holds no operand at all.
    EmptyExpression,
    /// What is left as the result does not read as a number.
    MalformedNumber(String),
}

impl View for EvalError {
    type V = Failure;

    open spec fn view(&self) -> Failure {
        match *self {
            EvalError::UnexpectedCharacter(c) => Failure::UnexpectedCharacter(c),
            EvalError::MissingLeftParenthesis => Failure::MissingLeftParenthesis,
            EvalError::MissingRightParenthesis => Failure::MissingRightParenthesis,
            EvalError::UnknownVariable(name) => Failure::UnknownVariable(name@),
            EvalError::UnknownVariables(left, right) => Failure::UnknownVariables(left@, right@),
            EvalError::MissingOperand(symbol) => Failure::MissingOperand(symbol@),
            EvalError::UnknownOperator(symbol) => Failure::UnknownOperator(symbol),
            EvalError::DivisionByZero => Failure::DivisionByZero,
            EvalError::Overflow => Failure::Overflow,
            EvalError::EmptyExpression => Failure::EmptyExpression,
            EvalError::MalformedNumber(text) => Failure::MalformedNumber(text@),
        }
    }
}

/// Whether `result` is what `expected` says: the same value, or an error
/// that stands for the same failure.
pub open spec fn is_outcome<T>(result: Result<T, EvalError>, expected: Result<T, Failure>) -> bool {
    match result {
        Ok(value) => expected == Ok::<T, Failure>(value),
        Err(error) => expected == Err::<T, Failure>(error@),
    }
}

impl Clone for EvalError {
    fn clone(&self) -> (copy: Self)
        ensures
            copy@ == self@,
    {
        match self {
            EvalError::UnexpectedCharacter(c) => EvalError::UnexpectedCharacter(*c),
            EvalError::MissingLeftParenthesis => EvalError::MissingLeftParenthesis,
            EvalError::MissingRightParenthesis => EvalError::MissingRightParenthesis,
            EvalError::UnknownVariable(name) => EvalError::UnknownVariable(name.clone()),
            EvalError::UnknownVariables(left, right) => EvalError::UnknownVariables(
                left.clone(),
                right.clone(),
            ),
            EvalError::MissingOperand(symbol) => EvalError::MissingOperand(symbol.clone()),
            EvalError::UnknownOperator(symbol) => EvalError::UnknownOperator(*symbol),
            EvalError::DivisionByZero => EvalError::DivisionByZero,
            EvalError::Overflow => EvalError::Overflow,
            EvalError::EmptyExpression => EvalError::EmptyExpression,
            EvalError::MalformedNumber(text) => EvalError::MalformedNumber(text.clone()),
        }
    }
}

impl EvalError {
    /// Whether evaluating again with more names known might succeed.
    pub fn is_recoverable(&self) -> (b: bool)
        ensures
            b == self@.is_recoverable(),
    {
        match self {
            EvalError::UnknownVariable(_) => true,
            EvalError::UnknownVariables(_, _) => true,
            _ => false,
        }
    }
}

} // verus!
