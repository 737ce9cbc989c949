//! The operator table: which tokens are operators, and how tightly each binds.

use vstd::prelude::*;

verus! {

/// The precedence of a token that is no operator: a number or a name.
pub const NOT_AN_OPERATOR: i32 = -1;

/// The precedence of a parenthesis, above that of every operator.
pub const SUBEXPRESSION_PRECEDENCE: i32 = 1000;

/// The character that stands for "no symbol" beside a precedence.
pub const NO_SYMBOL: char = '\0';

/// Precedence and symbol of a one-character token.
pub open spec fn symbol_precedence(c: char) -> (i32, char) {
    match c {
        '=' => (10, '='),
        '^' => (40, '^'),
        '+' => (50, '+'),
        '-' => (50, '-'),
        '*' => (80, '*'),
        '/' => (80, '/'),
        '%' => (80, '%'),
        '(' => (SUBEXPRESSION_PRECEDENCE, NO_SYMBOL),
        ')' => (SUBEXPRESSION_PRECEDENCE, NO_SYMBOL),
        _ => (NOT_AN_OPERATOR, NO_SYMBOL),
    }
}

/// Precedence and symbol of a token. `=` binds least, then `^`, then `+`
/// and `-`, then `*`, `/` and `%`. A parenthesis has the highest precedence
/// and no symbol; any other token is no operator.
pub open spec fn precedence_of(token: Seq<char>) -> (i32, char) {
    if token.len() == 1 {
        symbol_precedence(token[0])
    } else {
        (NOT_AN_OPERATOR, NO_SYMBOL)
    }
}

/// A number or a name.
pub open spec fn is_operand(token: Seq<char>) -> bool {
    precedence_of(token).0 == NOT_AN_OPERATOR
}

/// One of `=`, `^`, `+`, `-`, `*`, `/`, `%`.
pub open spec fn is_binary_operator(token: Seq<char>) -> bool {
    0 <= precedence_of(token).0 < SUBEXPRESSION_PRECEDENCE
}

/// The token `(`.
pub open spec fn is_left_parenthesis(token: Seq<char>) -> bool {
    token == seq!['(']
}

/// The token `)`.
pub open spec fn is_right_parenthesis(token: Seq<char>) -> bool {
    token == seq![')']
}

/// Every token is of exactly one of the four kinds.
pub proof fn lemma_token_kinds(token: Seq<char>)
    ensures
        is_operand(token) || is_binary_operator(token) || is_left_parenthesis(token)
            || is_right_parenthesis(token),
        !(is_operand(token) && is_binary_operator(token)),
        is_left_parenthesis(token) || is_right_parenthesis(token) <==> precedence_of(token).0
            == SUBEXPRESSION_PRECEDENCE,
        !(is_left_parenthesis(token) && is_right_parenthesis(token)),
{
    if token.len() == 1 {
        let c = token[0];
        assert(token =~= seq![c]);
        assert(seq!['('][0] == '(');
        assert(seq![')'][0] == ')');
    } else {
        assert(seq!['('].len() == 1);
        assert(seq![')'].len() == 1);
    }
}

/// Looks a token up in the operator table.
pub fn operator_precedence(op: &str) -> (entry: (i32, char))
    ensures
        entry == precedence_of(op@),
{
    if op.unicode_len() != 1 {
        return (NOT_AN_OPERATOR, NO_SYMBOL);
    }
    match op.get_char(0) {
        '=' => (10, '='),
        '^' => (40, '^'),
        '+' => (50, '+'),
        '-' => (50, '-'),
        '*' => (80, '*'),
        '/' => (80, '/'),
        '%' => (80, '%'),
        '(' => (SUBEXPRESSION_PRECEDENCE, NO_SYMBOL),
        ')' => (SUBEXPRESSION_PRECEDENCE, NO_SYMBOL),
        _ => (NOT_AN_OPERATOR, NO_SYMBOL),
    }
}

} // verus!
