//! From infix to postfix order: operands keep their order, and each
//! operator moves behind its two operands.
//!
//! The tokens are read once. Operators wait on a stack until an operator of
//! no higher precedence, a closing parenthesis or the end of the tokens
//! sends them to the output. Operators of equal precedence leave in the
//! order in which they came, so all of them group to the left.

use vstd::prelude::*;
use std::collections::VecDeque;
use crate::error::{EvalError, Failure};
use crate::operator::{
    is_binary_operator, is_left_parenthesis, is_operand, is_right_parenthesis, lemma_token_kinds,
    operator_precedence, precedence_of, NOT_AN_OPERATOR, SUBEXPRESSION_PRECEDENCE,
};
use crate::tokenizer::{is_symbol, texts, tokenize, tokens_of};
use crate::tree::{lemma_postfix_of_tree, Tree};

verus! {

/// Output and stack after the operators on top of the stack that bind at
/// least as tightly as `precedence` have gone to the output. An open
/// parenthesis stops them.
pub open spec fn pop_operators(output: Seq<Seq<char>>, stack: Seq<Seq<char>>, precedence: int) -> (
    Seq<Seq<char>>,
    Seq<Seq<char>>,
)
    decreases stack.len(),
{
    if stack.len() > 0 && precedence_of(stack.last()).0 >= precedence && stack.last() != seq!['('] {
        pop_operators(output.push(stack.last()), stack.drop_last(), precedence)
    } else {
        (output, stack)
    }
}

/// Output and stack after a closing parenthesis: the operators above the
/// nearest open parenthesis have gone to the output, and that parenthesis
/// is dropped. `None` where the stack holds no open parenthesis.
pub open spec fn close_parenthesis(output: Seq<Seq<char>>, stack: Seq<Seq<char>>) -> Option<
    (Seq<Seq<char>>, Seq<Seq<char>>),
>
    decreases stack.len(),
{
    if stack.len() == 0 {
        None
    } else if stack.last() == seq!['('] {
        Some((output, stack.drop_last()))
    } else {
        close_parenthesis(output.push(stack.last()), stack.drop_last())
    }
}

/// The output once the tokens have ended: what is left on the stack
/// follows, top first. An open parenthesis left there was never closed.
pub open spec fn drain(output: Seq<Seq<char>>, stack: Seq<Seq<char>>) -> Result<
    Seq<Seq<char>>,
    Failure,
>
    decreases stack.len(),
{
    if stack.len() == 0 {
        Ok(output)
    } else if stack.last() == seq!['('] {
        Err(Failure::MissingRightParenthesis)
    } else {
        drain(output.push(stack.last()), stack.drop_last())
    }
}

/// The postfix order of `tokens` from position `i` on, given the output
/// and the stack that the tokens before `i` have left.
pub open spec fn shunt(
    tokens: Seq<Seq<char>>,
    i: int,
    output: Seq<Seq<char>>,
    stack: Seq<Seq<char>>,
) -> Result<Seq<Seq<char>>, Failure>
    decreases tokens.len() - i,
{
    if i < 0 || i >= tokens.len() {
        drain(output, stack)
    } else {
        let token = tokens[i];
        let precedence = precedence_of(token).0;
        if precedence == NOT_AN_OPERATOR {
            shunt(tokens, i + 1, output.push(token), stack)
        } else if precedence < SUBEXPRESSION_PRECEDENCE {
            let (popped, rest) = pop_operators(output, stack, precedence as int);
            shunt(tokens, i + 1, popped, rest.push(token))
        } else if token == seq!['('] {
            shunt(tokens, i + 1, output, stack.push(token))
        } else {
            match close_parenthesis(output, stack) {
                Some((popped, rest)) => shunt(tokens, i + 1, popped, rest),
                None => Err(Failure::MissingLeftParenthesis),
            }
        }
    }
}

/// The postfix order of a sequence of tokens, or the parenthesis that is
/// missing.
pub open spec fn postfix_of(tokens: Seq<Seq<char>>) -> Result<Seq<Seq<char>>, Failure> {
    shunt(tokens, 0, Seq::empty(), Seq::empty())
}

/// The postfix order of the tokens of a text.
pub open spec fn postfix_of_text(text: Seq<char>) -> Result<Seq<Seq<char>>, Failure> {
    match tokens_of(text) {
        Ok(tokens) => postfix_of(tokens),
        Err(failure) => Err(failure),
    }
}

/// How many parentheses are open after the first `i` tokens: each `(`
/// counts one up, each `)` one down.
pub open spec fn depth(tokens: Seq<Seq<char>>, i: int) -> int
    decreases i,
{
    if i <= 0 {
        0
    } else if is_left_parenthesis(tokens[i - 1]) {
        depth(tokens, i - 1) + 1
    } else if is_right_parenthesis(tokens[i - 1]) {
        depth(tokens, i - 1) - 1
    } else {
        depth(tokens, i - 1)
    }
}

/// Some `)` closes a parenthesis that was never opened.
pub open spec fn closes_unopened(tokens: Seq<Seq<char>>) -> bool {
    exists|i: int| 0 <= i <= tokens.len() && #[trigger] depth(tokens, i) < 0
}

/// Every `)` closes a `(` before it, and every `(` is closed.
pub open spec fn balanced(tokens: Seq<Seq<char>>) -> bool {
    !closes_unopened(tokens) && depth(tokens, tokens.len() as int) == 0
}

/// A token that is no parenthesis.
pub open spec fn is_plain(token: Seq<char>) -> bool {
    is_operand(token) || is_binary_operator(token)
}

/// How many `(` a stack holds.
pub open spec fn open_count(stack: Seq<Seq<char>>) -> int
    decreases stack.len(),
{
    if stack.len() == 0 {
        0
    } else if is_left_parenthesis(stack.last()) {
        open_count(stack.drop_last()) + 1
    } else {
        open_count(stack.drop_last())
    }
}

/// What the operator stack holds at any time: operators and `(`.
pub open spec fn waiting(stack: Seq<Seq<char>>) -> bool {
    forall|k: int|
        0 <= k < stack.len() ==> is_binary_operator(#[trigger] stack[k]) || is_left_parenthesis(
            stack[k],
        )
}

/// No token of the sequence is a parenthesis.
pub open spec fn all_plain(tokens: Seq<Seq<char>>) -> bool {
    forall|k: int| 0 <= k < tokens.len() ==> is_plain(#[trigger] tokens[k])
}

proof fn lemma_waiting_drop(stack: Seq<Seq<char>>)
    requires
        waiting(stack),
        stack.len() > 0,
    ensures
        waiting(stack.drop_last()),
        !is_left_parenthesis(stack.last()) ==> is_binary_operator(stack.last()),
{
    assert(is_binary_operator(stack[stack.len() - 1]) || is_left_parenthesis(stack[stack.len() - 1]));
    assert forall|k: int| 0 <= k < stack.drop_last().len() implies is_binary_operator(
        #[trigger] stack.drop_last()[k],
    ) || is_left_parenthesis(stack.drop_last()[k]) by {
        assert(stack.drop_last()[k] == stack[k]);
    }
}

proof fn lemma_waiting_push(stack: Seq<Seq<char>>, token: Seq<char>)
    requires
        waiting(stack),
        is_binary_operator(token) || is_left_parenthesis(token),
    ensures
        waiting(stack.push(token)),
        open_count(stack.push(token)) == open_count(stack) + if is_left_parenthesis(token) {
            1int
        } else {
            0int
        },
{
    assert(stack.push(token).drop_last() =~= stack);
    assert forall|k: int| 0 <= k < stack.push(token).len() implies is_binary_operator(
        #[trigger] stack.push(token)[k],
    ) || is_left_parenthesis(stack.push(token)[k]) by {
        if k < stack.len() {
            assert(stack.push(token)[k] == stack[k]);
        }
    }
}

proof fn lemma_plain_push(output: Seq<Seq<char>>, token: Seq<char>)
    requires
        all_plain(output),
        is_plain(token),
    ensures
        all_plain(output.push(token)),
{
    assert forall|k: int| 0 <= k < output.push(token).len() implies is_plain(
        #[trigger] output.push(token)[k],
    ) by {
        if k < output.len() {
            assert(output.push(token)[k] == output[k]);
        }
    }
}

proof fn lemma_open_count_sign(stack: Seq<Seq<char>>)
    ensures
        open_count(stack) >= 0,
    decreases stack.len(),
{
    if stack.len() > 0 {
        lemma_open_count_sign(stack.drop_last());
    }
}

/// Popping operators keeps every `(` on the stack and sends no parenthesis
/// to the output.
proof fn lemma_pop_operators(output: Seq<Seq<char>>, stack: Seq<Seq<char>>, precedence: int)
    requires
        waiting(stack),
        all_plain(output),
    ensures
        waiting(pop_operators(output, stack, precedence).1),
        all_plain(pop_operators(output, stack, precedence).0),
        open_count(pop_operators(output, stack, precedence).1) == open_count(stack),
    decreases stack.len(),
{
    if stack.len() > 0 && precedence_of(stack.last()).0 >= precedence && stack.last() != seq!['('] {
        lemma_waiting_drop(stack);
        lemma_plain_push(output, stack.last());
        lemma_pop_operators(output.push(stack.last()), stack.drop_last(), precedence);
    }
}

/// A closing parenthesis finds its partner exactly when the stack holds a
/// `(`, and takes one away.
proof fn lemma_close_parenthesis(output: Seq<Seq<char>>, stack: Seq<Seq<char>>)
    requires
        waiting(stack),
        all_plain(output),
    ensures
        close_parenthesis(output, stack) is None <==> open_count(stack) == 0,
        close_parenthesis(output, stack) matches Some(after) ==> {
            &&& waiting(after.1)
            &&& all_plain(after.0)
            &&& open_count(after.1) == open_count(stack) - 1
        },
    decreases stack.len(),
{
    if stack.len() > 0 {
        lemma_waiting_drop(stack);
        lemma_open_count_sign(stack.drop_last());
        if stack.last() != seq!['('] {
            lemma_plain_push(output, stack.last());
            lemma_close_parenthesis(output.push(stack.last()), stack.drop_last());
        }
    }
}

/// The stack empties into the output exactly when it holds no `(`.
proof fn lemma_drain(output: Seq<Seq<char>>, stack: Seq<Seq<char>>)
    requires
        waiting(stack),
        all_plain(output),
    ensures
        drain(output, stack) is Ok <==> open_count(stack) == 0,
        drain(output, stack) matches Ok(program) ==> all_plain(program),
        drain(output, stack) matches Err(failure) ==> failure == Failure::MissingRightParenthesis,
    decreases stack.len(),
{
    if stack.len() > 0 {
        lemma_waiting_drop(stack);
        lemma_open_count_sign(stack.drop_last());
        if stack.last() != seq!['('] {
            lemma_plain_push(output, stack.last());
            lemma_drain(output.push(stack.last()), stack.drop_last());
        }
    }
}

proof fn lemma_shunt_parentheses(
    tokens: Seq<Seq<char>>,
    i: int,
    output: Seq<Seq<char>>,
    stack: Seq<Seq<char>>,
)
    requires
        0 <= i <= tokens.len(),
        waiting(stack),
        all_plain(output),
        open_count(stack) == depth(tokens, i),
        forall|j: int| 0 <= j <= i ==> #[trigger] depth(tokens, j) >= 0,
    ensures
        match shunt(tokens, i, output, stack) {
            Ok(program) => balanced(tokens) && all_plain(program),
            Err(Failure::MissingLeftParenthesis) => closes_unopened(tokens),
            Err(Failure::MissingRightParenthesis) => !closes_unopened(tokens) && depth(
                tokens,
                tokens.len() as int,
            ) > 0,
            Err(_) => false,
        },
    decreases tokens.len() - i,
{
    if i >= tokens.len() {
        lemma_drain(output, stack);
        lemma_open_count_sign(stack);
    } else {
        let token = tokens[i];
        let precedence = precedence_of(token).0;
        lemma_token_kinds(token);
        if precedence == NOT_AN_OPERATOR {
            lemma_plain_push(output, token);
            lemma_shunt_parentheses(tokens, i + 1, output.push(token), stack);
        } else if precedence < SUBEXPRESSION_PRECEDENCE {
            lemma_pop_operators(output, stack, precedence as int);
            let (popped, rest) = pop_operators(output, stack, precedence as int);
            lemma_waiting_push(rest, token);
            lemma_shunt_parentheses(tokens, i + 1, popped, rest.push(token));
        } else if token == seq!['('] {
            lemma_waiting_push(stack, token);
            lemma_shunt_parentheses(tokens, i + 1, output, stack.push(token));
        } else {
            lemma_close_parenthesis(output, stack);
            match close_parenthesis(output, stack) {
                Some((popped, rest)) => {
                    lemma_shunt_parentheses(tokens, i + 1, popped, rest);
                },
                None => {
                    assert(depth(tokens, i + 1) < 0);
                },
            }
        }
    }
}

/// Conversion to postfix order succeeds exactly on balanced parentheses.
/// It reports a missing `(` where some `)` closes nothing, and a missing
/// `)` where every `)` closes something and some `(` stays open. What it
/// gives holds no parenthesis.
pub proof fn lemma_postfix_checks_parentheses(tokens: Seq<Seq<char>>)
    ensures
        postfix_of(tokens) is Ok <==> balanced(tokens),
        postfix_of(tokens) == Err::<Seq<Seq<char>>, Failure>(Failure::MissingLeftParenthesis)
            <==> closes_unopened(tokens),
        postfix_of(tokens) == Err::<Seq<Seq<char>>, Failure>(Failure::MissingRightParenthesis)
            <==> !closes_unopened(tokens) && depth(tokens, tokens.len() as int) > 0,
        postfix_of(tokens) matches Ok(program) ==> all_plain(program),
{
    lemma_shunt_parentheses(tokens, 0, Seq::empty(), Seq::empty());
}

/// A tree that the tokens spell has its postorder as their postfix order.
pub open spec fn follows_every_tree(
    tokens: Seq<Seq<char>>,
    outcome: Result<Seq<Seq<char>>, Failure>,
) -> bool {
    forall|tree: Tree|
        tree.well_formed() && #[trigger] tree.infix() == tokens ==> outcome == Ok::<
            Seq<Seq<char>>,
            Failure,
        >(tree.postorder())
}

/// What holds of the postfix order of any tokens: it exists exactly where
/// the parentheses are balanced, it holds no parenthesis, and it is the
/// postorder of the tree that the tokens spell.
pub proof fn lemma_postfix(tokens: Seq<Seq<char>>)
    ensures
        postfix_of(tokens) is Ok <==> balanced(tokens),
        postfix_of(tokens) matches Ok(program) ==> all_plain(program),
        postfix_of(tokens) matches Err(failure) ==> failure == if closes_unopened(tokens) {
            Failure::MissingLeftParenthesis
        } else {
            Failure::MissingRightParenthesis
        },
        follows_every_tree(tokens, postfix_of(tokens)),
{
    lemma_postfix_checks_parentheses(tokens);
    assert forall|tree: Tree| tree.well_formed() && #[trigger] tree.infix() == tokens implies postfix_of(
        tokens,
    ) == Ok::<Seq<Seq<char>>, Failure>(tree.postorder()) by {
        lemma_postfix_of_tree(tree);
    }
}

/// Whether `result` is what `expected` says: the same program, or an error
/// that stands for the same failure.
pub open spec fn is_program(
    result: Result<VecDeque<String>, EvalError>,
    expected: Result<Seq<Seq<char>>, Failure>,
) -> bool {
    match result {
        Ok(program) => expected == Ok::<Seq<Seq<char>>, Failure>(texts(program@)),
        Err(error) => expected == Err::<Seq<Seq<char>>, Failure>(error@),
    }
}

/// The tokens on a stack whose entries carry their precedence.
pub open spec fn stacked(stack: Seq<(i32, String)>) -> Seq<Seq<char>> {
    stack.map_values(|entry: (i32, String)| entry.1@)
}

fn binds_at_least(stack: &Vec<(i32, String)>, precedence: i32) -> (b: bool)
    requires
        forall|k: int| 0 <= k < stack.len() ==> (#[trigger] stack[k]).0 == precedence_of(stack[k].1@).0,
    ensures
        b == (stack.len() > 0 && precedence_of(stacked(stack@).last()).0 >= precedence && stacked(
            stack@,
        ).last() != seq!['(']),
{
    if stack.len() == 0 {
        return false;
    }
    let top = &stack[stack.len() - 1];
    assert(stacked(stack@).last() == top.1@);
    top.0 >= precedence && !is_symbol(top.1.as_str(), '(')
}

/// Reorders infix tokens into postfix order.
///
/// Fails where a closing parenthesis has no open one before it, and where
/// an open one is never closed. Nothing else is checked: operands and
/// operators may stand in any order.
pub fn to_postfix(tokens: &Vec<String>) -> (result: Result<VecDeque<String>, EvalError>)
    ensures
        is_program(result, postfix_of(texts(tokens@))),
        result is Ok <==> balanced(texts(tokens@)),
        result matches Ok(program) ==> all_plain(texts(program@)),
        result matches Err(e) ==> e@ == if closes_unopened(texts(tokens@)) {
            Failure::MissingLeftParenthesis
        } else {
            Failure::MissingRightParenthesis
        },
        forall|tree: Tree|
            tree.well_formed() && #[trigger] tree.infix() == texts(tokens@) ==> is_program(
                result,
                Ok(tree.postorder()),
            ),
{
    let mut output: VecDeque<String> = VecDeque::new();
    let mut operator_stack: Vec<(i32, String)> = Vec::new();
    let mut i: usize = 0;
    assert(texts(output@) =~= Seq::<Seq<char>>::empty());
    assert(stacked(operator_stack@) =~= Seq::<Seq<char>>::empty());
    while i < tokens.len()
        invariant
            i <= tokens.len(),
            forall|k: int|
                0 <= k < operator_stack.len() ==> (#[trigger] operator_stack[k]).0 == precedence_of(
                    operator_stack[k].1@,
                ).0,
            shunt(texts(tokens@), i as int, texts(output@), stacked(operator_stack@)) == postfix_of(
                texts(tokens@),
            ),
        decreases tokens.len() - i,
    {
        let next = tokens[i].clone();
        assert(texts(tokens@)[i as int] == next@);
        let precedence = operator_precedence(next.as_str());
        if precedence.0 == NOT_AN_OPERATOR {
            let ghost before = output@;
            output.push_back(next);
            assert(texts(output@) =~= texts(before).push(next@));
        } else if precedence.0 < SUBEXPRESSION_PRECEDENCE {
            let ghost first_output = texts(output@);
            let ghost first_stack = stacked(operator_stack@);
            while binds_at_least(&operator_stack, precedence.0)
                invariant
                    forall|k: int|
                        0 <= k < operator_stack.len() ==> (#[trigger] operator_stack[k]).0
                            == precedence_of(operator_stack[k].1@).0,
                    pop_operators(
                        texts(output@),
                        stacked(operator_stack@),
                        precedence.0 as int,
                    ) == pop_operators(first_output, first_stack, precedence.0 as int),
                decreases operator_stack.len(),
            {
                let ghost before = output@;
                let ghost stack_before = operator_stack@;
                let entry = operator_stack.pop().unwrap();
                output.push_back(entry.1);
                assert(texts(output@) =~= texts(before).push(entry.1@));
                assert(stacked(operator_stack@) =~= stacked(stack_before).drop_last());
                assert(stacked(stack_before).last() == entry.1@);
            }
            let ghost stack_before = operator_stack@;
            operator_stack.push((precedence.0, next));
            assert(stacked(operator_stack@) =~= stacked(stack_before).push(next@));
        } else if is_symbol(next.as_str(), '(') {
            let ghost stack_before = operator_stack@;
            operator_stack.push((precedence.0, next));
            assert(stacked(operator_stack@) =~= stacked(stack_before).push(next@));
        } else {
            let ghost first_output = texts(output@);
            let ghost first_stack = stacked(operator_stack@);
            let mut found_left_parens = false;
            while !found_left_parens && operator_stack.len() > 0
                invariant
                    forall|k: int|
                        0 <= k < operator_stack.len() ==> (#[trigger] operator_stack[k]).0
                            == precedence_of(operator_stack[k].1@).0,
                    !found_left_parens ==> close_parenthesis(
                        texts(output@),
                        stacked(operator_stack@),
                    ) == close_parenthesis(first_output, first_stack),
                    found_left_parens ==> close_parenthesis(first_output, first_stack) == Some(
                        (texts(output@), stacked(operator_stack@)),
                    ),
                decreases operator_stack.len() + (if found_left_parens { 0int } else { 1int }),
            {
                let ghost before = output@;
                let ghost stack_before = operator_stack@;
                let entry = operator_stack.pop().unwrap();
                assert(stacked(operator_stack@) =~= stacked(stack_before).drop_last());
                assert(stacked(stack_before).last() == entry.1@);
                if is_symbol(entry.1.as_str(), '(') {
                    found_left_parens = true;
                } else {
                    output.push_back(entry.1);
                    assert(texts(output@) =~= texts(before).push(entry.1@));
                }
            }
            if !found_left_parens {
                proof {
                    lemma_postfix(texts(tokens@));
                }
                return Err(EvalError::MissingLeftParenthesis);
            }
        }
        i = i + 1;
    }
    while operator_stack.len() > 0
        invariant
            drain(texts(output@), stacked(operator_stack@)) == postfix_of(texts(tokens@)),
        decreases operator_stack.len(),
    {
        let ghost before = output@;
        let ghost stack_before = operator_stack@;
        let entry = operator_stack.pop().unwrap();
        assert(stacked(operator_stack@) =~= stacked(stack_before).drop_last());
        assert(stacked(stack_before).last() == entry.1@);
        if is_symbol(entry.1.as_str(), '(') {
            proof {
                lemma_postfix(texts(tokens@));
            }
            return Err(EvalError::MissingRightParenthesis);
        }
        output.push_back(entry.1);
        assert(texts(output@) =~= texts(before).push(entry.1@));
    }
    proof {
        lemma_postfix(texts(tokens@));
    }
    Ok(output)
}

/// Reads an expression and puts its tokens in postfix order.
pub fn reverse_polish_notate(expression: String) -> (result: Result<VecDeque<String>, EvalError>)
    ensures
        is_program(result, postfix_of_text(expression@)),
        result matches Ok(program) ==> all_plain(texts(program@)),
        result matches Err(e) ==> e@.is_syntactic(),
{
    match tokenize(expression.as_str()) {
        Ok(tokens) => to_postfix(&tokens),
        Err(e) => Err(e),
    }
}

} // verus!
