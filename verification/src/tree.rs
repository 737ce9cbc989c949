//! Expressions as trees: the shape that precedence, grouping to the left
//! and parentheses give to a sequence of tokens.
//!
//! A tree is what an expression means. The laws here say that conversion to
//! postfix order and evaluation follow it.

use vstd::prelude::*;
use crate::error::Failure;
use crate::evaluator::{application, evaluation_of, outcome, run, value_of, value_of_program};
use crate::number::Number;
use crate::operator::{
    is_binary_operator, is_operand, lemma_token_kinds, precedence_of, SUBEXPRESSION_PRECEDENCE,
};
use crate::postfix::{close_parenthesis, drain, pop_operators, postfix_of, shunt};
use crate::tokenizer::tokens_of;

verus! {

/// An expression as precedence, grouping to the left and parentheses
/// shape it.
pub enum Tree {
    /// A number or a name.
    Operand(Seq<char>),
    /// An expression in parentheses.
    Group(Box<Tree>),
    /// Left operand, operator, right operand.
    Binary(Box<Tree>, Seq<char>, Box<Tree>),
}

impl Tree {
    /// How tightly the expression holds together: the precedence of the
    /// operator that is applied last, and that of a parenthesis where
    /// there is none.
    pub open spec fn binding(self) -> int {
        match self {
            Tree::Binary(_, operator, _) => precedence_of(operator).0 as int,
            _ => SUBEXPRESSION_PRECEDENCE as int,
        }
    }

    /// Operands are operand tokens, operators are operator tokens, and no
    /// operator has a looser one inside an operand without parentheses: the
    /// left operand binds at least as tightly as the operator, and the right
    /// operand binds more tightly. So of two operators of equal precedence
    /// the left one is applied first.
    pub open spec fn well_formed(self) -> bool
        decreases self,
    {
        match self {
            Tree::Operand(token) => is_operand(token),
            Tree::Group(inner) => inner.well_formed(),
            Tree::Binary(left, operator, right) => {
                &&& is_binary_operator(operator)
                &&& left.well_formed()
                &&& right.well_formed()
                &&& left.binding() >= precedence_of(operator).0
                &&& right.binding() > precedence_of(operator).0
            },
        }
    }

    /// The tokens of the expression as it is written.
    pub open spec fn infix(self) -> Seq<Seq<char>>
        decreases self,
    {
        match self {
            Tree::Operand(token) => seq![token],
            Tree::Group(inner) => seq![seq!['(']] + inner.infix() + seq![seq![')']],
            Tree::Binary(left, operator, right) => left.infix() + seq![operator] + right.infix(),
        }
    }

    /// The tokens of the expression with each operator behind its operands.
    pub open spec fn postorder(self) -> Seq<Seq<char>>
        decreases self,
    {
        match self {
            Tree::Operand(token) => seq![token],
            Tree::Group(inner) => inner.postorder(),
            Tree::Binary(left, operator, right) => left.postorder() + right.postorder()
                + seq![operator],
        }
    }

    /// The text that the expression stands for: an operand as it is, and
    /// the result of an operator applied to what its two sides stand for,
    /// the left side first.
    pub open spec fn denotation(self, known: Map<Seq<char>, Number>) -> Result<Seq<char>, Failure>
        decreases self,
    {
        match self {
            Tree::Operand(token) => Ok(token),
            Tree::Group(inner) => inner.denotation(known),
            Tree::Binary(left, operator, right) => match left.denotation(known) {
                Ok(x) => match right.denotation(known) {
                    Ok(y) => application(operator, x, y, known),
                    Err(failure) => Err(failure),
                },
                Err(failure) => Err(failure),
            },
        }
    }

    /// The value of the expression: what it stands for, read as a number.
    pub open spec fn value(self, known: Map<Seq<char>, Number>) -> Result<Number, Failure> {
        match self.denotation(known) {
            Ok(text) => outcome(seq![text]),
            Err(failure) => Err(failure),
        }
    }

    /// The operators that still wait on the stack when the tokens of the
    /// expression have been read, the lowest first.
    pub open spec fn waiting_operators(self) -> Seq<Seq<char>>
        decreases self,
    {
        match self {
            Tree::Binary(_, operator, right) => seq![operator] + right.waiting_operators(),
            _ => Seq::empty(),
        }
    }

    /// What has reached the output when the tokens of the expression have
    /// been read.
    pub open spec fn emitted(self) -> Seq<Seq<char>>
        decreases self,
    {
        match self {
            Tree::Binary(left, _, right) => left.postorder() + right.emitted(),
            _ => self.postorder(),
        }
    }
}

/// Operators that bind at least as tightly as `precedence`, none of them a
/// parenthesis.
spec fn all_bind(operators: Seq<Seq<char>>, precedence: int) -> bool {
    forall|k: int|
        0 <= k < operators.len() ==> is_binary_operator(#[trigger] operators[k]) && precedence_of(
            operators[k],
        ).0 >= precedence
}

/// A stack whose top stops every operator of the given precedence from
/// popping: it is empty, or a `(` is on top, or an operator that binds less
/// tightly.
spec fn stops(stack: Seq<Seq<char>>, precedence: int) -> bool {
    stack.len() == 0 || stack.last() == seq!['('] || precedence_of(stack.last()).0 < precedence
}

proof fn lemma_reverse_last(operators: Seq<Seq<char>>)
    requires
        operators.len() > 0,
    ensures
        operators.reverse() == seq![operators.last()] + operators.drop_last().reverse(),
{
    assert(operators.reverse() =~= seq![operators.last()] + operators.drop_last().reverse());
}

proof fn lemma_all_bind_drop(operators: Seq<Seq<char>>, precedence: int)
    requires
        all_bind(operators, precedence),
        operators.len() > 0,
    ensures
        all_bind(operators.drop_last(), precedence),
        is_binary_operator(operators.last()),
        precedence_of(operators.last()).0 >= precedence,
        operators.last() != seq!['('],
{
    assert(is_binary_operator(operators[operators.len() - 1]));
    lemma_token_kinds(operators.last());
    assert forall|k: int| 0 <= k < operators.drop_last().len() implies is_binary_operator(
        #[trigger] operators.drop_last()[k],
    ) && precedence_of(operators.drop_last()[k]).0 >= precedence by {
        assert(operators.drop_last()[k] == operators[k]);
    }
}

/// An operator sends to the output all the operators above a stop that
/// bind at least as tightly as it does, the topmost first.
proof fn lemma_pop_above_stop(
    output: Seq<Seq<char>>,
    stack: Seq<Seq<char>>,
    operators: Seq<Seq<char>>,
    precedence: int,
)
    requires
        stops(stack, precedence),
        all_bind(operators, precedence),
    ensures
        pop_operators(output, stack + operators, precedence) == (
            output + operators.reverse(),
            stack,
        ),
    decreases operators.len(),
{
    if operators.len() == 0 {
        assert(stack + operators =~= stack);
        assert(output + operators.reverse() =~= output);
    } else {
        let all = stack + operators;
        lemma_all_bind_drop(operators, precedence);
        lemma_reverse_last(operators);
        assert(all.last() == operators.last());
        assert(all.drop_last() =~= stack + operators.drop_last());
        lemma_pop_above_stop(output.push(operators.last()), stack, operators.drop_last(), precedence);
        assert(output.push(operators.last()) + operators.drop_last().reverse() =~= output
            + operators.reverse());
    }
}

/// A closing parenthesis sends to the output all the operators above the
/// `(` it closes, the topmost first.
proof fn lemma_close_above_open(
    output: Seq<Seq<char>>,
    stack: Seq<Seq<char>>,
    operators: Seq<Seq<char>>,
)
    requires
        all_bind(operators, 0),
    ensures
        close_parenthesis(output, stack.push(seq!['(']) + operators) == Some(
            (output + operators.reverse(), stack),
        ),
    decreases operators.len(),
{
    let open = stack.push(seq!['(']);
    if operators.len() == 0 {
        assert(open + operators =~= open);
        assert(open.drop_last() =~= stack);
        assert(output + operators.reverse() =~= output);
    } else {
        let all = open + operators;
        lemma_all_bind_drop(operators, 0);
        lemma_reverse_last(operators);
        assert(all.last() == operators.last());
        assert(all.drop_last() =~= open + operators.drop_last());
        lemma_close_above_open(output.push(operators.last()), stack, operators.drop_last());
        assert(output.push(operators.last()) + operators.drop_last().reverse() =~= output
            + operators.reverse());
    }
}

/// The end of the tokens sends to the output all the operators that
/// wait, the topmost first.
proof fn lemma_drain_operators(output: Seq<Seq<char>>, operators: Seq<Seq<char>>)
    requires
        all_bind(operators, 0),
    ensures
        drain(output, operators) == Ok::<Seq<Seq<char>>, Failure>(output + operators.reverse()),
    decreases operators.len(),
{
    if operators.len() == 0 {
        assert(output + operators.reverse() =~= output);
    } else {
        lemma_all_bind_drop(operators, 0);
        lemma_reverse_last(operators);
        lemma_drain_operators(output.push(operators.last()), operators.drop_last());
        assert(output.push(operators.last()) + operators.drop_last().reverse() =~= output
            + operators.reverse());
    }
}

/// The operators that wait after an expression bind at least as tightly
/// as the expression, and with what was emitted they make its postorder.
proof fn lemma_waiting_operators(tree: Tree)
    requires
        tree.well_formed(),
    ensures
        all_bind(tree.waiting_operators(), tree.binding()),
        all_bind(tree.waiting_operators(), 0),
        tree.postorder() == tree.emitted() + tree.waiting_operators().reverse(),
    decreases tree,
{
    match tree {
        Tree::Binary(left, operator, right) => {
            lemma_waiting_operators(*right);
            let below = right.waiting_operators();
            let all = tree.waiting_operators();
            assert forall|k: int| 0 <= k < all.len() implies is_binary_operator(#[trigger] all[k])
                && precedence_of(all[k]).0 >= tree.binding() by {
                if k > 0 {
                    assert(all[k] == below[k - 1]);
                }
            }
            assert(all.reverse() =~= below.reverse() + seq![operator]);
            assert(tree.postorder() =~= tree.emitted() + all.reverse());
        },
        _ => {
            assert(tree.waiting_operators().reverse() =~= Seq::<Seq<char>>::empty());
            assert(tree.postorder() =~= tree.emitted() + tree.waiting_operators().reverse());
        },
    }
}

/// Reading the tokens of an expression, above a stack that stops its
/// operators, adds what the expression emits to the output and its waiting
/// operators to the stack.
proof fn lemma_shunt_tree(
    tree: Tree,
    tokens: Seq<Seq<char>>,
    i: int,
    output: Seq<Seq<char>>,
    stack: Seq<Seq<char>>,
)
    requires
        tree.well_formed(),
        0 <= i,
        i + tree.infix().len() <= tokens.len(),
        tokens.subrange(i, i + tree.infix().len()) == tree.infix(),
        stops(stack, tree.binding()),
    ensures
        shunt(tokens, i, output, stack) == shunt(
            tokens,
            i + tree.infix().len(),
            output + tree.emitted(),
            stack + tree.waiting_operators(),
        ),
    decreases tree,
{
    let written = tree.infix();
    assert forall|k: int| 0 <= k < written.len() implies tokens[i + k] == written[k] by {
        assert(tokens.subrange(i, i + written.len())[k] == tokens[i + k]);
    }
    match tree {
        Tree::Operand(token) => {
            assert(tokens[i + 0] == written[0]);
            assert(output.push(token) =~= output + tree.emitted());
            assert(stack + tree.waiting_operators() =~= stack);
        },
        Tree::Group(inner) => {
            let n = inner.infix().len() as int;
            let open = seq!['('];
            let close = seq![')'];
            assert(written.len() == n + 2);
            assert(tokens[i + 0] == written[0]);
            assert(tokens[i] == open);
            lemma_token_kinds(open);
            let floor = stack.push(open);
            assert(shunt(tokens, i, output, stack) == shunt(tokens, i + 1, output, floor));
            assert(tokens.subrange(i + 1, i + 1 + n) =~= inner.infix()) by {
                assert forall|k: int| 0 <= k < n implies tokens[i + 1 + k] == inner.infix()[k] by {
                    assert(tokens[i + (1 + k)] == written[1 + k]);
                }
            }
            lemma_shunt_tree(*inner, tokens, i + 1, output, floor);
            lemma_waiting_operators(*inner);
            assert(tokens[i + (1 + n)] == written[1 + n]);
            assert(tokens[i + 1 + n] == close);
            lemma_token_kinds(close);
            lemma_close_above_open(output + inner.emitted(), stack, inner.waiting_operators());
            assert(output + inner.emitted() + inner.waiting_operators().reverse() =~= output
                + tree.emitted());
            assert(stack + tree.waiting_operators() =~= stack);
        },
        Tree::Binary(left, operator, right) => {
            let n = left.infix().len() as int;
            let m = right.infix().len() as int;
            let precedence = precedence_of(operator).0 as int;
            assert(written.len() == n + m + 1);
            assert(tokens.subrange(i, i + n) =~= left.infix()) by {
                assert forall|k: int| 0 <= k < n implies tokens[i + k] == left.infix()[k] by {
                    assert(tokens[i + k] == written[k]);
                }
            }
            lemma_shunt_tree(*left, tokens, i, output, stack);
            lemma_waiting_operators(*left);
            assert(tokens[i + n] == written[n]);
            assert(tokens[i + n] == operator);
            lemma_token_kinds(operator);
            assert(all_bind(left.waiting_operators(), precedence)) by {
                assert forall|k: int| 0 <= k < left.waiting_operators().len() implies is_binary_operator(
                    #[trigger] left.waiting_operators()[k],
                ) && precedence_of(left.waiting_operators()[k]).0 >= precedence by {}
            }
            lemma_pop_above_stop(
                output + left.emitted(),
                stack,
                left.waiting_operators(),
                precedence,
            );
            let after_left = output + left.postorder();
            assert(output + left.emitted() + left.waiting_operators().reverse() =~= after_left);
            let busy = stack.push(operator);
            assert(shunt(tokens, i + n, output + left.emitted(), stack + left.waiting_operators())
                == shunt(tokens, i + n + 1, after_left, busy));
            assert(tokens.subrange(i + n + 1, i + n + 1 + m) =~= right.infix()) by {
                assert forall|k: int| 0 <= k < m implies tokens[i + n + 1 + k] == right.infix()[k] by {
                    assert(tokens[i + (n + 1 + k)] == written[n + 1 + k]);
                }
            }
            lemma_shunt_tree(*right, tokens, i + n + 1, after_left, busy);
            assert(after_left + right.emitted() =~= output + tree.emitted());
            assert(busy + right.waiting_operators() =~= stack + tree.waiting_operators());
        },
    }
}

/// Running the postorder of an expression puts what the expression
/// stands for on the stack, or fails as the expression does.
proof fn lemma_run_tree(
    tree: Tree,
    rest: Seq<Seq<char>>,
    stack: Seq<Seq<char>>,
    known: Map<Seq<char>, Number>,
)
    requires
        tree.well_formed(),
    ensures
        run(tree.postorder() + rest, stack, known) == match tree.denotation(known) {
            Ok(text) => run(rest, stack.push(text), known),
            Err(failure) => Err(failure),
        },
    decreases tree,
{
    match tree {
        Tree::Operand(token) => {
            let program = tree.postorder() + rest;
            assert(program[0] == token);
            assert(program.drop_first() =~= rest);
        },
        Tree::Group(inner) => {
            lemma_run_tree(*inner, rest, stack, known);
        },
        Tree::Binary(left, operator, right) => {
            let tail = seq![operator] + rest;
            let middle = right.postorder() + tail;
            assert(tree.postorder() + rest =~= left.postorder() + middle);
            lemma_run_tree(*left, middle, stack, known);
            match left.denotation(known) {
                Ok(x) => {
                    lemma_run_tree(*right, tail, stack.push(x), known);
                    match right.denotation(known) {
                        Ok(y) => {
                            let full = stack.push(x).push(y);
                            assert(tail[0] == operator);
                            assert(tail.drop_first() =~= rest);
                            lemma_token_kinds(operator);
                            match application(operator, x, y, known) {
                                Ok(text) => {
                                    assert(full.subrange(0, full.len() - 2).push(text)
                                        =~= stack.push(text));
                                },
                                Err(_) => {},
                            }
                        },
                        Err(_) => {},
                    }
                },
                Err(_) => {},
            }
        },
    }
}

/// The postfix order of an expression is its postorder: every operator
/// comes behind its two operands, as precedence, grouping to the left and
/// parentheses assign them.
pub proof fn lemma_postfix_of_tree(tree: Tree)
    requires
        tree.well_formed(),
    ensures
        postfix_of(tree.infix()) == Ok::<Seq<Seq<char>>, Failure>(tree.postorder()),
{
    let tokens = tree.infix();
    let none = Seq::<Seq<char>>::empty();
    assert(tokens.subrange(0, tokens.len() as int) =~= tokens);
    lemma_shunt_tree(tree, tokens, 0, none, none);
    lemma_waiting_operators(tree);
    assert(none + tree.emitted() =~= tree.emitted());
    assert(none + tree.waiting_operators() =~= tree.waiting_operators());
    lemma_drain_operators(tree.emitted(), tree.waiting_operators());
}

/// Running the postorder of an expression gives the value of the
/// expression.
pub proof fn lemma_value_of_tree(tree: Tree, known: Map<Seq<char>, Number>)
    requires
        tree.well_formed(),
    ensures
        value_of_program(tree.postorder(), known) == tree.value(known),
{
    lemma_run_tree(tree, Seq::empty(), Seq::empty(), known);
    assert(tree.postorder() + Seq::<Seq<char>>::empty() =~= tree.postorder());
    match tree.denotation(known) {
        Ok(text) => {
            assert(Seq::<Seq<char>>::empty().push(text) =~= seq![text]);
        },
        Err(_) => {},
    }
}

/// A text whose tokens spell an expression evaluates to the value of that
/// expression: each operator is applied to what its two operands give,
/// where the operands are what precedence, grouping to the left and
/// parentheses make them.
pub proof fn lemma_evaluation_follows_the_tree(
    text: Seq<char>,
    tree: Tree,
    known: Map<Seq<char>, Number>,
)
    requires
        tree.well_formed(),
        tokens_of(text) == Ok::<Seq<Seq<char>>, Failure>(tree.infix()),
    ensures
        evaluation_of(text, known) == tree.value(known),
{
    lemma_postfix_of_tree(tree);
    lemma_value_of_tree(tree, known);
}

/// Operators of equal precedence group to the left, `^` included: in
/// `a first b second c` the first operator is applied first unless the
/// second binds more tightly.
pub proof fn lemma_equal_precedence_groups_left(
    a: Seq<char>,
    first: Seq<char>,
    b: Seq<char>,
    second: Seq<char>,
    c: Seq<char>,
)
    requires
        is_operand(a),
        is_operand(b),
        is_operand(c),
        is_binary_operator(first),
        is_binary_operator(second),
    ensures
        precedence_of(first).0 >= precedence_of(second).0 ==> postfix_of(
            seq![a, first, b, second, c],
        ) == Ok::<Seq<Seq<char>>, Failure>(seq![a, b, first, c, second]),
        precedence_of(first).0 < precedence_of(second).0 ==> postfix_of(
            seq![a, first, b, second, c],
        ) == Ok::<Seq<Seq<char>>, Failure>(seq![a, b, c, second, first]),
{
    reveal_with_fuel(Tree::well_formed, 3);
    reveal_with_fuel(Tree::infix, 3);
    reveal_with_fuel(Tree::postorder, 3);
    let tree = if precedence_of(first).0 >= precedence_of(second).0 {
        Tree::Binary(
            Box::new(Tree::Binary(Box::new(Tree::Operand(a)), first, Box::new(Tree::Operand(b)))),
            second,
            Box::new(Tree::Operand(c)),
        )
    } else {
        Tree::Binary(
            Box::new(Tree::Operand(a)),
            first,
            Box::new(Tree::Binary(Box::new(Tree::Operand(b)), second, Box::new(Tree::Operand(c)))),
        )
    };
    assert(tree.infix() =~= seq![a, first, b, second, c]);
    if precedence_of(first).0 >= precedence_of(second).0 {
        assert(tree.postorder() =~= seq![a, b, first, c, second]);
    } else {
        assert(tree.postorder() =~= seq![a, b, c, second, first]);
    }
    lemma_postfix_of_tree(tree);
}

/// The value of `a first b second c` where `first` binds at least as
/// tightly as `second`, as it does where their precedences are equal: that
/// of `(a first b) second c`.
pub proof fn lemma_left_grouping_value(
    text: Seq<char>,
    a: Seq<char>,
    first: Seq<char>,
    b: Seq<char>,
    second: Seq<char>,
    c: Seq<char>,
    known: Map<Seq<char>, Number>,
)
    requires
        tokens_of(text) == Ok::<Seq<Seq<char>>, Failure>(seq![a, first, b, second, c]),
        is_operand(a),
        is_operand(b),
        is_operand(c),
        is_binary_operator(first),
        is_binary_operator(second),
        precedence_of(first).0 >= precedence_of(second).0,
    ensures
        evaluation_of(text, known) == Tree::Binary(
            Box::new(Tree::Binary(Box::new(Tree::Operand(a)), first, Box::new(Tree::Operand(b)))),
            second,
            Box::new(Tree::Operand(c)),
        ).value(known),
{
    let tree = Tree::Binary(
        Box::new(Tree::Binary(Box::new(Tree::Operand(a)), first, Box::new(Tree::Operand(b)))),
        second,
        Box::new(Tree::Operand(c)),
    );
    reveal_with_fuel(Tree::well_formed, 3);
    reveal_with_fuel(Tree::infix, 3);
    assert(tree.infix() =~= seq![a, first, b, second, c]);
    lemma_evaluation_follows_the_tree(text, tree, known);
}

/// The value of `a first b second c` where `second` binds more tightly
/// than `first`: that of `a first (b second c)`.
pub proof fn lemma_tighter_operator_first(
    text: Seq<char>,
    a: Seq<char>,
    first: Seq<char>,
    b: Seq<char>,
    second: Seq<char>,
    c: Seq<char>,
    known: Map<Seq<char>, Number>,
)
    requires
        tokens_of(text) == Ok::<Seq<Seq<char>>, Failure>(seq![a, first, b, second, c]),
        is_operand(a),
        is_operand(b),
        is_operand(c),
        is_binary_operator(first),
        is_binary_operator(second),
        precedence_of(first).0 < precedence_of(second).0,
    ensures
        evaluation_of(text, known) == Tree::Binary(
            Box::new(Tree::Operand(a)),
            first,
            Box::new(Tree::Binary(Box::new(Tree::Operand(b)), second, Box::new(Tree::Operand(c)))),
        ).value(known),
{
    let tree = Tree::Binary(
        Box::new(Tree::Operand(a)),
        first,
        Box::new(Tree::Binary(Box::new(Tree::Operand(b)), second, Box::new(Tree::Operand(c)))),
    );
    reveal_with_fuel(Tree::well_formed, 3);
    reveal_with_fuel(Tree::infix, 3);
    assert(tree.infix() =~= seq![a, first, b, second, c]);
    lemma_evaluation_follows_the_tree(text, tree, known);
}

/// An operator whose operand stands for no value fails, and in a way that
/// knowing more names may mend.
pub proof fn lemma_unknown_operand_fails(
    x: Seq<char>,
    operator: Seq<char>,
    y: Seq<char>,
    known: Map<Seq<char>, Number>,
)
    requires
        value_of(known, x) is None || value_of(known, y) is None,
    ensures
        application(operator, x, y, known) matches Err(failure) && failure.is_recoverable(),
{
}

impl Tree {
    /// Whether `operand` occurs in the expression.
    pub open spec fn mentions(self, operand: Seq<char>) -> bool
        decreases self,
    {
        match self {
            Tree::Operand(token) => token == operand,
            Tree::Group(inner) => inner.mentions(operand),
            Tree::Binary(left, _, right) => left.mentions(operand) || right.mentions(operand),
        }
    }

    /// Whether the expression holds an operator.
    pub open spec fn has_operator(self) -> bool
        decreases self,
    {
        match self {
            Tree::Operand(_) => false,
            Tree::Group(inner) => inner.has_operator(),
            Tree::Binary(_, _, _) => true,
        }
    }
}

/// An expression that holds an operator and mentions an operand without a
/// value fails: no operator is applied to a name that stands for nothing.
pub proof fn lemma_undefined_name_fails(
    tree: Tree,
    operand: Seq<char>,
    known: Map<Seq<char>, Number>,
)
    requires
        tree.mentions(operand),
        value_of(known, operand) is None,
    ensures
        tree.has_operator() ==> tree.denotation(known) is Err,
        !tree.has_operator() ==> tree.denotation(known) == Ok::<Seq<char>, Failure>(operand),
    decreases tree,
{
    match tree {
        Tree::Operand(_) => {},
        Tree::Group(inner) => {
            lemma_undefined_name_fails(*inner, operand, known);
        },
        Tree::Binary(left, operator, right) => {
            if left.mentions(operand) {
                lemma_undefined_name_fails(*left, operand, known);
            }
            if right.mentions(operand) {
                lemma_undefined_name_fails(*right, operand, known);
            }
            match (left.denotation(known), right.denotation(known)) {
                (Ok(x), Ok(y)) => {
                    lemma_unknown_operand_fails(x, operator, y, known);
                },
                _ => {},
            }
        },
    }
}

} // verus!
