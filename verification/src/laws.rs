//! What holds of evaluation and of batches as a whole, proved from the
//! definitions of their parts.

use vstd::prelude::*;
use crate::batch::{
    expression_texts, known_after_pass, lemma_pass_makes_progress, pair_texts, resolution,
    resolvable, still_pending,
};
use crate::context::{bindings, lemma_bindings_names, lemma_bindings_value, names_differ};
use crate::decimal::decimal_literal;
use crate::error::{is_outcome, EvalError, Failure};
use crate::evaluator::{evaluation_of, run, step};
use crate::number::Number;
use crate::operator::lemma_token_kinds;
use crate::postfix::{
    all_plain, balanced, closes_unopened, is_plain, lemma_postfix,
    lemma_postfix_checks_parentheses, postfix_of_text,
};
use crate::tokenizer::{classified_text, lemma_tokens_or_first_unexpected, tokens_of};
use crate::tree::{lemma_evaluation_follows_the_tree, lemma_undefined_name_fails, Tree};

verus! {

/// A failure found in the characters or the parentheses of a text does
/// not depend on what is known: evaluating again can never mend it.
pub proof fn lemma_syntax_failures_ignore_context(
    text: Seq<char>,
    first: Map<Seq<char>, Number>,
    second: Map<Seq<char>, Number>,
)
    ensures
        evaluation_of(text, first) matches Err(failure) && failure.is_syntactic()
            ==> evaluation_of(text, second) == evaluation_of(text, first),
        postfix_of_text(text) matches Err(failure) ==> failure.is_syntactic(),
{
    match postfix_of_text(text) {
        Ok(program) => {
            lemma_run_failures(program, Seq::empty(), first);
        },
        Err(failure) => {
            match tokens_of(text) {
                Ok(tokens) => {
                    lemma_postfix_checks_parentheses(tokens);
                },
                Err(_) => {
                    lemma_tokens_or_first_unexpected(classified_text(text));
                },
            }
        },
    }
}

/// A text whose parentheses are not balanced is rejected, whatever is
/// known: a missing parenthesis is never made up for, and the failure is
/// not one that knowing more names could mend.
pub proof fn lemma_unbalanced_is_fatal(
    text: Seq<char>,
    tokens: Seq<Seq<char>>,
    known: Map<Seq<char>, Number>,
)
    requires
        tokens_of(text) == Ok::<Seq<Seq<char>>, Failure>(tokens),
        !balanced(tokens),
    ensures
        evaluation_of(text, known) == Err::<Number, Failure>(
            if closes_unopened(tokens) {
                Failure::MissingLeftParenthesis
            } else {
                Failure::MissingRightParenthesis
            },
        ),
        evaluation_of(text, known) matches Err(failure) && !failure.is_recoverable(),
{
    lemma_postfix(tokens);
}

/// Evaluating a text never meets an unknown operator: the postfix order
/// of a text holds no parenthesis, and every other operator of the table
/// names an operation.
pub proof fn lemma_every_operator_is_known(text: Seq<char>, known: Map<Seq<char>, Number>)
    ensures
        evaluation_of(text, known) matches Err(failure) ==> !(failure is UnknownOperator),
{
    match postfix_of_text(text) {
        Ok(program) => {
            match tokens_of(text) {
                Ok(tokens) => {
                    lemma_postfix(tokens);
                },
                Err(_) => {},
            }
            lemma_plain_program(program, Seq::empty(), known);
        },
        Err(failure) => {
            lemma_syntax_failures_ignore_context(text, known, known);
        },
    }
}

/// Running a program without parentheses never meets an unknown operator.
proof fn lemma_plain_program(
    program: Seq<Seq<char>>,
    stack: Seq<Seq<char>>,
    known: Map<Seq<char>, Number>,
)
    requires
        all_plain(program),
    ensures
        run(program, stack, known) matches Err(failure) ==> !(failure is UnknownOperator),
    decreases program.len(),
{
    if program.len() > 0 {
        assert(is_plain(program[0]));
        lemma_token_kinds(program[0]);
        assert forall|k: int| 0 <= k < program.drop_first().len() implies is_plain(
            #[trigger] program.drop_first()[k],
        ) by {
            assert(program.drop_first()[k] == program[k + 1]);
        }
        match step(program[0], stack, known) {
            Ok(next) => {
                lemma_plain_program(program.drop_first(), next, known);
            },
            Err(_) => {},
        }
    }
}

/// Running a program never reports a failure of the characters or the
/// parentheses.
proof fn lemma_run_failures(
    program: Seq<Seq<char>>,
    stack: Seq<Seq<char>>,
    known: Map<Seq<char>, Number>,
)
    ensures
        run(program, stack, known) matches Err(failure) ==> !failure.is_syntactic(),
    decreases program.len(),
{
    if program.len() > 0 {
        match step(program[0], stack, known) {
            Ok(next) => {
                lemma_run_failures(program.drop_first(), next, known);
            },
            Err(_) => {},
        }
    }
}

/// Evaluation has one outcome: two results that both are what evaluating
/// a text in a context gives are the same value, or the same failure.
pub proof fn lemma_evaluation_is_repeatable(
    text: Seq<char>,
    known: Map<Seq<char>, Number>,
    first: Result<Number, EvalError>,
    second: Result<Number, EvalError>,
)
    requires
        is_outcome(first, evaluation_of(text, known)),
        is_outcome(second, evaluation_of(text, known)),
    ensures
        first is Ok <==> second is Ok,
        first matches Ok(v) ==> second == Ok::<Number, EvalError>(v),
        first matches Err(e) ==> second matches Err(other) && other@ == e@,
{
}

/// A pass takes nothing away: what was known stays known, with its value
/// unless an expression of that name was resolved, and what the pass
/// resolved is known after it.
pub proof fn lemma_pass_only_adds(pending: Map<Seq<char>, Seq<char>>, known: Map<Seq<char>, Number>)
    ensures
        known.dom().subset_of(known_after_pass(pending, known).dom()),
        resolvable(pending, known).subset_of(known_after_pass(pending, known).dom()),
        known_after_pass(pending, known).dom().subset_of(known.dom() + pending.dom()),
        forall|name: Seq<char>|
            known.contains_key(name) && !pending.contains_key(name) ==> #[trigger] known_after_pass(
                pending,
                known,
            )[name] == known[name],
        forall|name: Seq<char>| #[trigger]
            resolvable(pending, known).contains(name) ==> known_after_pass(pending, known)[name]
                == evaluation_of(pending[name], known)->Ok_0,
{
}

/// Resolution only adds to what is known. Where it succeeds, every name
/// of the context and of the batch has a value, and a name of the context
/// that names no expression has the value it had. Where it fails, what is
/// left is a part of the batch, and not empty.
pub proof fn lemma_resolution_grows(pending: Map<Seq<char>, Seq<char>>, known: Map<Seq<char>, Number>)
    requires
        pending.dom().finite(),
    ensures
        match resolution(pending, known) {
            Ok(values) => {
                &&& values.dom() == known.dom() + pending.dom()
                &&& forall|name: Seq<char>|
                    known.contains_key(name) && !pending.contains_key(name) ==> #[trigger] values[name]
                        == known[name]
            },
            Err(left) => {
                &&& left.submap_of(pending)
                &&& left.dom().len() > 0
                &&& left.dom().finite()
            },
        },
    decreases pending.dom().len(),
{
    lemma_pass_makes_progress(pending, known);
    lemma_pass_only_adds(pending, known);
    if pending.dom().len() == 0 {
        assert(pending.dom() =~= Set::<Seq<char>>::empty());
        assert(known.dom() + pending.dom() =~= known.dom());
    } else if resolvable(pending, known).len() == 0 {
    } else {
        let rest = still_pending(pending, known);
        let more = known_after_pass(pending, known);
        lemma_resolution_grows(rest, more);
        match resolution(rest, more) {
            Ok(values) => {
                assert(values.dom() =~= known.dom() + pending.dom());
                assert forall|name: Seq<char>|
                    known.contains_key(name) && !pending.contains_key(name) implies #[trigger] values[name]
                    == known[name] by {
                    assert(more.contains_key(name) && !rest.contains_key(name));
                    assert(more[name] == known[name]);
                }
            },
            Err(left) => {
                assert forall|name: Seq<char>| left.dom().contains(name) implies #[trigger] pending.dom().contains(
                    name,
                ) && left[name] == pending[name] by {
                    assert(left.submap_of(rest));
                    assert(rest.dom().contains(name));
                }
            },
        }
    }
}

/// A value that a pass has found stays: once an expression is resolved,
/// later passes neither drop its name nor compute it again.
pub proof fn lemma_resolved_values_stay(
    pending: Map<Seq<char>, Seq<char>>,
    known: Map<Seq<char>, Number>,
    name: Seq<char>,
)
    requires
        pending.dom().finite(),
        resolvable(pending, known).contains(name),
    ensures
        resolution(pending, known) matches Ok(values) ==> values.contains_key(name) && values[name]
            == evaluation_of(pending[name], known)->Ok_0,
{
    lemma_pass_makes_progress(pending, known);
    lemma_pass_only_adds(pending, known);
    vstd::set_lib::lemma_set_empty_equivalency_len(resolvable(pending, known));
    lemma_resolution_grows(still_pending(pending, known), known_after_pass(pending, known));
}

/// An expression that evaluates with no values for the names of the
/// context and of the batch is among those left over: a reference to a
/// name that is defined nowhere is never resolved.
pub proof fn lemma_unresolvable_is_reported(
    pending: Map<Seq<char>, Seq<char>>,
    known: Map<Seq<char>, Number>,
    name: Seq<char>,
    names: Set<Seq<char>>,
)
    requires
        pending.dom().finite(),
        pending.contains_key(name),
        (known.dom() + pending.dom()).subset_of(names),
        forall|values: Map<Seq<char>, Number>|
            values.dom().subset_of(names) ==> #[trigger] evaluation_of(pending[name], values) is Err,
    ensures
        resolution(pending, known) matches Err(left) && left.contains_key(name) && left[name]
            == pending[name],
    decreases pending.dom().len(),
{
    lemma_pass_makes_progress(pending, known);
    lemma_pass_only_adds(pending, known);
    assert(known.dom().subset_of(names));
    assert(evaluation_of(pending[name], known) is Err);
    if pending.dom().len() == 0 {
        assert(pending.dom().contains(name));
        assert(pending.dom() =~= Set::<Seq<char>>::empty());
    } else if resolvable(pending, known).len() == 0 {
    } else {
        let rest = still_pending(pending, known);
        let more = known_after_pass(pending, known);
        assert(rest.contains_key(name));
        assert((more.dom() + rest.dom()).subset_of(names));
        lemma_unresolvable_is_reported(rest, more, name, names);
    }
}

/// An expression that applies an operator to a name which is no number
/// and names neither a value of the context nor an expression of the batch
/// is never resolved: the batch fails, and the expression is among those
/// left.
pub proof fn lemma_reference_to_undefined_name(
    pending: Map<Seq<char>, Seq<char>>,
    known: Map<Seq<char>, Number>,
    name: Seq<char>,
    tree: Tree,
    operand: Seq<char>,
)
    requires
        pending.dom().finite(),
        pending.contains_key(name),
        tokens_of(pending[name]) == Ok::<Seq<Seq<char>>, Failure>(tree.infix()),
        tree.well_formed(),
        tree.has_operator(),
        tree.mentions(operand),
        decimal_literal(operand) is None,
        !known.contains_key(operand),
        !pending.contains_key(operand),
    ensures
        resolution(pending, known) matches Err(left) && left.contains_key(name) && left[name]
            == pending[name],
{
    let names = known.dom() + pending.dom();
    assert forall|values: Map<Seq<char>, Number>| values.dom().subset_of(names) implies #[trigger] evaluation_of(
        pending[name],
        values,
    ) is Err by {
        assert(!values.contains_key(operand));
        lemma_undefined_name_fails(tree, operand, values);
        lemma_evaluation_follows_the_tree(pending[name], tree, values);
    }
    lemma_unresolvable_is_reported(pending, known, name, names);
}

/// The order in which a batch lists its expressions does not matter: two
/// lists of the same named expressions resolve to the same outcome.
pub proof fn lemma_order_does_not_matter(
    first: Seq<(String, String)>,
    second: Seq<(String, String)>,
    known: Map<Seq<char>, Number>,
)
    requires
        names_differ(first),
        names_differ(second),
        forall|pair: (Seq<char>, Seq<char>)|
            pair_texts(first).contains(pair) <==> pair_texts(second).contains(pair),
    ensures
        expression_texts(bindings(first)) == expression_texts(bindings(second)),
        resolution(expression_texts(bindings(first)), known) == resolution(
            expression_texts(bindings(second)),
            known,
        ),
{
    lemma_same_pairs_same_texts(first, second);
    lemma_same_pairs_same_texts(second, first);
    assert(expression_texts(bindings(first)) =~= expression_texts(bindings(second)));
}

proof fn lemma_same_pairs_same_texts(first: Seq<(String, String)>, second: Seq<(String, String)>)
    requires
        names_differ(first),
        names_differ(second),
        forall|pair: (Seq<char>, Seq<char>)|
            pair_texts(first).contains(pair) <==> pair_texts(second).contains(pair),
    ensures
        forall|name: Seq<char>| #[trigger]
            expression_texts(bindings(first)).contains_key(name) ==> expression_texts(
                bindings(second),
            ).contains_key(name) && expression_texts(bindings(second))[name] == expression_texts(
                bindings(first),
            )[name],
{
    assert forall|name: Seq<char>| #[trigger]
        expression_texts(bindings(first)).contains_key(name) implies expression_texts(
        bindings(second),
    ).contains_key(name) && expression_texts(bindings(second))[name] == expression_texts(
        bindings(first),
    )[name] by {
        lemma_bindings_names(first, name);
        let k = choose|k: int| 0 <= k < first.len() && (#[trigger] first[k]).0@ == name;
        lemma_bindings_value(first, k);
        let pair = (first[k].0@, first[k].1@);
        assert(pair_texts(first)[k] == pair);
        assert(pair_texts(first).contains(pair));
        assert(pair_texts(second).contains(pair));
        let j = choose|j: int| 0 <= j < pair_texts(second).len() && pair_texts(second)[j] == pair;
        assert(second[j].0@ == name);
        lemma_bindings_value(second, j);
        lemma_bindings_names(second, name);
    }
}

} // verus!
