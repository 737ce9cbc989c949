//! Resolving a batch of named expressions that may refer to one another.
//!
//! No order of evaluation is worked out in advance. Every expression is
//! read once. Then, in each pass, every expression still pending is
//! evaluated against the values known before the pass; those that succeed
//! become known under their names. The passes end when nothing is pending
//! or when a pass resolves nothing.

use vstd::prelude::*;
use std::collections::VecDeque;
use crate::context::{
    bindings, lemma_bindings_len, lemma_bindings_names, lemma_bindings_value, names_differ, Context,
    Expressions, NameMap,
};
use crate::error::Failure;
use crate::evaluator::{evaluate_postfix, evaluation_of};
use crate::laws::lemma_resolution_grows;
use crate::number::Number;
use crate::postfix::{postfix_of_text, to_postfix};
use crate::tokenizer::{texts, tokenize};

verus! {

/// The texts of named expressions, as sequences of characters.
pub open spec fn expression_texts(expressions: Map<Seq<char>, String>) -> Map<
    Seq<char>,
    Seq<char>,
> {
    expressions.map_values(|text: String| text@)
}

/// Names and texts of a list of named expressions.
pub open spec fn pair_texts(pairs: Seq<(String, String)>) -> Seq<(Seq<char>, Seq<char>)> {
    pairs.map_values(|pair: (String, String)| (pair.0@, pair.1@))
}

/// The pairs whose name is in `names`, in the order they have in `pairs`.
pub open spec fn restricted(pairs: Seq<(Seq<char>, Seq<char>)>, names: Set<Seq<char>>) -> Seq<
    (Seq<char>, Seq<char>),
>
    decreases pairs.len(),
{
    if pairs.len() == 0 {
        pairs
    } else if names.contains(pairs.last().0) {
        restricted(pairs.drop_last(), names).push(pairs.last())
    } else {
        restricted(pairs.drop_last(), names)
    }
}

/// The names of the pending expressions that evaluate with what is known.
pub open spec fn resolvable(pending: Map<Seq<char>, Seq<char>>, known: Map<Seq<char>, Number>)
    -> Set<Seq<char>> {
    Set::new(
        |name: Seq<char>| pending.contains_key(name) && evaluation_of(pending[name], known) is Ok,
    )
}

/// The values of the pending expressions that evaluate with what is known,
/// each under the name of its expression.
pub open spec fn resolved_values(pending: Map<Seq<char>, Seq<char>>, known: Map<Seq<char>, Number>)
    -> Map<Seq<char>, Number> {
    Map::new(
        |name: Seq<char>| resolvable(pending, known).contains(name),
        |name: Seq<char>| evaluation_of(pending[name], known)->Ok_0,
    )
}

/// What is pending after a pass: the expressions that did not evaluate.
pub open spec fn still_pending(pending: Map<Seq<char>, Seq<char>>, known: Map<Seq<char>, Number>)
    -> Map<Seq<char>, Seq<char>> {
    pending.remove_keys(resolvable(pending, known))
}

/// What is known after a pass: what was known before, and the values that
/// the pass resolved. Every evaluation of the pass saw only what was known
/// before it, so the order of the expressions does not matter.
pub open spec fn known_after_pass(pending: Map<Seq<char>, Seq<char>>, known: Map<Seq<char>, Number>)
    -> Map<Seq<char>, Number> {
    known.union_prefer_right(resolved_values(pending, known))
}

/// The outcome of resolving `pending` against `known`: all that is known
/// once every expression has a value, or the expressions that are left
/// when a pass resolves none of them.
pub open spec fn resolution(pending: Map<Seq<char>, Seq<char>>, known: Map<Seq<char>, Number>)
    -> Result<Map<Seq<char>, Number>, Map<Seq<char>, Seq<char>>>
    decreases pending.dom().len(),
    when pending.dom().finite()
    via resolution_decreases
{
    if pending.dom().len() == 0 {
        Ok(known)
    } else if resolvable(pending, known).len() == 0 {
        Err(pending)
    } else {
        resolution(still_pending(pending, known), known_after_pass(pending, known))
    }
}

/// A pass that resolves something leaves fewer expressions pending.
pub proof fn lemma_pass_makes_progress(
    pending: Map<Seq<char>, Seq<char>>,
    known: Map<Seq<char>, Number>,
)
    requires
        pending.dom().finite(),
    ensures
        resolvable(pending, known).finite(),
        still_pending(pending, known).dom().finite(),
        still_pending(pending, known).dom().len() + resolvable(pending, known).len()
            == pending.dom().len(),
{
    let solved = resolvable(pending, known);
    assert(solved.subset_of(pending.dom()));
    vstd::set_lib::lemma_len_subset(solved, pending.dom());
    assert(still_pending(pending, known).dom() =~= pending.dom().difference(solved));
    vstd::set_lib::lemma_set_difference_len(pending.dom(), solved);
    assert(pending.dom().intersect(solved) =~= solved);
}

#[via_fn]
proof fn resolution_decreases(pending: Map<Seq<char>, Seq<char>>, known: Map<Seq<char>, Number>) {
    lemma_pass_makes_progress(pending, known);
}

/// What one more pending expression changes in the outcome of a pass: its
/// value becomes known if it evaluates, and else it stays pending.
proof fn lemma_pass_with_one_more(
    pending: Map<Seq<char>, Seq<char>>,
    known: Map<Seq<char>, Number>,
    name: Seq<char>,
    text: Seq<char>,
)
    requires
        !pending.contains_key(name),
    ensures
        evaluation_of(text, known) is Ok ==> {
            &&& resolved_values(pending.insert(name, text), known) == resolved_values(
                pending,
                known,
            ).insert(name, evaluation_of(text, known)->Ok_0)
            &&& still_pending(pending.insert(name, text), known) == still_pending(pending, known)
        },
        evaluation_of(text, known) is Err ==> {
            &&& resolved_values(pending.insert(name, text), known) == resolved_values(
                pending,
                known,
            )
            &&& still_pending(pending.insert(name, text), known) == still_pending(
                pending,
                known,
            ).insert(name, text)
        },
{
    let more = pending.insert(name, text);
    if evaluation_of(text, known) is Ok {
        assert(resolved_values(more, known) =~= resolved_values(pending, known).insert(
            name,
            evaluation_of(text, known)->Ok_0,
        ));
        assert(still_pending(more, known) =~= still_pending(pending, known));
    } else {
        assert(resolved_values(more, known) =~= resolved_values(pending, known));
        assert(still_pending(more, known) =~= still_pending(pending, known).insert(name, text));
    }
}

/// The texts of the first `i + 1` entries are those of the first `i`, and
/// the text of the entry at `i` under its name.
proof fn lemma_texts_of_prefix(entries: Seq<(String, String)>, i: int)
    requires
        0 <= i < entries.len(),
    ensures
        expression_texts(bindings(entries.take(i + 1))) == expression_texts(
            bindings(entries.take(i)),
        ).insert(entries[i].0@, entries[i].1@),
{
    let longer = entries.take(i + 1);
    assert(longer.drop_last() =~= entries.take(i));
    assert(longer.last() == entries[i]);
    assert(expression_texts(bindings(longer)) =~= expression_texts(
        bindings(entries.take(i)),
    ).insert(entries[i].0@, entries[i].1@));
}

/// Restricting to one set and then to another keeps the pairs whose names
/// are in both.
pub proof fn lemma_restricted_twice(
    pairs: Seq<(Seq<char>, Seq<char>)>,
    first: Set<Seq<char>>,
    second: Set<Seq<char>>,
)
    ensures
        restricted(restricted(pairs, first), second) == restricted(pairs, first.intersect(second)),
    decreases pairs.len(),
{
    if pairs.len() > 0 {
        lemma_restricted_twice(pairs.drop_last(), first, second);
        if first.contains(pairs.last().0) {
            let kept = restricted(pairs.drop_last(), first).push(pairs.last());
            assert(kept.drop_last() =~= restricted(pairs.drop_last(), first));
        }
    }
}

/// Restricting to a set that holds every name changes nothing.
pub proof fn lemma_restricted_to_all(pairs: Seq<(Seq<char>, Seq<char>)>, names: Set<Seq<char>>)
    requires
        forall|k: int| 0 <= k < pairs.len() ==> names.contains((#[trigger] pairs[k]).0),
    ensures
        restricted(pairs, names) == pairs,
    decreases pairs.len(),
{
    if pairs.len() > 0 {
        lemma_restricted_to_all(pairs.drop_last(), names);
        assert(names.contains(pairs[pairs.len() - 1].0));
        assert(pairs.drop_last().push(pairs.last()) =~= pairs);
    }
}

/// A named expression whose text has been read once: split into tokens
/// and put in postfix order, where it is well formed.
struct Prepared {
    name: String,
    text: String,
    program: Option<VecDeque<String>>,
}

impl Prepared {
    /// The program is the postfix order of the text, and is missing exactly
    /// where the text has none.
    spec fn consistent(self) -> bool {
        match self.program {
            Some(program) => postfix_of_text(self.text@) == Ok::<Seq<Seq<char>>, Failure>(
                texts(program@),
            ),
            None => postfix_of_text(self.text@) is Err,
        }
    }
}

/// Names and texts of prepared expressions.
spec fn entries_of(prepared: Seq<Prepared>) -> Seq<(String, String)> {
    prepared.map_values(|p: Prepared| (p.name, p.text))
}

/// The entries at the given positions.
spec fn chosen(all: Seq<(String, String)>, positions: Seq<usize>) -> Seq<(String, String)> {
    Seq::new(positions.len(), |k: int| all[positions[k] as int])
}

/// Positions below `bound`, each greater than the one before.
spec fn ascending(positions: Seq<usize>, bound: int) -> bool {
    &&& forall|j: int, k: int| 0 <= j < k < positions.len() ==> positions[j] < positions[k]
    &&& forall|k: int| 0 <= k < positions.len() ==> positions[k] < bound
}

/// The expressions that are pending at the given positions, by name.
spec fn pending_texts(all: Seq<(String, String)>, positions: Seq<usize>) -> Map<
    Seq<char>,
    Seq<char>,
> {
    expression_texts(bindings(chosen(all, positions)))
}

proof fn lemma_chosen_names_differ(all: Seq<(String, String)>, positions: Seq<usize>)
    requires
        names_differ(all),
        ascending(positions, all.len() as int),
    ensures
        names_differ(chosen(all, positions)),
{
    let picked = chosen(all, positions);
    assert forall|i: int, j: int| 0 <= i < j < picked.len() implies picked[i].0@ != picked[j].0@ by {
        assert(positions[i] < positions[j]);
        assert(all[positions[i] as int].0@ != all[positions[j] as int].0@);
    }
}

proof fn lemma_chosen_push(all: Seq<(String, String)>, positions: Seq<usize>, position: usize)
    requires
        position < all.len(),
    ensures
        chosen(all, positions.push(position)) == chosen(all, positions).push(all[position as int]),
        pending_texts(all, positions.push(position)) == pending_texts(all, positions).insert(
            all[position as int].0@,
            all[position as int].1@,
        ),
        pair_texts(chosen(all, positions.push(position))) == pair_texts(chosen(all, positions)).push(
            (all[position as int].0@, all[position as int].1@),
        ),
{
    let longer = chosen(all, positions.push(position));
    assert(longer =~= chosen(all, positions).push(all[position as int]));
    assert(longer.drop_last() =~= chosen(all, positions));
    assert(pending_texts(all, positions.push(position)) =~= pending_texts(all, positions).insert(
        all[position as int].0@,
        all[position as int].1@,
    ));
    assert(pair_texts(longer) =~= pair_texts(chosen(all, positions)).push(
        (all[position as int].0@, all[position as int].1@),
    ));
}

/// Reads every expression of the batch once.
fn prepare(expressions: &Expressions) -> (prepared: Vec<Prepared>)
    ensures
        entries_of(prepared@) == expressions.entries(),
        forall|k: int| 0 <= k < prepared.len() ==> (#[trigger] prepared[k]).consistent(),
        expressions.is_consistent(),
{
    let mut prepared: Vec<Prepared> = Vec::new();
    let n = expressions.len();
    let mut i: usize = 0;
    while i < n
        invariant
            i <= n,
            n == expressions.entries().len(),
            prepared.len() == i,
            entries_of(prepared@) == expressions.entries().take(i as int),
            forall|k: int| 0 <= k < prepared.len() ==> (#[trigger] prepared[k]).consistent(),
        decreases n - i,
    {
        let name = expressions.name_at(i).clone();
        let text = expressions.value_at(i).clone();
        let program = match tokenize(text.as_str()) {
            Ok(tokens) => match to_postfix(&tokens) {
                Ok(program) => Some(program),
                Err(_) => None,
            },
            Err(_) => None,
        };
        prepared.push(Prepared { name, text, program });
        assert(entries_of(prepared@) =~= expressions.entries().take(i + 1));
        i = i + 1;
    }
    assert(expressions.entries().take(n as int) =~= expressions.entries());
    prepared
}

/// One pass over the pending expressions: each is evaluated against
/// `known`, and against nothing that the pass itself finds. An expression
/// without a program is not evaluated: it fails whatever is known.
///
/// The first result binds the name of each expression that evaluated to its
/// value. The second holds the positions of the others, in their order.
fn resolve_pass(prepared: &Vec<Prepared>, pending: &Vec<usize>, known: &Context) -> (outcome: (
    Context,
    Vec<usize>,
))
    requires
        names_differ(entries_of(prepared@)),
        forall|k: int| 0 <= k < prepared.len() ==> (#[trigger] prepared[k]).consistent(),
        ascending(pending@, prepared.len() as int),
    ensures
        outcome.0@ == resolved_values(pending_texts(entries_of(prepared@), pending@), known@),
        pending_texts(entries_of(prepared@), outcome.1@) == still_pending(
            pending_texts(entries_of(prepared@), pending@),
            known@,
        ),
        pair_texts(chosen(entries_of(prepared@), outcome.1@)) == restricted(
            pair_texts(chosen(entries_of(prepared@), pending@)),
            still_pending(pending_texts(entries_of(prepared@), pending@), known@).dom(),
        ),
        outcome.0.entries().len() + outcome.1.len() == pending.len(),
        ascending(outcome.1@, prepared.len() as int),
{
    let mut resolved: Context = NameMap::new();
    let mut rest: Vec<usize> = Vec::new();
    let mut k: usize = 0;
    let ghost all = entries_of(prepared@);
    let ghost turn = chosen(all, pending@);
    let ghost left = still_pending(pending_texts(all, pending@), known@).dom();
    proof {
        lemma_chosen_names_differ(all, pending@);
        assert(turn.take(0) =~= Seq::<(String, String)>::empty());
        let none = expression_texts(bindings(turn.take(0)));
        assert(none =~= Map::<Seq<char>, Seq<char>>::empty());
        assert(resolved@ =~= resolved_values(none, known@));
        assert(chosen(all, rest@) =~= Seq::<(String, String)>::empty());
        assert(pending_texts(all, rest@) =~= still_pending(none, known@));
        assert(pair_texts(turn.take(0)) =~= Seq::<(Seq<char>, Seq<char>)>::empty());
        assert(pair_texts(chosen(all, rest@)) =~= restricted(pair_texts(turn.take(0)), left));
    }
    while k < pending.len()
        invariant
            k <= pending.len(),
            all == entries_of(prepared@),
            turn == chosen(all, pending@),
            names_differ(all),
            names_differ(turn),
            forall|j: int| 0 <= j < prepared.len() ==> (#[trigger] prepared[j]).consistent(),
            ascending(pending@, prepared.len() as int),
            ascending(rest@, prepared.len() as int),
            rest.len() > 0 ==> k > 0 && rest@.last() <= pending@[k - 1],
            left == still_pending(pending_texts(all, pending@), known@).dom(),
            resolved@ == resolved_values(expression_texts(bindings(turn.take(k as int))), known@),
            pending_texts(all, rest@) == still_pending(
                expression_texts(bindings(turn.take(k as int))),
                known@,
            ),
            pair_texts(chosen(all, rest@)) == restricted(pair_texts(turn.take(k as int)), left),
            resolved.entries().len() + rest.len() == k,
        decreases pending.len() - k,
    {
        let position = pending[k];
        let entry = &prepared[position];
        let ghost name = entry.name@;
        let ghost text = entry.text@;
        let ghost seen = expression_texts(bindings(turn.take(k as int)));
        proof {
            assert(all[position as int] == (entry.name, entry.text));
            assert(turn[k as int] == all[position as int]);
            lemma_bindings_names(turn.take(k as int), name);
            if bindings(turn.take(k as int)).contains_key(name) {
                let j = choose|j: int|
                    0 <= j < turn.take(k as int).len() && (#[trigger] turn.take(k as int)[j]).0@
                        == name;
                assert(turn[j].0@ == turn[k as int].0@);
            }
            assert(!seen.contains_key(name));
            lemma_pass_with_one_more(seen, known@, name, text);
            lemma_texts_of_prefix(turn, k as int);
            lemma_bindings_value(turn, k as int);
            assert(left.contains(name) <==> evaluation_of(text, known@) is Err);
            let longer = pair_texts(turn.take(k + 1));
            assert(longer.drop_last() =~= pair_texts(turn.take(k as int)));
            assert(longer.last() == (name, text));
            assert(resolved@.dom().subset_of(seen.dom()));
            assert(entry.consistent());
        }
        let value = match &entry.program {
            Some(program) => match evaluate_postfix(program, known) {
                Ok(value) => Some(value),
                Err(_) => None,
            },
            None => None,
        };
        assert(value is Some <==> evaluation_of(text, known@) is Ok);
        match value {
            Some(value) => {
                resolved.push_new(entry.name.clone(), value);
            },
            None => {
                proof {
                    lemma_chosen_push(all, rest@, position);
                }
                rest.push(position);
            },
        }
        k = k + 1;
    }
    proof {
        assert(turn.take(pending.len() as int) =~= turn);
    }
    (resolved, rest)
}

/// Names and texts of the expressions at the given positions.
fn unresolved_pairs(prepared: &Vec<Prepared>, pending: &Vec<usize>) -> (pairs: Vec<(String, String)>)
    requires
        forall|k: int| 0 <= k < pending.len() ==> pending[k] < prepared.len(),
    ensures
        pairs@ == chosen(entries_of(prepared@), pending@),
{
    let mut pairs: Vec<(String, String)> = Vec::new();
    let mut k: usize = 0;
    while k < pending.len()
        invariant
            k <= pending.len(),
            forall|j: int| 0 <= j < pending.len() ==> pending[j] < prepared.len(),
            pairs@ == chosen(entries_of(prepared@), pending@.take(k as int)),
        decreases pending.len() - k,
    {
        let entry = &prepared[pending[k]];
        pairs.push((entry.name.clone(), entry.text.clone()));
        assert(pairs@ =~= chosen(entries_of(prepared@), pending@.take(k + 1)));
        k = k + 1;
    }
    assert(pending@.take(pending.len() as int) =~= pending@);
    pairs
}

/// A batch in the course of its resolution: the expressions, those of
/// them that are still pending, and what is known so far.
///
/// `evaluate_expressions` runs passes until one resolves nothing. A caller
/// who wants to see what each pass leaves pending runs them one by one.
pub struct Resolver {
    prepared: Vec<Prepared>,
    pending: Vec<usize>,
    known: Context,
}

impl Resolver {
    #[verifier::type_invariant]
    closed spec fn well_formed(&self) -> bool {
        let all = entries_of(self.prepared@);
        &&& names_differ(all)
        &&& forall|k: int| 0 <= k < self.prepared.len() ==> (#[trigger] self.prepared[k]).consistent()
        &&& ascending(self.pending@, self.prepared.len() as int)
        &&& pair_texts(chosen(all, self.pending@)) == restricted(
            pair_texts(all),
            pending_texts(all, self.pending@).dom(),
        )
    }

    /// All expressions of the batch, in their order: name and text.
    pub closed spec fn expressions(&self) -> Seq<(Seq<char>, Seq<char>)> {
        pair_texts(entries_of(self.prepared@))
    }

    /// The expressions that have no value yet, by name.
    pub closed spec fn pending(&self) -> Map<Seq<char>, Seq<char>> {
        pending_texts(entries_of(self.prepared@), self.pending@)
    }

    /// The values known so far, by name.
    pub closed spec fn known(&self) -> Map<Seq<char>, Number> {
        self.known@
    }

    /// Reads the expressions, each once. All of them are pending, and the
    /// values of the context are known.
    pub fn new(expressions: &Expressions, context: &Context) -> (resolver: Resolver)
        ensures
            resolver.expressions() == pair_texts(expressions.entries()),
            resolver.pending() == expression_texts(expressions@),
            resolver.known() == context@,
            resolver.pending().dom().finite(),
    {
        let prepared = prepare(expressions);
        let mut pending: Vec<usize> = Vec::new();
        let ghost all = expressions.entries();
        let mut i: usize = 0;
        while i < prepared.len()
            invariant
                i <= prepared.len(),
                pending.len() == i,
                forall|k: int| 0 <= k < i ==> pending[k] == k,
            decreases prepared.len() - i,
        {
            pending.push(i);
            i = i + 1;
        }
        proof {
            assert(chosen(all, pending@) =~= all);
            assert(pending_texts(all, pending@).dom() =~= expressions@.dom());
            assert forall|k: int| 0 <= k < all.len() implies pending_texts(
                all,
                pending@,
            ).dom().contains((#[trigger] pair_texts(all)[k]).0) by {
                lemma_bindings_value(all, k);
            }
            lemma_restricted_to_all(pair_texts(all), pending_texts(all, pending@).dom());
            lemma_bindings_len(all);
        }
        Resolver { prepared, pending, known: context.clone() }
    }

    /// One pass: every pending expression is evaluated against what was
    /// known before the pass, and then the values found become known. An
    /// expression that is malformed is not evaluated again: it fails
    /// whatever is known. The result is the number of expressions that the
    /// pass resolved.
    pub fn pass(&mut self) -> (found: usize)
        ensures
            old(self).pending().dom().finite(),
            final(self).expressions() == old(self).expressions(),
            final(self).known() == known_after_pass(old(self).pending(), old(self).known()),
            final(self).pending() == still_pending(old(self).pending(), old(self).known()),
            found == resolvable(old(self).pending(), old(self).known()).len(),
            final(self).pending().dom().finite(),
            final(self).pending().dom().len() + found == old(self).pending().dom().len(),
    {
        proof {
            use_type_invariant(&*self);
        }
        let ghost all = entries_of(self.prepared@);
        let ghost current = pending_texts(all, self.pending@);
        let (resolved, rest) = resolve_pass(&self.prepared, &self.pending, &self.known);
        let found = resolved.len();
        proof {
            lemma_chosen_names_differ(all, self.pending@);
            lemma_bindings_len(chosen(all, self.pending@));
            assert(current.dom() =~= bindings(chosen(all, self.pending@)).dom());
            lemma_pass_makes_progress(current, self.known@);
            assert(resolved@.dom() =~= resolvable(current, self.known@));
            let after = pending_texts(all, rest@);
            lemma_restricted_twice(pair_texts(all), current.dom(), after.dom());
            assert(current.dom().intersect(after.dom()) =~= after.dom());
        }
        let mut known: Context = NameMap::new();
        std::mem::swap(&mut self.known, &mut known);
        known.extend(&resolved);
        self.known = known;
        self.pending = rest;
        found
    }

    /// The expressions that are still pending, in the order that the batch
    /// has them: name and text.
    pub fn unresolved(&self) -> (pairs: Vec<(String, String)>)
        ensures
            pair_texts(pairs@) == restricted(self.expressions(), self.pending().dom()),
            names_differ(pairs@),
            expression_texts(bindings(pairs@)) == self.pending(),
            pairs.len() == self.pending().dom().len(),
            self.pending().dom().finite(),
    {
        proof {
            use_type_invariant(self);
            lemma_chosen_names_differ(entries_of(self.prepared@), self.pending@);
            lemma_bindings_len(chosen(entries_of(self.prepared@), self.pending@));
            assert(self.pending().dom() =~= bindings(
                chosen(entries_of(self.prepared@), self.pending@),
            ).dom());
        }
        unresolved_pairs(&self.prepared, &self.pending)
    }

    /// The values known so far.
    pub fn into_known(self) -> (known: Context)
        ensures
            known@ == self.known(),
    {
        self.known
    }
}

/// Evaluates a set of named expressions, which may refer to one another
/// and to the names of the context.
///
/// Each pass evaluates every expression still pending against what was
/// known before the pass, and only then adds what it found; so the order of
/// the expressions does not matter. A malformed expression is read once
/// and never evaluated.
///
/// Where every expression gets a value, the result holds the context and,
/// under the name of each expression, its value. Otherwise the result is
/// the list of the expressions that were left when a pass resolved none of
/// them, in the order in which `expressions` holds them: those that refer
/// to a name that never gets a value, that refer to each other in a circle,
/// or that are malformed.
pub fn evaluate_expressions(expressions: &Expressions, context: &Context) -> (result: Result<
    Context,
    Vec<(String, String)>,
>)
    ensures
        match result {
            Ok(values) => resolution(expression_texts(expressions@), context@) == Ok::<
                Map<Seq<char>, Number>,
                Map<Seq<char>, Seq<char>>,
            >(values@),
            Err(unresolved) => {
                &&& resolution(expression_texts(expressions@), context@) == Err::<
                    Map<Seq<char>, Number>,
                    Map<Seq<char>, Seq<char>>,
                >(expression_texts(bindings(unresolved@)))
                &&& names_differ(unresolved@)
                &&& pair_texts(unresolved@) == restricted(
                    pair_texts(expressions.entries()),
                    expression_texts(bindings(unresolved@)).dom(),
                )
            },
        },
        result matches Ok(values) ==> {
            &&& values@.dom() == context@.dom() + expressions@.dom()
            &&& forall|name: Seq<char>|
                context@.contains_key(name) && !expressions@.contains_key(name)
                    ==> #[trigger] values@[name] == context@[name]
        },
        result matches Err(unresolved) ==> unresolved.len() > 0,
{
    let mut resolver = Resolver::new(expressions, context);
    loop
        invariant
            resolver.expressions() == pair_texts(expressions.entries()),
            resolver.pending().dom().finite(),
            expression_texts(expressions@).dom().finite(),
            resolution(resolver.pending(), resolver.known()) == resolution(
                expression_texts(expressions@),
                context@,
            ),
        decreases resolver.pending().dom().len(),
    {
        let ghost pending = resolver.pending();
        let ghost known = resolver.known();
        let found = resolver.pass();
        if found == 0 {
            let unresolved = resolver.unresolved();
            proof {
                lemma_pass_makes_progress(pending, known);
                assert(resolvable(pending, known) =~= Set::<Seq<char>>::empty());
                assert(still_pending(pending, known) =~= pending);
                let batch = expression_texts(expressions@);
                assert(batch.dom() =~= expressions@.dom());
                lemma_resolution_grows(batch, context@);
            }
            if unresolved.len() == 0 {
                proof {
                    assert(known_after_pass(pending, known) =~= known);
                }
                return Ok(resolver.into_known());
            }
            return Err(unresolved);
        }
        proof {
            lemma_pass_makes_progress(pending, known);
        }
    }
}

} // verus!
