//! Splitting the text of an expression into tokens.
//!
//! A token is a word (a number or a name, possibly with a sign in front),
//! an operator, or a parenthesis. The text is read once from left to right;
//! white space separates tokens and is dropped.

use vstd::prelude::*;
use crate::error::{EvalError, Failure};

verus! {

/// Whether `c` has the Unicode property White_Space, as `char::is_whitespace`
/// tells it.
pub uninterp spec fn char_is_whitespace(c: char) -> bool;

/// Whether `c` is a letter or a numeral of any script, as
/// `char::is_alphanumeric` tells it.
pub uninterp spec fn char_is_alphanumeric(c: char) -> bool;

/// A character together with what std's tables say of it.
#[derive(Clone, Copy, Debug)]
pub struct Classified {
    /// The character itself.
    pub symbol: char,
    /// Whether it is white space.
    pub whitespace: bool,
    /// Whether it is a letter or a numeral.
    pub alphanumeric: bool,
}

/// A character as std classifies it.
pub open spec fn classified(c: char) -> Classified {
    Classified {
        symbol: c,
        whitespace: char_is_whitespace(c),
        alphanumeric: char_is_alphanumeric(c),
    }
}

/// The characters of a text, each as std classifies it.
pub open spec fn classified_text(text: Seq<char>) -> Seq<Classified> {
    text.map_values(|c: char| classified(c))
}

/// A digit or the decimal point: a character that can start a number.
pub open spec fn number_char(c: char) -> bool {
    ('0' <= c && c <= '9') || c == '.'
}

/// A character that words are made of: a letter, a numeral, an
/// underscore or a decimal point.
pub open spec fn token_char(c: Classified) -> bool {
    c.alphanumeric || c.symbol == '_' || number_char(c.symbol)
}

/// One of the seven operator symbols.
pub open spec fn operator_char(c: char) -> bool {
    c == '+' || c == '-' || c == '*' || c == '/' || c == '^' || c == '=' || c == '%'
}

/// A character that is always a token by itself.
pub open spec fn structural_char(c: char) -> bool {
    c == '(' || c == ')' || c == '*' || c == '/' || c == '^' || c == '%' || c == '='
}

/// A token that is exactly one operator symbol.
pub open spec fn operator_text(token: Seq<char>) -> bool {
    token.len() == 1 && operator_char(token[0])
}

/// The tokens once the word being read, if there is one, has ended.
pub open spec fn flushed(output: Seq<Seq<char>>, current: Seq<char>) -> Seq<Seq<char>> {
    if current.len() == 0 {
        output
    } else {
        output.push(current)
    }
}

/// Whether a sign followed by `next` is an operator whatever stands before
/// it: white space, an operator or `(` follows, or a number follows and the
/// last token completed is an operand or `)`. While no token is complete,
/// a number that follows makes no sign stand alone: in ` -1` the sign joins
/// the number.
pub open spec fn sign_stands_alone(next: Classified, output: Seq<Seq<char>>) -> bool {
    ||| next.whitespace
    ||| operator_char(next.symbol)
    ||| next.symbol == '('
    ||| (number_char(next.symbol) && output.len() > 0 && output.last() != seq!['(']
        && !operator_text(output.last()))
}

/// Whether the sign at position `i` belongs to the word that it starts,
/// rather than being an operator. `output` holds the tokens completed so far.
///
/// The first character of the text always does. Any other sign does when a
/// number follows it, it does not stand alone, and an operator, white space
/// or `(` is the character just before it. A sign at the very end is an
/// operator.
pub open spec fn sign_is_prefix(chars: Seq<Classified>, i: int, output: Seq<Seq<char>>) -> bool {
    if i == 0 {
        true
    } else if i + 1 >= chars.len() {
        false
    } else {
        let next = chars[i + 1];
        let previous = chars[i - 1];
        &&& !sign_stands_alone(next, output)
        &&& number_char(next.symbol)
        &&& (operator_char(previous.symbol) || previous.whitespace || previous.symbol == '(')
    }
}

/// The tokens of `chars` from position `i` on, given the tokens completed
/// before `i` and the word being read there.
///
/// White space ends the word. A character of words joins it. A
/// parenthesis and each of `*`, `/`, `^`, `%`, `=` ends the word and is a
/// token. A sign joins the word or is a token, as `sign_is_prefix` tells.
/// No other character is accepted.
pub open spec fn scan(
    chars: Seq<Classified>,
    i: int,
    output: Seq<Seq<char>>,
    current: Seq<char>,
) -> Result<Seq<Seq<char>>, Failure>
    decreases chars.len() - i,
{
    if i < 0 || i >= chars.len() {
        Ok(flushed(output, current))
    } else {
        let c = chars[i];
        if c.whitespace {
            scan(chars, i + 1, flushed(output, current), Seq::empty())
        } else if token_char(c) {
            scan(chars, i + 1, output, current.push(c.symbol))
        } else if structural_char(c.symbol) {
            scan(chars, i + 1, flushed(output, current).push(seq![c.symbol]), Seq::empty())
        } else if c.symbol == '-' || c.symbol == '+' {
            if sign_is_prefix(chars, i, output) {
                scan(chars, i + 1, output, current.push(c.symbol))
            } else {
                scan(chars, i + 1, flushed(output, current).push(seq![c.symbol]), Seq::empty())
            }
        } else {
            Err(Failure::UnexpectedCharacter(c.symbol))
        }
    }
}

/// The tokens of classified characters, or the first character among them
/// that no token can hold.
pub open spec fn tokens_of_classified(chars: Seq<Classified>) -> Result<Seq<Seq<char>>, Failure> {
    scan(chars, 0, Seq::empty(), Seq::empty())
}

/// The tokens of a text, or the first character in it that no token can hold.
pub open spec fn tokens_of(text: Seq<char>) -> Result<Seq<Seq<char>>, Failure> {
    tokens_of_classified(classified_text(text))
}

/// The characters of tokens, one token after another.
pub open spec fn joined(tokens: Seq<Seq<char>>) -> Seq<char>
    decreases tokens.len(),
{
    if tokens.len() == 0 {
        Seq::empty()
    } else {
        joined(tokens.drop_last()) + tokens.last()
    }
}

/// The characters that are not white space, in their order.
pub open spec fn visible(chars: Seq<Classified>) -> Seq<char>
    decreases chars.len(),
{
    if chars.len() == 0 {
        Seq::empty()
    } else if chars.last().whitespace {
        visible(chars.drop_last())
    } else {
        visible(chars.drop_last()).push(chars.last().symbol)
    }
}

/// No token of the sequence is empty.
pub open spec fn none_empty(tokens: Seq<Seq<char>>) -> bool {
    forall|k: int| 0 <= k < tokens.len() ==> (#[trigger] tokens[k]).len() > 0
}

proof fn lemma_joined_push(tokens: Seq<Seq<char>>, token: Seq<char>)
    requires
        none_empty(tokens),
        token.len() > 0,
    ensures
        joined(tokens.push(token)) == joined(tokens) + token,
        none_empty(tokens.push(token)),
{
    assert(tokens.push(token).drop_last() =~= tokens);
    assert forall|k: int| 0 <= k < tokens.push(token).len() implies (#[trigger] tokens.push(
        token,
    )[k]).len() > 0 by {
        if k < tokens.len() {
            assert(tokens.push(token)[k] == tokens[k]);
        }
    }
}

proof fn lemma_scan_keeps_characters(
    chars: Seq<Classified>,
    i: int,
    output: Seq<Seq<char>>,
    current: Seq<char>,
)
    requires
        0 <= i <= chars.len(),
        none_empty(output),
        joined(output) + current == visible(chars.take(i)),
    ensures
        scan(chars, i, output, current) matches Ok(tokens) ==> joined(tokens) == visible(chars)
            && none_empty(tokens),
    decreases chars.len() - i,
{
    let done = flushed(output, current);
    if current.len() > 0 {
        lemma_joined_push(output, current);
    }
    assert(joined(done) =~= joined(output) + current);
    if i >= chars.len() {
        assert(chars.take(i) =~= chars);
    } else {
        let c = chars[i];
        let seen = chars.take(i + 1);
        assert(seen.drop_last() =~= chars.take(i));
        assert(seen.last() == c);
        let alone = seq![c.symbol];
        lemma_joined_push(done, alone);
        if c.whitespace {
            assert(joined(done) + Seq::<char>::empty() =~= visible(seen));
            lemma_scan_keeps_characters(chars, i + 1, done, Seq::empty());
        } else {
            assert(joined(output) + current.push(c.symbol) =~= visible(seen));
            lemma_scan_keeps_characters(chars, i + 1, output, current.push(c.symbol));
            assert(joined(done.push(alone)) + Seq::<char>::empty() =~= visible(seen));
            lemma_scan_keeps_characters(chars, i + 1, done.push(alone), Seq::empty());
        }
    }
}

/// Splitting into tokens neither drops nor adds nor moves a character:
/// the tokens, one after another, are the text without its white space.
/// No token is empty.
pub proof fn lemma_tokens_keep_characters(chars: Seq<Classified>)
    ensures
        tokens_of_classified(chars) matches Ok(tokens) ==> joined(tokens) == visible(chars)
            && none_empty(tokens),
{
    assert(chars.take(0) =~= Seq::<Classified>::empty());
    assert(joined(Seq::<Seq<char>>::empty()) + Seq::<char>::empty() =~= visible(chars.take(0)));
    lemma_scan_keeps_characters(chars, 0, Seq::empty(), Seq::empty());
}

/// A character that some token can hold, or that separates tokens.
pub open spec fn accepted(c: Classified) -> bool {
    c.whitespace || token_char(c) || structural_char(c.symbol) || c.symbol == '-' || c.symbol
        == '+'
}

/// Every character before position `i` is accepted.
pub open spec fn accepted_before(chars: Seq<Classified>, i: int) -> bool {
    forall|j: int| 0 <= j < i ==> accepted(#[trigger] chars[j])
}

/// The first character that is not accepted, where there is one.
pub open spec fn first_unexpected(chars: Seq<Classified>) -> Option<char> {
    if exists|i: int| 0 <= i < chars.len() && !accepted(#[trigger] chars[i]) {
        let i = choose|i: int|
            0 <= i < chars.len() && !accepted(#[trigger] chars[i]) && accepted_before(chars, i);
        Some(chars[i].symbol)
    } else {
        None
    }
}

proof fn lemma_scan_succeeds(
    chars: Seq<Classified>,
    i: int,
    output: Seq<Seq<char>>,
    current: Seq<char>,
)
    requires
        0 <= i <= chars.len(),
        accepted_before(chars, i),
    ensures
        match scan(chars, i, output, current) {
            Ok(_) => accepted_before(chars, chars.len() as int),
            Err(failure) => exists|k: int|
                0 <= k < chars.len() && !accepted(#[trigger] chars[k]) && accepted_before(chars, k)
                    && failure == Failure::UnexpectedCharacter(chars[k].symbol),
        },
    decreases chars.len() - i,
{
    if i < chars.len() {
        let c = chars[i];
        if accepted(c) {
            let done = flushed(output, current);
            lemma_scan_succeeds(chars, i + 1, done, Seq::empty());
            lemma_scan_succeeds(chars, i + 1, output, current.push(c.symbol));
            lemma_scan_succeeds(chars, i + 1, done.push(seq![c.symbol]), Seq::empty());
        } else {
            assert(!accepted(chars[i]));
        }
    }
}

/// Splitting into tokens succeeds exactly where every character is
/// accepted, and else reports the first one that is not.
pub proof fn lemma_tokens_or_first_unexpected(chars: Seq<Classified>)
    ensures
        tokens_of_classified(chars) is Ok <==> first_unexpected(chars) is None,
        tokens_of_classified(chars) matches Err(failure) ==> first_unexpected(chars) matches Some(
            c,
        ) && failure == Failure::UnexpectedCharacter(c),
{
    lemma_scan_succeeds(chars, 0, Seq::empty(), Seq::empty());
    match tokens_of_classified(chars) {
        Ok(_) => {},
        Err(failure) => {
            let k = choose|k: int|
                0 <= k < chars.len() && !accepted(#[trigger] chars[k]) && accepted_before(chars, k)
                    && failure == Failure::UnexpectedCharacter(chars[k].symbol);
            let i = choose|i: int|
                0 <= i < chars.len() && !accepted(#[trigger] chars[i]) && accepted_before(chars, i);
            if i < k {
                assert(accepted(chars[i]));
            }
            if k < i {
                assert(accepted(chars[k]));
            }
        },
    }
}

/// The character sequences of a list of strings.
pub open spec fn texts(strings: Seq<String>) -> Seq<Seq<char>> {
    strings.map_values(|s: String| s@)
}

/// Whether `result` is what `expected` says: the same tokens, or an error
/// that stands for the same failure.
pub open spec fn are_tokens(
    result: Result<Vec<String>, EvalError>,
    expected: Result<Seq<Seq<char>>, Failure>,
) -> bool {
    match result {
        Ok(tokens) => expected == Ok::<Seq<Seq<char>>, Failure>(texts(tokens@)),
        Err(error) => expected == Err::<Seq<Seq<char>>, Failure>(error@),
    }
}

/// `char::is_whitespace`: the Unicode property White_Space. The table is
/// std's; the contract only names what it answers.
#[verifier::external_body]
fn is_whitespace(c: char) -> (b: bool)
    ensures
        b == char_is_whitespace(c),
{
    c.is_whitespace()
}

/// `char::is_alphanumeric`: letters and numerals of any script. The table is
/// std's; the contract only names what it answers.
#[verifier::external_body]
fn is_alphanumeric(c: char) -> (b: bool)
    ensures
        b == char_is_alphanumeric(c),
{
    c.is_alphanumeric()
}

/// `String::push`: appends one character to the end of the string.
#[verifier::external_body]
fn push_char(s: &mut String, c: char)
    ensures
        final(s)@ == old(s)@.push(c),
{
    s.push(c)
}

fn is_number(c: char) -> (b: bool)
    ensures
        b == number_char(c),
{
    ('0' <= c && c <= '9') || c == '.'
}

fn is_token_character(c: &Classified) -> (b: bool)
    ensures
        b == token_char(*c),
{
    c.alphanumeric || c.symbol == '_' || is_number(c.symbol)
}

fn is_operator(c: char) -> (b: bool)
    ensures
        b == operator_char(c),
{
    c == '+' || c == '-' || c == '*' || c == '/' || c == '^' || c == '=' || c == '%'
}

/// Whether `token` is the single character `c`.
pub(crate) fn is_symbol(token: &str, c: char) -> (b: bool)
    ensures
        b == (token@ == seq![c]),
{
    if token.unicode_len() == 1 {
        let found = token.get_char(0) == c;
        assert(found ==> token@ =~= seq![c]);
        found
    } else {
        false
    }
}

fn is_operator_str(s: &str) -> (b: bool)
    ensures
        b == operator_text(s@),
{
    if s.unicode_len() == 1 {
        is_operator(s.get_char(0))
    } else {
        false
    }
}

/// The string that holds the one character `c`.
pub(crate) fn symbol(c: char) -> (s: String)
    ensures
        s@ == seq![c],
{
    let mut s = String::new();
    push_char(&mut s, c);
    assert(s@ =~= seq![c]);
    s
}

/// Ends the word being read: it joins the tokens unless it is empty. The
/// result is the empty word to go on with.
fn output_token(output: &mut Vec<String>, current_token: String) -> (next: String)
    ensures
        texts(final(output)@) == flushed(texts(old(output)@), current_token@),
        next@ == Seq::<char>::empty(),
{
    if !current_token.as_str().is_empty() {
        output.push(current_token);
        assert(texts(output@) =~= texts(old(output)@).push(current_token@));
    }
    String::new()
}

/// Ends the word being read and adds the one-character token `c`.
fn output_symbol(output: &mut Vec<String>, current_token: String, c: char) -> (next: String)
    ensures
        texts(final(output)@) == flushed(texts(old(output)@), current_token@).push(seq![c]),
        next@ == Seq::<char>::empty(),
{
    let next = output_token(output, current_token);
    let ghost before = output@;
    output.push(symbol(c));
    assert(texts(output@) =~= texts(before).push(seq![c]));
    next
}

fn sign_joins_word(chars: &Vec<Classified>, i: usize, output: &Vec<String>) -> (b: bool)
    requires
        i < chars.len(),
    ensures
        b == sign_is_prefix(chars@, i as int, texts(output@)),
{
    if i == 0 {
        return true;
    }
    if i >= chars.len() - 1 {
        return false;
    }
    let next = chars[i + 1];
    let previous = chars[i - 1];
    let mut after_operand = false;
    if output.len() > 0 {
        let last_token = output[output.len() - 1].as_str();
        assert(texts(output@).last() == last_token@);
        after_operand = !is_symbol(last_token, '(') && !is_operator_str(last_token);
    }
    let stands_alone = next.whitespace || is_operator(next.symbol) || next.symbol == '('
        || (is_number(next.symbol) && after_operand);
    !stands_alone && is_number(next.symbol)
        && (is_operator(previous.symbol) || previous.whitespace || previous.symbol == '(')
}

/// Looks every character of a text up in std's tables.
pub fn classify(text: &str) -> (chars: Vec<Classified>)
    ensures
        chars@ == classified_text(text@),
{
    let mut chars: Vec<Classified> = Vec::new();
    for c in it: text.chars()
        invariant
            it.seq() == text@,
            chars@ == classified_text(it.seq().take(it.index() as int)),
    {
        let ghost seen = it.seq().take(it.index() as int);
        let entry = Classified {
            symbol: c,
            whitespace: is_whitespace(c),
            alphanumeric: is_alphanumeric(c),
        };
        chars.push(entry);
        proof {
            assert(it.seq().take(it.index() + 1) =~= seen.push(c));
            assert(entry == classified(c));
            assert(classified_text(seen.push(c)) =~= classified_text(seen).push(classified(c)));
        }
    }
    assert(text@.take(text@.len() as int) =~= text@);
    chars
}

/// Splits classified characters into tokens, in their order.
///
/// Fails on the first character that is neither white space, part of a
/// word, an operator nor a parenthesis.
pub fn tokenize_classified(chars: &Vec<Classified>) -> (result: Result<Vec<String>, EvalError>)
    ensures
        are_tokens(result, tokens_of_classified(chars@)),
        result matches Ok(tokens) ==> joined(texts(tokens@)) == visible(chars@) && none_empty(
            texts(tokens@),
        ),
        match result {
            Ok(_) => first_unexpected(chars@) is None,
            Err(e) => first_unexpected(chars@) matches Some(c) && e@
                == Failure::UnexpectedCharacter(c),
        },
{
    let mut output: Vec<String> = Vec::new();
    let mut current_token = String::new();
    let mut i: usize = 0;
    assert(texts(output@) =~= Seq::<Seq<char>>::empty());
    while i < chars.len()
        invariant
            i <= chars.len(),
            scan(chars@, i as int, texts(output@), current_token@) == tokens_of_classified(chars@),
        decreases chars.len() - i,
    {
        let c = chars[i];
        if c.whitespace {
            current_token = output_token(&mut output, current_token);
        } else if is_token_character(&c) {
            push_char(&mut current_token, c.symbol);
        } else if c.symbol == '(' || c.symbol == ')' || c.symbol == '*' || c.symbol == '/'
            || c.symbol == '^' || c.symbol == '%' || c.symbol == '=' {
            current_token = output_symbol(&mut output, current_token, c.symbol);
        } else if c.symbol == '-' || c.symbol == '+' {
            if sign_joins_word(chars, i, &output) {
                push_char(&mut current_token, c.symbol);
            } else {
                current_token = output_symbol(&mut output, current_token, c.symbol);
            }
        } else {
            proof {
                lemma_tokens_or_first_unexpected(chars@);
            }
            return Err(EvalError::UnexpectedCharacter(c.symbol));
        }
        i = i + 1;
    }
    output_token(&mut output, current_token);
    proof {
        lemma_tokens_keep_characters(chars@);
        lemma_tokens_or_first_unexpected(chars@);
    }
    Ok(output)
}

/// Splits an expression into its tokens, in the order of the text.
///
/// Fails on the first character that is neither white space, part of a
/// word, an operator nor a parenthesis.
pub fn tokenize(expression: &str) -> (result: Result<Vec<String>, EvalError>)
    ensures
        are_tokens(result, tokens_of(expression@)),
        result matches Ok(tokens) ==> joined(texts(tokens@)) == visible(classified_text(expression@))
            && none_empty(texts(tokens@)),
        match result {
            Ok(_) => first_unexpected(classified_text(expression@)) is None,
            Err(e) => first_unexpected(classified_text(expression@)) matches Some(c) && e@
                == Failure::UnexpectedCharacter(c),
        },
{
    let chars = classify(expression);
    tokenize_classified(&chars)
}

} // verus!
