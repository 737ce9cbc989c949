use expressur::{classify, tokenize, tokenize_classified, Classified, EvalError};

#[test]
fn test_batch_tokenize() {
    let tests = vec![
        ("1-1", vec!["1", "-", "1"]),
        ("1+1", vec!["1", "+", "1"]),
        ("1 + 1", vec!["1", "+", "1"]),
        ("1 + -1", vec!["1", "+", "-1"]),
        ("1 - 1", vec!["1", "-", "1"]),
        ("1 - -1", vec!["1", "-", "-1"]),
        ("-1 - -1", vec!["-1", "-", "-1"]),
        ("-1 - +1", vec!["-1", "-", "+1"]),
        ("-1-+1", vec!["-1", "-", "+1"]),
        ("-14-+12/(-2*-54)", vec!["-14", "-", "+12", "/", "(", "-2", "*", "-54", ")"]),
        ("1 + 1", vec!["1", "+", "1"]),
        ("1 + (-1 + 2)", vec!["1", "+", "(", "-1", "+", "2", ")"]),
        ("1 * a", vec!["1", "*", "a"]),
        ("1 + 1.0", vec!["1", "+", "1.0"]),
        ("1 + .0", vec!["1", "+", ".0"]),
        ("1 + abn", vec!["1", "+", "abn"]),
        ("1 ^ abn", vec!["1", "^", "abn"]),
        ("1 + abn.b", vec!["1", "+", "abn.b"]),
        ("(1 + 1)*2", vec!["(", "1", "+", "1", ")", "*", "2"]),
        ("(1 + cash.cycle)*2", vec!["(", "1", "+", "cash.cycle", ")", "*", "2"]),
        ("2 / 1", vec!["2", "/", "1"]),
        ("1 +555", vec!["1", "+", "555"]),
        ("1+ 555", vec!["1", "+", "555"]),
    ];
    for test in tests {
        assert_eq!(tokenize(test.0).unwrap(), test.1, "Failed to tokenize: {}", test.0);
    }
}

#[test]
fn sign_after_operator_joins_the_number() {
    assert_eq!(tokenize("1 + -1").unwrap(), vec!["1", "+", "-1"]);
    assert_eq!(tokenize("-1 - -1").unwrap(), vec!["-1", "-", "-1"]);
    assert_eq!(tokenize("2*-3").unwrap(), vec!["2", "*", "-3"]);
    assert_eq!(tokenize("2=-3").unwrap(), vec!["2", "=", "-3"]);
}

#[test]
fn sign_after_operand_is_an_operator() {
    assert_eq!(tokenize("1 +555").unwrap(), vec!["1", "+", "555"]);
    assert_eq!(tokenize("a-1").unwrap(), vec!["a", "-", "1"]);
    assert_eq!(tokenize("a -1").unwrap(), vec!["a", "-", "1"]);
    assert_eq!(tokenize("(1)-1").unwrap(), vec!["(", "1", ")", "-", "1"]);
    assert_eq!(tokenize("(1) -1").unwrap(), vec!["(", "1", ")", "-", "1"]);
}

#[test]
fn sign_after_open_parenthesis_joins_the_number() {
    assert_eq!(tokenize("(-1)").unwrap(), vec!["(", "-1", ")"]);
    assert_eq!(tokenize("( -1)").unwrap(), vec!["(", "-1", ")"]);
    assert_eq!(tokenize("(+.5)").unwrap(), vec!["(", "+.5", ")"]);
}

#[test]
fn sign_before_space_operator_or_parenthesis_is_an_operator() {
    assert_eq!(tokenize("1 - 1").unwrap(), vec!["1", "-", "1"]);
    assert_eq!(tokenize("1 * - 1").unwrap(), vec!["1", "*", "-", "1"]);
    assert_eq!(tokenize("1 -(2)").unwrap(), vec!["1", "-", "(", "2", ")"]);
    assert_eq!(tokenize("1 * -(2)").unwrap(), vec!["1", "*", "-", "(", "2", ")"]);
    assert_eq!(tokenize("1 --1").unwrap(), vec!["1", "-", "-1"]);
}

#[test]
fn sign_before_a_name_is_an_operator() {
    assert_eq!(tokenize("1 * -a").unwrap(), vec!["1", "*", "-", "a"]);
    assert_eq!(tokenize("( -a)").unwrap(), vec!["(", "-", "a", ")"]);
}

#[test]
fn first_character_sign_starts_a_word() {
    assert_eq!(tokenize("-1").unwrap(), vec!["-1"]);
    assert_eq!(tokenize("+a").unwrap(), vec!["+a"]);
    assert_eq!(tokenize("-").unwrap(), vec!["-"]);
    assert_eq!(tokenize("- 1").unwrap(), vec!["-", "1"]);
    assert_eq!(tokenize("-(1)").unwrap(), vec!["-", "(", "1", ")"]);
}

#[test]
fn sign_after_leading_space_joins_the_number() {
    assert_eq!(tokenize(" -1").unwrap(), vec!["-1"]);
    assert_eq!(tokenize("  +2 * 3").unwrap(), vec!["+2", "*", "3"]);
}

#[test]
fn sign_at_the_end_is_an_operator() {
    assert_eq!(tokenize("1 +").unwrap(), vec!["1", "+"]);
    assert_eq!(tokenize("1-").unwrap(), vec!["1", "-"]);
}

#[test]
fn white_space_only_separates() {
    assert_eq!(tokenize("").unwrap(), Vec::<String>::new());
    assert_eq!(tokenize("   ").unwrap(), Vec::<String>::new());
    assert_eq!(tokenize(" 1\t+\n2 ").unwrap(), vec!["1", "+", "2"]);
    assert_eq!(tokenize("1\u{a0}2").unwrap(), vec!["1", "2"]);
    assert_eq!(tokenize("ab cd").unwrap(), vec!["ab", "cd"]);
}

#[test]
fn words_hold_letters_digits_points_and_underscores() {
    assert_eq!(tokenize("cash.cycle_2+x9").unwrap(), vec!["cash.cycle_2", "+", "x9"]);
    assert_eq!(tokenize("1.2.3").unwrap(), vec!["1.2.3"]);
    assert_eq!(tokenize("größe*2").unwrap(), vec!["größe", "*", "2"]);
    assert_eq!(tokenize("_a").unwrap(), vec!["_a"]);
}

#[test]
fn structural_characters_stand_alone() {
    assert_eq!(
        tokenize("()*/^%=").unwrap(),
        vec!["(", ")", "*", "/", "^", "%", "="]
    );
    assert_eq!(tokenize("a=b").unwrap(), vec!["a", "=", "b"]);
    assert_eq!(tokenize("a%b^c").unwrap(), vec!["a", "%", "b", "^", "c"]);
}

#[test]
fn unexpected_character_is_rejected() {
    assert_eq!(tokenize("1 $ 2"), Err(EvalError::UnexpectedCharacter('$')));
    assert_eq!(tokenize("a,b"), Err(EvalError::UnexpectedCharacter(',')));
    assert_eq!(tokenize("1 + [2]"), Err(EvalError::UnexpectedCharacter('[')));
    assert_eq!(tokenize("#"), Err(EvalError::UnexpectedCharacter('#')));
}

#[test]
fn first_unexpected_character_is_reported() {
    assert_eq!(tokenize("1 ! 2 ? 3"), Err(EvalError::UnexpectedCharacter('!')));
}

#[test]
fn classified_characters_are_enough_to_split() {
    let word = |symbol| Classified { symbol, whitespace: false, alphanumeric: true };
    let other = |symbol| Classified { symbol, whitespace: false, alphanumeric: false };
    let space = Classified { symbol: ' ', whitespace: true, alphanumeric: false };
    let chars = vec![word('1'), space, other('+'), space, other('-'), word('1')];
    assert_eq!(tokenize_classified(&chars).unwrap(), vec!["1", "+", "-1"]);
    let classified = classify("a +\u{3000}1");
    let seen: Vec<(char, bool, bool)> =
        classified.iter().map(|c| (c.symbol, c.whitespace, c.alphanumeric)).collect();
    assert_eq!(
        seen,
        vec![
            ('a', false, true),
            (' ', true, false),
            ('+', false, false),
            ('\u{3000}', true, false),
            ('1', false, true),
        ]
    );
    assert_eq!(tokenize_classified(&classified).unwrap(), vec!["a", "+", "1"]);
}

#[test]
fn tokens_are_the_text_without_white_space() {
    let texts = [
        "-14-+12/(-2*-54)",
        " ( 1 + cash.cycle ) * 2 ",
        "a=b % c ^ d",
        "1 +555",
        "",
        "   ",
    ];
    for text in texts {
        let tokens = tokenize(text).unwrap();
        let joined: String = tokens.concat();
        let visible: String = text.chars().filter(|c| !c.is_whitespace()).collect();
        assert_eq!(joined, visible, "for {:?}", text);
        assert!(tokens.iter().all(|t| !t.is_empty()));
    }
}
