use expressur::evaluator::{arithmetic_result, final_value, operand_value, operand_values};
use expressur::{
    evaluate_expression, evaluate_expressions, evaluate_operator, evaluate_postfix, get_val,
    operator_precedence, reverse_polish_notate, to_postfix, Context, EvalError, Expressions,
    Number,
};
use rust_decimal::Decimal;
use std::collections::VecDeque;

fn dec(mantissa: i64, scale: u32) -> Decimal {
    Decimal::new(mantissa, scale)
}

fn to_decimal(n: Number) -> Decimal {
    Decimal::from_i128_with_scale(n.mantissa(), n.scale())
}

fn number(mantissa: i128, scale: u32) -> Number {
    Number::new(mantissa, scale).unwrap()
}

fn evaluate(text: &str) -> Result<Number, EvalError> {
    evaluate_expression(text, &Context::new())
}

fn value(text: &str) -> Decimal {
    to_decimal(evaluate(text).unwrap())
}

fn program(tokens: &[&str]) -> VecDeque<String> {
    tokens.iter().map(|t| t.to_string()).collect()
}

#[test]
fn test_reverse_polish_notate_1() {
    let expression = "1 + 2 * 3".to_string();
    let expected = vec!["1", "2", "3", "*", "+"];
    assert_eq!(reverse_polish_notate(expression).unwrap(), expected);
}

#[test]
fn test_reverse_polish_notate_2() {
    let expression = "(1 + 2) * 3".to_string();
    let expected = vec!["1", "2", "+", "3", "*"];
    assert_eq!(reverse_polish_notate(expression).unwrap(), expected);
}

#[test]
fn test_evaluate_expression() {
    let expression = "( 1 + 2 ) * 3";
    let expected = dec(90, 1);
    let context = Context::new();
    assert_eq!(to_decimal(evaluate_expression(expression, &context).unwrap()), expected);
}

#[test]
fn test_evaluate_expressions() {
    let mut expressions = Expressions::new();
    expressions.insert("val".to_string(), "( 1 + 2 ) * a".to_string());
    let a: Number = number(3, 0);
    let expected = dec(90, 1);
    let mut context = Context::new();
    context.insert("a".to_string(), a);
    let results = evaluate_expressions(&expressions, &context).unwrap();
    let actual = to_decimal(*results.get("val").unwrap());
    assert_eq!(actual, expected);
}

#[test]
fn test_context_evaluate_expressions() {
    let mut expressions = Expressions::new();
    expressions.insert("cplusaplusb".to_string(), "c + aplusb".to_string());
    expressions.insert("aplusb".to_string(), "a + b".to_string());
    expressions.insert("extraindirection".to_string(), "(aplusb/ cplusaplusb)".to_string());

    let mut context = Context::new();
    context.insert("a".to_string(), number(1, 0));
    context.insert("b".to_string(), number(2, 0));
    context.insert("c".to_string(), number(4, 0));

    let results = evaluate_expressions(&expressions, &context).unwrap();

    assert_eq!(to_decimal(*results.get("aplusb").unwrap()), dec(3, 0));
    assert_eq!(to_decimal(*results.get("cplusaplusb").unwrap()), dec(7, 0));
    assert_eq!(
        to_decimal(*results.get("extraindirection").unwrap()).round_dp(3),
        dec(429, 3)
    );
}

#[test]
fn test_batch_evaluate_expressions() {
    let tests = vec![
        ("1-1", dec(0, 0)),
        ("1+1", dec(2, 0)),
        ("1 + 1", dec(2, 0)),
        ("1 + -1", dec(0, 0)),
        ("1 - 1", dec(0, 0)),
        ("1 - -1", dec(2, 0)),
        ("-1 - -1", dec(0, 0)),
        ("-1 - +1", dec(-2, 0)),
        ("-1-+1", dec(-2, 0)),
        ("-14-+12/(-2*-54)", dec(-14111, 3)),
        ("1 + 1", dec(2, 0)),
        ("1 + (-1 + 2)", dec(2, 0)),
        ("1 + 1.0", dec(2, 0)),
        ("1 + .0", dec(1, 0)),
        ("2 ^ 4", dec(16, 0)),
        ("1 + 2.2", dec(32, 1)),
        ("(1 + 1)*2", dec(4, 0)),
        ("2 / 4", dec(5, 1)),
        ("1 +555", dec(556, 0)),
        ("1+ 555", dec(556, 0)),
    ];
    for test in tests {
        let context = Context::new();
        assert_eq!(
            to_decimal(evaluate_expression(test.0, &context).unwrap()).round_dp(3),
            test.1,
            "Failed to evaluate: {}",
            test.0
        );
    }
}

#[test]
fn operator_table_has_the_documented_precedences() {
    assert_eq!(operator_precedence("="), (10, '='));
    assert_eq!(operator_precedence("^"), (40, '^'));
    assert_eq!(operator_precedence("+"), (50, '+'));
    assert_eq!(operator_precedence("-"), (50, '-'));
    assert_eq!(operator_precedence("*"), (80, '*'));
    assert_eq!(operator_precedence("/"), (80, '/'));
    assert_eq!(operator_precedence("%"), (80, '%'));
    assert_eq!(operator_precedence("("), (1000, '\0'));
    assert_eq!(operator_precedence(")"), (1000, '\0'));
    assert_eq!(operator_precedence("a"), (-1, '\0'));
    assert_eq!(operator_precedence("12"), (-1, '\0'));
    assert_eq!(operator_precedence("++"), (-1, '\0'));
    assert_eq!(operator_precedence(""), (-1, '\0'));
    assert_eq!(operator_precedence("-1"), (-1, '\0'));
}

#[test]
fn postfix_keeps_operands_in_order() {
    assert_eq!(
        reverse_polish_notate("a + b * c - d".to_string()).unwrap(),
        vec!["a", "b", "c", "*", "+", "d", "-"]
    );
}

#[test]
fn postfix_holds_no_parenthesis() {
    let program = reverse_polish_notate("((1 + 2) * (3 - 4)) / (5)".to_string()).unwrap();
    assert_eq!(program, vec!["1", "2", "+", "3", "4", "-", "*", "5", "/"]);
    assert!(program.iter().all(|t| t != "(" && t != ")"));
}

#[test]
fn equal_precedence_groups_to_the_left() {
    assert_eq!(
        reverse_polish_notate("1 - 2 - 3".to_string()).unwrap(),
        vec!["1", "2", "-", "3", "-"]
    );
    assert_eq!(
        reverse_polish_notate("8 / 4 * 2 % 3".to_string()).unwrap(),
        vec!["8", "4", "/", "2", "*", "3", "%"]
    );
    assert_eq!(value("1 - 2 - 3"), dec(-4, 0));
    assert_eq!(value("8 / 4 / 2"), dec(1, 0));
    assert_eq!(value("8 / 4 * 2"), dec(4, 0));
}

#[test]
fn power_groups_to_the_left() {
    assert_eq!(
        reverse_polish_notate("2 ^ 3 ^ 2".to_string()).unwrap(),
        vec!["2", "3", "^", "2", "^"]
    );
    assert_eq!(value("2 ^ 3 ^ 2"), dec(64, 0));
}

#[test]
fn power_binds_less_than_sum() {
    assert_eq!(
        reverse_polish_notate("2 ^ 1 + 1".to_string()).unwrap(),
        vec!["2", "1", "1", "+", "^"]
    );
    assert_eq!(value("2 ^ 1 + 1"), dec(4, 0));
}

#[test]
fn equality_binds_least() {
    assert_eq!(
        reverse_polish_notate("1 + 2 = 4 - 1".to_string()).unwrap(),
        vec!["1", "2", "+", "4", "1", "-", "="]
    );
    assert_eq!(value("1 + 2 = 4 - 1"), dec(1, 0));
}

#[test]
fn missing_right_parenthesis_is_rejected() {
    assert_eq!(evaluate("(1 + 2"), Err(EvalError::MissingRightParenthesis));
    assert_eq!(
        reverse_polish_notate("((1 + 2) * 3".to_string()),
        Err(EvalError::MissingRightParenthesis)
    );
    assert_eq!(evaluate("("), Err(EvalError::MissingRightParenthesis));
}

#[test]
fn missing_left_parenthesis_is_rejected() {
    assert_eq!(evaluate("1 + 2)"), Err(EvalError::MissingLeftParenthesis));
    assert_eq!(
        reverse_polish_notate("(1 + 2)) * 3".to_string()),
        Err(EvalError::MissingLeftParenthesis)
    );
    assert_eq!(evaluate(")"), Err(EvalError::MissingLeftParenthesis));
    assert_eq!(evaluate(")("), Err(EvalError::MissingLeftParenthesis));
}

#[test]
fn to_postfix_takes_tokens() {
    let tokens: Vec<String> = vec!["(", "1", "+", "2", ")", "*", "3"]
        .into_iter()
        .map(String::from)
        .collect();
    assert_eq!(to_postfix(&tokens).unwrap(), vec!["1", "2", "+", "3", "*"]);
    let open: Vec<String> = vec!["(", "1"].into_iter().map(String::from).collect();
    assert_eq!(to_postfix(&open), Err(EvalError::MissingRightParenthesis));
    let none: Vec<String> = Vec::new();
    assert_eq!(to_postfix(&none).unwrap(), Vec::<String>::new());
}

#[test]
fn each_operator_computes() {
    assert_eq!(value("1 + 2"), dec(3, 0));
    assert_eq!(value("5 - 7"), dec(-2, 0));
    assert_eq!(value("3 * 3"), dec(9, 0));
    assert_eq!(value("4 / 4"), dec(1, 0));
    assert_eq!(value("5 % 2"), dec(1, 0));
    assert_eq!(value("6 ^ 6"), dec(46656, 0));
    assert_eq!(value("7 = 7"), dec(1, 0));
    assert_eq!(value("7 = 9"), dec(0, 0));
}

#[test]
fn evaluate_operator_by_symbol() {
    let six = number(6, 0);
    let four = number(4, 0);
    assert_eq!(to_decimal(evaluate_operator(six, four, '+').unwrap()), dec(10, 0));
    assert_eq!(to_decimal(evaluate_operator(six, four, '-').unwrap()), dec(2, 0));
    assert_eq!(to_decimal(evaluate_operator(six, four, '*').unwrap()), dec(24, 0));
    assert_eq!(to_decimal(evaluate_operator(six, four, '/').unwrap()), dec(15, 1));
    assert_eq!(to_decimal(evaluate_operator(six, four, '%').unwrap()), dec(2, 0));
    assert_eq!(to_decimal(evaluate_operator(six, four, '^').unwrap()), dec(1296, 0));
    assert_eq!(to_decimal(evaluate_operator(six, four, '=').unwrap()), dec(0, 0));
    assert_eq!(to_decimal(evaluate_operator(six, six, '=').unwrap()), dec(1, 0));
}

#[test]
fn equality_gives_one_point_zero_or_zero_point_zero() {
    let yes = evaluate_operator(number(7, 0), number(7, 0), '=').unwrap();
    assert_eq!((yes.mantissa(), yes.scale()), (10, 1));
    let no = evaluate_operator(number(7, 0), number(9, 0), '=').unwrap();
    assert_eq!((no.mantissa(), no.scale()), (0, 1));
}

#[test]
fn equality_compares_values_not_digits() {
    assert_eq!(value("1.0 = 1.00"), dec(1, 0));
    assert_eq!(value("0.5 = .50"), dec(1, 0));
    assert_eq!(value("10 = 1.0"), dec(0, 0));
    assert_eq!(value("-1 = 1"), dec(0, 0));
    assert_eq!(value("0 = 0.000"), dec(1, 0));
    let close = evaluate_operator(number(10, 1), number(100, 2), '=').unwrap();
    assert_eq!((close.mantissa(), close.scale()), (10, 1));
}

#[test]
fn arithmetic_is_decimal_not_binary() {
    assert_eq!(value("0.1 + 0.2"), dec(3, 1));
    assert_eq!(value("0.1 + 0.2 = 0.3"), dec(1, 0));
    assert_eq!(value("1.1 * 1.1"), dec(121, 2));
}

#[test]
fn results_keep_their_scale() {
    let sum = evaluate("1 + 1.0").unwrap();
    assert_eq!((sum.mantissa(), sum.scale()), (20, 1));
    let product = evaluate("1.5 * 2").unwrap();
    assert_eq!((product.mantissa(), product.scale()), (30, 1));
    let half = evaluate("2 / 4").unwrap();
    assert_eq!((half.mantissa(), half.scale()), (50, 2));
}

#[test]
fn a_literal_alone_is_its_value() {
    assert_eq!(value("42"), dec(42, 0));
    assert_eq!(value("-1.5"), dec(-15, 1));
    assert_eq!(value(" 7 "), dec(7, 0));
    assert_eq!(value("(7)"), dec(7, 0));
}

#[test]
fn names_are_looked_up_in_the_context() {
    let mut context = Context::new();
    context.insert("a".to_string(), number(3, 0));
    context.insert("cash.cycle".to_string(), number(25, 1));
    assert_eq!(
        to_decimal(evaluate_expression("( 1 + 2 ) * a", &context).unwrap()),
        dec(9, 0)
    );
    assert_eq!(
        to_decimal(evaluate_expression("cash.cycle * a", &context).unwrap()),
        dec(75, 1)
    );
}

#[test]
fn a_literal_wins_over_a_name() {
    let mut context = Context::new();
    context.insert("1".to_string(), number(100, 0));
    assert_eq!(to_decimal(evaluate_expression("1 + 1", &context).unwrap()), dec(2, 0));
    assert_eq!(get_val(&context, &"1".to_string()).map(to_decimal), Some(dec(1, 0)));
}

#[test]
fn get_val_reads_literals_then_names() {
    let mut context = Context::new();
    context.insert("x".to_string(), number(5, 0));
    assert_eq!(get_val(&context, &"1.50".to_string()).map(to_decimal), Some(dec(150, 2)));
    let literal = get_val(&context, &"1.50".to_string()).unwrap();
    assert_eq!((literal.mantissa(), literal.scale()), (150, 2));
    assert_eq!(get_val(&context, &"x".to_string()).map(to_decimal), Some(dec(5, 0)));
    assert!(get_val(&context, &"y".to_string()).is_none());
    assert!(get_val(&context, &"".to_string()).is_none());
    assert!(get_val(&context, &"1e3".to_string()).is_none());
}

#[test]
fn unknown_right_operand_is_named() {
    assert_eq!(evaluate("1 + y"), Err(EvalError::UnknownVariable("y".to_string())));
}

#[test]
fn unknown_left_operand_is_named() {
    assert_eq!(evaluate("x + 1"), Err(EvalError::UnknownVariable("x".to_string())));
}

#[test]
fn both_unknown_operands_are_named() {
    assert_eq!(
        evaluate("x + y"),
        Err(EvalError::UnknownVariables("x".to_string(), "y".to_string()))
    );
}

#[test]
fn unknown_variable_is_recoverable_and_the_rest_is_not() {
    assert!(EvalError::UnknownVariable("x".to_string()).is_recoverable());
    assert!(EvalError::UnknownVariables("x".to_string(), "y".to_string()).is_recoverable());
    assert!(!EvalError::UnexpectedCharacter('$').is_recoverable());
    assert!(!EvalError::MissingLeftParenthesis.is_recoverable());
    assert!(!EvalError::MissingRightParenthesis.is_recoverable());
    assert!(!EvalError::MissingOperand("+".to_string()).is_recoverable());
    assert!(!EvalError::UnknownOperator('\0').is_recoverable());
    assert!(!EvalError::DivisionByZero.is_recoverable());
    assert!(!EvalError::Overflow.is_recoverable());
    assert!(!EvalError::EmptyExpression.is_recoverable());
    assert!(!EvalError::MalformedNumber("x".to_string()).is_recoverable());
}

#[test]
fn empty_expression_is_rejected() {
    assert_eq!(evaluate(""), Err(EvalError::EmptyExpression));
    assert_eq!(evaluate("   "), Err(EvalError::EmptyExpression));
    assert_eq!(evaluate("()"), Err(EvalError::EmptyExpression));
}

#[test]
fn operator_without_operands_is_rejected() {
    assert_eq!(evaluate("1 +"), Err(EvalError::MissingOperand("+".to_string())));
    assert_eq!(evaluate("*"), Err(EvalError::MissingOperand("*".to_string())));
    assert_eq!(evaluate("1 * * 2"), Err(EvalError::MissingOperand("*".to_string())));
}

#[test]
fn division_by_zero_is_rejected() {
    assert_eq!(evaluate("1 / 0"), Err(EvalError::DivisionByZero));
    assert_eq!(evaluate("1 / 0.00"), Err(EvalError::DivisionByZero));
    assert_eq!(evaluate("1 % 0"), Err(EvalError::DivisionByZero));
    assert_eq!(evaluate("1 / (2 - 2)"), Err(EvalError::DivisionByZero));
    assert_eq!(
        evaluate_operator(number(1, 0), number(0, 5), '/'),
        Err(EvalError::DivisionByZero)
    );
}

#[test]
fn overflow_is_rejected() {
    assert_eq!(
        evaluate("79228162514264337593543950335 + 1"),
        Err(EvalError::Overflow)
    );
    assert_eq!(
        evaluate("79228162514264337593543950335 * 2"),
        Err(EvalError::Overflow)
    );
    assert_eq!(
        evaluate("-79228162514264337593543950335 - 1"),
        Err(EvalError::Overflow)
    );
    assert_eq!(evaluate("10 ^ 29"), Err(EvalError::Overflow));
    assert_eq!(
        evaluate("79228162514264337593543950335 / 0.1"),
        Err(EvalError::Overflow)
    );
}

#[test]
fn a_name_alone_is_no_number() {
    let mut context = Context::new();
    context.insert("x".to_string(), number(5, 0));
    assert_eq!(
        evaluate_expression("x", &context),
        Err(EvalError::MalformedNumber("x".to_string()))
    );
    assert_eq!(evaluate("1.2.3"), Err(EvalError::MalformedNumber("1.2.3".to_string())));
}

#[test]
fn the_operand_on_top_is_the_result() {
    assert_eq!(value("1 2"), dec(2, 0));
    assert_eq!(value("1 + 2 3"), dec(5, 0));
    assert_eq!(value("1 2 + 3"), dec(5, 0));
}

#[test]
fn parenthesis_in_a_program_is_no_operator() {
    let context = Context::new();
    assert_eq!(
        evaluate_postfix(&program(&["1", "2", "("]), &context),
        Err(EvalError::UnknownOperator('\0'))
    );
    assert_eq!(
        evaluate_operator(number(1, 0), number(2, 0), '?'),
        Err(EvalError::UnknownOperator('?'))
    );
    assert_eq!(
        evaluate_postfix(&program(&["1", ")"]), &context),
        Err(EvalError::MissingOperand(")".to_string()))
    );
}

#[test]
fn evaluate_postfix_runs_a_program() {
    let mut context = Context::new();
    context.insert("a".to_string(), number(3, 0));
    assert_eq!(
        to_decimal(evaluate_postfix(&program(&["1", "2", "+", "a", "*"]), &context).unwrap()),
        dec(9, 0)
    );
    assert_eq!(
        to_decimal(evaluate_postfix(&program(&["7", "2", "-"]), &context).unwrap()),
        dec(5, 0)
    );
    assert_eq!(
        evaluate_postfix(&program(&[]), &context),
        Err(EvalError::EmptyExpression)
    );
}

#[test]
fn the_upper_operand_is_the_right_one() {
    assert_eq!(value("7 - 2"), dec(5, 0));
    assert_eq!(value("2 - 7"), dec(-5, 0));
    assert_eq!(value("1 / 4"), dec(25, 2));
    assert_eq!(value("7 % 4"), dec(3, 0));
    assert_eq!(value("2 ^ 10"), dec(1024, 0));
}

#[test]
fn evaluation_is_repeatable() {
    let mut context = Context::new();
    context.insert("a".to_string(), number(3, 0));
    let text = "-14-+12/(-2*-54) + a";
    let first = evaluate_expression(text, &context);
    let second = evaluate_expression(text, &context);
    assert_eq!(first, second);
    let one = first.unwrap();
    let two = second.unwrap();
    assert_eq!((one.mantissa(), one.scale()), (two.mantissa(), two.scale()));
    assert_eq!(context.len(), 1);
    assert_eq!(context.get("a").map(|n| (n.mantissa(), n.scale())), Some((3, 0)));
    assert_eq!(evaluate_expression("a + b", &context), evaluate_expression("a + b", &context));
}

#[test]
fn fractional_power_is_approximated() {
    let root = value("4 ^ 0.5");
    assert_eq!(root.round_dp(6), dec(2, 0));
}

#[test]
fn negative_power_divides() {
    assert_eq!(value("2 ^ -2"), dec(25, 2));
}

#[test]
fn thirds_are_cut_at_twenty_eight_digits() {
    let third = evaluate("1 / 3").unwrap();
    assert_eq!(third.scale(), 28);
    assert_eq!(third.mantissa(), 3333333333333333333333333333);
}

#[test]
fn a_given_literal_wins_over_the_context() {
    let mut context = Context::new();
    context.insert("x".to_string(), number(5, 0));
    let name = "x".to_string();
    assert_eq!(operand_value(Some(number(7, 0)), &context, &name), Some(number(7, 0)));
    assert_eq!(operand_value(None, &context, &name), Some(number(5, 0)));
    assert_eq!(operand_value(None, &context, &"y".to_string()), None);
}

#[test]
fn the_operand_without_value_is_named() {
    let one = Some(number(1, 0));
    let two = Some(number(2, 0));
    let x = || "x".to_string();
    let y = || "y".to_string();
    assert_eq!(operand_values(x(), y(), one, two), Ok((number(1, 0), number(2, 0))));
    assert_eq!(operand_values(x(), y(), None, two), Err(EvalError::UnknownVariable(x())));
    assert_eq!(operand_values(x(), y(), one, None), Err(EvalError::UnknownVariable(y())));
    assert_eq!(operand_values(x(), y(), None, None), Err(EvalError::UnknownVariables(x(), y())));
}

#[test]
fn no_result_of_arithmetic_is_an_overflow() {
    assert_eq!(arithmetic_result(Some(number(3, 1))), Ok(number(3, 1)));
    assert_eq!(arithmetic_result(None), Err(EvalError::Overflow));
}

#[test]
fn what_is_left_must_read_as_a_number() {
    assert_eq!(final_value("9".to_string(), Some(number(9, 0))), Ok(number(9, 0)));
    assert_eq!(
        final_value("nine".to_string(), None),
        Err(EvalError::MalformedNumber("nine".to_string()))
    );
}

#[test]
fn scientific_notation_reads_only_as_a_result() {
    assert_eq!(value("1e3"), dec(1000, 0));
    assert_eq!(evaluate("1e3 + 1"), Err(EvalError::UnknownVariable("1e3".to_string())));
}

#[test]
fn numbers_compare_by_value() {
    assert_eq!(number(10, 1), number(1, 0));
    assert_eq!(number(0, 5), number(0, 0));
    assert_ne!(number(10, 1), number(10, 0));
    assert_eq!(evaluate("( 1 + 2 ) * 3"), Ok(number(90, 1)));
}

#[test]
fn the_tighter_operator_is_applied_first() {
    assert_eq!(value("1 + 2 * 3"), dec(7, 0));
    assert_eq!(value("2 * 3 + 1"), dec(7, 0));
    assert_eq!(value("8 - 2 * 3"), dec(2, 0));
    assert_eq!(value("8 / 2 - 3"), dec(1, 0));
    assert_eq!(value("1 + 2 * 3 - 4 / 2"), dec(5, 0));
    assert_eq!(value("2 * 3 ^ 2"), dec(36, 0));
    assert_eq!(value("2 ^ 3 * 2"), dec(64, 0));
    assert_eq!(value("1 + 1 = 2"), dec(1, 0));
    assert_eq!(value("2 = 1 + 1"), dec(1, 0));
}

#[test]
fn parentheses_override_precedence() {
    assert_eq!(value("(1 + 2) * 3"), dec(9, 0));
    assert_eq!(value("2 * (3 + 1)"), dec(8, 0));
    assert_eq!(value("((1 + 2) * (3 + 4))"), dec(21, 0));
    assert_eq!(value("(2 ^ 3) ^ 2"), dec(64, 0));
    assert_eq!(value("2 ^ (3 ^ 2)"), dec(512, 0));
    assert_eq!(value("((7))"), dec(7, 0));
    assert_eq!(value("1 - (2 - 3)"), dec(2, 0));
}

#[test]
fn a_name_without_value_fails_any_expression_that_uses_it() {
    let mut context = Context::new();
    context.insert("a".to_string(), number(3, 0));
    for text in ["a + b", "b + a", "(a * 2) + (b / 3)", "1 + 2 * (3 - b)", "((b)) ^ 2"] {
        let result = evaluate_expression(text, &context);
        assert!(matches!(result, Err(ref e) if e.is_recoverable()), "for {:?}: {:?}", text, result);
    }
}

#[test]
fn a_long_sum_is_evaluated() {
    let mut text = String::from("0");
    for _ in 0..5000 {
        text.push_str(" + 1");
    }
    assert_eq!(value(&text), dec(5000, 0));
    let mut nested = String::new();
    for _ in 0..500 {
        nested.push('(');
    }
    nested.push('1');
    for _ in 0..500 {
        nested.push_str(" + 1)");
    }
    assert_eq!(value(&nested), dec(501, 0));
}

#[test]
fn odd_words_are_read_or_rejected() {
    let context = Context::new();
    let long_digits = "9".repeat(100);
    let long_fraction = format!("0.{}1", "0".repeat(40));
    let words = [
        "+", "-", ".", "..", "_", "1_000", "1e", "e1", "1e-3", "1E3", "١٢٣", "0x10", "1.", ".5",
        "-.5", "+.5", "00012", "-0", "1e400", "1e-400", long_digits.as_str(),
        long_fraction.as_str(),
    ];
    for word in words {
        let name = word.to_string();
        let as_operand = get_val(&context, &name);
        let alone = evaluate_expression(word, &context);
        let used = evaluate_expression(&format!("{} * 1", word), &context);
        if as_operand.is_none() && !word.starts_with(['+', '-']) || word == "+" || word == "-" {
            assert!(used.is_err(), "for {:?}: {:?}", word, used);
        }
        if let Ok(value) = alone {
            assert!(Number::new(value.mantissa(), value.scale()).is_some());
        }
    }
    assert_eq!(get_val(&context, &".5".to_string()), Some(number(5, 1)));
    assert_eq!(get_val(&context, &"-.5".to_string()), Some(number(-5, 1)));
    assert_eq!(get_val(&context, &"00012".to_string()), Some(number(12, 0)));
    assert_eq!(get_val(&context, &"-0".to_string()), Some(number(0, 0)));
    assert_eq!(get_val(&context, &"1_000".to_string()), Some(number(1000, 0)));
    assert_eq!(get_val(&context, &"1.".to_string()), Some(number(1, 0)));
    assert_eq!(get_val(&context, &".".to_string()), None);
    assert_eq!(get_val(&context, &long_digits), None);
    assert_eq!(get_val(&context, &long_fraction), None);
    assert_eq!(evaluate("-0"), Ok(number(0, 0)));
    assert_eq!(evaluate("0 * -1"), Ok(number(0, 0)));
    assert_eq!(evaluate("(0 * -1) + 1"), Ok(number(1, 0)));
}
