use expressur::{
    evaluate_expression, evaluate_expressions, reverse_polish_notate, Context, Expressions, Number,
};
use rust_decimal::prelude::{FromPrimitive, ToPrimitive};
use rust_decimal::Decimal;

fn to_f32(n: Number) -> f32 {
    Decimal::from_i128_with_scale(n.mantissa(), n.scale()).to_f32().unwrap()
}

fn from_f32(x: f32) -> Number {
    let d = Decimal::from_f32(x).unwrap();
    Number::new(d.mantissa(), d.scale()).unwrap()
}

#[test]
fn test_polish1() {
    let expression = "1 + 2 * 3".to_string();
    let expected = vec!["1", "2", "3", "*", "+"];
    assert_eq!(reverse_polish_notate(expression).unwrap(), expected);
}

#[test]
fn test_polish2() {
    let expression = "(1 + 2) * 3".to_string();
    let expected = vec!["1", "2", "+", "3", "*"];
    assert_eq!(reverse_polish_notate(expression).unwrap(), expected);
}

#[test]
fn test_eval() {
    let expression = "( 1 + 2 ) * 3";
    let expected = 9.0;
    let context = Context::new();
    assert_eq!(to_f32(evaluate_expression(expression, &context).unwrap()), expected);
}

#[test]
fn test_eval_expr() {
    let mut expressions = Expressions::new();
    expressions.insert("val".to_string(), "( 1 + 2 ) * a".to_string());
    let a: f32 = 3.;
    let expected = 9.0;
    let mut context = Context::new();
    context.insert("a".to_string(), from_f32(a));
    let results = evaluate_expressions(&expressions, &context).unwrap();
    let actual = to_f32(*results.get("val").unwrap());
    assert_eq!(actual, expected);
}

#[test]
fn test_eval_context_expr1() {
    let mut expressions = Expressions::new();
    expressions.insert("cplusaplusb".to_string(), "c + aplusb".to_string());
    expressions.insert("aplusb".to_string(), "a + b".to_string());
    expressions.insert("extraindirection".to_string(), "(aplusb/ cplusaplusb)".to_string());

    let mut context = Context::new();
    context.insert("a".to_string(), from_f32(1.));
    context.insert("b".to_string(), from_f32(2.));
    context.insert("c".to_string(), from_f32(4.));

    let results = evaluate_expressions(&expressions, &context).unwrap();

    assert_eq!(to_f32(*results.get("aplusb").unwrap()), 3.);
    assert_eq!(to_f32(*results.get("cplusaplusb").unwrap()), 7.);
    assert_eq!(
        format!("{:.3}", to_f32(*results.get("extraindirection").unwrap())),
        "0.429"
    );
}
