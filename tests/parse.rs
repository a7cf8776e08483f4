use dice_dist::ast::{Operator, Value, ValueParseError};

fn op(o: Operator) -> Value {
    Value::Operator(Box::new(o))
}

#[test]
fn parse_plus() {
    let value: Value = "2 + 2".parse().unwrap();
    assert_eq!(value, op(Operator::Plus(Value::Constant(2), Value::Constant(2))));
}

#[test]
fn parse_dice() {
    let value: Value = "2d6".parse().unwrap();
    assert_eq!(value, op(Operator::Dice(Value::Constant(2), Value::Constant(6))));
}

#[test]
fn parse_kh() {
    let value: Value = "2d6kh2".parse().unwrap();
    assert_eq!(
        value,
        op(Operator::KeepHighest(
            op(Operator::Dice(Value::Constant(2), Value::Constant(6))),
            Value::Constant(2),
        ))
    );
}

#[test]
fn parse_default_dice() {
    let value: Value = "d6".parse().unwrap();
    assert_eq!(value, op(Operator::Dice(Value::Default, Value::Constant(6))));
}

#[test]
fn plus_with_negative_number() {
    let value: Value = "2+-3".parse().unwrap();
    assert_eq!(value, op(Operator::Plus(Value::Constant(2), Value::Constant(-3))));
}

#[test]
fn invalid_parentheses() {
    let value = "(((()))".parse::<Value>();
    assert_eq!(value, Err(ValueParseError::InvalidParentheses));
}

#[test]
fn invalid_ops() {
    let value = "2y6".parse::<Value>();
    assert_eq!(
        value,
        Err(ValueParseError::InvalidOperators(vec!["y".to_string()]))
    );
}

#[test]
fn parentheses() {
    let value: Value = "(2 + 2) * (5 + 3)".parse().unwrap();
    assert_eq!(
        value,
        op(Operator::Multiply(
            op(Operator::Plus(Value::Constant(2), Value::Constant(2))),
            op(Operator::Plus(Value::Constant(5), Value::Constant(3))),
        ))
    );
}

#[test]
fn printed_integers_parse_back() {
    for v in [0, 7, -7, 42, i32::MAX, i32::MIN] {
        assert_eq!(Value::parse(&v.to_string()), Ok(Value::Constant(v)));
    }
}

#[test]
fn empty_and_blank_parse_to_default() {
    assert_eq!(Value::parse(""), Ok(Value::Default));
    assert_eq!(Value::parse("  \t "), Ok(Value::Default));
}

#[test]
fn integer_out_of_range_is_not_a_constant() {
    assert_eq!(
        Value::parse("2147483648"),
        Err(ValueParseError::InvalidOperators(vec![]))
    );
}

#[test]
fn subtraction_is_left_associative() {
    assert_eq!(
        Value::parse("1-2-3"),
        Ok(op(Operator::Minus(
            op(Operator::Minus(Value::Constant(1), Value::Constant(2))),
            Value::Constant(3),
        )))
    );
}

#[test]
fn plus_binds_loosest() {
    assert_eq!(
        Value::parse("1*2+3"),
        Ok(op(Operator::Plus(
            op(Operator::Multiply(Value::Constant(1), Value::Constant(2))),
            Value::Constant(3),
        )))
    );
}

#[test]
fn at_most_adds_one_to_threshold() {
    assert_eq!(
        Value::parse("4d10cs<=5"),
        Ok(op(Operator::CountSuccesses(
            op(Operator::Dice(Value::Constant(4), Value::Constant(10))),
            op(Operator::Plus(Value::Constant(5), Value::Constant(1))),
        )))
    );
    assert_eq!(
        Value::parse("cs<7"),
        Ok(op(Operator::CountSuccesses(Value::Default, Value::Constant(7))))
    );
}

#[test]
fn keep_without_dice() {
    assert_eq!(
        Value::parse("kh2"),
        Ok(op(Operator::KeepHighest(Value::Default, Value::Constant(2))))
    );
}

#[test]
fn invalid_fragments_are_listed() {
    assert_eq!(
        Value::parse("2x 3 foo"),
        Err(ValueParseError::InvalidOperators(vec![
            "x".to_string(),
            "foo".to_string()
        ]))
    );
}

#[test]
fn operator_new_builds_nodes() {
    assert_eq!(
        Operator::new("cs<=", Value::Default, Value::Constant(3)),
        Some(Operator::CountSuccesses(
            Value::Default,
            op(Operator::Plus(Value::Constant(3), Value::Constant(1))),
        ))
    );
    assert_eq!(
        Operator::new("kh", Value::Default, Value::Default),
        Some(Operator::KeepHighest(Value::Default, Value::Default))
    );
    assert_eq!(Operator::new("x", Value::Default, Value::Default), None);
}
