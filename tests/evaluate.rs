use dice_dist::ast::{Operator, Value, ValueParseError};
use dice_dist::distribution::Distribution;
use dice_dist::eval::{EvalError, EvalValue};
use dice_dist::{eval, DistError};

fn op(o: Operator) -> Value {
    Value::Operator(Box::new(o))
}

fn sorted(d: &Distribution) -> Vec<(i32, u64)> {
    let mut v = d.0.clone();
    v.sort();
    v
}

fn dist(s: &str) -> Vec<(i32, u64)> {
    sorted(&eval(s).unwrap())
}

fn err(s: &str) -> DistError {
    eval(s).unwrap_err()
}

#[test]
fn dice_with_zero_faces_is_invalid() {
    let r = op(Operator::Dice(Value::Constant(2), Value::Constant(0))).eval();
    assert!(matches!(r, Err(EvalError::InvalidArgForDice)));
    let r = op(Operator::Dice(Value::Constant(0), Value::Constant(6))).eval();
    assert!(matches!(r, Err(EvalError::InvalidArgForDice)));
    let r = op(Operator::Dice(Value::Constant(-1), Value::Default)).eval();
    assert!(matches!(r, Err(EvalError::InvalidArgForDice)));
    assert_eq!(err("(0)d6"), DistError::Eval(EvalError::InvalidArgForDice));
}

#[test]
fn constant_divided_by_zero() {
    assert_eq!(err("5/0"), DistError::Eval(EvalError::DivideByZero));
    assert_eq!(err("(1+1)/0"), DistError::Eval(EvalError::DivideByZero));
    assert_eq!(err("5/(1-1)"), DistError::Eval(EvalError::DivideByZero));
}

#[test]
fn dice_divisor_with_zero_result() {
    assert_eq!(err("6/(d6-1)"), DistError::Eval(EvalError::DivideByZero));
}

#[test]
fn dice_times_dice_is_refused() {
    assert_eq!(err("d6*d6"), DistError::Eval(EvalError::MultiplyDiceWithDice));
    assert_eq!(err("d6/d6"), DistError::Eval(EvalError::DivideDiceWithDice));
}

#[test]
fn keep_highest_of_constant_is_refused() {
    assert_eq!(err("5kh1"), DistError::Eval(EvalError::InvalidArgForKeepHeighest));
    assert_eq!(err("2d6kh0"), DistError::Eval(EvalError::InvalidArgForKeepHeighest));
    assert_eq!(err("(2+3)kh1"), DistError::Eval(EvalError::InvalidArgForKeepHeighest));
}

#[test]
fn count_successes_of_constant_is_refused() {
    assert_eq!(err("5cs<3"), DistError::Eval(EvalError::InvalidArgForCountSuccesses));
    assert_eq!(err("2d6cs<0"), DistError::Eval(EvalError::InvalidArgForCountSuccesses));
}

#[test]
fn constant_overflow_is_reported() {
    assert_eq!(err("2147483647+1"), DistError::Eval(EvalError::Overflow));
    let r = op(Operator::Divide(Value::Constant(i32::MIN), Value::Constant(-1))).eval();
    assert!(matches!(r, Err(EvalError::Overflow)));
}

#[test]
fn parse_errors_pass_through() {
    assert_eq!(err("(1"), DistError::Parse(ValueParseError::InvalidParentheses));
    assert_eq!(
        err("2y6"),
        DistError::Parse(ValueParseError::InvalidOperators(vec!["y".to_string()]))
    );
}

#[test]
fn constant_arithmetic() {
    assert_eq!(dist("2+3*4"), vec![(14, 1)]);
    assert_eq!(dist("7/2"), vec![(3, 1)]);
    assert_eq!(dist("-7/2"), vec![(-3, 1)]);
    assert_eq!(dist("10-4-3"), vec![(3, 1)]);
    assert_eq!(dist(""), vec![(0, 1)]);
    assert_eq!(dist("-5"), vec![(-5, 1)]);
}

#[test]
fn default_operands() {
    assert_eq!(dist("*"), vec![(1, 1)]);
    assert_eq!(dist("/4"), vec![(0, 1)]);
    assert_eq!(dist("3*"), vec![(3, 1)]);
    assert_eq!(dist("(1+1)*"), vec![(1, 1)]);
    assert_eq!(dist("-(2+1)"), vec![(-3, 1)]);
}

#[test]
fn single_die_and_default_die() {
    assert_eq!(dist("d4"), vec![(1, 1), (2, 1), (3, 1), (4, 1)]);
    assert_eq!(dist("d"), vec![(1, 1), (2, 1), (3, 1), (4, 1), (5, 1), (6, 1)]);
    assert_eq!(dist("2d").len(), 11);
}

#[test]
fn dice_plus_constant_shifts() {
    assert_eq!(dist("d4+10"), vec![(11, 1), (12, 1), (13, 1), (14, 1)]);
    assert_eq!(dist("10-d2"), vec![(8, 1), (9, 1)]);
    assert_eq!(dist("d2*3"), vec![(3, 1), (6, 1)]);
    assert_eq!(dist("-d2"), vec![(-2, 1), (-1, 1)]);
    assert_eq!(dist("d4/2"), vec![(0, 1), (1, 2), (2, 1)]);
    assert_eq!(dist("12/d4"), vec![(3, 1), (4, 1), (6, 1), (12, 1)]);
}

#[test]
fn dice_plus_dice_convolves() {
    assert_eq!(
        dist("d2+d2"),
        vec![(2, 1), (3, 2), (4, 1)]
    );
    assert_eq!(dist("d2-d2"), vec![(-1, 1), (0, 2), (1, 1)]);
}

#[test]
fn advantage_roll() {
    let d = dist("kh");
    assert_eq!(d.len(), 20);
    assert_eq!(d[0], (1, 1));
    assert_eq!(d[19], (20, 39));
}

#[test]
fn four_d6_keep_three() {
    let d = dist("4d6kh3");
    let mass: u64 = d.iter().map(|e| e.1).sum();
    assert_eq!(mass, 1296);
    assert_eq!(d[0], (3, 1));
    assert_eq!(d[d.len() - 1], (18, 21));
}

#[test]
fn count_successes_evaluates() {
    let r = Value::Default.count_successes(Value::Default).unwrap();
    match r {
        EvalValue::PreDice(s) => {
            let mut v = s.0.clone();
            v.sort();
            assert_eq!(v, vec![(vec![0], 6), (vec![1], 4)]);
        }
        _ => panic!("expected a possibility space"),
    }
    assert_eq!(dist("2d10cs<8"), vec![(0, 64), (1, 32), (2, 4)]);
    assert_eq!(dist("2d10cs<=7"), vec![(0, 64), (1, 32), (2, 4)]);
}

#[test]
fn evaluated_value_to_distribution() {
    let d = EvalValue::Constant(4).to_distribution().unwrap();
    assert_eq!(d.0, vec![(4, 1)]);
}

#[test]
fn error_messages() {
    assert_eq!(
        EvalError::InvalidArgForDice.message(),
        "Eval Error: Invalid Arg for Dice"
    );
    assert_eq!(
        ValueParseError::InvalidOperators(vec!["y".to_string(), "z".to_string()]).message(),
        "Invalid Operator: y\nInvalid Operator: z\n"
    );
    assert_eq!(ValueParseError::InvalidParentheses.message(), "Invalid Parentheses");
    assert_eq!(
        DistError::Eval(EvalError::DivideByZero).message(),
        "Eval Error: Eval Error: Tried dividing by zero"
    );
    assert_eq!(
        DistError::Parse(ValueParseError::InvalidParentheses).message(),
        "Parse Error: Invalid Parentheses"
    );
}

#[test]
fn dice_with_operator_arguments() {
    assert_eq!(dist("(1+1)d(2+1)"), vec![(2, 1), (3, 2), (4, 3), (5, 2), (6, 1)]);
    assert_eq!(err("(1-1)d6"), DistError::Eval(EvalError::InvalidArgForDice));
    assert_eq!(err("(d6)d6"), DistError::Eval(EvalError::InvalidArgForDice));
    assert_eq!(err("2d(d6)"), DistError::Eval(EvalError::InvalidArgForDice));
}

#[test]
fn dice_operand_errors_come_first() {
    assert_eq!(err("(d6)d(1/0)"), DistError::Eval(EvalError::DivideByZero));
}

#[test]
fn keep_and_count_with_operator_limits() {
    assert_eq!(err("(2d6)kh(1-1)"), DistError::Eval(EvalError::InvalidArgForKeepHeighest));
    assert_eq!(err("(2+3)kh(1)"), DistError::Eval(EvalError::InvalidArgForKeepHeighest));
    assert_eq!(dist("(2d6)kh(2-1)"), dist("2d6kh1"));
    assert_eq!(dist("2d10cs<(4+4)"), vec![(0, 64), (1, 32), (2, 4)]);
    assert_eq!(err("2d10cs<(d6)"), DistError::Eval(EvalError::InvalidArgForCountSuccesses));
}

#[test]
fn default_divided_by_expression() {
    assert_eq!(dist("/(1+1)"), vec![(0, 1)]);
    assert_eq!(dist("/(0+1)"), vec![(1, 1)]);
    assert_eq!(err("/(1-1)"), DistError::Eval(EvalError::DivideByZero));
}
