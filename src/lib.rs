//! Exact probability distributions of dice-notation expressions.
use vstd::prelude::*;
use vstd::string::StringExecFns;

pub mod ast;
pub mod dice;
pub mod distribution;
pub mod eval;
pub mod outcome;
pub mod posibility_space;
pub mod weights;

use crate::ast::{parse_range, parsed_as, Value, ValueParseError};
use crate::distribution::Distribution;
use crate::eval::{evaluates, sum_fails, summed, EvalError, EvalValue};

verus! {

/// A face value or a result of an expression.
pub type Int = i32;

/// The number of ways in which an outcome can come about.
pub type BigInt = u64;

/// Why an expression has no distribution.
#[derive(Debug, PartialEq, Eq)]
pub enum DistError {
    Eval(EvalError),
    Parse(ValueParseError),
}

/// The message that describes why an expression has no distribution.
pub open spec fn dist_message(e: DistError) -> Seq<char> {
    match e {
        DistError::Eval(x) => "Eval Error: "@ + crate::eval::eval_message(x),
        DistError::Parse(ValueParseError::InvalidParentheses) => "Parse Error: "@
            + "Invalid Parentheses"@,
        DistError::Parse(ValueParseError::InvalidOperators(f)) => "Parse Error: "@
            + crate::ast::operators_message(f@.map_values(|x: String| x@)),
    }
}

impl DistError {
    /// A message for people.
    pub fn message(&self) -> (r: String)
        ensures
            r@ == dist_message(*self),
    {
        match self {
            DistError::Eval(e) => {
                let mut r = "Eval Error: ".to_owned();
                let m = e.message();
                r.append(m.as_str());
                r
            },
            DistError::Parse(e) => {
                let mut r = "Parse Error: ".to_owned();
                let m = e.message();
                r.append(m.as_str());
                r
            },
        }
    }
}

/// What the evaluation result `res` delivers as a distribution: its error, or the value
/// summed up, or the overflow that summing it up meets.
pub open spec fn delivered(res: Result<EvalValue, EvalError>, r: Result<Distribution, DistError>) -> bool {
    match res {
        Err(e) => r == Err::<Distribution, DistError>(DistError::Eval(e)),
        Ok(x) => match r {
            Ok(d) => summed(x, d@),
            Err(e) => e == DistError::Eval(EvalError::Overflow) && sum_fails(x),
        },
    }
}

/// Parses the expression `s` and gives the distribution of its result.
pub fn eval(s: &str) -> (r: Result<Distribution, DistError>)
    ensures
        r matches Ok(d) ==> d.wf(),
        parse_range(s@, 0, s@.len() as int) is Err <==> r matches Err(DistError::Parse(_)),
        r matches Err(DistError::Parse(e)) ==> parsed_as(
            Err::<Value, ValueParseError>(e),
            parse_range(s@, 0, s@.len() as int),
        ),
        parse_range(s@, 0, s@.len() as int) matches Ok(v) ==> exists|
            res: Result<EvalValue, EvalError>,
        | #[trigger] evaluates(v, res) && delivered(res, r),
{
    let tree = match Value::parse(s) {
        Ok(tree) => tree,
        Err(e) => {
            return Err(DistError::Parse(e));
        },
    };
    let ghost t = tree;
    let res = tree.eval();
    let r = match res {
        Ok(value) => match value.to_distribution() {
            Ok(d) => Ok(d),
            Err(e) => Err(DistError::Eval(e)),
        },
        Err(e) => Err(DistError::Eval(e)),
    };
    assert(evaluates(t, res) && delivered(res, r));
    r
}

} // verus!
