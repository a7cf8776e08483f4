//! Evaluation of expression trees to constants, possibility spaces or distributions.
use vstd::prelude::*;

use crate::ast::{Operator, Value};
use crate::dice::{die_entries, Dice};
use crate::distribution::Distribution;
use crate::posibility_space::{
    combination_overflows, is_chain, power, project_fn, projectable, PosibilitySpace, Projection,
};
use crate::distribution::{
    convolution_fails, defined_fn, defined_on, is_convolution, sum_fn, sums_fit, Convolution,
};
use crate::weights::{image_weight, is_table, max_count, total, weight};
use crate::Int;

verus! {

/// The value of an evaluated node.
#[derive(Debug)]
pub enum EvalValue {
    Constant(Int),
    /// Dice whose faces are still apart.
    PreDice(PosibilitySpace),
    /// Results already summed up.
    PostDice(Distribution),
}

/// Why an expression could not be evaluated.
#[derive(Clone, Copy, Debug, PartialEq, Eq)]
pub enum EvalError {
    InvalidArgForDice,
    InvalidArgForKeepHeighest,
    InvalidArgForCountSuccesses,
    MultiplyDiceWithDice,
    DivideDiceWithDice,
    DivideByZero,
    /// A value or a multiplicity does not fit its integer type.
    Overflow,
}

impl EvalValue {
    /// Its space or distribution is a well-formed table.
    pub open spec fn wf(&self) -> bool {
        match self {
            EvalValue::Constant(_) => true,
            EvalValue::PreDice(s) => s.wf(),
            EvalValue::PostDice(d) => d.wf(),
        }
    }
}

/// `v` as an `Int`, where it fits.
pub open spec fn checked(v: int) -> Option<Int> {
    if Int::MIN <= v <= Int::MAX {
        Some(v as Int)
    } else {
        None
    }
}

/// Integer division rounding toward zero.
pub open spec fn trunc_div(a: int, b: int) -> int {
    let q = (if a < 0 {
        -a
    } else {
        a
    }) / (if b < 0 {
        -b
    } else {
        b
    });
    if (a < 0) != (b < 0) {
        -q
    } else {
        q
    }
}

/// A transform of every result value by a constant.
#[derive(Clone, Copy)]
pub enum Scalar {
    Add(Int),
    /// `c - x`.
    SubFrom(Int),
    /// `x - c`.
    Sub(Int),
    Neg,
    Mul(Int),
    /// `x / c`.
    DivBy(Int),
    /// `c / x`.
    DivInto(Int),
}

/// The new value of `x` under `op`; `None` where it leaves `Int` or divides by zero.
pub open spec fn scalar_result(op: Scalar, x: Int) -> Option<Int> {
    match op {
        Scalar::Add(c) => checked(x + c),
        Scalar::SubFrom(c) => checked(c - x),
        Scalar::Sub(c) => checked(x - c),
        Scalar::Neg => checked(-x),
        Scalar::Mul(c) => checked(x * c),
        Scalar::DivBy(c) => if c == 0 {
            None
        } else {
            checked(trunc_div(x as int, c as int))
        },
        Scalar::DivInto(c) => if x == 0 {
            None
        } else {
            checked(trunc_div(c as int, x as int))
        },
    }
}

fn divide(a: Int, b: Int) -> (r: Option<Int>)
    ensures
        r == (if b == 0 {
            None
        } else {
            checked(trunc_div(a as int, b as int))
        }),
{
    if b == 0 {
        return None;
    }
    let ua: u64 = if a < 0 {
        (-(a as i64)) as u64
    } else {
        a as u64
    };
    let ub: u64 = if b < 0 {
        (-(b as i64)) as u64
    } else {
        b as u64
    };
    let q = (ua / ub) as i64;
    let v: i64 = if (a < 0) != (b < 0) {
        -q
    } else {
        q
    };
    if v < Int::MIN as i64 || v > Int::MAX as i64 {
        None
    } else {
        Some(v as Int)
    }
}

fn fit(v: i64) -> (r: Option<Int>)
    ensures
        r == checked(v as int),
{
    if v < Int::MIN as i64 || v > Int::MAX as i64 {
        None
    } else {
        Some(v as Int)
    }
}

fn scalar_apply(op: Scalar, x: Int) -> (r: Option<Int>)
    ensures
        r == scalar_result(op, x),
{
    match op {
        Scalar::Add(c) => fit(x as i64 + c as i64),
        Scalar::SubFrom(c) => fit(c as i64 - x as i64),
        Scalar::Sub(c) => fit(x as i64 - c as i64),
        Scalar::Neg => fit(-(x as i64)),
        Scalar::Mul(c) => {
            assert(-0x4000_0000_0000_0000 <= (x as int) * (c as int) <= 0x4000_0000_0000_0000)
                by (nonlinear_arith)
                requires
                    -0x8000_0000 <= x <= 0x7fff_ffff,
                    -0x8000_0000 <= c <= 0x7fff_ffff,
            ;
            fit(x as i64 * c as i64)
        },
        Scalar::DivBy(c) => divide(x, c),
        Scalar::DivInto(c) => if x == 0 {
            None
        } else {
            divide(c, x)
        },
    }
}

/// The key function of the transform `op` where it is defined.
pub open spec fn scalar_fn(op: Scalar) -> spec_fn(Int) -> Int {
    defined_fn(scalar_opt(op))
}

/// The transform `op` as a partial function.
pub open spec fn scalar_opt(op: Scalar) -> spec_fn(Int) -> Option<Int> {
    |x: Int| scalar_result(op, x)
}

/// `m` is `d` with every result value transformed by `op`.
pub open spec fn scaled(d: Seq<(Int, u64)>, op: Scalar, m: Seq<(Int, u64)>) -> bool {
    &&& is_table(m)
    &&& forall|k: Int| #[trigger] weight(m, k) == image_weight(d, scalar_fn(op), k)
}

/// `d` is the evaluated value `e` summed up.
pub open spec fn summed(e: EvalValue, d: Seq<(Int, u64)>) -> bool {
    match e {
        EvalValue::Constant(c) => d == seq![(c, 1u64)],
        EvalValue::PreDice(s) => is_table(d) && forall|k: Int|
            #[trigger] weight(d, k) == image_weight(s@, sum_fn(), k),
        EvalValue::PostDice(q) => d == q@,
    }
}

/// Summing up the possibility space `v` leaves the range of `Int` or of `BigInt`.
pub open spec fn sum_fails(v: EvalValue) -> bool {
    v matches EvalValue::PreDice(s) && (!sums_fit(s@) || exists|k: Int|
        image_weight(s@, sum_fn(), k) > max_count())
}

/// Transforming the results of `d` by `op` leaves `Int`, divides by zero, or gathers more
/// than `BigInt::MAX` ways at one result.
pub open spec fn scale_fails(d: Seq<(Int, u64)>, op: Scalar) -> bool {
    !defined_on(scalar_opt(op), d) || exists|k: Int|
        image_weight(d, scalar_fn(op), k) > max_count()
}

/// The dice value `v` summed up and transformed by `op`, or the overflow met on the way.
pub open spec fn scaled_result(v: EvalValue, op: Scalar, r: Result<EvalValue, EvalError>) -> bool {
    match r {
        Ok(EvalValue::PostDice(m)) => exists|d: Seq<(Int, u64)>|
            #[trigger] summed(v, d) && scaled(d, op, m@),
        Ok(_) => false,
        Err(e) => e == EvalError::Overflow && (sum_fails(v) || exists|d: Seq<(Int, u64)>|
            #[trigger] summed(v, d) && scale_fails(d, op)),
    }
}

/// The summed-up `a` convolved with the summed-up `b`, or the overflow met on the way.
pub open spec fn convolved_result(
    a: EvalValue,
    b: EvalValue,
    c: Convolution,
    r: Result<EvalValue, EvalError>,
) -> bool {
    match r {
        Ok(EvalValue::PostDice(m)) => exists|da: Seq<(Int, u64)>, db: Seq<(Int, u64)>|
            #[trigger] summed(a, da) && #[trigger] summed(b, db) && is_convolution(c, da, db, m@),
        Ok(_) => false,
        Err(e) => e == EvalError::Overflow && (sum_fails(a) || sum_fails(b) || exists|
            da: Seq<(Int, u64)>,
            db: Seq<(Int, u64)>,
        |
            #[trigger] summed(a, da) && #[trigger] summed(b, db) && convolution_fails(c, da, db)),
    }
}

/// Every result value of `d` transformed by `op`.
fn scale(d: &Distribution, op: Scalar) -> (r: Result<EvalValue, EvalError>)
    requires
        d.wf(),
    ensures
        r matches Ok(e) ==> e.wf() && e is PostDice,
        r matches Err(e) ==> e == EvalError::Overflow,
        r matches Ok(EvalValue::PostDice(m)) ==> scaled(d@, op, m@),
        r is Err ==> scale_fails(d@, op),
{
    let f = move |x: Int| -> (y: Option<Int>)
        ensures
            y == scalar_result(op, x),
        { scalar_apply(op, x) };
    match d.mutate(f, Ghost(scalar_opt(op))) {
        Some(m) => Ok(EvalValue::PostDice(m)),
        None => {
            proof {
                if defined_on(scalar_opt(op), d@) {
                    let k = choose|k: Int|
                        image_weight(d@, defined_fn(scalar_opt(op)), k) > max_count();
                    assert(image_weight(d@, scalar_fn(op), k) > max_count());
                }
            }
            Err(EvalError::Overflow)
        },
    }
}

/// `r` is the space `s` summed up, or the overflow that summing it up meets.
pub open spec fn summed_from(s: PosibilitySpace, r: Result<Distribution, EvalError>) -> bool {
    &&& r is Err <==> (!sums_fit(s@) || exists|k: Int| image_weight(s@, sum_fn(), k) > max_count())
    &&& r matches Ok(d) ==> forall|k: Int| #[trigger] weight(d@, k) == image_weight(s@, sum_fn(), k)
}

/// The distribution of an evaluated value.
fn aggregate(e: EvalValue) -> (r: Result<Distribution, EvalError>)
    requires
        e.wf(),
    ensures
        r matches Ok(d) ==> d.wf() && summed(e, d@),
        r matches Err(x) ==> x == EvalError::Overflow && sum_fails(e),
        e matches EvalValue::Constant(c) ==> r matches Ok(d) && d@ == seq![(c, 1u64)],
        e matches EvalValue::PostDice(d) ==> r == Ok::<Distribution, EvalError>(d),
        e matches EvalValue::PreDice(s) ==> summed_from(s, r),
{
    match e {
        EvalValue::Constant(c) => Ok(Distribution::single(c)),
        EvalValue::PreDice(s) => match Distribution::from_space(&s) {
            Some(d) => Ok(d),
            None => Err(EvalError::Overflow),
        },
        EvalValue::PostDice(d) => Ok(d),
    }
}

impl EvalValue {
    /// The value as a distribution: a constant has itself once, a possibility space is
    /// summed up.
    pub fn to_distribution(self) -> (r: Result<Distribution, EvalError>)
        requires
            self.wf(),
        ensures
            r matches Ok(d) ==> d.wf(),
            r matches Err(x) ==> x == EvalError::Overflow,
            self matches EvalValue::Constant(c) ==> r matches Ok(d) && d@ == seq![(c, 1u64)],
            self matches EvalValue::PostDice(d) ==> r == Ok::<Distribution, EvalError>(d),
            self matches EvalValue::PreDice(s) ==> summed_from(s, r),
            r matches Ok(d) ==> summed(self, d@),
            r is Err ==> sum_fails(self),
    {
        aggregate(self)
    }
}

/// A dice value transformed by `op` after being summed up.
fn scale_value(e: EvalValue, op: Scalar) -> (r: Result<EvalValue, EvalError>)
    requires
        e.wf(),
        !(e is Constant),
    ensures
        r matches Ok(v) ==> v.wf(),
        scaled_result(e, op, r),
{
    let d = match aggregate(e) {
        Ok(d) => d,
        Err(x) => {
            return Err(x);
        },
    };
    let r = scale(&d, op);
    assert(summed(e, d@));
    r
}

/// The size of an expression tree.
pub open spec fn size(v: Value) -> nat
    decreases v,
{
    match v {
        Value::Operator(o) => 1 + op_size(*o),
        _ => 1,
    }
}

pub open spec fn op_size(o: Operator) -> nat
    decreases o,
{
    match o {
        Operator::Plus(l, r) => 1 + size(l) + size(r),
        Operator::Minus(l, r) => 1 + size(l) + size(r),
        Operator::Multiply(l, r) => 1 + size(l) + size(r),
        Operator::Divide(l, r) => 1 + size(l) + size(r),
        Operator::KeepHighest(l, r) => 1 + size(l) + size(r),
        Operator::CountSuccesses(l, r) => 1 + size(l) + size(r),
        Operator::Dice(l, r) => 1 + size(l) + size(r),
    }
}

pub open spec fn in_range(v: int) -> Result<int, EvalError> {
    if Int::MIN <= v <= Int::MAX {
        Ok(v)
    } else {
        Err(EvalError::Overflow)
    }
}

} // verus!

verus! {

/// An evaluation result that holds a value holds a well-formed one.
pub open spec fn ok_wf(r: Result<EvalValue, EvalError>) -> bool {
    r matches Ok(e) ==> e.wf()
}

/// The result agrees with what a tree without dice evaluates to.
pub open spec fn agrees(r: Result<EvalValue, EvalError>, c: Option<Result<int, EvalError>>) -> bool {
    match c {
        Some(Ok(v)) => r matches Ok(EvalValue::Constant(x)) && x == v,
        Some(Err(e)) => r matches Err(x) && x == e,
        None => true,
    }
}

/// For two constants the result is `f` of them.
pub open spec fn on_constants(
    x: EvalValue,
    y: EvalValue,
    r: Result<EvalValue, EvalError>,
    f: spec_fn(int, int) -> Result<int, EvalError>,
) -> bool {
    match (x, y) {
        (EvalValue::Constant(a), EvalValue::Constant(b)) => agrees(r, Some(f(a as int, b as int))),
        _ => true,
    }
}

fn constant_or_overflow(v: Option<Int>) -> (r: Result<EvalValue, EvalError>)
    ensures
        match v {
            Some(c) => r matches Ok(EvalValue::Constant(x)) && x == c,
            None => r matches Err(e) && e == EvalError::Overflow,
        },
{
    match v {
        Some(c) => Ok(EvalValue::Constant(c)),
        None => Err(EvalError::Overflow),
    }
}

fn convolve_values(x: &Distribution, y: &Distribution, c: Convolution) -> (r:
    Result<EvalValue, EvalError>)
    requires
        x.wf(),
        y.wf(),
    ensures
        ok_wf(r),
        r matches Ok(e) ==> e is PostDice,
        r matches Ok(EvalValue::PostDice(m)) ==> is_convolution(c, x@, y@, m@),
        r matches Err(e) ==> e == EvalError::Overflow && convolution_fails(c, x@, y@),
{
    match x.convolve(y, c) {
        Some(d) => Ok(EvalValue::PostDice(d)),
        None => Err(EvalError::Overflow),
    }
}

/// Whether some result value of `d` is `k`.
pub open spec fn has_key(d: Seq<(Int, u64)>, k: Int) -> bool {
    exists|i: int| 0 <= i < d.len() && d[i].0 == k
}

/// What adding evaluated operands gives: constants add, a constant shifts every result
/// of a dice value, and two dice values convolve (a possibility space goes first when
/// the other operand is already summed up).
pub open spec fn sum_rule(x: EvalValue, y: EvalValue, r: Result<EvalValue, EvalError>) -> bool {
    match (x, y) {
        (EvalValue::Constant(a), EvalValue::Constant(b)) => agrees(r, Some(in_range(a + b))),
        (EvalValue::Constant(c), _) => scaled_result(y, Scalar::Add(c), r),
        (_, EvalValue::Constant(c)) => scaled_result(x, Scalar::Add(c), r),
        (EvalValue::PostDice(_), EvalValue::PreDice(_)) => convolved_result(
            y,
            x,
            Convolution::Sum,
            r,
        ),
        _ => convolved_result(x, y, Convolution::Sum, r),
    }
}

/// What subtracting evaluated operands gives.
pub open spec fn difference_rule(x: EvalValue, y: EvalValue, r: Result<EvalValue, EvalError>) -> bool {
    match (x, y) {
        (EvalValue::Constant(a), EvalValue::Constant(b)) => agrees(r, Some(in_range(a - b))),
        (EvalValue::Constant(c), _) => scaled_result(y, Scalar::SubFrom(c), r),
        (_, EvalValue::Constant(c)) => scaled_result(x, Scalar::Sub(c), r),
        _ => convolved_result(x, y, Convolution::Difference, r),
    }
}

/// What multiplying evaluated operands gives: a constant scales every result; dice times
/// dice is refused.
pub open spec fn product_rule(x: EvalValue, y: EvalValue, r: Result<EvalValue, EvalError>) -> bool {
    match (x, y) {
        (EvalValue::Constant(a), EvalValue::Constant(b)) => agrees(r, Some(in_range(a * b))),
        (EvalValue::Constant(c), _) => scaled_result(y, Scalar::Mul(c), r),
        (_, EvalValue::Constant(c)) => scaled_result(x, Scalar::Mul(c), r),
        _ => r == Err::<EvalValue, EvalError>(EvalError::MultiplyDiceWithDice),
    }
}

/// What `c` divided by the dice value `v` gives: refused where a result of `v` is zero,
/// and otherwise `c / x` for every result `x`.
pub open spec fn divided_into(c: Int, v: EvalValue, r: Result<EvalValue, EvalError>) -> bool {
    match r {
        Ok(EvalValue::PostDice(m)) => exists|d: Seq<(Int, u64)>|
            #[trigger] summed(v, d) && !has_key(d, 0) && scaled(d, Scalar::DivInto(c), m@),
        Ok(_) => false,
        Err(EvalError::DivideByZero) => exists|d: Seq<(Int, u64)>|
            #[trigger] summed(v, d) && has_key(d, 0),
        Err(e) => e == EvalError::Overflow && (sum_fails(v) || exists|d: Seq<(Int, u64)>|
            #[trigger] summed(v, d) && !has_key(d, 0) && scale_fails(d, Scalar::DivInto(c))),
    }
}

/// What dividing evaluated operands gives.
pub open spec fn quotient_rule(x: EvalValue, y: EvalValue, r: Result<EvalValue, EvalError>) -> bool {
    match (x, y) {
        (EvalValue::Constant(a), EvalValue::Constant(b)) => agrees(
            r,
            Some(
                if b == 0 {
                    Err(EvalError::DivideByZero)
                } else {
                    in_range(trunc_div(a as int, b as int))
                },
            ),
        ),
        (EvalValue::Constant(c), _) => divided_into(c, y, r),
        (_, EvalValue::Constant(c)) => if c == 0 {
            r == Err::<EvalValue, EvalError>(EvalError::DivideByZero)
        } else {
            scaled_result(x, Scalar::DivBy(c), r)
        },
        _ => r == Err::<EvalValue, EvalError>(EvalError::DivideDiceWithDice),
    }
}

/// Both operands summed up and convolved in this order.
fn convolve_evaluated(x: EvalValue, y: EvalValue, c: Convolution) -> (r: Result<EvalValue, EvalError>)
    requires
        x.wf(),
        y.wf(),
    ensures
        ok_wf(r),
        convolved_result(x, y, c, r),
{
    let dx = match aggregate(x) {
        Ok(d) => d,
        Err(e) => {
            return Err(e);
        },
    };
    let dy = match aggregate(y) {
        Ok(d) => d,
        Err(e) => {
            return Err(e);
        },
    };
    let r = convolve_values(&dx, &dy, c);
    assert(summed(x, dx@) && summed(y, dy@));
    r
}

/// The sum of two evaluated operands.
fn add_evaluated(x: EvalValue, y: EvalValue) -> (r: Result<EvalValue, EvalError>)
    requires
        x.wf(),
        y.wf(),
    ensures
        ok_wf(r),
        on_constants(x, y, r, |a: int, b: int| in_range(a + b)),
        sum_rule(x, y, r),
{
    match x {
        EvalValue::Constant(a) => match y {
            EvalValue::Constant(b) => constant_or_overflow(fit(a as i64 + b as i64)),
            _ => scale_value(y, Scalar::Add(a)),
        },
        EvalValue::PreDice(p) => match y {
            EvalValue::Constant(c) => scale_value(EvalValue::PreDice(p), Scalar::Add(c)),
            other => convolve_evaluated(EvalValue::PreDice(p), other, Convolution::Sum),
        },
        EvalValue::PostDice(q) => match y {
            EvalValue::Constant(c) => scale_value(EvalValue::PostDice(q), Scalar::Add(c)),
            EvalValue::PreDice(p) => convolve_evaluated(
                EvalValue::PreDice(p),
                EvalValue::PostDice(q),
                Convolution::Sum,
            ),
            EvalValue::PostDice(s) => convolve_evaluated(
                EvalValue::PostDice(q),
                EvalValue::PostDice(s),
                Convolution::Sum,
            ),
        },
    }
}

/// The difference of two evaluated operands.
fn sub_evaluated(x: EvalValue, y: EvalValue) -> (r: Result<EvalValue, EvalError>)
    requires
        x.wf(),
        y.wf(),
    ensures
        ok_wf(r),
        on_constants(x, y, r, |a: int, b: int| in_range(a - b)),
        difference_rule(x, y, r),
{
    match x {
        EvalValue::Constant(a) => match y {
            EvalValue::Constant(b) => constant_or_overflow(fit(a as i64 - b as i64)),
            _ => scale_value(y, Scalar::SubFrom(a)),
        },
        _ => match y {
            EvalValue::Constant(c) => scale_value(x, Scalar::Sub(c)),
            _ => convolve_evaluated(x, y, Convolution::Difference),
        },
    }
}

/// The product of two evaluated operands; dice times dice is refused.
fn mul_evaluated(x: EvalValue, y: EvalValue) -> (r: Result<EvalValue, EvalError>)
    requires
        x.wf(),
        y.wf(),
    ensures
        ok_wf(r),
        on_constants(x, y, r, |a: int, b: int| in_range(a * b)),
        product_rule(x, y, r),
{
    match x {
        EvalValue::Constant(a) => match y {
            EvalValue::Constant(b) => {
                assert(-0x4000_0000_0000_0000 <= (a as int) * (b as int)
                    <= 0x4000_0000_0000_0000) by (nonlinear_arith)
                    requires
                        -0x8000_0000 <= a <= 0x7fff_ffff,
                        -0x8000_0000 <= b <= 0x7fff_ffff,
                ;
                constant_or_overflow(fit(a as i64 * b as i64))
            },
            _ => scale_value(y, Scalar::Mul(a)),
        },
        _ => match y {
            EvalValue::Constant(c) => scale_value(x, Scalar::Mul(c)),
            _ => Err(EvalError::MultiplyDiceWithDice),
        },
    }
}

/// The quotient of two evaluated operands, rounded toward zero; dice divided by dice is
/// refused, and so is a divisor that is or can be zero.
fn div_evaluated(x: EvalValue, y: EvalValue) -> (r: Result<EvalValue, EvalError>)
    requires
        x.wf(),
        y.wf(),
    ensures
        ok_wf(r),
        on_constants(
            x,
            y,
            r,
            |a: int, b: int|
                if b == 0 {
                    Err(EvalError::DivideByZero)
                } else {
                    in_range(trunc_div(a, b))
                },
        ),
        quotient_rule(x, y, r),
        y == EvalValue::Constant(0) ==> r == Err::<EvalValue, EvalError>(EvalError::DivideByZero),
{
    match x {
        EvalValue::Constant(a) => match y {
            EvalValue::Constant(b) => {
                if b == 0 {
                    Err(EvalError::DivideByZero)
                } else {
                    constant_or_overflow(divide(a, b))
                }
            },
            _ => {
                let ghost v = y;
                let d = match aggregate(y) {
                    Ok(d) => d,
                    Err(e) => {
                        return Err(e);
                    },
                };
                assert(summed(v, d@));
                if d.contains_key(0) {
                    Err(EvalError::DivideByZero)
                } else {
                    scale(&d, Scalar::DivInto(a))
                }
            },
        },
        _ => match y {
            EvalValue::Constant(c) => {
                if c == 0 {
                    Err(EvalError::DivideByZero)
                } else {
                    scale_value(x, Scalar::DivBy(c))
                }
            },
            _ => Err(EvalError::DivideDiceWithDice),
        },
    }
}

/// `k` is `s` with every outcome vector cut down by `p`.
pub open spec fn projected(s: Seq<(Seq<Int>, u64)>, p: Projection, k: Seq<(Seq<Int>, u64)>) -> bool {
    forall|key: Seq<Int>| #[trigger] weight(k, key) == image_weight(s, project_fn(p), key)
}

/// `s` is one die of `faces` faces combined `count` times with itself, starting from the
/// empty space.
pub open spec fn rolled(faces: Int, count: nat, s: Seq<(Seq<Int>, u64)>) -> bool {
    exists|c: Seq<Seq<(Seq<Int>, u64)>>|
        is_chain(die_entries(faces), c) && c.len() == count + 1 && #[trigger] c.last() == s
}

/// Combining `count` dice of `faces` faces meets a combination that overflows.
pub open spec fn roll_fails(faces: Int, count: nat) -> bool {
    exists|c: Seq<Seq<(Seq<Int>, u64)>>|
        is_chain(die_entries(faces), c) && c.len() <= count && combination_overflows(
            #[trigger] c.last(),
            die_entries(faces),
        )
}

/// What `n` dice of `f` faces give, for `n, f >= 1`: one die as it is, more dice
/// combined; an overflow only where the combining meets one.
pub open spec fn dice_result(n: Int, f: Int, r: Result<EvalValue, EvalError>) -> bool {
    match r {
        Ok(EvalValue::PreDice(s)) => total(s@) == power(f as nat, n as nat) && (n == 1 ==> s@
            == die_entries(f)) && (n > 1 ==> rolled(f, n as nat, s@)),
        Ok(_) => false,
        Err(e) => e == EvalError::Overflow && n > 1 && roll_fails(f, n as nat),
    }
}

/// Cutting `s` down by `p` fails: a count of successes leaves `Int` or some outcome
/// gathers more than `BigInt::MAX` ways.
pub open spec fn projection_fails(s: Seq<(Seq<Int>, u64)>, p: Projection) -> bool {
    !projectable(p, s) || exists|key: Seq<Int>| image_weight(s, project_fn(p), key) > max_count()
}

/// What cutting the space `s` down by `p` gives.
pub open spec fn projection_result(
    s: Seq<(Seq<Int>, u64)>,
    p: Projection,
    r: Result<EvalValue, EvalError>,
) -> bool {
    match r {
        Ok(EvalValue::PreDice(k)) => projected(s, p, k@),
        Ok(_) => false,
        Err(e) => e == EvalError::Overflow && projection_fails(s, p),
    }
}

/// What cutting a roll of `n` dice of `faces` faces down by `p` gives.
pub open spec fn pool_result(faces: Int, n: nat, p: Projection, r: Result<EvalValue, EvalError>) -> bool {
    match r {
        Ok(EvalValue::PreDice(k)) => exists|s: Seq<(Seq<Int>, u64)>|
            #[trigger] rolled(faces, n, s) && projected(s, p, k@),
        Ok(_) => false,
        Err(e) => e == EvalError::Overflow && (roll_fails(faces, n) || exists|
            s: Seq<(Seq<Int>, u64)>,
        | #[trigger] rolled(faces, n, s) && projection_fails(s, p)),
    }
}

/// The possibility space of `count` dice with `faces` faces each.
fn roll(count: Int, faces: Int) -> (r: Result<EvalValue, EvalError>)
    requires
        count >= 1,
        faces >= 1,
    ensures
        ok_wf(r),
        dice_result(count, faces, r),
{
    let die = PosibilitySpace::from_dice(Dice(faces));
    if count == 1 {
        proof {
            lemma_power_one(faces as nat);
        }
        return Ok(EvalValue::PreDice(die));
    }
    match die.multiply(count as u64) {
        Some(s) => Ok(EvalValue::PreDice(s)),
        None => Err(EvalError::Overflow),
    }
}

proof fn lemma_power_one(b: nat)
    ensures
        power(b, 1) == b,
{
    assert(power(b, 0) == 1);
    assert(b * 1 == b);
}

/// The space `s` cut down by `p`.
fn project_space(s: &PosibilitySpace, p: Projection) -> (r: Result<EvalValue, EvalError>)
    requires
        s.wf(),
    ensures
        ok_wf(r),
        projection_result(s@, p, r),
{
    match s.project(p) {
        Some(k) => Ok(EvalValue::PreDice(k)),
        None => Err(EvalError::Overflow),
    }
}

/// `n` dice with `faces` faces, each roll cut down by `p`.
fn roll_project(n: Int, faces: Int, p: Projection) -> (r: Result<EvalValue, EvalError>)
    requires
        n >= 2,
        faces >= 1,
    ensures
        ok_wf(r),
        pool_result(faces, n as nat, p, r),
{
    match roll(n, faces) {
        Ok(EvalValue::PreDice(s)) => {
            let r = project_space(&s, p);
            assert(rolled(faces, n as nat, s@));
            r
        },
        _ => Err(EvalError::Overflow),
    }
}

} // verus!

verus! {

/// The kinds of operator node.
#[derive(Clone, Copy)]
pub enum OpKind {
    Plus,
    Minus,
    Multiply,
    Divide,
    KeepHighest,
    CountSuccesses,
    Dice,
}

/// The shape of an operand as the operators look at it before evaluating it.
#[derive(Clone, Copy)]
pub enum Operand {
    Omitted,
    Literal(Int),
    Node,
}

pub open spec fn shape(v: Value) -> Operand {
    match v {
        Value::Default => Operand::Omitted,
        Value::Constant(c) => Operand::Literal(c),
        Value::Operator(_) => Operand::Node,
    }
}

fn operand_of(v: &Value) -> (s: Operand)
    ensures
        s == shape(*v),
{
    match v {
        Value::Default => Operand::Omitted,
        Value::Constant(c) => Operand::Literal(*c),
        Value::Operator(_) => Operand::Node,
    }
}

/// The node of kind `k` over `l` and `r`.
pub open spec fn node(k: OpKind, l: Value, r: Value) -> Operator {
    match k {
        OpKind::Plus => Operator::Plus(l, r),
        OpKind::Minus => Operator::Minus(l, r),
        OpKind::Multiply => Operator::Multiply(l, r),
        OpKind::Divide => Operator::Divide(l, r),
        OpKind::KeepHighest => Operator::KeepHighest(l, r),
        OpKind::CountSuccesses => Operator::CountSuccesses(l, r),
        OpKind::Dice => Operator::Dice(l, r),
    }
}

/// Whether a node of kind `k` evaluates its left operand (a node); a few combinations
/// decide without it.
pub open spec fn needs_left(k: OpKind, ls: Operand, rs: Operand) -> bool {
    ls is Node && match k {
        OpKind::Multiply => !(rs is Omitted),
        OpKind::Divide => rs != Operand::Literal(0),
        OpKind::KeepHighest => !(rs matches Operand::Literal(c) && c < 1),
        OpKind::CountSuccesses => !(rs matches Operand::Literal(c) && c < 1),
        _ => true,
    }
}

/// Whether a node of kind `k` evaluates its right operand (a node), given what the left
/// one gave.
pub open spec fn needs_right(k: OpKind, ls: Operand, rs: Operand, a: Result<EvalValue, EvalError>) -> bool {
    &&& rs is Node
    &&& needs_left(k, ls, rs) ==> a is Ok
    &&& match k {
        OpKind::KeepHighest => !(ls is Literal),
        OpKind::CountSuccesses => !(ls is Literal),
        _ => true,
    }
}

/// An operand's evaluated value: a literal as itself, a node as what it gave.
pub open spec fn lit(s: Operand, x: Result<EvalValue, EvalError>) -> Result<EvalValue, EvalError> {
    match s {
        Operand::Literal(c) => Ok(EvalValue::Constant(c)),
        _ => x,
    }
}

/// The arithmetic rule of kind `k` on two evaluated operands.
pub open spec fn arith_rule(k: OpKind, x: EvalValue, y: EvalValue, r: Result<EvalValue, EvalError>) -> bool {
    match k {
        OpKind::Plus => sum_rule(x, y, r),
        OpKind::Minus => difference_rule(x, y, r),
        OpKind::Multiply => product_rule(x, y, r),
        _ => quotient_rule(x, y, r),
    }
}

/// The first error of the operands passes on; otherwise the rule of kind `k` applies.
pub open spec fn lift_rule(
    k: OpKind,
    x: Result<EvalValue, EvalError>,
    y: Result<EvalValue, EvalError>,
    r: Result<EvalValue, EvalError>,
) -> bool {
    match x {
        Err(e) => r == Err::<EvalValue, EvalError>(e),
        Ok(xv) => match y {
            Err(e) => r == Err::<EvalValue, EvalError>(e),
            Ok(yv) => arith_rule(k, xv, yv, r),
        },
    }
}

pub open spec fn constant(c: Int) -> Result<EvalValue, EvalError> {
    Ok(EvalValue::Constant(c))
}

/// `+`: a left-out operand adds nothing.
pub open spec fn plus_node(ls: Operand, rs: Operand, a: Result<EvalValue, EvalError>, b: Result<EvalValue, EvalError>, r: Result<EvalValue, EvalError>) -> bool {
    match ls {
        Operand::Omitted => match rs {
            Operand::Omitted => r == constant(0),
            Operand::Literal(x) => r == constant(x),
            Operand::Node => r == b,
        },
        Operand::Literal(c) => match rs {
            Operand::Omitted => r == constant(c),
            _ => lift_rule(OpKind::Plus, constant(c), lit(rs, b), r),
        },
        Operand::Node => match rs {
            Operand::Omitted => r == a,
            _ => lift_rule(OpKind::Plus, a, lit(rs, b), r),
        },
    }
}

/// `-`: a left-out left operand negates, a left-out right one subtracts nothing.
pub open spec fn minus_node(ls: Operand, rs: Operand, a: Result<EvalValue, EvalError>, b: Result<EvalValue, EvalError>, r: Result<EvalValue, EvalError>) -> bool {
    match ls {
        Operand::Omitted => match rs {
            Operand::Omitted => r == constant(0),
            Operand::Literal(x) => difference_rule(EvalValue::Constant(0), EvalValue::Constant(x), r),
            Operand::Node => match b {
                Err(e) => r == Err::<EvalValue, EvalError>(e),
                Ok(EvalValue::Constant(c)) => difference_rule(
                    EvalValue::Constant(0),
                    EvalValue::Constant(c),
                    r,
                ),
                Ok(y) => scaled_result(y, Scalar::Neg, r),
            },
        },
        Operand::Literal(c) => match rs {
            Operand::Omitted => r == constant(c),
            _ => lift_rule(OpKind::Minus, constant(c), lit(rs, b), r),
        },
        Operand::Node => match rs {
            Operand::Omitted => r == a,
            _ => lift_rule(OpKind::Minus, a, lit(rs, b), r),
        },
    }
}

/// `*`: a left-out operand counts as 1, and a node times a left-out operand is 1.
pub open spec fn times_node(ls: Operand, rs: Operand, a: Result<EvalValue, EvalError>, b: Result<EvalValue, EvalError>, r: Result<EvalValue, EvalError>) -> bool {
    match ls {
        Operand::Omitted => match rs {
            Operand::Omitted => r == constant(1),
            Operand::Literal(x) => r == constant(x),
            Operand::Node => r == b,
        },
        Operand::Literal(c) => match rs {
            Operand::Omitted => r == constant(c),
            _ => lift_rule(OpKind::Multiply, constant(c), lit(rs, b), r),
        },
        Operand::Node => match rs {
            Operand::Omitted => r == constant(1),
            _ => lift_rule(OpKind::Multiply, a, lit(rs, b), r),
        },
    }
}

/// `/`: a left-out operand counts as 1; a literal zero divisor is refused at once.
pub open spec fn over_node(ls: Operand, rs: Operand, a: Result<EvalValue, EvalError>, b: Result<EvalValue, EvalError>, r: Result<EvalValue, EvalError>) -> bool {
    match ls {
        Operand::Omitted => match rs {
            Operand::Omitted => r == constant(1),
            _ => lift_rule(OpKind::Divide, constant(1), lit(rs, b), r),
        },
        Operand::Literal(c) => match rs {
            Operand::Omitted => r == constant(c),
            _ => lift_rule(OpKind::Divide, constant(c), lit(rs, b), r),
        },
        Operand::Node => match rs {
            Operand::Omitted => r == a,
            Operand::Literal(c) => if c == 0 {
                r == Err::<EvalValue, EvalError>(EvalError::DivideByZero)
            } else {
                lift_rule(OpKind::Divide, a, constant(c), r)
            },
            Operand::Node => lift_rule(OpKind::Divide, a, b, r),
        },
    }
}

/// The limit or threshold that the right operand gives: `Ok(None)` when it evaluated to
/// dice.
pub open spec fn limit(rs: Operand, b: Result<EvalValue, EvalError>, default: Int) -> Result<Option<Int>, EvalError> {
    match rs {
        Operand::Omitted => Ok(Some(default)),
        Operand::Literal(c) => Ok(Some(c)),
        Operand::Node => match b {
            Err(e) => Err(e),
            Ok(EvalValue::Constant(c)) => Ok(Some(c)),
            Ok(_) => Ok(None),
        },
    }
}

/// The projection of kind `k` (keep highest or count successes) by `c`.
pub open spec fn cut(k: OpKind, c: Int) -> Projection {
    match k {
        OpKind::KeepHighest => Projection::Highest(c as usize),
        _ => Projection::Successes(c as usize),
    }
}

/// `kh` and `cs<`: the left operand must be a possibility space and the right one a
/// constant of at least 1. Left-out dice are two twenty-sided dice for `kh` and one
/// ten-sided die for `cs<`; a left-out limit is 1 for `kh`, a left-out threshold 6.
pub open spec fn pool_node(k: OpKind, ls: Operand, rs: Operand, a: Result<EvalValue, EvalError>, b: Result<EvalValue, EvalError>, r: Result<EvalValue, EvalError>) -> bool {
    let invalid = if k is KeepHighest {
        EvalError::InvalidArgForKeepHeighest
    } else {
        EvalError::InvalidArgForCountSuccesses
    };
    let default: Int = if k is KeepHighest {
        1
    } else {
        6
    };
    match ls {
        Operand::Literal(_) => r == Err::<EvalValue, EvalError>(invalid),
        Operand::Omitted => match limit(rs, b, default) {
            Err(e) => r == Err::<EvalValue, EvalError>(e),
            Ok(None) => r == Err::<EvalValue, EvalError>(invalid),
            Ok(Some(c)) => if c < 1 {
                r == Err::<EvalValue, EvalError>(invalid)
            } else if k is KeepHighest {
                pool_result(20, 2, cut(k, c), r)
            } else {
                projection_result(die_entries(10), cut(k, c), r)
            },
        },
        Operand::Node => if rs matches Operand::Literal(c) && c < 1 {
            r == Err::<EvalValue, EvalError>(invalid)
        } else {
            match a {
                Err(e) => r == Err::<EvalValue, EvalError>(e),
                Ok(x) => match limit(rs, b, default) {
                    Err(e) => r == Err::<EvalValue, EvalError>(e),
                    Ok(lim) => match x {
                        EvalValue::PreDice(d) => match lim {
                            Some(c) => if c < 1 {
                                r == Err::<EvalValue, EvalError>(invalid)
                            } else {
                                projection_result(d@, cut(k, c), r)
                            },
                            None => r == Err::<EvalValue, EvalError>(invalid),
                        },
                        _ => r == Err::<EvalValue, EvalError>(invalid),
                    },
                },
            }
        },
    }
}

/// A count or face number: a left-out one is `default`; `None` when it evaluated to dice.
pub open spec fn scalar_arg(s: Operand, x: Result<EvalValue, EvalError>, default: Int) -> Option<Int> {
    match s {
        Operand::Omitted => Some(default),
        Operand::Literal(c) => Some(c),
        Operand::Node => match x {
            Ok(EvalValue::Constant(c)) => Some(c),
            _ => None,
        },
    }
}

/// `d`: both operands are evaluated, and both must be constants of at least 1; a left-out
/// count is 1 and a left-out face number 6.
pub open spec fn dice_node(ls: Operand, rs: Operand, a: Result<EvalValue, EvalError>, b: Result<EvalValue, EvalError>, r: Result<EvalValue, EvalError>) -> bool {
    if ls is Node && a is Err {
        r == a
    } else if rs is Node && b is Err {
        r == b
    } else {
        match scalar_arg(ls, a, 1) {
            Some(n) => match scalar_arg(rs, b, 6) {
                Some(f) => if n < 1 || f < 1 {
                    r == Err::<EvalValue, EvalError>(EvalError::InvalidArgForDice)
                } else {
                    dice_result(n, f, r)
                },
                None => r == Err::<EvalValue, EvalError>(EvalError::InvalidArgForDice),
            },
            None => r == Err::<EvalValue, EvalError>(EvalError::InvalidArgForDice),
        }
    }
}

/// What a node of kind `k` gives, from the shapes of its operands and what the evaluated
/// ones gave.
pub open spec fn op_rule(k: OpKind, ls: Operand, rs: Operand, a: Result<EvalValue, EvalError>, b: Result<EvalValue, EvalError>, r: Result<EvalValue, EvalError>) -> bool {
    match k {
        OpKind::Plus => plus_node(ls, rs, a, b, r),
        OpKind::Minus => minus_node(ls, rs, a, b, r),
        OpKind::Multiply => times_node(ls, rs, a, b, r),
        OpKind::Divide => over_node(ls, rs, a, b, r),
        OpKind::Dice => dice_node(ls, rs, a, b, r),
        _ => pool_node(k, ls, rs, a, b, r),
    }
}

/// `r` is what evaluating the tree `v` gives.
pub open spec fn evaluates(v: Value, r: Result<EvalValue, EvalError>) -> bool
    decreases v,
{
    match v {
        Value::Default => r == constant(0),
        Value::Constant(c) => r == constant(c),
        Value::Operator(o) => match *o {
            Operator::Plus(l, rr) => exists|a: Result<EvalValue, EvalError>, b: Result<EvalValue, EvalError>|
                #[trigger] op_rule(OpKind::Plus, shape(l), shape(rr), a, b, r) && (needs_left(
                    OpKind::Plus,
                    shape(l),
                    shape(rr),
                ) ==> evaluates(l, a)) && (needs_right(OpKind::Plus, shape(l), shape(rr), a)
                    ==> evaluates(rr, b)),
            Operator::Minus(l, rr) => exists|a: Result<EvalValue, EvalError>, b: Result<EvalValue, EvalError>|
                #[trigger] op_rule(OpKind::Minus, shape(l), shape(rr), a, b, r) && (needs_left(
                    OpKind::Minus,
                    shape(l),
                    shape(rr),
                ) ==> evaluates(l, a)) && (needs_right(OpKind::Minus, shape(l), shape(rr), a)
                    ==> evaluates(rr, b)),
            Operator::Multiply(l, rr) => exists|a: Result<EvalValue, EvalError>, b: Result<EvalValue, EvalError>|
                #[trigger] op_rule(OpKind::Multiply, shape(l), shape(rr), a, b, r) && (needs_left(
                    OpKind::Multiply,
                    shape(l),
                    shape(rr),
                ) ==> evaluates(l, a)) && (needs_right(OpKind::Multiply, shape(l), shape(rr), a)
                    ==> evaluates(rr, b)),
            Operator::Divide(l, rr) => exists|a: Result<EvalValue, EvalError>, b: Result<EvalValue, EvalError>|
                #[trigger] op_rule(OpKind::Divide, shape(l), shape(rr), a, b, r) && (needs_left(
                    OpKind::Divide,
                    shape(l),
                    shape(rr),
                ) ==> evaluates(l, a)) && (needs_right(OpKind::Divide, shape(l), shape(rr), a)
                    ==> evaluates(rr, b)),
            Operator::KeepHighest(l, rr) => exists|a: Result<EvalValue, EvalError>, b: Result<EvalValue, EvalError>|
                #[trigger] op_rule(OpKind::KeepHighest, shape(l), shape(rr), a, b, r) && (needs_left(
                    OpKind::KeepHighest,
                    shape(l),
                    shape(rr),
                ) ==> evaluates(l, a)) && (needs_right(OpKind::KeepHighest, shape(l), shape(rr), a)
                    ==> evaluates(rr, b)),
            Operator::CountSuccesses(l, rr) => exists|a: Result<EvalValue, EvalError>, b: Result<EvalValue, EvalError>|
                #[trigger] op_rule(OpKind::CountSuccesses, shape(l), shape(rr), a, b, r) && (needs_left(
                    OpKind::CountSuccesses,
                    shape(l),
                    shape(rr),
                ) ==> evaluates(l, a)) && (needs_right(OpKind::CountSuccesses, shape(l), shape(rr), a)
                    ==> evaluates(rr, b)),
            Operator::Dice(l, rr) => exists|a: Result<EvalValue, EvalError>, b: Result<EvalValue, EvalError>|
                #[trigger] op_rule(OpKind::Dice, shape(l), shape(rr), a, b, r) && (needs_left(
                    OpKind::Dice,
                    shape(l),
                    shape(rr),
                ) ==> evaluates(l, a)) && (needs_right(OpKind::Dice, shape(l), shape(rr), a)
                    ==> evaluates(rr, b)),
        },
    }
}

/// `r` is what evaluating the node of kind `k` over `l` and `rr` gives.
pub open spec fn node_evaluates(k: OpKind, l: Value, rr: Value, r: Result<EvalValue, EvalError>) -> bool {
    exists|a: Result<EvalValue, EvalError>, b: Result<EvalValue, EvalError>|
        #[trigger] op_rule(k, shape(l), shape(rr), a, b, r) && (needs_left(k, shape(l), shape(rr))
            ==> evaluates(l, a)) && (needs_right(k, shape(l), shape(rr), a) ==> evaluates(rr, b))
}

fn needs_left_exec(k: OpKind, ls: Operand, rs: Operand) -> (n: bool)
    ensures
        n == needs_left(k, ls, rs),
{
    match ls {
        Operand::Node => match k {
            OpKind::Multiply => !matches!(rs, Operand::Omitted),
            OpKind::Divide => match rs {
                Operand::Literal(c) => c != 0,
                _ => true,
            },
            OpKind::KeepHighest | OpKind::CountSuccesses => match rs {
                Operand::Literal(c) => c >= 1,
                _ => true,
            },
            _ => true,
        },
        _ => false,
    }
}

fn needs_right_exec(k: OpKind, ls: Operand, rs: Operand, a: &Result<EvalValue, EvalError>) -> (n: bool)
    ensures
        n == needs_right(k, ls, rs, *a),
{
    let right_node = matches!(rs, Operand::Node);
    let left_ok = !needs_left_exec(k, ls, rs) || a.is_ok();
    let allowed = match k {
        OpKind::KeepHighest | OpKind::CountSuccesses => !matches!(ls, Operand::Literal(_)),
        _ => true,
    };
    right_node && left_ok && allowed
}

} // verus!

verus! {

fn apply_plus(ls: Operand, rs: Operand, a: Result<EvalValue, EvalError>, b: Result<EvalValue, EvalError>) -> (r: Result<EvalValue, EvalError>)
    requires
        ok_wf(a),
        ok_wf(b),
    ensures
        ok_wf(r),
        plus_node(ls, rs, a, b, r),
{
    match ls {
        Operand::Omitted => match rs {
            Operand::Omitted => Ok(EvalValue::Constant(0)),
            Operand::Literal(x) => Ok(EvalValue::Constant(x)),
            Operand::Node => b,
        },
        Operand::Literal(c) => match rs {
            Operand::Omitted => Ok(EvalValue::Constant(c)),
            Operand::Literal(x) => add_evaluated(EvalValue::Constant(c), EvalValue::Constant(x)),
            Operand::Node => match b {
                Err(e) => Err(e),
                Ok(y) => add_evaluated(EvalValue::Constant(c), y),
            },
        },
        Operand::Node => match a {
            Err(e) => Err(e),
            Ok(x) => match rs {
                Operand::Omitted => Ok(x),
                Operand::Literal(c) => add_evaluated(x, EvalValue::Constant(c)),
                Operand::Node => match b {
                    Err(e) => Err(e),
                    Ok(y) => add_evaluated(x, y),
                },
            },
        },
    }
}

fn apply_minus(ls: Operand, rs: Operand, a: Result<EvalValue, EvalError>, b: Result<EvalValue, EvalError>) -> (r: Result<EvalValue, EvalError>)
    requires
        ok_wf(a),
        ok_wf(b),
    ensures
        ok_wf(r),
        minus_node(ls, rs, a, b, r),
{
    match ls {
        Operand::Omitted => match rs {
            Operand::Omitted => Ok(EvalValue::Constant(0)),
            Operand::Literal(x) => sub_evaluated(EvalValue::Constant(0), EvalValue::Constant(x)),
            Operand::Node => match b {
                Err(e) => Err(e),
                Ok(EvalValue::Constant(c)) => sub_evaluated(
                    EvalValue::Constant(0),
                    EvalValue::Constant(c),
                ),
                Ok(y) => scale_value(y, Scalar::Neg),
            },
        },
        Operand::Literal(c) => match rs {
            Operand::Omitted => Ok(EvalValue::Constant(c)),
            Operand::Literal(x) => sub_evaluated(EvalValue::Constant(c), EvalValue::Constant(x)),
            Operand::Node => match b {
                Err(e) => Err(e),
                Ok(y) => sub_evaluated(EvalValue::Constant(c), y),
            },
        },
        Operand::Node => match a {
            Err(e) => Err(e),
            Ok(x) => match rs {
                Operand::Omitted => Ok(x),
                Operand::Literal(c) => sub_evaluated(x, EvalValue::Constant(c)),
                Operand::Node => match b {
                    Err(e) => Err(e),
                    Ok(y) => sub_evaluated(x, y),
                },
            },
        },
    }
}

fn apply_times(ls: Operand, rs: Operand, a: Result<EvalValue, EvalError>, b: Result<EvalValue, EvalError>) -> (r: Result<EvalValue, EvalError>)
    requires
        ok_wf(a),
        ok_wf(b),
    ensures
        ok_wf(r),
        times_node(ls, rs, a, b, r),
{
    match ls {
        Operand::Omitted => match rs {
            Operand::Omitted => Ok(EvalValue::Constant(1)),
            Operand::Literal(x) => Ok(EvalValue::Constant(x)),
            Operand::Node => b,
        },
        Operand::Literal(c) => match rs {
            Operand::Omitted => Ok(EvalValue::Constant(c)),
            Operand::Literal(x) => mul_evaluated(EvalValue::Constant(c), EvalValue::Constant(x)),
            Operand::Node => match b {
                Err(e) => Err(e),
                Ok(y) => mul_evaluated(EvalValue::Constant(c), y),
            },
        },
        Operand::Node => match rs {
            Operand::Omitted => Ok(EvalValue::Constant(1)),
            _ => match a {
                Err(e) => Err(e),
                Ok(x) => match rs {
                    Operand::Literal(c) => mul_evaluated(x, EvalValue::Constant(c)),
                    _ => match b {
                        Err(e) => Err(e),
                        Ok(y) => mul_evaluated(x, y),
                    },
                },
            },
        },
    }
}

fn apply_over(ls: Operand, rs: Operand, a: Result<EvalValue, EvalError>, b: Result<EvalValue, EvalError>) -> (r: Result<EvalValue, EvalError>)
    requires
        ok_wf(a),
        ok_wf(b),
    ensures
        ok_wf(r),
        over_node(ls, rs, a, b, r),
{
    match ls {
        Operand::Omitted => match rs {
            Operand::Omitted => Ok(EvalValue::Constant(1)),
            Operand::Literal(x) => div_evaluated(EvalValue::Constant(1), EvalValue::Constant(x)),
            Operand::Node => match b {
                Err(e) => Err(e),
                Ok(y) => div_evaluated(EvalValue::Constant(1), y),
            },
        },
        Operand::Literal(c) => match rs {
            Operand::Omitted => Ok(EvalValue::Constant(c)),
            Operand::Literal(x) => div_evaluated(EvalValue::Constant(c), EvalValue::Constant(x)),
            Operand::Node => match b {
                Err(e) => Err(e),
                Ok(y) => div_evaluated(EvalValue::Constant(c), y),
            },
        },
        Operand::Node => match rs {
            Operand::Omitted => a,
            Operand::Literal(c) => {
                if c == 0 {
                    Err(EvalError::DivideByZero)
                } else {
                    match a {
                        Err(e) => Err(e),
                        Ok(x) => div_evaluated(x, EvalValue::Constant(c)),
                    }
                }
            },
            Operand::Node => match a {
                Err(e) => Err(e),
                Ok(x) => match b {
                    Err(e) => Err(e),
                    Ok(y) => div_evaluated(x, y),
                },
            },
        },
    }
}

fn limit_exec(rs: Operand, b: &Result<EvalValue, EvalError>, default: Int) -> (r: Result<Option<Int>, EvalError>)
    ensures
        r == limit(rs, *b, default),
{
    match rs {
        Operand::Omitted => Ok(Some(default)),
        Operand::Literal(c) => Ok(Some(c)),
        Operand::Node => match b {
            Err(e) => Err(*e),
            Ok(EvalValue::Constant(c)) => Ok(Some(*c)),
            Ok(_) => Ok(None),
        },
    }
}

fn cut_exec(k: OpKind, c: Int) -> (p: Projection)
    ensures
        p == cut(k, c),
{
    match k {
        OpKind::KeepHighest => Projection::Highest(c as usize),
        _ => Projection::Successes(c as usize),
    }
}

fn apply_pool(k: OpKind, ls: Operand, rs: Operand, a: Result<EvalValue, EvalError>, b: Result<EvalValue, EvalError>) -> (r: Result<EvalValue, EvalError>)
    requires
        ok_wf(a),
        ok_wf(b),
        k is KeepHighest || k is CountSuccesses,
    ensures
        ok_wf(r),
        pool_node(k, ls, rs, a, b, r),
{
    let keep = matches!(k, OpKind::KeepHighest);
    let invalid = if keep {
        EvalError::InvalidArgForKeepHeighest
    } else {
        EvalError::InvalidArgForCountSuccesses
    };
    let default: Int = if keep {
        1
    } else {
        6
    };
    match ls {
        Operand::Literal(_) => Err(invalid),
        Operand::Omitted => match limit_exec(rs, &b, default) {
            Err(e) => Err(e),
            Ok(None) => Err(invalid),
            Ok(Some(c)) => {
                if c < 1 {
                    Err(invalid)
                } else if keep {
                    roll_project(2, 20, cut_exec(k, c))
                } else {
                    let d10 = PosibilitySpace::from_dice(Dice(10));
                    project_space(&d10, cut_exec(k, c))
                }
            },
        },
        Operand::Node => {
            if let Operand::Literal(c) = rs {
                if c < 1 {
                    return Err(invalid);
                }
            }
            match a {
                Err(e) => Err(e),
                Ok(x) => match limit_exec(rs, &b, default) {
                    Err(e) => Err(e),
                    Ok(lim) => match x {
                        EvalValue::PreDice(d) => match lim {
                            Some(c) => {
                                if c < 1 {
                                    Err(invalid)
                                } else {
                                    project_space(&d, cut_exec(k, c))
                                }
                            },
                            None => Err(invalid),
                        },
                        _ => Err(invalid),
                    },
                },
            }
        },
    }
}

fn scalar_exec(s: Operand, x: &Result<EvalValue, EvalError>, default: Int) -> (r: Option<Int>)
    ensures
        r == scalar_arg(s, *x, default),
{
    match s {
        Operand::Omitted => Some(default),
        Operand::Literal(c) => Some(c),
        Operand::Node => match x {
            Ok(EvalValue::Constant(c)) => Some(*c),
            _ => None,
        },
    }
}

fn apply_dice(ls: Operand, rs: Operand, a: Result<EvalValue, EvalError>, b: Result<EvalValue, EvalError>) -> (r: Result<EvalValue, EvalError>)
    requires
        ok_wf(a),
        ok_wf(b),
    ensures
        ok_wf(r),
        dice_node(ls, rs, a, b, r),
{
    if matches!(ls, Operand::Node) && a.is_err() {
        return a;
    }
    if matches!(rs, Operand::Node) && b.is_err() {
        return b;
    }
    match scalar_exec(ls, &a, 1) {
        Some(n) => match scalar_exec(rs, &b, 6) {
            Some(f) => {
                if n < 1 || f < 1 {
                    Err(EvalError::InvalidArgForDice)
                } else {
                    roll(n, f)
                }
            },
            None => Err(EvalError::InvalidArgForDice),
        },
        None => Err(EvalError::InvalidArgForDice),
    }
}

fn apply(k: OpKind, ls: Operand, rs: Operand, a: Result<EvalValue, EvalError>, b: Result<EvalValue, EvalError>) -> (r: Result<EvalValue, EvalError>)
    requires
        ok_wf(a),
        ok_wf(b),
    ensures
        ok_wf(r),
        op_rule(k, ls, rs, a, b, r),
{
    match k {
        OpKind::Plus => apply_plus(ls, rs, a, b),
        OpKind::Minus => apply_minus(ls, rs, a, b),
        OpKind::Multiply => apply_times(ls, rs, a, b),
        OpKind::Divide => apply_over(ls, rs, a, b),
        OpKind::Dice => apply_dice(ls, rs, a, b),
        _ => apply_pool(k, ls, rs, a, b),
    }
}

/// Evaluates the node of kind `k` over `l` and `rr`: the operands that the node needs
/// are evaluated left to right, then the rule of `k` applies.
fn eval_node(k: OpKind, l: Value, rr: Value) -> (r: Result<EvalValue, EvalError>)
    ensures
        ok_wf(r),
        node_evaluates(k, l, rr, r),
    decreases size(l) + size(rr),
{
    let ghost gl = l;
    let ghost gr = rr;
    let ls = operand_of(&l);
    let rs = operand_of(&rr);
    let a = if needs_left_exec(k, ls, rs) {
        match l {
            Value::Operator(o) => (*o).eval(),
            _ => Ok(EvalValue::Constant(0)),
        }
    } else {
        Ok(EvalValue::Constant(0))
    };
    let b = if needs_right_exec(k, ls, rs, &a) {
        match rr {
            Value::Operator(o) => (*o).eval(),
            _ => Ok(EvalValue::Constant(0)),
        }
    } else {
        Ok(EvalValue::Constant(0))
    };
    let ghost ga = a;
    let ghost gb = b;
    let r = apply(k, ls, rs, a, b);
    assert(op_rule(k, shape(gl), shape(gr), ga, gb, r));
    r
}

impl Operator {
    /// Evaluates the operation on its two operands.
    pub fn eval(self) -> (res: Result<EvalValue, EvalError>)
        ensures
            ok_wf(res),
            evaluates(Value::Operator(Box::new(self)), res),
        decreases op_size(self),
    {
        match self {
            Operator::Plus(l, r) => eval_node(OpKind::Plus, l, r),
            Operator::Minus(l, r) => eval_node(OpKind::Minus, l, r),
            Operator::Multiply(l, r) => eval_node(OpKind::Multiply, l, r),
            Operator::Divide(l, r) => eval_node(OpKind::Divide, l, r),
            Operator::KeepHighest(l, r) => eval_node(OpKind::KeepHighest, l, r),
            Operator::CountSuccesses(l, r) => eval_node(OpKind::CountSuccesses, l, r),
            Operator::Dice(l, r) => eval_node(OpKind::Dice, l, r),
        }
    }
}

impl Value {
    /// Evaluates the tree; a left-out value is the constant 0.
    pub fn eval(self) -> (r: Result<EvalValue, EvalError>)
        ensures
            ok_wf(r),
            evaluates(self, r),
        decreases size(self),
    {
        match self {
            Value::Default => Ok(EvalValue::Constant(0)),
            Value::Constant(c) => Ok(EvalValue::Constant(c)),
            Value::Operator(o) => (*o).eval(),
        }
    }

    /// `self + rhs`.
    pub fn sum(self, rhs: Value) -> (r: Result<EvalValue, EvalError>)
        ensures
            ok_wf(r),
            evaluates(Value::Operator(Box::new(Operator::Plus(self, rhs))), r),
    {
        Operator::Plus(self, rhs).eval()
    }

    /// `self - rhs`.
    pub fn difference(self, rhs: Value) -> (r: Result<EvalValue, EvalError>)
        ensures
            ok_wf(r),
            evaluates(Value::Operator(Box::new(Operator::Minus(self, rhs))), r),
    {
        Operator::Minus(self, rhs).eval()
    }

    /// `self * rhs`.
    pub fn product(self, rhs: Value) -> (r: Result<EvalValue, EvalError>)
        ensures
            ok_wf(r),
            evaluates(Value::Operator(Box::new(Operator::Multiply(self, rhs))), r),
    {
        Operator::Multiply(self, rhs).eval()
    }

    /// `self / rhs`, rounded toward zero.
    pub fn quotient(self, rhs: Value) -> (r: Result<EvalValue, EvalError>)
        ensures
            ok_wf(r),
            evaluates(Value::Operator(Box::new(Operator::Divide(self, rhs))), r),
    {
        Operator::Divide(self, rhs).eval()
    }

    /// `self kh rhs`: every roll of the dice `self` cut down to its `rhs` highest faces.
    pub fn keep_heighest(self, rhs: Value) -> (r: Result<EvalValue, EvalError>)
        ensures
            ok_wf(r),
            evaluates(Value::Operator(Box::new(Operator::KeepHighest(self, rhs))), r),
    {
        Operator::KeepHighest(self, rhs).eval()
    }

    /// `self cs< rhs`: every roll of the dice `self` replaced by how many of its faces
    /// exceed `rhs`.
    pub fn count_successes(self, rhs: Value) -> (r: Result<EvalValue, EvalError>)
        ensures
            ok_wf(r),
            evaluates(Value::Operator(Box::new(Operator::CountSuccesses(self, rhs))), r),
    {
        Operator::CountSuccesses(self, rhs).eval()
    }

    /// `self d rhs`: `self` dice with `rhs` faces each.
    pub fn dice(self, rhs: Value) -> (r: Result<EvalValue, EvalError>)
        ensures
            ok_wf(r),
            evaluates(Value::Operator(Box::new(Operator::Dice(self, rhs))), r),
    {
        Operator::Dice(self, rhs).eval()
    }
}

} // verus!

verus! {

/// The message that describes an evaluation error.
pub open spec fn eval_message(e: EvalError) -> Seq<char> {
    match e {
        EvalError::InvalidArgForDice => "Eval Error: Invalid Arg for Dice"@,
        EvalError::MultiplyDiceWithDice => "Eval Error: Tried multiplying dice with other dice"@,
        EvalError::DivideDiceWithDice => "Eval Error: Tried dividing dice with other dice"@,
        EvalError::DivideByZero => "Eval Error: Tried dividing by zero"@,
        EvalError::InvalidArgForKeepHeighest => "Eval Error: Invalid arg for keep heighest"@,
        EvalError::InvalidArgForCountSuccesses => "Eval Error: Invalid arg for count successes"@,
        EvalError::Overflow => "Eval Error: A value is out of range"@,
    }
}

impl EvalError {
    /// A message for people.
    pub fn message(&self) -> (r: String)
        ensures
            r@ == eval_message(*self),
    {
        let text = match self {
            EvalError::InvalidArgForDice => "Eval Error: Invalid Arg for Dice",
            EvalError::MultiplyDiceWithDice => "Eval Error: Tried multiplying dice with other dice",
            EvalError::DivideDiceWithDice => "Eval Error: Tried dividing dice with other dice",
            EvalError::DivideByZero => "Eval Error: Tried dividing by zero",
            EvalError::InvalidArgForKeepHeighest => "Eval Error: Invalid arg for keep heighest",
            EvalError::InvalidArgForCountSuccesses => "Eval Error: Invalid arg for count successes",
            EvalError::Overflow => "Eval Error: A value is out of range",
        };
        text.to_owned()
    }
}

} // verus!
