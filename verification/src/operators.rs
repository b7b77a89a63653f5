//! What the operators of the language do to values.
//!
//! Integer arithmetic is done here and wraps around at 64 bits.
//! Floating-point arithmetic is not: where an operand is a float, the
//! outcome is a request that the driver computes.

use vstd::prelude::*;
use crate::ast::{BinaryOperator, TypeName, UnaryOperator};
use crate::value::{
    kind_of, type_error, Kinds, Operation, RuntimeError, RuntimeErrorView, Value, ValueView,
};

verus! {

/// A number as floating-point work takes it: an integer, which the driver
/// widens, or the bits of a float.
#[derive(Debug, Clone, Copy, PartialEq, Eq, Structural)]
pub enum Number {
    Int(i64),
    Float(u64),
}

/// Floating-point work for the driver. `Literal`, `Arithmetic` and `Negate`
/// are answered by the bits of a float, `Compare` by a truth value.
#[derive(Debug, PartialEq)]
pub enum FloatRequest {
    /// The float that a literal's text writes.
    Literal(String),
    /// `left op right`, where `op` is `+`, `-`, `*` or `/`.
    Arithmetic { op: BinaryOperator, left: Number, right: Number },
    /// `left op right`, where `op` is a comparison or an equality.
    Compare { op: BinaryOperator, left: Number, right: Number },
    /// The float of the opposite sign.
    Negate(u64),
}

/// The mathematical value of a [`FloatRequest`].
pub ghost enum FloatRequestView {
    Literal(Seq<char>),
    Arithmetic { op: BinaryOperator, left: Number, right: Number },
    Compare { op: BinaryOperator, left: Number, right: Number },
    Negate(u64),
}

impl View for FloatRequest {
    type V = FloatRequestView;

    open spec fn view(&self) -> FloatRequestView {
        match self {
            FloatRequest::Literal(text) => FloatRequestView::Literal(text@),
            FloatRequest::Arithmetic { op, left, right } => FloatRequestView::Arithmetic {
                op: *op,
                left: *left,
                right: *right,
            },
            FloatRequest::Compare { op, left, right } => FloatRequestView::Compare {
                op: *op,
                left: *left,
                right: *right,
            },
            FloatRequest::Negate(bits) => FloatRequestView::Negate(*bits),
        }
    }
}

impl Clone for FloatRequest {
    fn clone(&self) -> (r: FloatRequest)
        ensures
            r@ == self@,
    {
        match self {
            FloatRequest::Literal(text) => FloatRequest::Literal(text.clone()),
            FloatRequest::Arithmetic { op, left, right } => FloatRequest::Arithmetic {
                op: *op,
                left: *left,
                right: *right,
            },
            FloatRequest::Compare { op, left, right } => FloatRequest::Compare {
                op: *op,
                left: *left,
                right: *right,
            },
            FloatRequest::Negate(bits) => FloatRequest::Negate(*bits),
        }
    }
}

/// What applying an operator comes to.
#[derive(Debug, PartialEq)]
pub enum Outcome {
    /// The result.
    Value(Value),
    /// The result is the float or truth value that answers this request.
    Ask(FloatRequest),
    /// There is no result.
    Fail(RuntimeError),
}

/// The mathematical value of an [`Outcome`].
pub ghost enum OutcomeView {
    Value(ValueView),
    Ask(FloatRequestView),
    Fail(RuntimeErrorView),
}

impl View for Outcome {
    type V = OutcomeView;

    open spec fn view(&self) -> OutcomeView {
        match self {
            Outcome::Value(v) => OutcomeView::Value(v@),
            Outcome::Ask(request) => OutcomeView::Ask(request@),
            Outcome::Fail(e) => OutcomeView::Fail(e@),
        }
    }
}

/// The number that a value is, if it is one.
pub open spec fn number_of(v: ValueView) -> Option<Number> {
    match v {
        ValueView::Int(i) => Some(Number::Int(i)),
        ValueView::Float(bits) => Some(Number::Float(bits)),
        _ => None,
    }
}

/// Whether a number is zero. A float is zero if all its bits but the sign
/// are, which holds of `0.0` and of `-0.0`.
pub open spec fn is_zero(n: Number) -> bool {
    match n {
        Number::Int(i) => i == 0,
        Number::Float(bits) => bits & 0x7fff_ffff_ffff_ffff == 0,
    }
}

/// The quotient of `x` by `d`, rounded toward zero.
pub open spec fn truncated_quotient(x: int, d: int) -> int
    recommends
        d != 0,
{
    if x >= 0 && d > 0 {
        x / d
    } else if x < 0 && d < 0 {
        (-x) / (-d)
    } else if x < 0 {
        -((-x) / d)
    } else {
        -(x / (-d))
    }
}

/// What is left of `x` when `d` times the truncated quotient is taken away.
pub open spec fn truncated_remainder(x: int, d: int) -> int
    recommends
        d != 0,
{
    if x >= 0 && d > 0 {
        x % d
    } else if x < 0 && d < 0 {
        -((-x) % (-d))
    } else if x < 0 {
        -((-x) % d)
    } else {
        x % (-d)
    }
}

/// An arithmetic operator on two integers. Sums, differences and products
/// wrap around; a quotient is rounded toward zero, and the one quotient that
/// does not fit, of the least integer by -1, wraps to the least integer.
pub open spec fn int_arithmetic(op: BinaryOperator, a: i64, b: i64) -> OutcomeView {
    match op {
        BinaryOperator::Add => OutcomeView::Value(ValueView::Int(a.wrapping_add(b))),
        BinaryOperator::Subtract => OutcomeView::Value(ValueView::Int(a.wrapping_sub(b))),
        BinaryOperator::Multiply => OutcomeView::Value(ValueView::Int(a.wrapping_mul(b))),
        BinaryOperator::Divide => if b == 0 {
            OutcomeView::Fail(RuntimeErrorView::DivisionByZero)
        } else if a == i64::MIN && b == -1 {
            OutcomeView::Value(ValueView::Int(i64::MIN))
        } else {
            OutcomeView::Value(ValueView::Int(truncated_quotient(a as int, b as int) as i64))
        },
        _ => if b == 0 {
            OutcomeView::Fail(RuntimeErrorView::DivisionByZero)
        } else if a == i64::MIN && b == -1 {
            OutcomeView::Value(ValueView::Int(0))
        } else {
            OutcomeView::Value(ValueView::Int(truncated_remainder(a as int, b as int) as i64))
        },
    }
}

/// `-`, `*`, `/` or `%` on two values, and `+` on two numbers. Both must be
/// numbers. Two integers are computed here. With a float among them the
/// result is a float that the driver computes; then `%` is a type error, and
/// division by zero fails as it does on integers.
pub open spec fn arithmetic(op: BinaryOperator, a: ValueView, b: ValueView) -> OutcomeView {
    match (number_of(a), number_of(b)) {
        (Some(Number::Int(x)), Some(Number::Int(y))) => int_arithmetic(op, x, y),
        (Some(x), Some(y)) => if op == BinaryOperator::Modulo {
            OutcomeView::Fail(
                type_error(Operation::Binary(op), Kinds::Only(TypeName::Int), TypeName::Float),
            )
        } else if op == BinaryOperator::Divide && is_zero(y) {
            OutcomeView::Fail(RuntimeErrorView::DivisionByZero)
        } else {
            OutcomeView::Ask(FloatRequestView::Arithmetic { op, left: x, right: y })
        },
        (None, _) => OutcomeView::Fail(type_error(Operation::Binary(op), Kinds::Number, kind_of(a))),
        (_, None) => OutcomeView::Fail(type_error(Operation::Binary(op), Kinds::Number, kind_of(b))),
    }
}

/// `+`: two strings are joined, two numbers added.
pub open spec fn addition(a: ValueView, b: ValueView) -> OutcomeView {
    let op = BinaryOperator::Add;
    match a {
        ValueView::Str(s) => match b {
            ValueView::Str(t) => OutcomeView::Value(ValueView::Str(s + t)),
            _ => OutcomeView::Fail(
                type_error(Operation::Binary(op), Kinds::Only(TypeName::Str), kind_of(b)),
            ),
        },
        ValueView::Int(_) => arithmetic(op, a, b),
        ValueView::Float(_) => arithmetic(op, a, b),
        _ => OutcomeView::Fail(type_error(Operation::Binary(op), Kinds::NumberOrStr, kind_of(a))),
    }
}

/// What an ordering or equality operator says of two integers.
pub open spec fn int_relation(op: BinaryOperator, x: i64, y: i64) -> bool {
    match op {
        BinaryOperator::Less => x < y,
        BinaryOperator::Greater => x > y,
        BinaryOperator::LessEqual => x <= y,
        BinaryOperator::GreaterEqual => x >= y,
        BinaryOperator::NotEqual => x != y,
        _ => x == y,
    }
}

/// `<`, `>`, `<=` or `>=`, and `==` or `!=` on two numbers. Both must be
/// numbers. Two integers are compared here; with a float among them the
/// driver compares.
pub open spec fn comparison(op: BinaryOperator, a: ValueView, b: ValueView) -> OutcomeView {
    match (number_of(a), number_of(b)) {
        (Some(Number::Int(x)), Some(Number::Int(y))) => OutcomeView::Value(
            ValueView::Bool(int_relation(op, x, y)),
        ),
        (Some(x), Some(y)) => OutcomeView::Ask(FloatRequestView::Compare { op, left: x, right: y }),
        (None, _) => OutcomeView::Fail(type_error(Operation::Binary(op), Kinds::Number, kind_of(a))),
        (_, None) => OutcomeView::Fail(type_error(Operation::Binary(op), Kinds::Number, kind_of(b))),
    }
}

/// `==` or `!=`: defined on two numbers, on two strings and on two booleans.
pub open spec fn equality(op: BinaryOperator, a: ValueView, b: ValueView) -> OutcomeView {
    let negated = op == BinaryOperator::NotEqual;
    match a {
        ValueView::Str(s) => match b {
            ValueView::Str(t) => OutcomeView::Value(ValueView::Bool((s == t) != negated)),
            _ => OutcomeView::Fail(
                type_error(Operation::Binary(op), Kinds::Only(TypeName::Str), kind_of(b)),
            ),
        },
        ValueView::Bool(x) => match b {
            ValueView::Bool(y) => OutcomeView::Value(ValueView::Bool((x == y) != negated)),
            _ => OutcomeView::Fail(
                type_error(Operation::Binary(op), Kinds::Only(TypeName::Bool), kind_of(b)),
            ),
        },
        ValueView::Void => OutcomeView::Fail(
            type_error(Operation::Binary(op), Kinds::NotVoid, TypeName::Void),
        ),
        _ => comparison(op, a, b),
    }
}

/// `&&` or `||` on two values, both of which must be booleans.
pub open spec fn logical(op: BinaryOperator, a: ValueView, b: ValueView) -> OutcomeView {
    match a {
        ValueView::Bool(x) => match b {
            ValueView::Bool(y) => OutcomeView::Value(
                ValueView::Bool(
                    if op == BinaryOperator::And {
                        x && y
                    } else {
                        x || y
                    },
                ),
            ),
            _ => OutcomeView::Fail(
                type_error(Operation::Binary(op), Kinds::Only(TypeName::Bool), kind_of(b)),
            ),
        },
        _ => OutcomeView::Fail(
            type_error(Operation::Binary(op), Kinds::Only(TypeName::Bool), kind_of(a)),
        ),
    }
}

/// What `a op b` comes to.
pub open spec fn binary_outcome(op: BinaryOperator, a: ValueView, b: ValueView) -> OutcomeView {
    match op {
        BinaryOperator::Or => logical(op, a, b),
        BinaryOperator::And => logical(op, a, b),
        BinaryOperator::Equal => equality(op, a, b),
        BinaryOperator::NotEqual => equality(op, a, b),
        BinaryOperator::Less => comparison(op, a, b),
        BinaryOperator::Greater => comparison(op, a, b),
        BinaryOperator::LessEqual => comparison(op, a, b),
        BinaryOperator::GreaterEqual => comparison(op, a, b),
        BinaryOperator::Add => addition(a, b),
        _ => arithmetic(op, a, b),
    }
}

/// What `op v` comes to: `!` turns a boolean round, `-` gives the opposite
/// of a number, for an integer wrapping around.
pub open spec fn unary_outcome(op: UnaryOperator, v: ValueView) -> OutcomeView {
    match op {
        UnaryOperator::Not => match v {
            ValueView::Bool(b) => OutcomeView::Value(ValueView::Bool(!b)),
            _ => OutcomeView::Fail(
                type_error(Operation::Unary(op), Kinds::Only(TypeName::Bool), kind_of(v)),
            ),
        },
        UnaryOperator::Negate => match v {
            ValueView::Int(i) => OutcomeView::Value(ValueView::Int(0i64.wrapping_sub(i))),
            ValueView::Float(bits) => OutcomeView::Ask(FloatRequestView::Negate(bits)),
            _ => OutcomeView::Fail(type_error(Operation::Unary(op), Kinds::Number, kind_of(v))),
        },
    }
}

/// Integer division rounds toward zero: the quotient times the divisor and
/// the remainder make up what was divided, and the remainder is nearer to
/// zero than the divisor and does not have the opposite sign of what was
/// divided.
pub proof fn division_rounds_toward_zero(x: int, d: int)
    requires
        d != 0,
    ensures
        x == truncated_quotient(x, d) * d + truncated_remainder(x, d),
        x >= 0 ==> 0 <= truncated_remainder(x, d),
        x <= 0 ==> truncated_remainder(x, d) <= 0,
        d > 0 ==> -d < truncated_remainder(x, d) < d,
        d < 0 ==> d < truncated_remainder(x, d) < -d,
{
    let a = if x >= 0 {
        x
    } else {
        -x
    };
    let b = if d > 0 {
        d
    } else {
        -d
    };
    assert(a == (a / b) * b + a % b && 0 <= a % b < b) by (nonlinear_arith)
        requires
            a >= 0,
            b > 0,
    ;
    let q = a / b;
    let r = a % b;
    if x >= 0 && d > 0 {
    } else if x < 0 && d < 0 {
        assert(x == q * d + (-r)) by (nonlinear_arith)
            requires
                -x == q * (-d) + r,
        ;
    } else if x < 0 {
        assert(x == (-q) * d + (-r)) by (nonlinear_arith)
            requires
                -x == q * d + r,
        ;
    } else {
        assert(x == (-q) * d + r) by (nonlinear_arith)
            requires
                x == q * (-d) + r,
        ;
    }
}

/// The number that `v` is, if it is one.
fn as_number(v: &Value) -> (n: Option<Number>)
    ensures
        n == number_of(v@),
{
    match v {
        Value::Int(i) => Some(Number::Int(*i)),
        Value::Float(bits) => Some(Number::Float(*bits)),
        _ => None,
    }
}

/// Whether `n` is zero.
fn zero(n: Number) -> (r: bool)
    ensures
        r == is_zero(n),
{
    match n {
        Number::Int(i) => i == 0,
        Number::Float(bits) => bits & 0x7fff_ffff_ffff_ffff == 0,
    }
}

fn wrong_kind(op: BinaryOperator, expected: Kinds, v: &Value) -> (r: Outcome)
    ensures
        r@ == OutcomeView::Fail(type_error(Operation::Binary(op), expected, kind_of(v@))),
{
    Outcome::Fail(
        RuntimeError::TypeError { operation: Operation::Binary(op), expected, found: v.kind() },
    )
}

/// A quotient is no further from zero than what is divided, and nearer
/// where the divisor is 2 or more; a remainder is nearer to zero than the
/// divisor; and zero divided leaves zero.
proof fn lemma_division_bounds(x: int, d: int)
    requires
        x >= 0,
        d > 0,
    ensures
        0 <= x / d <= x,
        0 <= x % d < d,
        x > 0 && d >= 2 ==> x / d < x,
        x == 0 ==> x / d == 0 && x % d == 0,
        d == 1 ==> x / d == x && x % d == 0,
{
    assert(0 <= x / d <= x) by (nonlinear_arith)
        requires
            x >= 0,
            d > 0,
    ;
    assert(0 <= x % d < d) by (nonlinear_arith)
        requires
            x >= 0,
            d > 0,
    ;
    assert(x > 0 && d >= 2 ==> x / d < x) by (nonlinear_arith)
        requires
            x >= 0,
            d > 0,
    ;
    assert(x == 0 ==> x / d == 0 && x % d == 0) by (nonlinear_arith)
        requires
            x >= 0,
            d > 0,
    ;
}

fn int_divide(a: i64, b: i64) -> (r: Outcome)
    ensures
        r@ == int_arithmetic(BinaryOperator::Divide, a, b),
{
    if b == 0 {
        Outcome::Fail(RuntimeError::DivisionByZero)
    } else {
        proof {
            let x = a as int;
            let d = b as int;
            assert(x * -1 == -x && d * -1 == -d);
            lemma_division_bounds(
                if x >= 0 {
                    x
                } else {
                    -x
                },
                if d > 0 {
                    d
                } else {
                    -d
                },
            );
            if x < 0 && d < 0 {
                assert((x * -1) / (d * -1) == (-x) / (-d));
                assert((x * -1) % (d * -1) == (-x) % (-d));
            } else if x < 0 {
                assert((x * -1) / d == (-x) / d);
                assert((x * -1) % d == (-x) % d);
            } else if d < 0 {
                assert(x / (d * -1) == x / (-d));
                assert(x % (d * -1) == x % (-d));
            }
        }
        match a.checked_div(b) {
            Some(q) => Outcome::Value(Value::Int(q)),
            None => Outcome::Value(Value::Int(i64::MIN)),
        }
    }
}

fn int_remainder(a: i64, b: i64) -> (r: Outcome)
    ensures
        r@ == int_arithmetic(BinaryOperator::Modulo, a, b),
{
    if b == 0 {
        Outcome::Fail(RuntimeError::DivisionByZero)
    } else {
        proof {
            let x = a as int;
            let d = b as int;
            assert(x * -1 == -x && d * -1 == -d);
            lemma_division_bounds(
                if x >= 0 {
                    x
                } else {
                    -x
                },
                if d > 0 {
                    d
                } else {
                    -d
                },
            );
            if x < 0 && d < 0 {
                assert((x * -1) / (d * -1) == (-x) / (-d));
                assert((x * -1) % (d * -1) == (-x) % (-d));
            } else if x < 0 {
                assert((x * -1) / d == (-x) / d);
                assert((x * -1) % d == (-x) % d);
            } else if d < 0 {
                assert(x / (d * -1) == x / (-d));
                assert(x % (d * -1) == x % (-d));
            }
        }
        match a.checked_rem(b) {
            Some(r) => Outcome::Value(Value::Int(r)),
            None => Outcome::Value(Value::Int(0)),
        }
    }
}

fn apply_int_arithmetic(op: BinaryOperator, a: i64, b: i64) -> (r: Outcome)
    ensures
        r@ == int_arithmetic(op, a, b),
{
    match op {
        BinaryOperator::Add => Outcome::Value(Value::Int(a.wrapping_add(b))),
        BinaryOperator::Subtract => Outcome::Value(Value::Int(a.wrapping_sub(b))),
        BinaryOperator::Multiply => Outcome::Value(Value::Int(a.wrapping_mul(b))),
        BinaryOperator::Divide => int_divide(a, b),
        _ => int_remainder(a, b),
    }
}

fn apply_arithmetic(op: BinaryOperator, a: &Value, b: &Value) -> (r: Outcome)
    ensures
        r@ == arithmetic(op, a@, b@),
{
    match (as_number(a), as_number(b)) {
        (Some(Number::Int(x)), Some(Number::Int(y))) => apply_int_arithmetic(op, x, y),
        (Some(x), Some(y)) => {
            if op == BinaryOperator::Modulo {
                Outcome::Fail(
                    RuntimeError::TypeError {
                        operation: Operation::Binary(op),
                        expected: Kinds::Only(TypeName::Int),
                        found: TypeName::Float,
                    },
                )
            } else if op == BinaryOperator::Divide && zero(y) {
                Outcome::Fail(RuntimeError::DivisionByZero)
            } else {
                Outcome::Ask(FloatRequest::Arithmetic { op, left: x, right: y })
            }
        },
        (None, _) => wrong_kind(op, Kinds::Number, a),
        (_, None) => wrong_kind(op, Kinds::Number, b),
    }
}

fn apply_addition(a: &Value, b: &Value) -> (r: Outcome)
    ensures
        r@ == addition(a@, b@),
{
    let op = BinaryOperator::Add;
    match a {
        Value::Str(s) => match b {
            Value::Str(t) => {
                let mut joined = s.clone();
                joined.append(t.as_str());
                Outcome::Value(Value::Str(joined))
            },
            _ => wrong_kind(op, Kinds::Only(TypeName::Str), b),
        },
        Value::Int(_) => apply_arithmetic(op, a, b),
        Value::Float(_) => apply_arithmetic(op, a, b),
        _ => wrong_kind(op, Kinds::NumberOrStr, a),
    }
}

fn int_relates(op: BinaryOperator, x: i64, y: i64) -> (r: bool)
    ensures
        r == int_relation(op, x, y),
{
    match op {
        BinaryOperator::Less => x < y,
        BinaryOperator::Greater => x > y,
        BinaryOperator::LessEqual => x <= y,
        BinaryOperator::GreaterEqual => x >= y,
        BinaryOperator::NotEqual => x != y,
        _ => x == y,
    }
}

fn apply_comparison(op: BinaryOperator, a: &Value, b: &Value) -> (r: Outcome)
    ensures
        r@ == comparison(op, a@, b@),
{
    match (as_number(a), as_number(b)) {
        (Some(Number::Int(x)), Some(Number::Int(y))) => Outcome::Value(
            Value::Bool(int_relates(op, x, y)),
        ),
        (Some(x), Some(y)) => Outcome::Ask(FloatRequest::Compare { op, left: x, right: y }),
        (None, _) => wrong_kind(op, Kinds::Number, a),
        (_, None) => wrong_kind(op, Kinds::Number, b),
    }
}

fn apply_equality(op: BinaryOperator, a: &Value, b: &Value) -> (r: Outcome)
    ensures
        r@ == equality(op, a@, b@),
{
    let negated = op == BinaryOperator::NotEqual;
    match a {
        Value::Str(s) => match b {
            Value::Str(t) => Outcome::Value(Value::Bool((*s == *t) != negated)),
            _ => wrong_kind(op, Kinds::Only(TypeName::Str), b),
        },
        Value::Bool(x) => match b {
            Value::Bool(y) => Outcome::Value(Value::Bool((*x == *y) != negated)),
            _ => wrong_kind(op, Kinds::Only(TypeName::Bool), b),
        },
        Value::Void => wrong_kind(op, Kinds::NotVoid, a),
        _ => apply_comparison(op, a, b),
    }
}

fn apply_logical(op: BinaryOperator, a: &Value, b: &Value) -> (r: Outcome)
    ensures
        r@ == logical(op, a@, b@),
{
    match a {
        Value::Bool(x) => match b {
            Value::Bool(y) => Outcome::Value(
                Value::Bool(
                    if op == BinaryOperator::And {
                        *x && *y
                    } else {
                        *x || *y
                    },
                ),
            ),
            _ => wrong_kind(op, Kinds::Only(TypeName::Bool), b),
        },
        _ => wrong_kind(op, Kinds::Only(TypeName::Bool), a),
    }
}

/// Applies the binary operator `op` to `a` and `b`.
pub fn apply_binary(op: BinaryOperator, a: &Value, b: &Value) -> (r: Outcome)
    ensures
        r@ == binary_outcome(op, a@, b@),
{
    match op {
        BinaryOperator::Or => apply_logical(op, a, b),
        BinaryOperator::And => apply_logical(op, a, b),
        BinaryOperator::Equal => apply_equality(op, a, b),
        BinaryOperator::NotEqual => apply_equality(op, a, b),
        BinaryOperator::Less => apply_comparison(op, a, b),
        BinaryOperator::Greater => apply_comparison(op, a, b),
        BinaryOperator::LessEqual => apply_comparison(op, a, b),
        BinaryOperator::GreaterEqual => apply_comparison(op, a, b),
        BinaryOperator::Add => apply_addition(a, b),
        _ => apply_arithmetic(op, a, b),
    }
}

/// Applies the prefix operator `op` to `v`.
pub fn apply_unary(op: UnaryOperator, v: &Value) -> (r: Outcome)
    ensures
        r@ == unary_outcome(op, v@),
{
    match op {
        UnaryOperator::Not => match v {
            Value::Bool(b) => Outcome::Value(Value::Bool(!*b)),
            _ => Outcome::Fail(
                RuntimeError::TypeError {
                    operation: Operation::Unary(op),
                    expected: Kinds::Only(TypeName::Bool),
                    found: v.kind(),
                },
            ),
        },
        UnaryOperator::Negate => match v {
            Value::Int(i) => Outcome::Value(Value::Int(0i64.wrapping_sub(*i))),
            Value::Float(bits) => Outcome::Ask(FloatRequest::Negate(*bits)),
            _ => Outcome::Fail(
                RuntimeError::TypeError {
                    operation: Operation::Unary(op),
                    expected: Kinds::Number,
                    found: v.kind(),
                },
            ),
        },
    }
}

} // verus!
