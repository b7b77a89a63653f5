//! Runtime values, their kinds, and the errors of a run.

use vstd::prelude::*;
use crate::ast::{BinaryOperator, TypeName, UnaryOperator};
use crate::text::{decimal_text, int_to_text};

verus! {

/// A runtime value. A floating-point value is held as the 64 bits of its
/// IEEE 754 double; what those bits mean is the driver's business.
#[derive(Debug, PartialEq)]
pub enum Value {
    Int(i64),
    Float(u64),
    Str(String),
    Bool(bool),
    Void,
}

/// The mathematical value of a [`Value`].
pub ghost enum ValueView {
    Int(i64),
    Float(u64),
    Str(Seq<char>),
    Bool(bool),
    Void,
}

impl View for Value {
    type V = ValueView;

    open spec fn view(&self) -> ValueView {
        match self {
            Value::Int(i) => ValueView::Int(*i),
            Value::Float(bits) => ValueView::Float(*bits),
            Value::Str(text) => ValueView::Str(text@),
            Value::Bool(b) => ValueView::Bool(*b),
            Value::Void => ValueView::Void,
        }
    }
}

impl Clone for Value {
    fn clone(&self) -> (r: Value)
        ensures
            r@ == self@,
    {
        match self {
            Value::Int(i) => Value::Int(*i),
            Value::Float(bits) => Value::Float(*bits),
            Value::Str(text) => Value::Str(text.clone()),
            Value::Bool(b) => Value::Bool(*b),
            Value::Void => Value::Void,
        }
    }
}

/// The values of a sequence of values, one by one.
pub open spec fn value_views(values: Seq<Value>) -> Seq<ValueView> {
    Seq::new(values.len(), |i: int| values[i]@)
}

/// The kind of a value, named as the declared type that admits it.
pub open spec fn kind_of(v: ValueView) -> TypeName {
    match v {
        ValueView::Int(_) => TypeName::Int,
        ValueView::Float(_) => TypeName::Float,
        ValueView::Str(_) => TypeName::Str,
        ValueView::Bool(_) => TypeName::Bool,
        ValueView::Void => TypeName::Void,
    }
}

impl Value {
    /// The kind of this value.
    pub fn kind(&self) -> (k: TypeName)
        ensures
            k == kind_of(self@),
    {
        match self {
            Value::Int(_) => TypeName::Int,
            Value::Float(_) => TypeName::Float,
            Value::Str(_) => TypeName::Str,
            Value::Bool(_) => TypeName::Bool,
            Value::Void => TypeName::Void,
        }
    }
}

/// The kinds of value that an operation accepts in one place.
#[derive(Debug, Clone, Copy, PartialEq, Eq, Structural)]
pub enum Kinds {
    /// Values of this one kind.
    Only(TypeName),
    /// `Int` or `Float`.
    Number,
    /// `Int`, `Float` or `Str`.
    NumberOrStr,
    /// Any value but `Void`.
    NotVoid,
}

/// What was being done when a value of the wrong kind turned up.
#[derive(Debug, Clone, Copy, PartialEq, Eq, Structural)]
pub enum Operation {
    /// Initialising a declared variable.
    Declare,
    /// Binding an argument to a parameter.
    Argument,
    /// Printing.
    Print,
    /// Testing the condition of `if`, `while` or `for`.
    Condition,
    /// Applying a binary operator.
    Binary(BinaryOperator),
    /// Applying a prefix operator.
    Unary(UnaryOperator),
}

/// Why a run was aborted.
#[derive(Debug, PartialEq)]
#[allow(inconsistent_fields)]
pub enum RuntimeError {
    TypeError { operation: Operation, expected: Kinds, found: TypeName },
    UndefinedVariable { name: String },
    UndefinedFunction { name: String },
    ArityMismatch { name: String, expected: usize, found: usize },
    DivisionByZero,
}

/// The mathematical value of a [`RuntimeError`].
#[allow(inconsistent_fields)]
pub ghost enum RuntimeErrorView {
    TypeError { operation: Operation, expected: Kinds, found: TypeName },
    UndefinedVariable { name: Seq<char> },
    UndefinedFunction { name: Seq<char> },
    ArityMismatch { name: Seq<char>, expected: nat, found: nat },
    DivisionByZero,
}

impl View for RuntimeError {
    type V = RuntimeErrorView;

    open spec fn view(&self) -> RuntimeErrorView {
        match self {
            RuntimeError::TypeError { operation, expected, found } => RuntimeErrorView::TypeError {
                operation: *operation,
                expected: *expected,
                found: *found,
            },
            RuntimeError::UndefinedVariable { name } => RuntimeErrorView::UndefinedVariable {
                name: name@,
            },
            RuntimeError::UndefinedFunction { name } => RuntimeErrorView::UndefinedFunction {
                name: name@,
            },
            RuntimeError::ArityMismatch { name, expected, found } => RuntimeErrorView::ArityMismatch {
                name: name@,
                expected: *expected as nat,
                found: *found as nat,
            },
            RuntimeError::DivisionByZero => RuntimeErrorView::DivisionByZero,
        }
    }
}

/// The error for a value of kind `found` where `operation` accepts
/// `expected`.
pub open spec fn type_error(operation: Operation, expected: Kinds, found: TypeName) -> RuntimeErrorView {
    RuntimeErrorView::TypeError { operation, expected, found }
}

/// The line that `print` writes for a value that is text in itself: an
/// integer in decimal, a boolean as `true` or `false`, a string as it is.
/// A float is written by the driver and `Void` is not printed; for them this
/// is the empty line.
pub open spec fn rendered(v: ValueView) -> Seq<char> {
    match v {
        ValueView::Int(i) => decimal_text(i as int),
        ValueView::Bool(b) => if b {
            "true"@
        } else {
            "false"@
        },
        ValueView::Str(text) => text,
        _ => Seq::empty(),
    }
}

/// The line that `print` writes for `v`.
pub fn render(v: &Value) -> (text: String)
    ensures
        text@ == rendered(v@),
{
    match v {
        Value::Int(i) => int_to_text(*i),
        Value::Bool(b) => if *b {
            String::from_str("true")
        } else {
            String::from_str("false")
        },
        Value::Str(text) => text.clone(),
        _ => String::new(),
    }
}

} // verus!
