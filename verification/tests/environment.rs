use cube::ast::{BinaryOperator, TypeName, UnaryOperator};
use cube::environment::Environment;
use cube::operators::{apply_binary, apply_unary, FloatRequest, Number, Outcome};
use cube::text::int_to_text;
use cube::value::{render, Kinds, Operation, RuntimeError, Value};

fn name(s: &str) -> String {
    s.to_string()
}

#[test]
fn new_environment_has_one_scope_that_binds_nothing() {
    let env = Environment::new();
    assert_eq!(env.depth(), 1);
    assert_eq!(env.lookup(&name("x")), None);
}

#[test]
fn declared_name_is_found_with_its_value() {
    let mut env = Environment::new();
    env.declare(name("x"), Value::Int(1));
    env.declare(name("y"), Value::Str(name("a")));
    assert_eq!(env.lookup(&name("x")), Some(Value::Int(1)));
    assert_eq!(env.lookup(&name("y")), Some(Value::Str(name("a"))));
    env.declare(name("x"), Value::Bool(true));
    assert_eq!(env.lookup(&name("x")), Some(Value::Bool(true)));
    assert_eq!(env.lookup(&name("y")), Some(Value::Str(name("a"))));
}

#[test]
fn inner_scope_shadows_and_ends() {
    let mut env = Environment::new();
    env.declare(name("x"), Value::Int(1));
    env.push_scope();
    assert_eq!(env.depth(), 2);
    assert_eq!(env.lookup(&name("x")), Some(Value::Int(1)));
    env.declare(name("x"), Value::Int(2));
    env.declare(name("y"), Value::Int(3));
    assert_eq!(env.lookup(&name("x")), Some(Value::Int(2)));
    env.pop_scope();
    assert_eq!(env.depth(), 1);
    assert_eq!(env.lookup(&name("x")), Some(Value::Int(1)));
    assert_eq!(env.lookup(&name("y")), None);
}

#[test]
fn assignment_changes_the_scope_where_the_name_is_bound() {
    let mut env = Environment::new();
    env.declare(name("x"), Value::Int(1));
    env.push_scope();
    assert!(env.assign(&name("x"), Value::Int(5)));
    assert!(!env.assign(&name("z"), Value::Int(5)));
    env.pop_scope();
    assert_eq!(env.lookup(&name("x")), Some(Value::Int(5)));
    assert_eq!(env.lookup(&name("z")), None);
}

#[test]
fn truncate_ends_inner_scopes() {
    let mut env = Environment::new();
    env.push_scope();
    env.push_scope();
    env.declare(name("x"), Value::Int(1));
    env.truncate(5);
    assert_eq!(env.depth(), 3);
    env.truncate(1);
    assert_eq!(env.depth(), 1);
    assert_eq!(env.lookup(&name("x")), None);
    env.pop_scope();
    env.pop_scope();
    assert_eq!(env.depth(), 0);
    env.declare(name("x"), Value::Int(1));
    assert_eq!(env.depth(), 1);
    assert_eq!(env.lookup(&name("x")), Some(Value::Int(1)));
}

#[test]
fn integers_in_decimal() {
    assert_eq!(int_to_text(0), "0");
    assert_eq!(int_to_text(7), "7");
    assert_eq!(int_to_text(-7), "-7");
    assert_eq!(int_to_text(1234567890), "1234567890");
    assert_eq!(int_to_text(i64::MAX), "9223372036854775807");
    assert_eq!(int_to_text(i64::MIN), "-9223372036854775808");
}

#[test]
fn values_rendered_and_their_kinds() {
    assert_eq!(render(&Value::Int(-3)), "-3");
    assert_eq!(render(&Value::Bool(true)), "true");
    assert_eq!(render(&Value::Bool(false)), "false");
    assert_eq!(render(&Value::Str(name("a b"))), "a b");
    assert_eq!(render(&Value::Void), "");
    assert_eq!(Value::Int(1).kind(), TypeName::Int);
    assert_eq!(Value::Float(0).kind(), TypeName::Float);
    assert_eq!(Value::Str(name("")).kind(), TypeName::Str);
    assert_eq!(Value::Bool(true).kind(), TypeName::Bool);
    assert_eq!(Value::Void.kind(), TypeName::Void);
}

#[test]
fn integer_operators() {
    let (a, b) = (Value::Int(7), Value::Int(-2));
    assert_eq!(apply_binary(BinaryOperator::Add, &a, &b), Outcome::Value(Value::Int(5)));
    assert_eq!(apply_binary(BinaryOperator::Subtract, &a, &b), Outcome::Value(Value::Int(9)));
    assert_eq!(apply_binary(BinaryOperator::Multiply, &a, &b), Outcome::Value(Value::Int(-14)));
    assert_eq!(apply_binary(BinaryOperator::Divide, &a, &b), Outcome::Value(Value::Int(-3)));
    assert_eq!(apply_binary(BinaryOperator::Modulo, &a, &b), Outcome::Value(Value::Int(1)));
    assert_eq!(apply_binary(BinaryOperator::Less, &a, &b), Outcome::Value(Value::Bool(false)));
    assert_eq!(apply_binary(BinaryOperator::Greater, &a, &b), Outcome::Value(Value::Bool(true)));
    assert_eq!(apply_binary(BinaryOperator::LessEqual, &a, &a), Outcome::Value(Value::Bool(true)));
    assert_eq!(
        apply_binary(BinaryOperator::GreaterEqual, &b, &a),
        Outcome::Value(Value::Bool(false))
    );
    assert_eq!(apply_binary(BinaryOperator::Equal, &a, &a), Outcome::Value(Value::Bool(true)));
    assert_eq!(apply_binary(BinaryOperator::NotEqual, &a, &a), Outcome::Value(Value::Bool(false)));
    let least = Value::Int(i64::MIN);
    let minus_one = Value::Int(-1);
    assert_eq!(
        apply_binary(BinaryOperator::Divide, &least, &minus_one),
        Outcome::Value(Value::Int(i64::MIN))
    );
    assert_eq!(
        apply_binary(BinaryOperator::Modulo, &least, &minus_one),
        Outcome::Value(Value::Int(0))
    );
    assert_eq!(
        apply_binary(BinaryOperator::Multiply, &least, &minus_one),
        Outcome::Value(Value::Int(i64::MIN))
    );
    assert_eq!(apply_unary(UnaryOperator::Negate, &least), Outcome::Value(Value::Int(i64::MIN)));
    assert_eq!(apply_unary(UnaryOperator::Negate, &a), Outcome::Value(Value::Int(-7)));
}

#[test]
fn float_operands_are_handed_to_the_driver() {
    let half = Value::Float(0.5f64.to_bits());
    let two = Value::Int(2);
    assert_eq!(
        apply_binary(BinaryOperator::Multiply, &half, &two),
        Outcome::Ask(FloatRequest::Arithmetic {
            op: BinaryOperator::Multiply,
            left: Number::Float(0.5f64.to_bits()),
            right: Number::Int(2)
        })
    );
    assert_eq!(
        apply_binary(BinaryOperator::Equal, &two, &half),
        Outcome::Ask(FloatRequest::Compare {
            op: BinaryOperator::Equal,
            left: Number::Int(2),
            right: Number::Float(0.5f64.to_bits())
        })
    );
    assert_eq!(
        apply_unary(UnaryOperator::Negate, &half),
        Outcome::Ask(FloatRequest::Negate(0.5f64.to_bits()))
    );
    let zero = Value::Float(0.0f64.to_bits());
    let minus_zero = Value::Float((-0.0f64).to_bits());
    assert_eq!(
        apply_binary(BinaryOperator::Divide, &two, &zero),
        Outcome::Fail(RuntimeError::DivisionByZero)
    );
    assert_eq!(
        apply_binary(BinaryOperator::Divide, &half, &minus_zero),
        Outcome::Fail(RuntimeError::DivisionByZero)
    );
}

#[test]
fn logical_and_prefix_operators_on_wrong_kinds() {
    assert_eq!(
        apply_binary(BinaryOperator::And, &Value::Bool(true), &Value::Bool(false)),
        Outcome::Value(Value::Bool(false))
    );
    assert_eq!(
        apply_binary(BinaryOperator::Or, &Value::Bool(false), &Value::Bool(true)),
        Outcome::Value(Value::Bool(true))
    );
    assert_eq!(
        apply_binary(BinaryOperator::And, &Value::Bool(true), &Value::Int(1)),
        Outcome::Fail(RuntimeError::TypeError {
            operation: Operation::Binary(BinaryOperator::And),
            expected: Kinds::Only(TypeName::Bool),
            found: TypeName::Int
        })
    );
    assert_eq!(
        apply_unary(UnaryOperator::Not, &Value::Int(1)),
        Outcome::Fail(RuntimeError::TypeError {
            operation: Operation::Unary(UnaryOperator::Not),
            expected: Kinds::Only(TypeName::Bool),
            found: TypeName::Int
        })
    );
    assert_eq!(
        apply_unary(UnaryOperator::Negate, &Value::Str(name("a"))),
        Outcome::Fail(RuntimeError::TypeError {
            operation: Operation::Unary(UnaryOperator::Negate),
            expected: Kinds::Number,
            found: TypeName::Str
        })
    );
    assert_eq!(
        apply_binary(BinaryOperator::Equal, &Value::Void, &Value::Void),
        Outcome::Fail(RuntimeError::TypeError {
            operation: Operation::Binary(BinaryOperator::Equal),
            expected: Kinds::NotVoid,
            found: TypeName::Void
        })
    );
    assert_eq!(
        apply_binary(BinaryOperator::Less, &Value::Int(1), &Value::Bool(true)),
        Outcome::Fail(RuntimeError::TypeError {
            operation: Operation::Binary(BinaryOperator::Less),
            expected: Kinds::Number,
            found: TypeName::Bool
        })
    );
}
