use cube::ast::{ASTNode, BinaryOperator, TypeName};
use cube::interpreter::interpret;
use cube::lexer::tokenize;
use cube::machine::{Action, Event, Machine};
use cube::operators::{FloatRequest, Number};
use cube::parser::parser;
use cube::value::{Kinds, Operation, RuntimeError};

fn widen(n: Number) -> f64 {
    match n {
        Number::Int(i) => i as f64,
        Number::Float(bits) => f64::from_bits(bits),
    }
}

fn answer(request: FloatRequest) -> Event {
    match request {
        FloatRequest::Literal(text) => Event::Float(text.parse::<f64>().unwrap().to_bits()),
        FloatRequest::Negate(bits) => Event::Float((-f64::from_bits(bits)).to_bits()),
        FloatRequest::Arithmetic { op, left, right } => {
            let (a, b) = (widen(left), widen(right));
            let r = match op {
                BinaryOperator::Add => a + b,
                BinaryOperator::Subtract => a - b,
                BinaryOperator::Multiply => a * b,
                BinaryOperator::Divide => a / b,
                _ => unreachable!(),
            };
            Event::Float(r.to_bits())
        }
        FloatRequest::Compare { op, left, right } => {
            let (a, b) = (widen(left), widen(right));
            let r = match op {
                BinaryOperator::Less => a < b,
                BinaryOperator::Greater => a > b,
                BinaryOperator::LessEqual => a <= b,
                BinaryOperator::GreaterEqual => a >= b,
                BinaryOperator::Equal => a == b,
                BinaryOperator::NotEqual => a != b,
                _ => unreachable!(),
            };
            Event::Truth(r)
        }
    }
}

/// Runs `source` to its end, doing the floating-point work it asks for.
fn drive(source: &str) -> (Vec<String>, Action) {
    let tokens = tokenize(source).unwrap();
    let tree = parser(&tokens).unwrap();
    let mut machine = Machine::new(&tree);
    let mut out: Vec<String> = Vec::new();
    let mut event = Event::Resume;
    loop {
        match machine.run(event, 100_000, &mut out) {
            Action::PrintFloat(bits) => {
                out.push(format!("{}", f64::from_bits(bits)));
                event = Event::Resume;
            }
            Action::Ask(request) => {
                event = answer(request);
            }
            other => return (out, other),
        }
    }
}

fn lines(source: &str) -> Vec<String> {
    let (out, last) = drive(source);
    assert_eq!(last, Action::Finished);
    out
}

fn failure(source: &str) -> RuntimeError {
    match drive(source).1 {
        Action::Failed(e) => e,
        other => panic!("the run did not fail: {:?}", other),
    }
}

#[test]
fn declared_variable_prints_its_value() {
    assert_eq!(lines("x: int = 5; print(x);"), vec!["5"]);
}

#[test]
fn multiplication_binds_tighter_than_addition() {
    assert_eq!(lines("print(2 + 3 * 4);"), vec!["14"]);
    assert_eq!(lines("print((2 + 3) * 4);"), vec!["20"]);
    assert_eq!(lines("print(10 - 4 - 3);"), vec!["3"]);
}

#[test]
fn and_does_not_run_its_right_side_when_left_is_false() {
    assert_eq!(lines("print(false && (1/0 == 0));"), vec!["false"]);
    assert_eq!(lines("print(true || (1/0 == 0));"), vec!["true"]);
    assert_eq!(failure("print(true && (1/0 == 0));"), RuntimeError::DivisionByZero);
}

#[test]
fn variable_of_if_block_is_gone_after_the_block() {
    assert_eq!(
        failure("if (true) { y: int = 1; print(y); } print(y);"),
        RuntimeError::UndefinedVariable { name: "y".to_string() }
    );
    let (out, _) = drive("if (true) { y: int = 1; print(y); } print(y);");
    assert_eq!(out, vec!["1"]);
}

#[test]
fn inner_declaration_shadows_and_then_ends() {
    assert_eq!(
        lines("x: int = 1; if (true) { x: int = 2; print(x); } print(x);"),
        vec!["2", "1"]
    );
    assert_eq!(
        lines("x: int = 1; if (true) { x = 2; print(x); } print(x);"),
        vec!["2", "2"]
    );
}

#[test]
fn while_loop_counts_to_three() {
    assert_eq!(
        lines("i: int = 0; while (i < 3) { print(i); i = i + 1; }"),
        vec!["0", "1", "2"]
    );
}

#[test]
fn for_loop_counts_and_its_variable_ends_with_it() {
    assert_eq!(
        lines("for (i: int = 0; i < 3; i = i + 1) { print(i); }"),
        vec!["0", "1", "2"]
    );
    assert_eq!(
        failure("for (i: int = 0; i < 1; i = i + 1) { } print(i);"),
        RuntimeError::UndefinedVariable { name: "i".to_string() }
    );
}

#[test]
fn function_call_returns_the_sum() {
    assert_eq!(
        lines("add:void(a:int,b:int){ return a + b; } r: int = add(2,3); print(r);"),
        vec!["5"]
    );
    assert_eq!(lines("add:void(a:int,b:int){ return a + b; } print(add(2,3) * 2);"), vec!["10"]);
}

#[test]
fn function_without_return_gives_void() {
    assert_eq!(
        failure("f:void(){ x: int = 1; } print(f());"),
        RuntimeError::TypeError {
            operation: Operation::Print,
            expected: Kinds::NotVoid,
            found: TypeName::Void
        }
    );
    assert_eq!(lines("f:void(){ print(1); } f(); print(2);"), vec!["1", "2"]);
}

#[test]
fn return_leaves_loops_and_scopes_of_the_call() {
    assert_eq!(
        lines(
            "first:void(n:int){ i: int = 0; while (true) { if (i * i >= n) { return i; } i = i + 1; } } \
             print(first(10)); print(first(17));"
        ),
        vec!["4", "5"]
    );
}

#[test]
fn recursion_computes_factorial() {
    assert_eq!(
        lines("fact:void(n:int){ if (n <= 1) { return 1; } return n * fact(n - 1); } print(fact(10));"),
        vec!["3628800"]
    );
}

#[test]
fn later_function_declaration_replaces_earlier() {
    assert_eq!(lines("f:void(){ return 1; } f:void(){ return 2; } print(f());"), vec!["2"]);
}

#[test]
fn integer_division_truncates_and_float_division_does_not() {
    assert_eq!(lines("print(7 / 2);"), vec!["3"]);
    assert_eq!(lines("print(7.0 / 2);"), vec!["3.5"]);
    assert_eq!(lines("print(0 - 7 / 2);"), vec!["-3"]);
    assert_eq!(lines("print((0 - 7) / 2);"), vec!["-3"]);
    assert_eq!(lines("print((0 - 7) % 2);"), vec!["-1"]);
    assert_eq!(lines("print(7 % (0 - 2));"), vec!["1"]);
}

#[test]
fn assignment_to_undeclared_variable_fails() {
    assert_eq!(failure("x = 5;"), RuntimeError::UndefinedVariable { name: "x".to_string() });
}

#[test]
fn division_and_modulo_by_zero_fail() {
    assert_eq!(failure("print(1 / 0);"), RuntimeError::DivisionByZero);
    assert_eq!(failure("print(1 % 0);"), RuntimeError::DivisionByZero);
    assert_eq!(failure("print(1.5 / 0);"), RuntimeError::DivisionByZero);
    assert_eq!(failure("print(1 / 0.0);"), RuntimeError::DivisionByZero);
}

#[test]
fn modulo_on_float_is_a_type_error() {
    assert_eq!(
        failure("print(1.5 % 2);"),
        RuntimeError::TypeError {
            operation: Operation::Binary(BinaryOperator::Modulo),
            expected: Kinds::Only(TypeName::Int),
            found: TypeName::Float
        }
    );
}

#[test]
fn declared_type_must_match_the_value() {
    assert_eq!(
        failure("x: int = \"a\";"),
        RuntimeError::TypeError {
            operation: Operation::Declare,
            expected: Kinds::Only(TypeName::Int),
            found: TypeName::Str
        }
    );
    assert_eq!(lines("s: str = \"a\" + \"b\"; print(s);"), vec!["ab"]);
    assert_eq!(lines("b: bool = 1 < 2; print(b);"), vec!["true"]);
    assert_eq!(lines("f: float = 1.5 + 1; print(f);"), vec!["2.5"]);
}

#[test]
fn condition_must_be_a_boolean() {
    assert_eq!(
        failure("if (1) { }"),
        RuntimeError::TypeError {
            operation: Operation::Condition,
            expected: Kinds::Only(TypeName::Bool),
            found: TypeName::Int
        }
    );
    assert_eq!(
        failure("while (\"x\") { }"),
        RuntimeError::TypeError {
            operation: Operation::Condition,
            expected: Kinds::Only(TypeName::Bool),
            found: TypeName::Str
        }
    );
}

#[test]
fn equality_across_kinds() {
    assert_eq!(lines("print(1 == 1.0);"), vec!["true"]);
    assert_eq!(lines("print(\"a\" == \"a\");"), vec!["true"]);
    assert_eq!(lines("print(true != false);"), vec!["true"]);
    assert_eq!(lines("print(2 != 2);"), vec!["false"]);
    assert_eq!(
        failure("print(\"a\" == 1);"),
        RuntimeError::TypeError {
            operation: Operation::Binary(BinaryOperator::Equal),
            expected: Kinds::Only(TypeName::Str),
            found: TypeName::Int
        }
    );
}

#[test]
fn addition_of_mixed_kinds_fails() {
    assert_eq!(
        failure("print(\"a\" + 1);"),
        RuntimeError::TypeError {
            operation: Operation::Binary(BinaryOperator::Add),
            expected: Kinds::Only(TypeName::Str),
            found: TypeName::Int
        }
    );
    assert_eq!(
        failure("print(true + 1);"),
        RuntimeError::TypeError {
            operation: Operation::Binary(BinaryOperator::Add),
            expected: Kinds::NumberOrStr,
            found: TypeName::Bool
        }
    );
}

#[test]
fn unary_operators() {
    assert_eq!(lines("print(-5); print(!true); print(- -5); print(-2.5);"), vec!["-5", "false", "5", "-2.5"]);
}

#[test]
fn undefined_function_and_wrong_arity() {
    assert_eq!(failure("f(1);"), RuntimeError::UndefinedFunction { name: "f".to_string() });
    assert_eq!(
        failure("f:void(a:int){ } f(1, 2);"),
        RuntimeError::ArityMismatch { name: "f".to_string(), expected: 1, found: 2 }
    );
    assert_eq!(
        failure("f:void(a:int){ } f(true);"),
        RuntimeError::TypeError {
            operation: Operation::Argument,
            expected: Kinds::Only(TypeName::Int),
            found: TypeName::Bool
        }
    );
}

#[test]
fn integer_arithmetic_wraps_around() {
    assert_eq!(lines("print(9223372036854775807 + 1);"), vec!["-9223372036854775808"]);
    assert_eq!(lines("print((0 - 9223372036854775807 - 1) / (0 - 1));"), vec!["-9223372036854775808"]);
}

#[test]
fn run_stops_with_continue_when_steps_are_used_up() {
    let tokens = tokenize("while (true) { print(1); }").unwrap();
    let tree = parser(&tokens).unwrap();
    let mut machine = Machine::new(&tree);
    let mut out: Vec<String> = Vec::new();
    assert_eq!(machine.run(Event::Resume, 50, &mut out), Action::Continue);
    assert!(!out.is_empty());
    assert_eq!(machine.step(Event::Resume) == Action::Finished, false);
}

#[test]
fn finished_machine_stays_finished() {
    let tokens = tokenize("print(1);").unwrap();
    let tree = parser(&tokens).unwrap();
    let mut machine = Machine::new(&tree);
    let mut out: Vec<String> = Vec::new();
    assert_eq!(machine.run(Event::Resume, 1000, &mut out), Action::Finished);
    assert_eq!(machine.step(Event::Resume), Action::Finished);
    assert_eq!(out, vec!["1"]);
}

#[test]
fn float_request_is_repeated_until_answered() {
    let tokens = tokenize("print(1.5 < 2);").unwrap();
    let tree = parser(&tokens).unwrap();
    let mut machine = Machine::new(&tree);
    let mut out: Vec<String> = Vec::new();
    let literal = FloatRequest::Literal("1.5".to_string());
    assert_eq!(machine.run(Event::Resume, 1000, &mut out), Action::Ask(literal));
    assert_eq!(
        machine.step(Event::Truth(true)),
        Action::Ask(FloatRequest::Literal("1.5".to_string()))
    );
    let compare = FloatRequest::Compare {
        op: BinaryOperator::Less,
        left: Number::Float(1.5f64.to_bits()),
        right: Number::Int(2),
    };
    assert_eq!(
        machine.run(Event::Float(1.5f64.to_bits()), 1000, &mut out),
        Action::Ask(compare)
    );
    assert_eq!(machine.run(Event::Truth(true), 1000, &mut out), Action::Finished);
    assert_eq!(out, vec!["true"]);
}

#[test]
fn interpret_parses_and_runs() {
    let mut out: Vec<String> = Vec::new();
    let tokens = tokenize("x: int = 5; print(x); print(\"done\");").unwrap();
    assert_eq!(interpret(tokens, 1000, &mut out), Ok(Action::Finished));
    assert_eq!(out, vec!["5", "done"]);
}

#[test]
fn interpret_reports_parse_error_and_prints_nothing() {
    let mut out: Vec<String> = Vec::new();
    let tokens = tokenize("print(1); x: int = ;").unwrap();
    assert!(interpret(tokens, 1000, &mut out).is_err());
    assert!(out.is_empty());
}

#[test]
fn prefix_operators_on_wrong_kinds_fail() {
    assert_eq!(
        failure("print(!1);"),
        RuntimeError::TypeError {
            operation: Operation::Unary(cube::ast::UnaryOperator::Not),
            expected: Kinds::Only(TypeName::Bool),
            found: TypeName::Int
        }
    );
    assert_eq!(
        failure("print(-true);"),
        RuntimeError::TypeError {
            operation: Operation::Unary(cube::ast::UnaryOperator::Negate),
            expected: Kinds::Number,
            found: TypeName::Bool
        }
    );
}

#[test]
fn counting_up_writes_the_numbers_in_order() {
    let expected: Vec<String> = (0..25).map(|i| i.to_string()).collect();
    assert_eq!(lines("i: int = 0; while (i < 25) { print(i); i = i + 1; }"), expected);
    assert_eq!(lines("i: int = 0; while (i < 0) { print(i); i = i + 1; }"), Vec::<String>::new());
}

#[test]
fn top_level_return_ends_the_program() {
    assert_eq!(lines("print(1); return 5; print(2);"), vec!["1"]);
}

#[test]
fn while_body_has_a_scope_of_its_own_each_turn() {
    assert_eq!(
        lines("i: int = 0; while (i < 2) { j: int = i * 10; print(j); i = i + 1; }"),
        vec!["0", "10"]
    );
    assert_eq!(
        failure("i: int = 0; while (i < 1) { j: int = 1; i = i + 1; } print(j);"),
        RuntimeError::UndefinedVariable { name: "j".to_string() }
    );
}

#[test]
fn function_sees_and_changes_global_variables() {
    assert_eq!(
        lines("total: int = 0; bump:void(n:int){ total = total + n; } bump(2); bump(3); print(total);"),
        vec!["5"]
    );
}

#[test]
fn strings_compare_and_concatenate() {
    assert_eq!(
        lines("a: str = \"x\"; b: str = a + \"y\"; print(b); print(b == \"xy\"); print(b != \"xy\");"),
        vec!["xy", "true", "false"]
    );
}

#[test]
fn float_comparisons_and_arithmetic_go_through_the_driver() {
    assert_eq!(lines("print(1.5 + 2.25);"), vec!["3.75"]);
    assert_eq!(lines("print(1.5 < 2);"), vec!["true"]);
    assert_eq!(lines("print(2 * 0.5 == 1);"), vec!["true"]);
    assert_eq!(lines("x: float = 0.1; if (x > 0) { print(x); }"), vec!["0.1"]);
}

#[test]
fn call_yields_the_sum_as_an_integer() {
    let tokens = tokenize("add:void(a:int,b:int){ return a + b; } r: int = add(2,3);").unwrap();
    let tree = parser(&tokens).unwrap();
    let mut machine = Machine::new(&tree);
    let mut out: Vec<String> = Vec::new();
    assert_eq!(machine.value(), None);
    assert_eq!(machine.run(Event::Resume, 1000, &mut out), Action::Finished);
    assert_eq!(machine.variable(&"r".to_string()), Some(cube::value::Value::Int(5)));
    assert_eq!(machine.variable(&"a".to_string()), None);
    assert_eq!(machine.value(), Some(cube::value::Value::Void));
    assert!(out.is_empty());
}

#[test]
fn expression_tree_runs_to_its_value() {
    let tree = ASTNode::BinaryOp {
        op: BinaryOperator::Add,
        left: Box::new(ASTNode::IntLiteral(2)),
        right: Box::new(ASTNode::BinaryOp {
            op: BinaryOperator::Multiply,
            left: Box::new(ASTNode::IntLiteral(3)),
            right: Box::new(ASTNode::IntLiteral(4)),
        }),
    };
    let mut machine = Machine::new(&tree);
    let mut out: Vec<String> = Vec::new();
    assert_eq!(machine.run(Event::Resume, 1000, &mut out), Action::Finished);
    assert_eq!(machine.value(), Some(cube::value::Value::Int(14)));
    let mut lines: Vec<String> = Vec::new();
    assert_eq!(cube::interpreter::run(&tree, 3, &mut lines), Action::Continue);
    assert_eq!(cube::interpreter::run(&tree, 8, &mut lines), Action::Finished);
}
