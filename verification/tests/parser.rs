use cube::ast::{ASTNode, BinaryOperator, Param, TypeName, UnaryOperator};
use cube::grammar::{Expected, ParseError};
use cube::lexer::tokenize;
use cube::parser::{parser, Parser};
use cube::token::Token;

fn parse(source: &str) -> Result<ASTNode, ParseError> {
    parser(&tokenize(source).unwrap())
}

fn statements(source: &str) -> Vec<ASTNode> {
    match parse(source) {
        Ok(ASTNode::Program(list)) => list,
        other => panic!("no program: {:?}", other),
    }
}

fn number(i: i64) -> Box<ASTNode> {
    Box::new(ASTNode::IntLiteral(i))
}

fn name(s: &str) -> Box<ASTNode> {
    Box::new(ASTNode::Identifier(s.to_string()))
}

fn binary(op: BinaryOperator, left: Box<ASTNode>, right: Box<ASTNode>) -> Box<ASTNode> {
    Box::new(ASTNode::BinaryOp { op, left, right })
}

#[test]
fn empty_input_is_the_empty_program() {
    assert_eq!(parse(""), Ok(ASTNode::Program(vec![])));
    assert_eq!(parser(&vec![]), Ok(ASTNode::Program(vec![])));
}

#[test]
fn variable_declaration() {
    assert_eq!(
        statements("x: int = 5;"),
        vec![ASTNode::VarDecl {
            name: "x".to_string(),
            declared_type: TypeName::Int,
            initializer: number(5)
        }]
    );
}

#[test]
fn precedence_and_associativity() {
    assert_eq!(
        statements("2 + 3 * 4;"),
        vec![*binary(
            BinaryOperator::Add,
            number(2),
            binary(BinaryOperator::Multiply, number(3), number(4))
        )]
    );
    assert_eq!(
        statements("1 - 2 - 3;"),
        vec![*binary(
            BinaryOperator::Subtract,
            binary(BinaryOperator::Subtract, number(1), number(2)),
            number(3)
        )]
    );
    assert_eq!(
        statements("a || b && c == d < e + f * g;"),
        vec![*binary(
            BinaryOperator::Or,
            name("a"),
            binary(
                BinaryOperator::And,
                name("b"),
                binary(
                    BinaryOperator::Equal,
                    name("c"),
                    binary(
                        BinaryOperator::Less,
                        name("d"),
                        binary(
                            BinaryOperator::Add,
                            name("e"),
                            binary(BinaryOperator::Multiply, name("f"), name("g"))
                        )
                    )
                )
            )
        )]
    );
}

#[test]
fn unary_binds_tighter_than_binary() {
    assert_eq!(
        statements("-a * !b;"),
        vec![*binary(
            BinaryOperator::Multiply,
            Box::new(ASTNode::UnaryOp { op: UnaryOperator::Negate, operand: name("a") }),
            Box::new(ASTNode::UnaryOp { op: UnaryOperator::Not, operand: name("b") })
        )]
    );
}

#[test]
fn call_with_arguments() {
    assert_eq!(
        statements("f(1, g(), x);"),
        vec![ASTNode::Call {
            name: "f".to_string(),
            args: vec![
                ASTNode::IntLiteral(1),
                ASTNode::Call { name: "g".to_string(), args: vec![] },
                ASTNode::Identifier("x".to_string())
            ]
        }]
    );
}

#[test]
fn function_declaration() {
    assert_eq!(
        statements("add:void(a:int,b:float){ return a; }"),
        vec![ASTNode::FunctionDecl {
            name: "add".to_string(),
            params: vec![
                Param { name: "a".to_string(), declared_type: TypeName::Int },
                Param { name: "b".to_string(), declared_type: TypeName::Float }
            ],
            body: Box::new(ASTNode::Block(vec![ASTNode::Return { value: name("a") }]))
        }]
    );
    assert_eq!(
        statements("main:void(){ }"),
        vec![ASTNode::FunctionDecl {
            name: "main".to_string(),
            params: vec![],
            body: Box::new(ASTNode::Block(vec![]))
        }]
    );
}

#[test]
fn if_with_and_without_else() {
    assert_eq!(
        statements("if (x) { print(1); } else { print(2); }"),
        vec![ASTNode::If {
            condition: name("x"),
            then_block: Box::new(ASTNode::Block(vec![ASTNode::Print { value: number(1) }])),
            else_block: Some(Box::new(ASTNode::Block(vec![ASTNode::Print { value: number(2) }])))
        }]
    );
    assert_eq!(
        statements("if x { }"),
        vec![ASTNode::If {
            condition: name("x"),
            then_block: Box::new(ASTNode::Block(vec![])),
            else_block: None
        }]
    );
}

#[test]
fn while_and_for() {
    assert_eq!(
        statements("while (x) { x = false; }"),
        vec![ASTNode::While {
            condition: name("x"),
            body: Box::new(ASTNode::Block(vec![ASTNode::Assign {
                name: "x".to_string(),
                value: Box::new(ASTNode::BoolLiteral(false))
            }]))
        }]
    );
    assert_eq!(
        statements("for (i: int = 0; i < 3; i = i + 1) { }"),
        vec![ASTNode::For {
            init: Box::new(ASTNode::VarDecl {
                name: "i".to_string(),
                declared_type: TypeName::Int,
                initializer: number(0)
            }),
            condition: binary(BinaryOperator::Less, name("i"), number(3)),
            update: Box::new(ASTNode::Assign {
                name: "i".to_string(),
                value: binary(BinaryOperator::Add, name("i"), number(1))
            }),
            body: Box::new(ASTNode::Block(vec![]))
        }]
    );
}

#[test]
fn literals() {
    assert_eq!(
        statements("1.5; \"s\"; true; { }"),
        vec![
            ASTNode::FloatLiteral("1.5".to_string()),
            ASTNode::StringLiteral("s".to_string()),
            ASTNode::BoolLiteral(true),
            ASTNode::Block(vec![])
        ]
    );
}

#[test]
fn missing_closing_parenthesis() {
    assert_eq!(
        parse("print((1 + 2;"),
        Err(ParseError { expected: Expected::RightParen, found: Token::Semicolon, position: 6 })
    );
}

#[test]
fn missing_semicolon() {
    assert_eq!(
        parse("x = 5"),
        Err(ParseError { expected: Expected::Semicolon, found: Token::Eof, position: 3 })
    );
    assert_eq!(
        parser(&vec![Token::Identifier("x".to_string()), Token::Assign, Token::Integer(5)]),
        Err(ParseError { expected: Expected::Semicolon, found: Token::Eof, position: 3 })
    );
}

#[test]
fn dangling_tokens() {
    assert_eq!(
        parse("}"),
        Err(ParseError { expected: Expected::Expression, found: Token::RightBrace, position: 0 })
    );
    assert_eq!(
        parse("x: = 5;"),
        Err(ParseError { expected: Expected::TypeKeyword, found: Token::Assign, position: 2 })
    );
    assert_eq!(
        parse("x: int 5;"),
        Err(ParseError { expected: Expected::Assign, found: Token::Integer(5), position: 3 })
    );
    assert_eq!(
        parse("if (x) print(1);"),
        Err(ParseError { expected: Expected::LeftBrace, found: Token::Print, position: 4 })
    );
    assert_eq!(
        parse("{ print(1);"),
        Err(ParseError { expected: Expected::RightBrace, found: Token::Eof, position: 6 })
    );
    assert_eq!(
        parse("f:void(a int){ }"),
        Err(ParseError { expected: Expected::Colon, found: Token::Int, position: 5 })
    );
    assert_eq!(
        parse("f(1 2);"),
        Err(ParseError { expected: Expected::RightParen, found: Token::Integer(2), position: 3 })
    );
    assert_eq!(
        parse("for i = 0; i < 1; i = i + 1) { }"),
        Err(ParseError {
            expected: Expected::LeftParen,
            found: Token::Identifier("i".to_string()),
            position: 1
        })
    );
    assert_eq!(
        parse("1 + ;"),
        Err(ParseError { expected: Expected::Expression, found: Token::Semicolon, position: 2 })
    );
}

#[test]
fn parser_stays_put_on_error_and_ends_at_eof() {
    let tokens = tokenize("print(1); print(;").unwrap();
    let mut p = Parser::new(&tokens);
    assert!(p.parse().is_err());
    let tokens = tokenize("print(1);").unwrap();
    let mut p = Parser::new(&tokens);
    assert_eq!(p.parse(), Ok(ASTNode::Program(vec![ASTNode::Print { value: number(1) }])));
    assert_eq!(p.parse(), Ok(ASTNode::Program(vec![])));
}

#[test]
fn parameter_must_be_an_identifier() {
    assert_eq!(
        parse("f:void(a:int, 1){ }"),
        Err(ParseError { expected: Expected::Identifier, found: Token::Integer(1), position: 8 })
    );
    assert_eq!(
        parse("f:void(a:int b){ }"),
        Err(ParseError {
            expected: Expected::RightParen,
            found: Token::Identifier("b".to_string()),
            position: 7
        })
    );
}

#[test]
fn for_loop_parts_must_be_in_place() {
    assert_eq!(
        parse("for (i = 0; i < 1 i = i + 1) { }"),
        Err(ParseError {
            expected: Expected::Semicolon,
            found: Token::Identifier("i".to_string()),
            position: 9
        })
    );
    assert_eq!(
        parse("for (i = 0; i < 1; i = i + 1; ) { }"),
        Err(ParseError { expected: Expected::RightParen, found: Token::Semicolon, position: 15 })
    );
    assert_eq!(
        parse("for (1; i < 1; i = i + 1) { }"),
        Err(ParseError { expected: Expected::Identifier, found: Token::Integer(1), position: 2 })
    );
}

#[test]
fn three_operands_are_grouped_by_binding_strength() {
    assert_eq!(
        statements("a * b + c;"),
        vec![*binary(
            BinaryOperator::Add,
            binary(BinaryOperator::Multiply, name("a"), name("b")),
            name("c")
        )]
    );
    assert_eq!(
        statements("a < b == c;"),
        vec![*binary(
            BinaryOperator::Equal,
            binary(BinaryOperator::Less, name("a"), name("b")),
            name("c")
        )]
    );
    assert_eq!(
        statements("a == b < c;"),
        vec![*binary(
            BinaryOperator::Equal,
            name("a"),
            binary(BinaryOperator::Less, name("b"), name("c"))
        )]
    );
    assert_eq!(
        statements("a % b / c;"),
        vec![*binary(
            BinaryOperator::Divide,
            binary(BinaryOperator::Modulo, name("a"), name("b")),
            name("c")
        )]
    );
}
