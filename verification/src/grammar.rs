//! The grammar of the language, as functions from a token sequence and a
//! position to the tree that starts there.
//!
//! Each function reads the construct that starts at `pos` and gives its tree
//! and the position behind it, or the first token that breaks the grammar.
//! Binary operators associate to the left and bind, from loosest to tightest:
//! `||`, `&&`, equality, relational, additive, multiplicative; then come the
//! prefix operators and the primaries.

use vstd::prelude::*;
use crate::ast::{BinaryOperator, NodeView, ParamView, TypeName, UnaryOperator};
use crate::token::{Token, TokenView};

verus! {

/// What the parser was looking for where it stopped.
#[derive(Debug, Clone, Copy, PartialEq, Eq, Structural)]
pub enum Expected {
    Expression,
    Identifier,
    TypeKeyword,
    Assign,
    Colon,
    Semicolon,
    LeftParen,
    RightParen,
    LeftBrace,
    RightBrace,
}

/// A violation of the grammar: what was expected, the token found in its
/// place, and that token's index. Where the tokens ran out, the token found
/// is `Eof` and the index is the number of tokens.
#[derive(Debug, PartialEq, Eq)]
pub struct ParseError {
    pub expected: Expected,
    pub found: Token,
    pub position: usize,
}

/// The mathematical value of a [`ParseError`].
pub ghost struct ParseErrorView {
    pub expected: Expected,
    pub found: TokenView,
    pub position: nat,
}

impl View for ParseError {
    type V = ParseErrorView;

    open spec fn view(&self) -> ParseErrorView {
        ParseErrorView {
            expected: self.expected,
            found: self.found@,
            position: self.position as nat,
        }
    }
}

/// A tree and the position behind it.
pub type Parsed = Result<(NodeView, nat), ParseErrorView>;

/// A sequence of trees and the position behind it.
pub type ParsedList = Result<(Seq<NodeView>, nat), ParseErrorView>;

/// A parameter list and the position behind it.
pub type ParsedParams = Result<(Seq<ParamView>, nat), ParseErrorView>;

/// The number of precedence levels of binary operators.
pub open spec fn levels() -> nat {
    6
}

/// The token at `pos`; behind the last token, `Eof`.
pub open spec fn token_at(tokens: Seq<TokenView>, pos: nat) -> TokenView {
    if pos < tokens.len() {
        tokens[pos as int]
    } else {
        TokenView::Eof
    }
}

/// The error for finding the token at `pos` where `expected` should stand.
pub open spec fn unexpected(tokens: Seq<TokenView>, pos: nat, expected: Expected) -> ParseErrorView {
    ParseErrorView {
        expected,
        found: token_at(tokens, pos),
        position: if pos < tokens.len() {
            pos
        } else {
            tokens.len()
        },
    }
}

/// `r` as the result for a construct that starts at `pos`: it must end behind
/// `pos` and within the tokens. Every result of the grammar's functions does,
/// as `lemma_parsed_advances` shows, so this changes none of them; it is what
/// makes the grammar's recursion well-founded.
pub open spec fn checked(tokens: Seq<TokenView>, pos: nat, r: Parsed) -> Parsed {
    match r {
        Ok((_, next)) => if pos < next <= tokens.len() {
            r
        } else {
            Err(unexpected(tokens, pos, Expected::Expression))
        },
        Err(_) => r,
    }
}

/// The type that a type keyword names.
pub open spec fn named_type(token: TokenView) -> Option<TypeName> {
    match token {
        TokenView::Int => Some(TypeName::Int),
        TokenView::Float => Some(TypeName::Float),
        TokenView::Str => Some(TypeName::Str),
        TokenView::Bool => Some(TypeName::Bool),
        TokenView::Void => Some(TypeName::Void),
        _ => None,
    }
}

/// The binary operator that `token` is on precedence level `level`, level 0
/// binding loosest.
pub open spec fn binary_operator(level: nat, token: TokenView) -> Option<BinaryOperator> {
    match token {
        TokenView::Or => if level == 0 {
            Some(BinaryOperator::Or)
        } else {
            None
        },
        TokenView::And => if level == 1 {
            Some(BinaryOperator::And)
        } else {
            None
        },
        TokenView::Equals => if level == 2 {
            Some(BinaryOperator::Equal)
        } else {
            None
        },
        TokenView::NotEquals => if level == 2 {
            Some(BinaryOperator::NotEqual)
        } else {
            None
        },
        TokenView::LessThan => if level == 3 {
            Some(BinaryOperator::Less)
        } else {
            None
        },
        TokenView::GreaterThan => if level == 3 {
            Some(BinaryOperator::Greater)
        } else {
            None
        },
        TokenView::LessThanOrEqual => if level == 3 {
            Some(BinaryOperator::LessEqual)
        } else {
            None
        },
        TokenView::GreaterThanOrEqual => if level == 3 {
            Some(BinaryOperator::GreaterEqual)
        } else {
            None
        },
        TokenView::Plus => if level == 4 {
            Some(BinaryOperator::Add)
        } else {
            None
        },
        TokenView::Minus => if level == 4 {
            Some(BinaryOperator::Subtract)
        } else {
            None
        },
        TokenView::Multiply => if level == 5 {
            Some(BinaryOperator::Multiply)
        } else {
            None
        },
        TokenView::Divide => if level == 5 {
            Some(BinaryOperator::Divide)
        } else {
            None
        },
        TokenView::Modulo => if level == 5 {
            Some(BinaryOperator::Modulo)
        } else {
            None
        },
        _ => None,
    }
}

/// The prefix operator that `token` is.
pub open spec fn unary_operator(token: TokenView) -> Option<UnaryOperator> {
    match token {
        TokenView::Not => Some(UnaryOperator::Not),
        TokenView::Minus => Some(UnaryOperator::Negate),
        _ => None,
    }
}

/// The statement `node`, which ends at `next`, closed by the `;` that must
/// stand there.
pub open spec fn terminated(tokens: Seq<TokenView>, node: NodeView, next: nat) -> Parsed {
    if token_at(tokens, next) == TokenView::Semicolon {
        Ok((node, next + 1))
    } else {
        Err(unexpected(tokens, next, Expected::Semicolon))
    }
}

/// `first` put before the trees of `r`.
pub open spec fn prepend_nodes(first: Seq<NodeView>, r: ParsedList) -> ParsedList {
    match r {
        Ok((rest, next)) => Ok((first + rest, next)),
        Err(e) => Err(e),
    }
}

/// `first` put before the parameters of `r`.
pub open spec fn prepend_params(first: Seq<ParamView>, r: ParsedParams) -> ParsedParams {
    match r {
        Ok((rest, next)) => Ok((first + rest, next)),
        Err(e) => Err(e),
    }
}

/// One or more parameters `name : type`, separated by `,` and closed by `)`.
pub open spec fn parameter_list(tokens: Seq<TokenView>, pos: nat) -> ParsedParams
    decreases tokens.len() - pos,
{
    match token_at(tokens, pos) {
        TokenView::Identifier(name) => if token_at(tokens, pos + 1) != TokenView::Colon {
            Err(unexpected(tokens, pos + 1, Expected::Colon))
        } else {
            match named_type(token_at(tokens, pos + 2)) {
                Some(declared_type) => {
                    let param = ParamView { name, declared_type };
                    if token_at(tokens, pos + 3) == TokenView::Comma {
                        prepend_params(seq![param], parameter_list(tokens, pos + 4))
                    } else if token_at(tokens, pos + 3) == TokenView::RightParen {
                        Ok((seq![param], pos + 4))
                    } else {
                        Err(unexpected(tokens, pos + 3, Expected::RightParen))
                    }
                },
                None => Err(unexpected(tokens, pos + 2, Expected::TypeKeyword)),
            }
        },
        _ => Err(unexpected(tokens, pos, Expected::Identifier)),
    }
}

/// The parameters of a function declaration, from behind the `(` to the `)`.
pub open spec fn parameters(tokens: Seq<TokenView>, pos: nat) -> ParsedParams {
    if token_at(tokens, pos) == TokenView::RightParen {
        Ok((Seq::empty(), pos + 1))
    } else {
        parameter_list(tokens, pos)
    }
}

/// A parameter list ends behind where it starts, and within the tokens.
pub proof fn lemma_parameters_advance(tokens: Seq<TokenView>, pos: nat)
    ensures
        parameter_list(tokens, pos) matches Ok((_, next)) ==> pos < next <= tokens.len(),
        parameters(tokens, pos) matches Ok((_, next)) ==> pos < next <= tokens.len(),
    decreases tokens.len() - pos,
{
    if token_at(tokens, pos) is Identifier && token_at(tokens, pos + 1) == TokenView::Colon
        && named_type(token_at(tokens, pos + 2)) is Some && token_at(tokens, pos + 3)
        == TokenView::Comma {
        lemma_parameters_advance(tokens, pos + 4);
    }
}

/// An expression.
pub open spec fn expression(tokens: Seq<TokenView>, pos: nat) -> Parsed
    decreases tokens.len() - pos, 9nat,
{
    binary(tokens, pos, 0)
}

/// An expression of binary operators of `level` and tighter levels: operands
/// of the next level, joined from the left by this level's operators.
pub open spec fn binary(tokens: Seq<TokenView>, pos: nat, level: nat) -> Parsed
    decreases tokens.len() - pos,
        if level < 6 {
            8 - level
        } else {
            2
        },
{
    if level >= levels() {
        unary(tokens, pos)
    } else {
        match checked(tokens, pos, binary(tokens, pos, level + 1)) {
            Ok((left, next)) => binary_rest(tokens, next, level, left),
            Err(e) => Err(e),
        }
    }
}

/// What follows the operand `left` on `level`: as long as an operator of this
/// level stands at `pos`, the next operand joins what has been read so far as
/// the operator's right side.
pub open spec fn binary_rest(tokens: Seq<TokenView>, pos: nat, level: nat, left: NodeView) -> Parsed
    decreases tokens.len() - pos, 0nat,
{
    match binary_operator(level, token_at(tokens, pos)) {
        Some(op) => match checked(tokens, pos + 1, binary(tokens, pos + 1, level + 1)) {
            Ok((right, next)) => binary_rest(
                tokens,
                next,
                level,
                NodeView::BinaryOp { op, left: Box::new(left), right: Box::new(right) },
            ),
            Err(e) => Err(e),
        },
        None => Ok((left, pos)),
    }
}

/// A primary, behind any number of prefix operators.
pub open spec fn unary(tokens: Seq<TokenView>, pos: nat) -> Parsed
    decreases tokens.len() - pos, 1nat,
{
    match unary_operator(token_at(tokens, pos)) {
        Some(op) => match unary(tokens, pos + 1) {
            Ok((operand, next)) => Ok((NodeView::UnaryOp { op, operand: Box::new(operand) }, next)),
            Err(e) => Err(e),
        },
        None => primary(tokens, pos),
    }
}

/// A literal, an identifier, a call, or an expression in parentheses.
pub open spec fn primary(tokens: Seq<TokenView>, pos: nat) -> Parsed
    decreases tokens.len() - pos, 0nat,
{
    match token_at(tokens, pos) {
        TokenView::Integer(i) => Ok((NodeView::IntLiteral(i), pos + 1)),
        TokenView::CFloat(text) => Ok((NodeView::FloatLiteral(text), pos + 1)),
        TokenView::String(text) => Ok((NodeView::StringLiteral(text), pos + 1)),
        TokenView::Boolean(b) => Ok((NodeView::BoolLiteral(b), pos + 1)),
        TokenView::Identifier(name) => if token_at(tokens, pos + 1) == TokenView::LeftParen {
            match arguments(tokens, pos + 2) {
                Ok((args, next)) => Ok((NodeView::Call { name, args }, next)),
                Err(e) => Err(e),
            }
        } else {
            Ok((NodeView::Identifier(name), pos + 1))
        },
        TokenView::LeftParen => match expression(tokens, pos + 1) {
            Ok((node, next)) => if token_at(tokens, next) == TokenView::RightParen {
                Ok((node, next + 1))
            } else {
                Err(unexpected(tokens, next, Expected::RightParen))
            },
            Err(e) => Err(e),
        },
        _ => Err(unexpected(tokens, pos, Expected::Expression)),
    }
}

/// The arguments of a call, from behind the `(` to the `)`.
pub open spec fn arguments(tokens: Seq<TokenView>, pos: nat) -> ParsedList
    decreases tokens.len() - pos, 11nat,
{
    if token_at(tokens, pos) == TokenView::RightParen {
        Ok((Seq::empty(), pos + 1))
    } else {
        argument_list(tokens, pos)
    }
}

/// One or more expressions, separated by `,` and closed by `)`.
pub open spec fn argument_list(tokens: Seq<TokenView>, pos: nat) -> ParsedList
    decreases tokens.len() - pos, 10nat,
{
    match checked(tokens, pos, expression(tokens, pos)) {
        Ok((argument, next)) => if token_at(tokens, next) == TokenView::Comma {
            prepend_nodes(seq![argument], argument_list(tokens, next + 1))
        } else if token_at(tokens, next) == TokenView::RightParen {
            Ok((seq![argument], next + 1))
        } else {
            Err(unexpected(tokens, next, Expected::RightParen))
        },
        Err(e) => Err(e),
    }
}

/// A variable declaration: `name : type = expression ;`.
pub open spec fn var_decl(tokens: Seq<TokenView>, pos: nat) -> Parsed
    decreases tokens.len() - pos, 10nat,
{
    match token_at(tokens, pos) {
        TokenView::Identifier(name) => if token_at(tokens, pos + 1) != TokenView::Colon {
            Err(unexpected(tokens, pos + 1, Expected::Colon))
        } else {
            match named_type(token_at(tokens, pos + 2)) {
                Some(declared_type) => if token_at(tokens, pos + 3) != TokenView::Assign {
                    Err(unexpected(tokens, pos + 3, Expected::Assign))
                } else {
                    match expression(tokens, pos + 4) {
                        Ok((initializer, next)) => terminated(
                            tokens,
                            NodeView::VarDecl {
                                name,
                                declared_type,
                                initializer: Box::new(initializer),
                            },
                            next,
                        ),
                        Err(e) => Err(e),
                    }
                },
                None => Err(unexpected(tokens, pos + 2, Expected::TypeKeyword)),
            }
        },
        _ => Err(unexpected(tokens, pos, Expected::Identifier)),
    }
}

/// An assignment: `name = expression`, closed by `;` if `closed` is set.
pub open spec fn assignment(tokens: Seq<TokenView>, pos: nat, closed: bool) -> Parsed
    decreases tokens.len() - pos, 10nat,
{
    match token_at(tokens, pos) {
        TokenView::Identifier(name) => if token_at(tokens, pos + 1) != TokenView::Assign {
            Err(unexpected(tokens, pos + 1, Expected::Assign))
        } else {
            match expression(tokens, pos + 2) {
                Ok((value, next)) => {
                    let node = NodeView::Assign { name, value: Box::new(value) };
                    if closed {
                        terminated(tokens, node, next)
                    } else {
                        Ok((node, next))
                    }
                },
                Err(e) => Err(e),
            }
        },
        _ => Err(unexpected(tokens, pos, Expected::Identifier)),
    }
}

/// A function declaration: `name : void ( parameters ) { statements }`.
pub open spec fn function_decl(tokens: Seq<TokenView>, pos: nat) -> Parsed
    decreases tokens.len() - pos, 10nat,
{
    match token_at(tokens, pos) {
        TokenView::Identifier(name) => if token_at(tokens, pos + 1) != TokenView::Colon {
            Err(unexpected(tokens, pos + 1, Expected::Colon))
        } else if token_at(tokens, pos + 2) != TokenView::Void {
            Err(unexpected(tokens, pos + 2, Expected::TypeKeyword))
        } else if token_at(tokens, pos + 3) != TokenView::LeftParen {
            Err(unexpected(tokens, pos + 3, Expected::LeftParen))
        } else {
            match parameters(tokens, pos + 4) {
                Ok((params, next)) => {
                    proof {
                        lemma_parameters_advance(tokens, pos + 4);
                    }
                    match block(tokens, next) {
                        Ok((body, end)) => Ok(
                            (NodeView::FunctionDecl { name, params, body: Box::new(body) }, end),
                        ),
                        Err(e) => Err(e),
                    }
                },
                Err(e) => Err(e),
            }
        },
        _ => Err(unexpected(tokens, pos, Expected::Identifier)),
    }
}

/// A block: `{ statements }`.
pub open spec fn block(tokens: Seq<TokenView>, pos: nat) -> Parsed
    decreases tokens.len() - pos, 13nat,
{
    if token_at(tokens, pos) != TokenView::LeftBrace {
        Err(unexpected(tokens, pos, Expected::LeftBrace))
    } else {
        match statements(tokens, pos + 1, true) {
            Ok((list, next)) => Ok((NodeView::Block(list), next)),
            Err(e) => Err(e),
        }
    }
}

/// The first statement of a `for` loop: a variable declaration or an
/// assignment, with its `;`.
pub open spec fn for_init(tokens: Seq<TokenView>, pos: nat) -> Parsed
    decreases tokens.len() - pos, 11nat,
{
    if token_at(tokens, pos + 1) == TokenView::Colon {
        var_decl(tokens, pos)
    } else {
        assignment(tokens, pos, true)
    }
}

/// An expression that stands as a statement, with its `;`.
pub open spec fn expression_statement(tokens: Seq<TokenView>, pos: nat) -> Parsed
    decreases tokens.len() - pos, 12nat,
{
    match expression(tokens, pos) {
        Ok((node, next)) => terminated(tokens, node, next),
        Err(e) => Err(e),
    }
}

/// An `if` statement from behind its keyword: a condition, a block, and
/// optionally `else` and a second block.
pub open spec fn conditional(tokens: Seq<TokenView>, pos: nat) -> Parsed
    decreases tokens.len() - pos, 12nat,
{
    match checked(tokens, pos, expression(tokens, pos)) {
        Ok((condition, next)) => branches(tokens, next, condition),
        Err(e) => Err(e),
    }
}

/// An `if` statement from behind its condition.
pub open spec fn branches(tokens: Seq<TokenView>, pos: nat, condition: NodeView) -> Parsed
    decreases tokens.len() - pos, 14nat,
{
    match checked(tokens, pos, block(tokens, pos)) {
        Ok((then_block, next)) => if token_at(tokens, next) == TokenView::Else {
            match block(tokens, next + 1) {
                Ok((else_block, end)) => Ok(
                    (
                        NodeView::If {
                            condition: Box::new(condition),
                            then_block: Box::new(then_block),
                            else_block: Some(Box::new(else_block)),
                        },
                        end,
                    ),
                ),
                Err(e) => Err(e),
            }
        } else {
            Ok(
                (
                    NodeView::If {
                        condition: Box::new(condition),
                        then_block: Box::new(then_block),
                        else_block: None,
                    },
                    next,
                ),
            )
        },
        Err(e) => Err(e),
    }
}

/// A `while` statement from behind its keyword: a condition and a block.
pub open spec fn while_loop(tokens: Seq<TokenView>, pos: nat) -> Parsed
    decreases tokens.len() - pos, 12nat,
{
    match checked(tokens, pos, expression(tokens, pos)) {
        Ok((condition, next)) => match block(tokens, next) {
            Ok((body, end)) => Ok(
                (NodeView::While { condition: Box::new(condition), body: Box::new(body) }, end),
            ),
            Err(e) => Err(e),
        },
        Err(e) => Err(e),
    }
}

/// A `for` statement from behind its keyword:
/// `( init condition ; update ) block`, where `init` is a variable
/// declaration or an assignment with its `;`, and `update` an assignment
/// without one.
pub open spec fn for_loop(tokens: Seq<TokenView>, pos: nat) -> Parsed
    decreases tokens.len() - pos, 12nat,
{
    if token_at(tokens, pos) != TokenView::LeftParen {
        Err(unexpected(tokens, pos, Expected::LeftParen))
    } else {
        match checked(tokens, pos + 1, for_init(tokens, pos + 1)) {
            Ok((init, next)) => for_condition(tokens, next, init),
            Err(e) => Err(e),
        }
    }
}

/// A `for` statement from behind its first statement: `condition ;` and
/// the rest.
pub open spec fn for_condition(tokens: Seq<TokenView>, pos: nat, init: NodeView) -> Parsed
    decreases tokens.len() - pos, 12nat,
{
    match checked(tokens, pos, expression(tokens, pos)) {
        Ok((condition, next)) => if token_at(tokens, next) != TokenView::Semicolon {
            Err(unexpected(tokens, next, Expected::Semicolon))
        } else {
            for_update(tokens, next + 1, init, condition)
        },
        Err(e) => Err(e),
    }
}

/// A `for` statement from behind its condition: `update ) block`.
pub open spec fn for_update(
    tokens: Seq<TokenView>,
    pos: nat,
    init: NodeView,
    condition: NodeView,
) -> Parsed
    decreases tokens.len() - pos, 12nat,
{
    match checked(tokens, pos, assignment(tokens, pos, false)) {
        Ok((update, next)) => if token_at(tokens, next) != TokenView::RightParen {
            Err(unexpected(tokens, next, Expected::RightParen))
        } else {
            match block(tokens, next + 1) {
                Ok((body, end)) => Ok(
                    (
                        NodeView::For {
                            init: Box::new(init),
                            condition: Box::new(condition),
                            update: Box::new(update),
                            body: Box::new(body),
                        },
                        end,
                    ),
                ),
                Err(e) => Err(e),
            }
        },
        Err(e) => Err(e),
    }
}

/// A statement. A statement that starts with an identifier is a function
/// declaration if `: void (` follows, a variable declaration if `:` follows,
/// an assignment if `=` follows, and else an expression.
pub open spec fn statement(tokens: Seq<TokenView>, pos: nat) -> Parsed
    decreases tokens.len() - pos, 14nat,
{
    match token_at(tokens, pos) {
        TokenView::Print => match expression(tokens, pos + 1) {
            Ok((value, next)) => terminated(
                tokens,
                NodeView::Print { value: Box::new(value) },
                next,
            ),
            Err(e) => Err(e),
        },
        TokenView::Return => match expression(tokens, pos + 1) {
            Ok((value, next)) => terminated(
                tokens,
                NodeView::Return { value: Box::new(value) },
                next,
            ),
            Err(e) => Err(e),
        },
        TokenView::If => conditional(tokens, pos + 1),
        TokenView::While => while_loop(tokens, pos + 1),
        TokenView::For => for_loop(tokens, pos + 1),
        TokenView::LeftBrace => block(tokens, pos),
        TokenView::Identifier(_) => if token_at(tokens, pos + 1) == TokenView::Colon {
            if token_at(tokens, pos + 2) == TokenView::Void && token_at(tokens, pos + 3)
                == TokenView::LeftParen {
                function_decl(tokens, pos)
            } else {
                var_decl(tokens, pos)
            }
        } else if token_at(tokens, pos + 1) == TokenView::Assign {
            assignment(tokens, pos, true)
        } else {
            expression_statement(tokens, pos)
        },
        _ => expression_statement(tokens, pos),
    }
}

/// Statements up to the end: inside a block (`nested`) up to and with the
/// closing `}`, at the top level up to `Eof`.
pub open spec fn statements(tokens: Seq<TokenView>, pos: nat, nested: bool) -> ParsedList
    decreases tokens.len() - pos, 15nat,
{
    let token = token_at(tokens, pos);
    if nested && token == TokenView::RightBrace {
        Ok((Seq::empty(), pos + 1))
    } else if token == TokenView::Eof {
        if nested {
            Err(unexpected(tokens, pos, Expected::RightBrace))
        } else {
            Ok((Seq::empty(), pos))
        }
    } else {
        match checked(tokens, pos, statement(tokens, pos)) {
            Ok((node, next)) => prepend_nodes(seq![node], statements(tokens, next, nested)),
            Err(e) => Err(e),
        }
    }
}

/// The program that a token sequence spells: its statements up to `Eof`.
pub open spec fn program(tokens: Seq<TokenView>) -> Result<NodeView, ParseErrorView> {
    match statements(tokens, 0, false) {
        Ok((list, _)) => Ok(NodeView::Program(list)),
        Err(e) => Err(e),
    }
}

proof fn lemma_expression_advances(tokens: Seq<TokenView>, pos: nat)
    ensures
        expression(tokens, pos) matches Ok((_, next)) ==> pos < next <= tokens.len(),
    decreases tokens.len() - pos, 9nat,
{
    lemma_binary_advances(tokens, pos, 0);
}

proof fn lemma_binary_advances(tokens: Seq<TokenView>, pos: nat, level: nat)
    ensures
        binary(tokens, pos, level) matches Ok((_, next)) ==> pos < next <= tokens.len(),
    decreases tokens.len() - pos, if level < 6 {
            8 - level
        } else {
            2
        },
{
    if level >= levels() {
        lemma_unary_advances(tokens, pos);
    } else {
        lemma_binary_advances(tokens, pos, level + 1);
        match checked(tokens, pos, binary(tokens, pos, level + 1)) {
            Ok((left, next)) => {
                lemma_binary_rest_advances(tokens, next, level, left);
            },
            Err(_) => {},
        }
    }
}

proof fn lemma_binary_rest_advances(tokens: Seq<TokenView>, pos: nat, level: nat, left: NodeView)
    requires
        pos <= tokens.len(),
    ensures
        binary_rest(tokens, pos, level, left) matches Ok((_, next)) ==> pos <= next <= tokens.len(),
    decreases tokens.len() - pos, 0nat,
{
    match binary_operator(level, token_at(tokens, pos)) {
        Some(op) => {
            lemma_binary_advances(tokens, pos + 1, level + 1);
            match checked(tokens, pos + 1, binary(tokens, pos + 1, level + 1)) {
                Ok((right, next)) => {
                    lemma_binary_rest_advances(
                        tokens,
                        next,
                        level,
                        NodeView::BinaryOp { op, left: Box::new(left), right: Box::new(right) },
                    );
                },
                Err(_) => {},
            }
        },
        None => {},
    }
}

proof fn lemma_unary_advances(tokens: Seq<TokenView>, pos: nat)
    ensures
        unary(tokens, pos) matches Ok((_, next)) ==> pos < next <= tokens.len(),
    decreases tokens.len() - pos, 1nat,
{
    match unary_operator(token_at(tokens, pos)) {
        Some(_) => {
            lemma_unary_advances(tokens, pos + 1);
        },
        None => {
            lemma_primary_advances(tokens, pos);
        },
    }
}

proof fn lemma_primary_advances(tokens: Seq<TokenView>, pos: nat)
    ensures
        primary(tokens, pos) matches Ok((_, next)) ==> pos < next <= tokens.len(),
    decreases tokens.len() - pos, 0nat,
{
    match token_at(tokens, pos) {
        TokenView::Identifier(_) => {
            if token_at(tokens, pos + 1) == TokenView::LeftParen {
                lemma_arguments_advance(tokens, pos + 2);
            }
        },
        TokenView::LeftParen => {
            lemma_expression_advances(tokens, pos + 1);
        },
        _ => {},
    }
}

proof fn lemma_arguments_advance(tokens: Seq<TokenView>, pos: nat)
    ensures
        arguments(tokens, pos) matches Ok((_, next)) ==> pos < next <= tokens.len(),
    decreases tokens.len() - pos, 11nat,
{
    if token_at(tokens, pos) != TokenView::RightParen {
        lemma_argument_list_advances(tokens, pos);
    }
}

proof fn lemma_argument_list_advances(tokens: Seq<TokenView>, pos: nat)
    ensures
        argument_list(tokens, pos) matches Ok((_, next)) ==> pos < next <= tokens.len(),
    decreases tokens.len() - pos, 10nat,
{
    lemma_expression_advances(tokens, pos);
    match checked(tokens, pos, expression(tokens, pos)) {
        Ok((_, next)) => {
            if token_at(tokens, next) == TokenView::Comma {
                lemma_argument_list_advances(tokens, next + 1);
            }
        },
        Err(_) => {},
    }
}

proof fn lemma_var_decl_advances(tokens: Seq<TokenView>, pos: nat)
    ensures
        var_decl(tokens, pos) matches Ok((_, next)) ==> pos < next <= tokens.len(),
    decreases tokens.len() - pos, 10nat,
{
    if token_at(tokens, pos) is Identifier && token_at(tokens, pos + 1) == TokenView::Colon
        && named_type(token_at(tokens, pos + 2)) is Some && token_at(tokens, pos + 3)
        == TokenView::Assign {
        lemma_expression_advances(tokens, pos + 4);
    }
}

proof fn lemma_assignment_advances(tokens: Seq<TokenView>, pos: nat, closed: bool)
    ensures
        assignment(tokens, pos, closed) matches Ok((_, next)) ==> pos < next <= tokens.len(),
    decreases tokens.len() - pos, 10nat,
{
    if token_at(tokens, pos) is Identifier && token_at(tokens, pos + 1) == TokenView::Assign {
        lemma_expression_advances(tokens, pos + 2);
    }
}

proof fn lemma_function_decl_advances(tokens: Seq<TokenView>, pos: nat)
    ensures
        function_decl(tokens, pos) matches Ok((_, next)) ==> pos < next <= tokens.len(),
    decreases tokens.len() - pos, 10nat,
{
    if token_at(tokens, pos) is Identifier && token_at(tokens, pos + 1) == TokenView::Colon
        && token_at(tokens, pos + 2) == TokenView::Void && token_at(tokens, pos + 3)
        == TokenView::LeftParen {
        lemma_parameters_advance(tokens, pos + 4);
        match parameters(tokens, pos + 4) {
            Ok((_, next)) => {
                lemma_block_advances(tokens, next);
            },
            Err(_) => {},
        }
    }
}

proof fn lemma_block_advances(tokens: Seq<TokenView>, pos: nat)
    ensures
        block(tokens, pos) matches Ok((_, next)) ==> pos < next <= tokens.len(),
    decreases tokens.len() - pos, 13nat,
{
    if token_at(tokens, pos) == TokenView::LeftBrace {
        lemma_statements_advance(tokens, pos + 1, true);
    }
}

proof fn lemma_for_init_advances(tokens: Seq<TokenView>, pos: nat)
    ensures
        for_init(tokens, pos) matches Ok((_, next)) ==> pos < next <= tokens.len(),
    decreases tokens.len() - pos, 11nat,
{
    if token_at(tokens, pos + 1) == TokenView::Colon {
        lemma_var_decl_advances(tokens, pos);
    } else {
        lemma_assignment_advances(tokens, pos, true);
    }
}

proof fn lemma_expression_statement_advances(tokens: Seq<TokenView>, pos: nat)
    ensures
        expression_statement(tokens, pos) matches Ok((_, next)) ==> pos < next <= tokens.len(),
    decreases tokens.len() - pos, 12nat,
{
    lemma_expression_advances(tokens, pos);
}

proof fn lemma_conditional_advances(tokens: Seq<TokenView>, pos: nat)
    ensures
        conditional(tokens, pos) matches Ok((_, next)) ==> pos < next <= tokens.len(),
    decreases tokens.len() - pos, 12nat,
{
    lemma_expression_advances(tokens, pos);
    match checked(tokens, pos, expression(tokens, pos)) {
        Ok((condition, next)) => {
            lemma_branches_advance(tokens, next, condition);
        },
        Err(_) => {},
    }
}

proof fn lemma_branches_advance(tokens: Seq<TokenView>, pos: nat, condition: NodeView)
    ensures
        branches(tokens, pos, condition) matches Ok((_, next)) ==> pos < next <= tokens.len(),
    decreases tokens.len() - pos, 14nat,
{
    lemma_block_advances(tokens, pos);
    match checked(tokens, pos, block(tokens, pos)) {
        Ok((_, next)) => {
            if token_at(tokens, next) == TokenView::Else {
                lemma_block_advances(tokens, next + 1);
            }
        },
        Err(_) => {},
    }
}

proof fn lemma_while_loop_advances(tokens: Seq<TokenView>, pos: nat)
    ensures
        while_loop(tokens, pos) matches Ok((_, next)) ==> pos < next <= tokens.len(),
    decreases tokens.len() - pos, 12nat,
{
    lemma_expression_advances(tokens, pos);
    match checked(tokens, pos, expression(tokens, pos)) {
        Ok((_, next)) => {
            lemma_block_advances(tokens, next);
        },
        Err(_) => {},
    }
}

proof fn lemma_for_loop_advances(tokens: Seq<TokenView>, pos: nat)
    ensures
        for_loop(tokens, pos) matches Ok((_, next)) ==> pos < next <= tokens.len(),
    decreases tokens.len() - pos, 12nat,
{
    if token_at(tokens, pos) == TokenView::LeftParen {
        lemma_for_init_advances(tokens, pos + 1);
        match checked(tokens, pos + 1, for_init(tokens, pos + 1)) {
            Ok((init, next)) => {
                lemma_for_condition_advances(tokens, next, init);
            },
            Err(_) => {},
        }
    }
}

proof fn lemma_for_condition_advances(tokens: Seq<TokenView>, pos: nat, init: NodeView)
    ensures
        for_condition(tokens, pos, init) matches Ok((_, next)) ==> pos < next <= tokens.len(),
    decreases tokens.len() - pos, 12nat,
{
    lemma_expression_advances(tokens, pos);
    match checked(tokens, pos, expression(tokens, pos)) {
        Ok((condition, next)) => {
            if token_at(tokens, next) == TokenView::Semicolon {
                lemma_for_update_advances(tokens, next + 1, init, condition);
            }
        },
        Err(_) => {},
    }
}

proof fn lemma_for_update_advances(tokens: Seq<TokenView>, pos: nat, init: NodeView, condition: NodeView)
    ensures
        for_update(tokens, pos, init, condition) matches Ok((_, next)) ==> pos < next <= tokens.len(),
    decreases tokens.len() - pos, 12nat,
{
    lemma_assignment_advances(tokens, pos, false);
    match checked(tokens, pos, assignment(tokens, pos, false)) {
        Ok((_, next)) => {
            if token_at(tokens, next) == TokenView::RightParen {
                lemma_block_advances(tokens, next + 1);
            }
        },
        Err(_) => {},
    }
}

proof fn lemma_statement_advances(tokens: Seq<TokenView>, pos: nat)
    ensures
        statement(tokens, pos) matches Ok((_, next)) ==> pos < next <= tokens.len(),
    decreases tokens.len() - pos, 14nat,
{
    match token_at(tokens, pos) {
        TokenView::Print => {
            lemma_expression_advances(tokens, pos + 1);
        },
        TokenView::Return => {
            lemma_expression_advances(tokens, pos + 1);
        },
        TokenView::If => {
            lemma_conditional_advances(tokens, pos + 1);
        },
        TokenView::While => {
            lemma_while_loop_advances(tokens, pos + 1);
        },
        TokenView::For => {
            lemma_for_loop_advances(tokens, pos + 1);
        },
        TokenView::LeftBrace => {
            lemma_block_advances(tokens, pos);
        },
        TokenView::Identifier(_) => {
            if token_at(tokens, pos + 1) == TokenView::Colon {
                if token_at(tokens, pos + 2) == TokenView::Void && token_at(tokens, pos + 3)
                    == TokenView::LeftParen {
                    lemma_function_decl_advances(tokens, pos);
                } else {
                    lemma_var_decl_advances(tokens, pos);
                }
            } else if token_at(tokens, pos + 1) == TokenView::Assign {
                lemma_assignment_advances(tokens, pos, true);
            } else {
                lemma_expression_statement_advances(tokens, pos);
            }
        },
        _ => {
            lemma_expression_statement_advances(tokens, pos);
        },
    }
}

proof fn lemma_statements_advance(tokens: Seq<TokenView>, pos: nat, nested: bool)
    requires
        pos <= tokens.len(),
    ensures
        statements(tokens, pos, nested) matches Ok((_, next)) ==> pos <= next <= tokens.len() && (
        nested ==> pos < next),
    decreases tokens.len() - pos, 15nat,
{
    let token = token_at(tokens, pos);
    if nested && token == TokenView::RightBrace {
    } else if token == TokenView::Eof {
    } else {
        lemma_statement_advances(tokens, pos);
        match checked(tokens, pos, statement(tokens, pos)) {
            Ok((_, next)) => {
                lemma_statements_advance(tokens, next, nested);
            },
            Err(_) => {},
        }
    }
}

/// Every construct ends behind where it starts, and within the tokens: so
/// [`checked`] changes no result of the grammar's functions.
pub proof fn lemma_parsed_advances(tokens: Seq<TokenView>, pos: nat)
    ensures
        checked(tokens, pos, expression(tokens, pos)) == expression(tokens, pos),
        checked(tokens, pos, statement(tokens, pos)) == statement(tokens, pos),
        checked(tokens, pos, block(tokens, pos)) == block(tokens, pos),
        checked(tokens, pos, for_init(tokens, pos)) == for_init(tokens, pos),
        checked(tokens, pos, assignment(tokens, pos, false)) == assignment(tokens, pos, false),
        forall|level: nat|
            checked(tokens, pos, #[trigger] binary(tokens, pos, level)) == binary(
                tokens,
                pos,
                level,
            ),
{
    lemma_expression_advances(tokens, pos);
    lemma_statement_advances(tokens, pos);
    lemma_block_advances(tokens, pos);
    lemma_for_init_advances(tokens, pos);
    lemma_assignment_advances(tokens, pos, false);
    assert forall|level: nat|
        checked(tokens, pos, #[trigger] binary(tokens, pos, level)) == binary(
            tokens,
            pos,
            level,
        ) by {
        lemma_binary_advances(tokens, pos, level);
    }
}

} // verus!
