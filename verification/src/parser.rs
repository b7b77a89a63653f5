//! The recursive-descent parser: tokens in, syntax tree out.
//!
//! Each method reads the construct at the parser's position and is held to
//! the function of the same construct in [`crate::grammar`].

use vstd::prelude::*;
use crate::ast::{node_views, param_views, ASTNode, BinaryOperator, Param, TypeName, UnaryOperator};
use crate::grammar::{
    argument_list, arguments, assignment, binary, binary_operator, binary_rest, block, branches,
    expression, expression_statement, for_condition, for_init, for_update, function_decl,
    named_type, parameter_list, parameters, prepend_nodes, prepend_params, primary, program,
    statement, statements, terminated, token_at, unary, unary_operator, unexpected, var_decl,
    Expected, ParseError, Parsed, ParsedList, ParsedParams,
};
use crate::token::{token_views, Token, TokenView};

verus! {

/// Whether the parser's result `r` and end position `end` are what the
/// grammar gives.
pub open spec fn agrees(r: Result<ASTNode, ParseError>, end: nat, expected: Parsed) -> bool {
    match expected {
        Ok((node, next)) => r matches Ok(tree) && tree@ == node && end == next,
        Err(e) => r matches Err(x) && x@ == e,
    }
}

/// [`agrees`] for a sequence of trees.
pub open spec fn agrees_list(r: Result<Vec<ASTNode>, ParseError>, end: nat, expected: ParsedList) -> bool {
    match expected {
        Ok((nodes, next)) => r matches Ok(trees) && node_views(trees@) == nodes && end == next,
        Err(e) => r matches Err(x) && x@ == e,
    }
}

/// [`agrees`] for a parameter list.
pub open spec fn agrees_params(r: Result<Vec<Param>, ParseError>, end: nat, expected: ParsedParams) -> bool {
    match expected {
        Ok((params, next)) => r matches Ok(list) && param_views(list@) == params && end == next,
        Err(e) => r matches Err(x) && x@ == e,
    }
}

/// The value of the token that `token` holds; `Eof` where there is none.
pub open spec fn seen(token: Option<&Token>) -> TokenView {
    match token {
        Some(t) => t@,
        None => TokenView::Eof,
    }
}

/// Whether a statement that starts with `token` has a form of its own:
/// whether `token` is one of the keywords that start a statement, `{`, or an
/// identifier.
pub open spec fn starts_special(token: TokenView) -> bool {
    token is Print || token is Return || token is If || token is While || token is For
        || token is LeftBrace || token is Identifier
}

/// The type that a type keyword names.
fn declared_type_of(token: Option<&Token>) -> (r: Option<TypeName>)
    ensures
        r == named_type(seen(token)),
{
    match token {
        Some(Token::Int) => Some(TypeName::Int),
        Some(Token::Float) => Some(TypeName::Float),
        Some(Token::Str) => Some(TypeName::Str),
        Some(Token::Bool) => Some(TypeName::Bool),
        Some(Token::Void) => Some(TypeName::Void),
        _ => None,
    }
}

/// The prefix operator that `token` is.
fn prefix_operator(token: Option<&Token>) -> (r: Option<UnaryOperator>)
    ensures
        r == unary_operator(seen(token)),
{
    match token {
        Some(Token::Not) => Some(UnaryOperator::Not),
        Some(Token::Minus) => Some(UnaryOperator::Negate),
        _ => None,
    }
}

/// The binary operator that `token` is on precedence level `level`.
fn operator_on(level: u8, token: Option<&Token>) -> (r: Option<BinaryOperator>)
    ensures
        r == binary_operator(level as nat, seen(token)),
{
    match token {
        Some(Token::Or) => if level == 0 {
            Some(BinaryOperator::Or)
        } else {
            None
        },
        Some(Token::And) => if level == 1 {
            Some(BinaryOperator::And)
        } else {
            None
        },
        Some(Token::Equals) => if level == 2 {
            Some(BinaryOperator::Equal)
        } else {
            None
        },
        Some(Token::NotEquals) => if level == 2 {
            Some(BinaryOperator::NotEqual)
        } else {
            None
        },
        Some(Token::LessThan) => if level == 3 {
            Some(BinaryOperator::Less)
        } else {
            None
        },
        Some(Token::GreaterThan) => if level == 3 {
            Some(BinaryOperator::Greater)
        } else {
            None
        },
        Some(Token::LessThanOrEqual) => if level == 3 {
            Some(BinaryOperator::LessEqual)
        } else {
            None
        },
        Some(Token::GreaterThanOrEqual) => if level == 3 {
            Some(BinaryOperator::GreaterEqual)
        } else {
            None
        },
        Some(Token::Plus) => if level == 4 {
            Some(BinaryOperator::Add)
        } else {
            None
        },
        Some(Token::Minus) => if level == 4 {
            Some(BinaryOperator::Subtract)
        } else {
            None
        },
        Some(Token::Multiply) => if level == 5 {
            Some(BinaryOperator::Multiply)
        } else {
            None
        },
        Some(Token::Divide) => if level == 5 {
            Some(BinaryOperator::Divide)
        } else {
            None
        },
        Some(Token::Modulo) => if level == 5 {
            Some(BinaryOperator::Modulo)
        } else {
            None
        },
        _ => None,
    }
}

/// A parser over a token sequence, with its position in it.
pub struct Parser<'a> {
    tokens: &'a Vec<Token>,
    pos: usize,
}

impl<'a> Parser<'a> {
    #[verifier::type_invariant]
    spec fn wf(self) -> bool {
        self.pos <= self.tokens.len()
    }

    /// The tokens being parsed.
    pub closed spec fn input(&self) -> Seq<TokenView> {
        token_views(self.tokens@)
    }

    /// The index of the next token to read.
    pub closed spec fn position(&self) -> nat {
        self.pos as nat
    }

    /// A parser at the first of `tokens`.
    pub fn new(tokens: &'a Vec<Token>) -> (p: Self)
        ensures
            p.input() == token_views(tokens@),
            p.position() == 0,
    {
        Parser { tokens, pos: 0 }
    }

    /// The token `ahead` places behind the position, if the tokens reach
    /// that far.
    fn peek_at(&self, ahead: usize) -> (t: Option<&'a Token>)
        ensures
            seen(t) == token_at(self.input(), self.position() + ahead as nat),
            t is Some <==> self.position() + ahead < self.input().len(),
            self.position() <= self.input().len(),
            self.input().len() == self.tokens.len(),
    {
        proof {
            use_type_invariant(self);
        }
        if ahead < self.tokens.len() - self.pos {
            Some(&self.tokens[self.pos + ahead])
        } else {
            None
        }
    }

    /// The token at the position, if there is one.
    fn peek(&self) -> (t: Option<&'a Token>)
        ensures
            seen(t) == token_at(self.input(), self.position()),
            t is Some <==> self.position() < self.input().len(),
            self.position() <= self.input().len(),
            self.input().len() == self.tokens.len(),
    {
        self.peek_at(0)
    }

    /// Steps over the token at the position and returns it, if there is one.
    fn consume(&mut self) -> (t: Option<&'a Token>)
        ensures
            final(self).input() == old(self).input(),
            seen(t) == token_at(old(self).input(), old(self).position()),
            t is Some <==> old(self).position() < old(self).input().len(),
            final(self).position() == old(self).position() + (if t is Some {
                1nat
            } else {
                0nat
            }),
            final(self).position() <= final(self).input().len(),
    {
        let t = self.peek();
        if t.is_some() {
            self.pos = self.pos + 1;
        }
        t
    }

    /// Whether `token` stands `ahead` places behind the position.
    fn sees(&self, ahead: usize, token: &Token) -> (r: bool)
        ensures
            r == (token_at(self.input(), self.position() + ahead as nat) == token@),
            self.position() <= self.input().len(),
            r && token@ != TokenView::Eof ==> self.position() + ahead < self.input().len(),
            self.input().len() == self.tokens.len(),
    {
        match self.peek_at(ahead) {
            Some(t) => *t == *token,
            None => Token::Eof == *token,
        }
    }

    /// The error for finding the token `ahead` places behind the position
    /// where `expected` should stand.
    fn unexpected(&self, ahead: usize, expected: Expected) -> (e: ParseError)
        ensures
            e@ == unexpected(self.input(), self.position() + ahead as nat, expected),
    {
        match self.peek_at(ahead) {
            Some(t) => ParseError { expected, found: t.clone(), position: self.pos + ahead },
            None => ParseError { expected, found: Token::Eof, position: self.tokens.len() },
        }
    }

    /// Closes the statement `node` with the `;` that must stand at the
    /// position.
    fn finish_statement(&mut self, node: ASTNode) -> (r: Result<ASTNode, ParseError>)
        ensures
            final(self).input() == old(self).input(),
            final(self).position() <= final(self).input().len(),
            agrees(r, final(self).position(), terminated(old(self).input(), node@, old(self).position())),
    {
        if self.sees(0, &Token::Semicolon) {
            self.pos = self.pos + 1;
            Ok(node)
        } else {
            Err(self.unexpected(0, Expected::Semicolon))
        }
    }

    /// Parses an expression.
    fn parse_expression(&mut self) -> (r: Result<ASTNode, ParseError>)
        ensures
            final(self).input() == old(self).input(),
            final(self).position() <= final(self).input().len(),
            r is Ok ==> old(self).position() < final(self).position(),
            agrees(r, final(self).position(), expression(old(self).input(), old(self).position())),
        decreases old(self).tokens.len() - old(self).pos, 10nat,
    {
        self.parse_term(0)
    }

    /// Parses a term of `level`: an expression of the binary operators of
    /// that level and of the tighter levels.
    fn parse_term(&mut self, level: u8) -> (r: Result<ASTNode, ParseError>)
        ensures
            final(self).input() == old(self).input(),
            final(self).position() <= final(self).input().len(),
            r is Ok ==> old(self).position() < final(self).position(),
            agrees(
                r,
                final(self).position(),
                binary(old(self).input(), old(self).position(), level as nat),
            ),
        decreases old(self).tokens.len() - old(self).pos,
            if level < 6 {
                9 - level
            } else {
                3
            },
    {
        if level >= 6 {
            return self.parse_factor();
        }
        let ghost start = self.position();
        let mut left = match self.parse_term(level + 1) {
            Ok(node) => node,
            Err(e) => {
                return Err(e);
            },
        };
        loop
            invariant
                self.input() == old(self).input(),
                start == old(self).position(),
                start < self.position() <= self.input().len(),
                level < 6,
                binary(self.input(), start, level as nat) == binary_rest(
                    self.input(),
                    self.position(),
                    level as nat,
                    left@,
                ),
            decreases self.input().len() - self.position(),
        {
            let op = match operator_on(level, self.peek()) {
                Some(op) => op,
                None => {
                    return Ok(left);
                },
            };
            self.pos = self.pos + 1;
            let right = match self.parse_term(level + 1) {
                Ok(node) => node,
                Err(e) => {
                    return Err(e);
                },
            };
            left = ASTNode::BinaryOp { op, left: Box::new(left), right: Box::new(right) };
        }
    }

    /// Parses a primary behind any number of prefix operators.
    fn parse_factor(&mut self) -> (r: Result<ASTNode, ParseError>)
        ensures
            final(self).input() == old(self).input(),
            final(self).position() <= final(self).input().len(),
            r is Ok ==> old(self).position() < final(self).position(),
            agrees(r, final(self).position(), unary(old(self).input(), old(self).position())),
        decreases old(self).tokens.len() - old(self).pos, 2nat,
    {
        match prefix_operator(self.peek()) {
            Some(op) => {
                self.pos = self.pos + 1;
                match self.parse_factor() {
                    Ok(operand) => Ok(ASTNode::UnaryOp { op, operand: Box::new(operand) }),
                    Err(e) => Err(e),
                }
            },
            None => self.parse_primary(),
        }
    }

    /// Parses a literal, an identifier, a call, or an expression in
    /// parentheses.
    fn parse_primary(&mut self) -> (r: Result<ASTNode, ParseError>)
        ensures
            final(self).input() == old(self).input(),
            final(self).position() <= final(self).input().len(),
            r is Ok ==> old(self).position() < final(self).position(),
            agrees(r, final(self).position(), primary(old(self).input(), old(self).position())),
        decreases old(self).tokens.len() - old(self).pos, 1nat,
    {
        match self.peek() {
            Some(Token::Integer(i)) => {
                self.pos = self.pos + 1;
                Ok(ASTNode::IntLiteral(*i))
            },
            Some(Token::CFloat(text)) => {
                self.pos = self.pos + 1;
                Ok(ASTNode::FloatLiteral(text.clone()))
            },
            Some(Token::String(text)) => {
                self.pos = self.pos + 1;
                Ok(ASTNode::StringLiteral(text.clone()))
            },
            Some(Token::Boolean(b)) => {
                self.pos = self.pos + 1;
                Ok(ASTNode::BoolLiteral(*b))
            },
            Some(Token::Identifier(_)) => self.parse_identifier(),
            Some(Token::LeftParen) => {
                self.pos = self.pos + 1;
                match self.parse_expression() {
                    Ok(node) => if self.sees(0, &Token::RightParen) {
                        self.pos = self.pos + 1;
                        Ok(node)
                    } else {
                        Err(self.unexpected(0, Expected::RightParen))
                    },
                    Err(e) => Err(e),
                }
            },
            _ => Err(self.unexpected(0, Expected::Expression)),
        }
    }

    /// Parses what starts with the identifier at the position: a call if
    /// `(` follows, else the identifier itself.
    fn parse_identifier(&mut self) -> (r: Result<ASTNode, ParseError>)
        requires
            token_at(old(self).input(), old(self).position()) is Identifier,
        ensures
            final(self).input() == old(self).input(),
            final(self).position() <= final(self).input().len(),
            r is Ok ==> old(self).position() < final(self).position(),
            agrees(r, final(self).position(), primary(old(self).input(), old(self).position())),
        decreases old(self).tokens.len() - old(self).pos, 0nat,
    {
        match self.peek() {
            Some(Token::Identifier(name)) => {
                if self.sees(1, &Token::LeftParen) {
                    self.pos = self.pos + 2;
                    match self.parse_arguments() {
                        Ok(args) => Ok(ASTNode::Call { name: name.clone(), args }),
                        Err(e) => Err(e),
                    }
                } else {
                    self.pos = self.pos + 1;
                    Ok(ASTNode::Identifier(name.clone()))
                }
            },
            _ => Err(self.unexpected(0, Expected::Expression)),
        }
    }

    /// Parses the arguments of a call, from behind the `(` to the `)`.
    fn parse_arguments(&mut self) -> (r: Result<Vec<ASTNode>, ParseError>)
        ensures
            final(self).input() == old(self).input(),
            final(self).position() <= final(self).input().len(),
            r is Ok ==> old(self).position() < final(self).position(),
            agrees_list(
                r,
                final(self).position(),
                arguments(old(self).input(), old(self).position()),
            ),
        decreases old(self).tokens.len() - old(self).pos, 12nat,
    {
        let mut args: Vec<ASTNode> = Vec::new();
        if self.sees(0, &Token::RightParen) {
            self.pos = self.pos + 1;
            assert(node_views(args@) =~= Seq::empty());
            return Ok(args);
        }
        let ghost start = self.position();
        proof {
            lemma_prepend_nothing(argument_list(self.input(), start));
            assert(node_views(args@) =~= Seq::empty());
        }
        loop
            invariant
                self.input() == old(self).input(),
                start == old(self).position(),
                start <= self.position() <= self.input().len(),
                arguments(self.input(), start) == prepend_nodes(
                    node_views(args@),
                    argument_list(self.input(), self.position()),
                ),
            decreases self.input().len() - self.position(),
        {
            let ghost before = node_views(args@);
            let ghost here = self.position();
            let arg = match self.parse_expression() {
                Ok(node) => node,
                Err(e) => {
                    return Err(e);
                },
            };
            let ghost view = arg@;
            args.push(arg);
            proof {
                assert(node_views(args@) =~= before + seq![view]);
                lemma_prepend_twice(
                    before,
                    seq![view],
                    argument_list(self.input(), self.position() + 1),
                );
            }
            if self.sees(0, &Token::Comma) {
                self.pos = self.pos + 1;
            } else if self.sees(0, &Token::RightParen) {
                self.pos = self.pos + 1;
                return Ok(args);
            } else {
                return Err(self.unexpected(0, Expected::RightParen));
            }
        }
    }

    /// Parses the parameters of a function declaration, from behind the `(`
    /// to the `)`.
    fn parse_parameters(&mut self) -> (r: Result<Vec<Param>, ParseError>)
        ensures
            final(self).input() == old(self).input(),
            final(self).position() <= final(self).input().len(),
            r is Ok ==> old(self).position() < final(self).position(),
            agrees_params(
                r,
                final(self).position(),
                parameters(old(self).input(), old(self).position()),
            ),
    {
        let mut params: Vec<Param> = Vec::new();
        if self.sees(0, &Token::RightParen) {
            self.pos = self.pos + 1;
            assert(param_views(params@) =~= Seq::empty());
            return Ok(params);
        }
        let ghost start = self.position();
        proof {
            lemma_prepend_no_params(parameter_list(self.input(), start));
            assert(param_views(params@) =~= Seq::empty());
        }
        loop
            invariant
                self.input() == old(self).input(),
                start == old(self).position(),
                start <= self.position() <= self.input().len(),
                parameters(self.input(), start) == prepend_params(
                    param_views(params@),
                    parameter_list(self.input(), self.position()),
                ),
            decreases self.input().len() - self.position(),
        {
            let ghost before = param_views(params@);
            let name = match self.peek() {
                Some(Token::Identifier(name)) => name,
                _ => {
                    return Err(self.unexpected(0, Expected::Identifier));
                },
            };
            if !self.sees(1, &Token::Colon) {
                return Err(self.unexpected(1, Expected::Colon));
            }
            let declared_type = match declared_type_of(self.peek_at(2)) {
                Some(t) => t,
                None => {
                    return Err(self.unexpected(2, Expected::TypeKeyword));
                },
            };
            let param = Param { name: name.clone(), declared_type };
            let ghost view = param@;
            params.push(param);
            proof {
                assert(param_views(params@) =~= before + seq![view]);
                lemma_prepend_params_twice(
                    before,
                    seq![view],
                    parameter_list(self.input(), self.position() + 4),
                );
            }
            if self.sees(3, &Token::Comma) {
                self.pos = self.pos + 4;
            } else if self.sees(3, &Token::RightParen) {
                self.pos = self.pos + 4;
                return Ok(params);
            } else {
                return Err(self.unexpected(3, Expected::RightParen));
            }
        }
    }

    /// Parses a variable declaration, `name : type = expression ;`.
    fn parse_declaration(&mut self) -> (r: Result<ASTNode, ParseError>)
        ensures
            final(self).input() == old(self).input(),
            final(self).position() <= final(self).input().len(),
            r is Ok ==> old(self).position() < final(self).position(),
            agrees(r, final(self).position(), var_decl(old(self).input(), old(self).position())),
        decreases old(self).tokens.len() - old(self).pos, 11nat,
    {
        let name = match self.peek() {
            Some(Token::Identifier(name)) => name,
            _ => {
                return Err(self.unexpected(0, Expected::Identifier));
            },
        };
        if !self.sees(1, &Token::Colon) {
            return Err(self.unexpected(1, Expected::Colon));
        }
        let declared_type = match declared_type_of(self.peek_at(2)) {
            Some(t) => t,
            None => {
                return Err(self.unexpected(2, Expected::TypeKeyword));
            },
        };
        if !self.sees(3, &Token::Assign) {
            return Err(self.unexpected(3, Expected::Assign));
        }
        self.pos = self.pos + 4;
        match self.parse_expression() {
            Ok(initializer) => self.finish_statement(
                ASTNode::VarDecl {
                    name: name.clone(),
                    declared_type,
                    initializer: Box::new(initializer),
                },
            ),
            Err(e) => Err(e),
        }
    }

    /// Parses an assignment, `name = expression`, with its `;` if `closed`
    /// is set.
    fn parse_assignment(&mut self, closed: bool) -> (r: Result<ASTNode, ParseError>)
        ensures
            final(self).input() == old(self).input(),
            final(self).position() <= final(self).input().len(),
            r is Ok ==> old(self).position() < final(self).position(),
            agrees(
                r,
                final(self).position(),
                assignment(old(self).input(), old(self).position(), closed),
            ),
        decreases old(self).tokens.len() - old(self).pos, 11nat,
    {
        let name = match self.peek() {
            Some(Token::Identifier(name)) => name,
            _ => {
                return Err(self.unexpected(0, Expected::Identifier));
            },
        };
        if !self.sees(1, &Token::Assign) {
            return Err(self.unexpected(1, Expected::Assign));
        }
        self.pos = self.pos + 2;
        match self.parse_expression() {
            Ok(value) => {
                let node = ASTNode::Assign { name: name.clone(), value: Box::new(value) };
                if closed {
                    self.finish_statement(node)
                } else {
                    Ok(node)
                }
            },
            Err(e) => Err(e),
        }
    }

    /// Parses a function declaration,
    /// `name : void ( parameters ) { statements }`.
    fn parse_function(&mut self) -> (r: Result<ASTNode, ParseError>)
        ensures
            final(self).input() == old(self).input(),
            final(self).position() <= final(self).input().len(),
            r is Ok ==> old(self).position() < final(self).position(),
            agrees(
                r,
                final(self).position(),
                function_decl(old(self).input(), old(self).position()),
            ),
        decreases old(self).tokens.len() - old(self).pos, 11nat,
    {
        let name = match self.peek() {
            Some(Token::Identifier(name)) => name,
            _ => {
                return Err(self.unexpected(0, Expected::Identifier));
            },
        };
        if !self.sees(1, &Token::Colon) {
            return Err(self.unexpected(1, Expected::Colon));
        }
        if !self.sees(2, &Token::Void) {
            return Err(self.unexpected(2, Expected::TypeKeyword));
        }
        if !self.sees(3, &Token::LeftParen) {
            return Err(self.unexpected(3, Expected::LeftParen));
        }
        self.pos = self.pos + 4;
        let params = match self.parse_parameters() {
            Ok(params) => params,
            Err(e) => {
                return Err(e);
            },
        };
        match self.parse_block() {
            Ok(body) => Ok(ASTNode::FunctionDecl { name: name.clone(), params, body: Box::new(body) }),
            Err(e) => Err(e),
        }
    }

    /// Parses a block, `{ statements }`.
    fn parse_block(&mut self) -> (r: Result<ASTNode, ParseError>)
        ensures
            final(self).input() == old(self).input(),
            final(self).position() <= final(self).input().len(),
            r is Ok ==> old(self).position() < final(self).position(),
            agrees(r, final(self).position(), block(old(self).input(), old(self).position())),
        decreases old(self).tokens.len() - old(self).pos, 14nat,
    {
        if !self.sees(0, &Token::LeftBrace) {
            return Err(self.unexpected(0, Expected::LeftBrace));
        }
        self.pos = self.pos + 1;
        match self.parse_statements(true) {
            Ok(list) => Ok(ASTNode::Block(list)),
            Err(e) => Err(e),
        }
    }

    /// Parses statements up to the end: inside a block (`nested`) up to and
    /// with the closing `}`, at the top level up to `Eof`.
    fn parse_statements(&mut self, nested: bool) -> (r: Result<Vec<ASTNode>, ParseError>)
        ensures
            final(self).input() == old(self).input(),
            final(self).position() <= final(self).input().len(),
            r is Ok ==> old(self).position() <= final(self).position(),
            r is Ok && nested ==> old(self).position() < final(self).position(),
            agrees_list(
                r,
                final(self).position(),
                statements(old(self).input(), old(self).position(), nested),
            ),
        decreases old(self).tokens.len() - old(self).pos, 17nat,
    {
        let mut list: Vec<ASTNode> = Vec::new();
        let ghost start = self.position();
        proof {
            use_type_invariant(&*self);
            assert(self.input().len() == self.tokens.len());
            lemma_prepend_nothing(statements(self.input(), start, nested));
            assert(node_views(list@) =~= Seq::empty());
        }
        loop
            invariant
                self.input() == old(self).input(),
                start == old(self).position(),
                start <= self.position() <= self.input().len(),
                statements(self.input(), start, nested) == prepend_nodes(
                    node_views(list@),
                    statements(self.input(), self.position(), nested),
                ),
            decreases self.input().len() - self.position(),
        {
            let ghost before = node_views(list@);
            if nested && self.sees(0, &Token::RightBrace) {
                self.pos = self.pos + 1;
                assert(before + Seq::empty() =~= before);
                return Ok(list);
            }
            if self.sees(0, &Token::Eof) {
                if nested {
                    return Err(self.unexpected(0, Expected::RightBrace));
                } else {
                    assert(before + Seq::empty() =~= before);
                    return Ok(list);
                }
            }
            let node = match self.parse_statement() {
                Ok(node) => node,
                Err(e) => {
                    return Err(e);
                },
            };
            let ghost view = node@;
            list.push(node);
            proof {
                assert(node_views(list@) =~= before + seq![view]);
                lemma_prepend_twice(
                    before,
                    seq![view],
                    statements(self.input(), self.position(), nested),
                );
            }
        }
    }

    /// Parses the first statement of a `for` loop.
    fn parse_for_init(&mut self) -> (r: Result<ASTNode, ParseError>)
        ensures
            final(self).input() == old(self).input(),
            final(self).position() <= final(self).input().len(),
            r is Ok ==> old(self).position() < final(self).position(),
            agrees(r, final(self).position(), for_init(old(self).input(), old(self).position())),
        decreases old(self).tokens.len() - old(self).pos, 12nat,
    {
        if self.sees(1, &Token::Colon) {
            self.parse_declaration()
        } else {
            self.parse_assignment(true)
        }
    }

    /// Parses an `if` statement, whose keyword stands at the position.
    fn parse_if(&mut self) -> (r: Result<ASTNode, ParseError>)
        requires
            token_at(old(self).input(), old(self).position()) == TokenView::If,
        ensures
            final(self).input() == old(self).input(),
            final(self).position() <= final(self).input().len(),
            r is Ok ==> old(self).position() < final(self).position(),
            agrees(r, final(self).position(), statement(old(self).input(), old(self).position())),
        decreases old(self).tokens.len() - old(self).pos, 13nat,
    {
        self.consume();
        match self.parse_expression() {
            Ok(condition) => self.parse_branches(condition),
            Err(e) => Err(e),
        }
    }

    /// Parses an `if` statement from behind its condition.
    fn parse_branches(&mut self, condition: ASTNode) -> (r: Result<ASTNode, ParseError>)
        ensures
            final(self).input() == old(self).input(),
            final(self).position() <= final(self).input().len(),
            r is Ok ==> old(self).position() < final(self).position(),
            agrees(
                r,
                final(self).position(),
                branches(old(self).input(), old(self).position(), condition@),
            ),
        decreases old(self).tokens.len() - old(self).pos, 15nat,
    {
        let then_block = match self.parse_block() {
            Ok(node) => node,
            Err(e) => {
                return Err(e);
            },
        };
        if self.sees(0, &Token::Else) {
            self.pos = self.pos + 1;
            match self.parse_block() {
                Ok(else_block) => Ok(
                    ASTNode::If {
                        condition: Box::new(condition),
                        then_block: Box::new(then_block),
                        else_block: Some(Box::new(else_block)),
                    },
                ),
                Err(e) => Err(e),
            }
        } else {
            Ok(
                ASTNode::If {
                    condition: Box::new(condition),
                    then_block: Box::new(then_block),
                    else_block: None,
                },
            )
        }
    }

    /// Parses a `while` statement, whose keyword stands at the position.
    fn parse_while(&mut self) -> (r: Result<ASTNode, ParseError>)
        requires
            token_at(old(self).input(), old(self).position()) == TokenView::While,
        ensures
            final(self).input() == old(self).input(),
            final(self).position() <= final(self).input().len(),
            r is Ok ==> old(self).position() < final(self).position(),
            agrees(r, final(self).position(), statement(old(self).input(), old(self).position())),
        decreases old(self).tokens.len() - old(self).pos, 13nat,
    {
        self.consume();
        let condition = match self.parse_expression() {
            Ok(node) => node,
            Err(e) => {
                return Err(e);
            },
        };
        match self.parse_block() {
            Ok(body) => Ok(ASTNode::While { condition: Box::new(condition), body: Box::new(body) }),
            Err(e) => Err(e),
        }
    }

    /// Parses a `for` statement, whose keyword stands at the position.
    fn parse_for(&mut self) -> (r: Result<ASTNode, ParseError>)
        requires
            token_at(old(self).input(), old(self).position()) == TokenView::For,
        ensures
            final(self).input() == old(self).input(),
            final(self).position() <= final(self).input().len(),
            r is Ok ==> old(self).position() < final(self).position(),
            agrees(r, final(self).position(), statement(old(self).input(), old(self).position())),
        decreases old(self).tokens.len() - old(self).pos, 13nat,
    {
        self.consume();
        if !self.sees(0, &Token::LeftParen) {
            return Err(self.unexpected(0, Expected::LeftParen));
        }
        self.pos = self.pos + 1;
        match self.parse_for_init() {
            Ok(init) => self.parse_for_condition(init),
            Err(e) => Err(e),
        }
    }

    /// Parses a `for` statement from behind its first statement.
    fn parse_for_condition(&mut self, init: ASTNode) -> (r: Result<ASTNode, ParseError>)
        ensures
            final(self).input() == old(self).input(),
            final(self).position() <= final(self).input().len(),
            r is Ok ==> old(self).position() < final(self).position(),
            agrees(
                r,
                final(self).position(),
                for_condition(old(self).input(), old(self).position(), init@),
            ),
        decreases old(self).tokens.len() - old(self).pos, 13nat,
    {
        let condition = match self.parse_expression() {
            Ok(node) => node,
            Err(e) => {
                return Err(e);
            },
        };
        if !self.sees(0, &Token::Semicolon) {
            return Err(self.unexpected(0, Expected::Semicolon));
        }
        self.pos = self.pos + 1;
        self.parse_for_update(init, condition)
    }

    /// Parses a `for` statement from behind its condition.
    fn parse_for_update(&mut self, init: ASTNode, condition: ASTNode) -> (r: Result<
        ASTNode,
        ParseError,
    >)
        ensures
            final(self).input() == old(self).input(),
            final(self).position() <= final(self).input().len(),
            r is Ok ==> old(self).position() < final(self).position(),
            agrees(
                r,
                final(self).position(),
                for_update(old(self).input(), old(self).position(), init@, condition@),
            ),
        decreases old(self).tokens.len() - old(self).pos, 13nat,
    {
        let update = match self.parse_assignment(false) {
            Ok(node) => node,
            Err(e) => {
                return Err(e);
            },
        };
        if !self.sees(0, &Token::RightParen) {
            return Err(self.unexpected(0, Expected::RightParen));
        }
        self.pos = self.pos + 1;
        match self.parse_block() {
            Ok(body) => Ok(
                ASTNode::For {
                    init: Box::new(init),
                    condition: Box::new(condition),
                    update: Box::new(update),
                    body: Box::new(body),
                },
            ),
            Err(e) => Err(e),
        }
    }

    /// Parses a `return` statement, whose keyword stands at the position.
    fn parse_return(&mut self) -> (r: Result<ASTNode, ParseError>)
        requires
            token_at(old(self).input(), old(self).position()) == TokenView::Return,
        ensures
            final(self).input() == old(self).input(),
            final(self).position() <= final(self).input().len(),
            r is Ok ==> old(self).position() < final(self).position(),
            agrees(r, final(self).position(), statement(old(self).input(), old(self).position())),
        decreases old(self).tokens.len() - old(self).pos, 13nat,
    {
        self.consume();
        match self.parse_expression() {
            Ok(value) => self.finish_statement(ASTNode::Return { value: Box::new(value) }),
            Err(e) => Err(e),
        }
    }

    /// Parses an expression that stands as a statement, with its `;`.
    fn parse_expression_statement(&mut self) -> (r: Result<ASTNode, ParseError>)
        ensures
            final(self).input() == old(self).input(),
            final(self).position() <= final(self).input().len(),
            r is Ok ==> old(self).position() < final(self).position(),
            agrees(
                r,
                final(self).position(),
                expression_statement(old(self).input(), old(self).position()),
            ),
        decreases old(self).tokens.len() - old(self).pos, 13nat,
    {
        match self.parse_expression() {
            Ok(node) => self.finish_statement(node),
            Err(e) => Err(e),
        }
    }

    /// Parses a `print` statement, whose keyword stands at the position.
    fn parse_print(&mut self) -> (r: Result<ASTNode, ParseError>)
        requires
            token_at(old(self).input(), old(self).position()) == TokenView::Print,
        ensures
            final(self).input() == old(self).input(),
            final(self).position() <= final(self).input().len(),
            r is Ok ==> old(self).position() < final(self).position(),
            agrees(r, final(self).position(), statement(old(self).input(), old(self).position())),
        decreases old(self).tokens.len() - old(self).pos, 13nat,
    {
        self.consume();
        match self.parse_expression() {
            Ok(value) => self.finish_statement(ASTNode::Print { value: Box::new(value) }),
            Err(e) => Err(e),
        }
    }

    /// Parses a block that stands as a statement, whose `{` stands at the
    /// position.
    fn parse_nested_block(&mut self) -> (r: Result<ASTNode, ParseError>)
        requires
            token_at(old(self).input(), old(self).position()) == TokenView::LeftBrace,
        ensures
            final(self).input() == old(self).input(),
            final(self).position() <= final(self).input().len(),
            r is Ok ==> old(self).position() < final(self).position(),
            agrees(r, final(self).position(), statement(old(self).input(), old(self).position())),
        decreases old(self).tokens.len() - old(self).pos, 15nat,
    {
        self.parse_block()
    }

    /// Parses a statement that starts with none of the keywords, `{` or an
    /// identifier: an expression with its `;`.
    fn parse_plain_statement(&mut self) -> (r: Result<ASTNode, ParseError>)
        requires
            !starts_special(token_at(old(self).input(), old(self).position())),
        ensures
            final(self).input() == old(self).input(),
            final(self).position() <= final(self).input().len(),
            r is Ok ==> old(self).position() < final(self).position(),
            agrees(r, final(self).position(), statement(old(self).input(), old(self).position())),
        decreases old(self).tokens.len() - old(self).pos, 14nat,
    {
        self.parse_expression_statement()
    }

    /// Parses a statement.
    fn parse_statement(&mut self) -> (r: Result<ASTNode, ParseError>)
        ensures
            final(self).input() == old(self).input(),
            final(self).position() <= final(self).input().len(),
            r is Ok ==> old(self).position() < final(self).position(),
            agrees(r, final(self).position(), statement(old(self).input(), old(self).position())),
        decreases old(self).tokens.len() - old(self).pos, 16nat,
    {
        match self.peek() {
            Some(Token::Print) => self.parse_print(),
            Some(Token::Return) => self.parse_return(),
            Some(Token::If) => self.parse_if(),
            Some(Token::While) => self.parse_while(),
            Some(Token::For) => self.parse_for(),
            Some(Token::LeftBrace) => self.parse_nested_block(),
            Some(Token::Identifier(_)) => self.parse_named_statement(),
            _ => self.parse_plain_statement(),
        }
    }

    /// Parses a statement that starts with an identifier: a declaration, an
    /// assignment, or an expression.
    fn parse_named_statement(&mut self) -> (r: Result<ASTNode, ParseError>)
        requires
            token_at(old(self).input(), old(self).position()) is Identifier,
        ensures
            final(self).input() == old(self).input(),
            final(self).position() <= final(self).input().len(),
            r is Ok ==> old(self).position() < final(self).position(),
            agrees(r, final(self).position(), statement(old(self).input(), old(self).position())),
        decreases old(self).tokens.len() - old(self).pos, 14nat,
    {
        if self.sees(1, &Token::Colon) {
            if self.sees(2, &Token::Void) && self.sees(3, &Token::LeftParen) {
                self.parse_function()
            } else {
                self.parse_declaration()
            }
        } else if self.sees(1, &Token::Assign) {
            self.parse_assignment(true)
        } else {
            self.parse_expression_statement()
        }
    }

    /// Parses the statements from the position up to `Eof` into a program.
    /// On an error the position stays where it was.
    pub fn parse(&mut self) -> (r: Result<ASTNode, ParseError>)
        ensures
            final(self).input() == old(self).input(),
            match statements(old(self).input(), old(self).position(), false) {
                Ok((list, next)) => r matches Ok(tree) && tree@ == crate::ast::NodeView::Program(
                    list,
                ) && final(self).position() == next,
                Err(e) => r matches Err(x) && x@ == e && final(self).position() == old(self).position(),
            },
    {
        proof {
            use_type_invariant(&*self);
        }
        let start = self.pos;
        match self.parse_statements(false) {
            Ok(list) => Ok(ASTNode::Program(list)),
            Err(e) => {
                self.pos = start;
                Err(e)
            },
        }
    }
}

/// Putting nothing before a list changes nothing.
pub proof fn lemma_prepend_nothing(r: ParsedList)
    ensures
        prepend_nodes(Seq::empty(), r) == r,
{
    match r {
        Ok((nodes, _)) => {
            assert(Seq::empty() + nodes =~= nodes);
        },
        Err(_) => {},
    }
}

/// Putting `b` and then `a` before a list is putting `a + b` before it.
pub proof fn lemma_prepend_twice(a: Seq<crate::ast::NodeView>, b: Seq<crate::ast::NodeView>, r: ParsedList)
    ensures
        prepend_nodes(a, prepend_nodes(b, r)) == prepend_nodes(a + b, r),
{
    match r {
        Ok((nodes, _)) => {
            assert(a + (b + nodes) =~= (a + b) + nodes);
        },
        Err(_) => {},
    }
}

/// Putting no parameters before a list changes nothing.
pub proof fn lemma_prepend_no_params(r: ParsedParams)
    ensures
        prepend_params(Seq::empty(), r) == r,
{
    match r {
        Ok((params, _)) => {
            assert(Seq::empty() + params =~= params);
        },
        Err(_) => {},
    }
}

/// Putting `b` and then `a` before a parameter list is putting `a + b`
/// before it.
pub proof fn lemma_prepend_params_twice(
    a: Seq<crate::ast::ParamView>,
    b: Seq<crate::ast::ParamView>,
    r: ParsedParams,
)
    ensures
        prepend_params(a, prepend_params(b, r)) == prepend_params(a + b, r),
{
    match r {
        Ok((params, _)) => {
            assert(a + (b + params) =~= (a + b) + params);
        },
        Err(_) => {},
    }
}

/// The program that `tokens` spell, or the first violation of the grammar.
pub fn parser(tokens: &Vec<Token>) -> (r: Result<ASTNode, ParseError>)
    ensures
        match program(token_views(tokens@)) {
            Ok(node) => r matches Ok(tree) && tree@ == node,
            Err(e) => r matches Err(x) && x@ == e,
        },
{
    let mut parser = Parser::new(tokens);
    parser.parse()
}

} // verus!
