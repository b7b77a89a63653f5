//! The text of a program is read back as the program.
//!
//! A program whose names and numbers can be written, written as tokens and
//! the tokens as text, is lexed and parsed back to the program that it was
//! written for: the front end loses nothing and invents nothing.

use vstd::prelude::*;
use crate::ast::{NodeView, ParamView};
use crate::grammar::program;
use crate::lexical::lex;
use crate::spelling::{
    is_float_text, is_identifier, spellable, spelled, tokens_are_lexing_of_their_spelling,
};
use crate::token::TokenView;
use crate::unparse::{
    arguments_tokens, assignment_tokens, expression_tokens, is_expression, is_statement,
    lemma_statements_parse, operator_token, parameters_tokens, prefix_token, program_tokens,
    statement_tokens, statements_tokens, type_token, wrapped,
};

verus! {

/// Whether the names and numbers in `node` can be written: whether each
/// name is one that an identifier can have, each integer literal is not
/// negative, and each floating-point literal has the text of one.
pub open spec fn writable(node: NodeView) -> bool
    decreases node,
{
    match node {
        NodeView::Program(list) => forall|i: int|
            0 <= i < list.len() ==> writable(#[trigger] list[i]),
        NodeView::Block(list) => forall|i: int| 0 <= i < list.len() ==> writable(#[trigger] list[i]),
        NodeView::VarDecl { name, initializer, .. } => is_identifier(name) && writable(
            *initializer,
        ),
        NodeView::Assign { name, value } => is_identifier(name) && writable(*value),
        NodeView::Print { value } => writable(*value),
        NodeView::If { condition, then_block, else_block } => writable(*condition) && writable(
            *then_block,
        ) && (match else_block {
            Some(block) => writable(*block),
            None => true,
        }),
        NodeView::While { condition, body } => writable(*condition) && writable(*body),
        NodeView::For { init, condition, update, body } => writable(*init) && writable(*condition)
            && writable(*update) && writable(*body),
        NodeView::FunctionDecl { name, params, body } => is_identifier(name) && (forall|i: int|
            0 <= i < params.len() ==> is_identifier((#[trigger] params[i]).name)) && writable(
            *body,
        ),
        NodeView::Call { name, args } => is_identifier(name) && forall|i: int|
            0 <= i < args.len() ==> writable(#[trigger] args[i]),
        NodeView::Return { value } => writable(*value),
        NodeView::IntLiteral(i) => i >= 0,
        NodeView::FloatLiteral(text) => is_float_text(text),
        NodeView::StringLiteral(_) => true,
        NodeView::BoolLiteral(_) => true,
        NodeView::Identifier(name) => is_identifier(name),
        NodeView::BinaryOp { left, right, .. } => writable(*left) && writable(*right),
        NodeView::UnaryOp { operand, .. } => writable(*operand),
    }
}

/// Whether all of `tokens` can be written.
pub open spec fn all_spellable(tokens: Seq<TokenView>) -> bool {
    forall|k: int| 0 <= k < tokens.len() ==> spellable(#[trigger] tokens[k])
}

/// Tokens one behind the other can be written if each part can.
pub proof fn lemma_spellable_joined(first: Seq<TokenView>, second: Seq<TokenView>)
    requires
        all_spellable(first),
        all_spellable(second),
    ensures
        all_spellable(first + second),
{
    let both = first + second;
    assert forall|k: int| 0 <= k < both.len() implies spellable(#[trigger] both[k]) by {
        if k < first.len() {
            assert(both[k] == first[k]);
        } else {
            assert(both[k] == second[k - first.len()]);
        }
    }
}

/// Operators, symbols and keywords can be written.
pub proof fn lemma_spellable_marks()
    ensures
        forall|op: crate::ast::BinaryOperator| spellable(#[trigger] operator_token(op)),
        forall|op: crate::ast::UnaryOperator| spellable(#[trigger] prefix_token(op)),
        forall|t: crate::ast::TypeName| spellable(#[trigger] type_token(t)),
{
}

/// The tokens of an expression whose names and numbers can be written can
/// be written.
pub proof fn lemma_expression_spellable(node: NodeView)
    requires
        is_expression(node),
        writable(node),
    ensures
        all_spellable(expression_tokens(node)),
    decreases node, 1nat,
{
    lemma_spellable_marks();
    match node {
        NodeView::UnaryOp { op, operand } => {
            lemma_wrapped_spellable(*operand);
            lemma_spellable_joined(seq![prefix_token(op)], wrapped(expression_tokens(*operand)));
        },
        NodeView::BinaryOp { op, left, right } => {
            lemma_wrapped_spellable(*left);
            lemma_wrapped_spellable(*right);
            lemma_spellable_joined(wrapped(expression_tokens(*left)), seq![operator_token(op)]);
            lemma_spellable_joined(
                wrapped(expression_tokens(*left)) + seq![operator_token(op)],
                wrapped(expression_tokens(*right)),
            );
        },
        NodeView::Call { name, args } => {
            lemma_arguments_spellable(args, 0);
            lemma_spellable_joined(
                seq![TokenView::Identifier(name), TokenView::LeftParen],
                arguments_tokens(args, 0),
            );
        },
        _ => {},
    }
}

/// The tokens of an expression in parentheses can be written if those of
/// the expression can.
pub proof fn lemma_wrapped_spellable(node: NodeView)
    requires
        is_expression(node),
        writable(node),
    ensures
        all_spellable(wrapped(expression_tokens(node))),
    decreases node, 2nat,
{
    lemma_expression_spellable(node);
    lemma_spellable_joined(seq![TokenView::LeftParen], expression_tokens(node));
    lemma_spellable_joined(
        seq![TokenView::LeftParen] + expression_tokens(node),
        seq![TokenView::RightParen],
    );
}

/// The tokens of the arguments of a call can be written if those of each
/// argument can.
pub proof fn lemma_arguments_spellable(args: Seq<NodeView>, i: nat)
    requires
        forall|k: int| 0 <= k < args.len() ==> is_expression(#[trigger] args[k]) && writable(
            args[k],
        ),
    ensures
        all_spellable(arguments_tokens(args, i)),
    decreases args, args.len() - i,
{
    if i >= args.len() {
    } else {
        lemma_expression_spellable(args[i as int]);
        if i + 1 == args.len() {
            lemma_spellable_joined(
                expression_tokens(args[i as int]),
                seq![TokenView::RightParen],
            );
        } else {
            lemma_arguments_spellable(args, i + 1);
            lemma_spellable_joined(expression_tokens(args[i as int]), seq![TokenView::Comma]);
            lemma_spellable_joined(
                expression_tokens(args[i as int]) + seq![TokenView::Comma],
                arguments_tokens(args, i + 1),
            );
        }
    }
}

/// The tokens of parameters whose names can be written can be written.
pub proof fn lemma_parameters_spellable(params: Seq<ParamView>, i: nat)
    requires
        forall|k: int| 0 <= k < params.len() ==> is_identifier((#[trigger] params[k]).name),
    ensures
        all_spellable(parameters_tokens(params, i)),
    decreases params.len() - i,
{
    lemma_spellable_marks();
    if i >= params.len() {
    } else {
        let one = seq![
            TokenView::Identifier(params[i as int].name),
            TokenView::Colon,
            type_token(params[i as int].declared_type),
        ];
        assert(all_spellable(one));
        if i + 1 == params.len() {
            lemma_spellable_joined(one, seq![TokenView::RightParen]);
        } else {
            lemma_parameters_spellable(params, i + 1);
            lemma_spellable_joined(one, seq![TokenView::Comma]);
            lemma_spellable_joined(one + seq![TokenView::Comma], parameters_tokens(params, i + 1));
        }
    }
}

/// An assignment that is a statement and can be written assigns an
/// expression that can be written to a name that can.
proof fn lemma_assignment_parts(name: Seq<char>, value: NodeView)
    requires
        is_statement(NodeView::Assign { name, value: Box::new(value) }),
        writable(NodeView::Assign { name, value: Box::new(value) }),
    ensures
        is_expression(value),
        writable(value),
        is_identifier(name),
{
}

/// The tokens of a statement whose names and numbers can be written can be
/// written.
pub proof fn lemma_statement_spellable(node: NodeView)
    requires
        is_statement(node),
        writable(node),
    ensures
        all_spellable(statement_tokens(node)),
    decreases node, 1nat,
{
    lemma_spellable_marks();
    let semi = seq![TokenView::Semicolon];
    match node {
        NodeView::VarDecl { name, declared_type, initializer } => {
            let head = seq![
                TokenView::Identifier(name),
                TokenView::Colon,
                type_token(declared_type),
                TokenView::Assign,
            ];
            assert(all_spellable(head));
            lemma_expression_spellable(*initializer);
            lemma_spellable_joined(head, expression_tokens(*initializer));
            lemma_spellable_joined(head + expression_tokens(*initializer), semi);
        },
        NodeView::Assign { name, value } => {
            let head = seq![TokenView::Identifier(name), TokenView::Assign];
            assert(all_spellable(head));
            lemma_expression_spellable(*value);
            lemma_spellable_joined(head, expression_tokens(*value));
            lemma_spellable_joined(assignment_tokens(name, *value), semi);
        },
        NodeView::Print { value } => {
            lemma_expression_spellable(*value);
            lemma_spellable_joined(seq![TokenView::Print], expression_tokens(*value));
            lemma_spellable_joined(seq![TokenView::Print] + expression_tokens(*value), semi);
        },
        NodeView::Return { value } => {
            lemma_expression_spellable(*value);
            lemma_spellable_joined(seq![TokenView::Return], expression_tokens(*value));
            lemma_spellable_joined(seq![TokenView::Return] + expression_tokens(*value), semi);
        },
        NodeView::If { condition, then_block, else_block } => {
            let head = seq![TokenView::If];
            lemma_expression_spellable(*condition);
            lemma_statement_spellable(*then_block);
            lemma_spellable_joined(head, expression_tokens(*condition));
            lemma_spellable_joined(
                head + expression_tokens(*condition),
                statement_tokens(*then_block),
            );
            let other = match else_block {
                Some(block) => seq![TokenView::Else] + statement_tokens(*block),
                None => Seq::empty(),
            };
            match else_block {
                Some(block) => {
                    lemma_statement_spellable(*block);
                    lemma_spellable_joined(seq![TokenView::Else], statement_tokens(*block));
                },
                None => {},
            }
            lemma_spellable_joined(
                head + expression_tokens(*condition) + statement_tokens(*then_block),
                other,
            );
        },
        NodeView::While { condition, body } => {
            let head = seq![TokenView::While];
            lemma_expression_spellable(*condition);
            lemma_statement_spellable(*body);
            lemma_spellable_joined(head, expression_tokens(*condition));
            lemma_spellable_joined(head + expression_tokens(*condition), statement_tokens(*body));
        },
        NodeView::For { init, condition, update, body } => {
            match *update {
                NodeView::Assign { name, value } => {
                    let head = seq![TokenView::For, TokenView::LeftParen];
                    let first = statement_tokens(*init);
                    let test = expression_tokens(*condition);
                    let step = assignment_tokens(name, *value);
                    let close = seq![TokenView::RightParen];
                    let inner = statement_tokens(*body);
                    lemma_assignment_parts(name, *value);
                    lemma_statement_spellable(*init);
                    lemma_expression_spellable(*condition);
                    lemma_expression_spellable(*value);
                    lemma_statement_spellable(*body);
                    lemma_spellable_joined(
                        seq![TokenView::Identifier(name), TokenView::Assign],
                        expression_tokens(*value),
                    );
                    lemma_spellable_joined(head, first);
                    lemma_spellable_joined(head + first, test);
                    lemma_spellable_joined(head + first + test, semi);
                    lemma_spellable_joined(head + first + test + semi, step);
                    lemma_spellable_joined(head + first + test + semi + step, close);
                    lemma_spellable_joined(head + first + test + semi + step + close, inner);
                },
                _ => {},
            }
        },
        NodeView::FunctionDecl { name, params, body } => {
            let head = seq![
                TokenView::Identifier(name),
                TokenView::Colon,
                TokenView::Void,
                TokenView::LeftParen,
            ];
            assert(all_spellable(head));
            lemma_parameters_spellable(params, 0);
            lemma_statement_spellable(*body);
            lemma_spellable_joined(head, parameters_tokens(params, 0));
            lemma_spellable_joined(head + parameters_tokens(params, 0), statement_tokens(*body));
        },
        NodeView::Block(list) => {
            lemma_statements_spellable(list, 0);
            lemma_spellable_joined(seq![TokenView::LeftBrace], statements_tokens(list, 0));
            lemma_spellable_joined(
                seq![TokenView::LeftBrace] + statements_tokens(list, 0),
                seq![TokenView::RightBrace],
            );
        },
        NodeView::Program(_) => {},
        _ => {
            lemma_expression_spellable(node);
            lemma_spellable_joined(expression_tokens(node), semi);
        },
    }
}

/// The tokens of statements whose names and numbers can be written can be
/// written.
pub proof fn lemma_statements_spellable(list: Seq<NodeView>, i: nat)
    requires
        forall|k: int| 0 <= k < list.len() ==> is_statement(#[trigger] list[k]) && writable(
            list[k],
        ),
    ensures
        all_spellable(statements_tokens(list, i)),
    decreases list, list.len() - i,
{
    if i < list.len() {
        lemma_statement_spellable(list[i as int]);
        lemma_statements_spellable(list, i + 1);
        lemma_spellable_joined(statement_tokens(list[i as int]), statements_tokens(list, i + 1));
    }
}

/// A program written as text: its tokens, a space behind each.
pub open spec fn program_text(list: Seq<NodeView>) -> Seq<char> {
    spelled(program_tokens(list), 0)
}

/// What the front end makes of a text: the tree of its tokens, if it has
/// tokens and they have a tree.
pub open spec fn front_end(source: Seq<char>) -> Option<NodeView> {
    match lex(source) {
        Ok(tokens) => match program(tokens) {
            Ok(tree) => Some(tree),
            Err(_) => None,
        },
        Err(_) => None,
    }
}

/// The text of a program is read back as the program: a program of
/// statements as the grammar knows them, whose names and numbers can be
/// written, is what the lexer and the parser make of its own text.
pub proof fn program_text_is_read_back(list: Seq<NodeView>)
    requires
        forall|k: int| 0 <= k < list.len() ==> is_statement(#[trigger] list[k]) && writable(
            list[k],
        ),
    ensures
        front_end(program_text(list)) == Some(NodeView::Program(list)),
{
    let tokens = program_tokens(list);
    let all = tokens + seq![TokenView::Eof];
    lemma_statements_spellable(list, 0);
    tokens_are_lexing_of_their_spelling(tokens, 0);
    assert(tokens.skip(0) =~= tokens);
    assert forall|k: int| 0 <= k < tokens.len() implies all[0 + k] == #[trigger] tokens[k] by {}
    assert(all[tokens.len() as int] == TokenView::Eof);
    lemma_statements_parse(list, 0, all, 0, false);
    assert(list.skip(0) =~= list);
}

} // verus!
