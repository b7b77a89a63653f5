//! Every tree is the parse of its own tokens.
//!
//! [`expression_tokens`] writes an expression as tokens, each operand of an
//! operator in parentheses. The grammar reads such tokens back as the
//! expression that they were written for: nothing that the parser builds is
//! out of its own reach.

use vstd::prelude::*;
use crate::ast::{BinaryOperator, NodeView, ParamView, TypeName, UnaryOperator};
use crate::grammar::{
    argument_list, arguments, assignment, binary, binary_operator, binary_rest, block, branches,
    checked, conditional, expression, expression_statement, for_condition, for_init, for_loop,
    for_update, function_decl, levels, named_type, parameter_list, parameters, prepend_nodes,
    primary, program, statement, statements, token_at, unary, unary_operator, unexpected,
    var_decl, while_loop, Expected, ParseErrorView,
};
use crate::precedence::{
    joined, lemma_atom, lemma_level, lemma_looser_levels, lemma_operand_alone,
    lemma_rest_ends, lemma_rest_goes_on, operates_from,
};
use crate::token::TokenView;

verus! {

/// The token of a binary operator.
pub open spec fn operator_token(op: BinaryOperator) -> TokenView {
    match op {
        BinaryOperator::Or => TokenView::Or,
        BinaryOperator::And => TokenView::And,
        BinaryOperator::Equal => TokenView::Equals,
        BinaryOperator::NotEqual => TokenView::NotEquals,
        BinaryOperator::Less => TokenView::LessThan,
        BinaryOperator::Greater => TokenView::GreaterThan,
        BinaryOperator::LessEqual => TokenView::LessThanOrEqual,
        BinaryOperator::GreaterEqual => TokenView::GreaterThanOrEqual,
        BinaryOperator::Add => TokenView::Plus,
        BinaryOperator::Subtract => TokenView::Minus,
        BinaryOperator::Multiply => TokenView::Multiply,
        BinaryOperator::Divide => TokenView::Divide,
        BinaryOperator::Modulo => TokenView::Modulo,
    }
}

/// The precedence level of a binary operator.
pub open spec fn operator_level(op: BinaryOperator) -> nat {
    match op {
        BinaryOperator::Or => 0,
        BinaryOperator::And => 1,
        BinaryOperator::Equal => 2,
        BinaryOperator::NotEqual => 2,
        BinaryOperator::Less => 3,
        BinaryOperator::Greater => 3,
        BinaryOperator::LessEqual => 3,
        BinaryOperator::GreaterEqual => 3,
        BinaryOperator::Add => 4,
        BinaryOperator::Subtract => 4,
        _ => 5,
    }
}

/// The token of a prefix operator.
pub open spec fn prefix_token(op: UnaryOperator) -> TokenView {
    match op {
        UnaryOperator::Not => TokenView::Not,
        UnaryOperator::Negate => TokenView::Minus,
    }
}

/// Whether `node` is an expression, all the way down.
pub open spec fn is_expression(node: NodeView) -> bool
    decreases node,
{
    match node {
        NodeView::IntLiteral(_) => true,
        NodeView::FloatLiteral(_) => true,
        NodeView::StringLiteral(_) => true,
        NodeView::BoolLiteral(_) => true,
        NodeView::Identifier(_) => true,
        NodeView::UnaryOp { operand, .. } => is_expression(*operand),
        NodeView::BinaryOp { left, right, .. } => is_expression(*left) && is_expression(*right),
        NodeView::Call { args, .. } => forall|i: int|
            0 <= i < args.len() ==> is_expression(#[trigger] args[i]),
        _ => false,
    }
}

/// `tokens` in parentheses.
pub open spec fn wrapped(tokens: Seq<TokenView>) -> Seq<TokenView> {
    seq![TokenView::LeftParen] + tokens + seq![TokenView::RightParen]
}

/// An expression written as tokens. The operands of an operator stand in
/// parentheses.
pub open spec fn expression_tokens(node: NodeView) -> Seq<TokenView>
    decreases node, 0nat,
{
    match node {
        NodeView::IntLiteral(i) => seq![TokenView::Integer(i)],
        NodeView::FloatLiteral(text) => seq![TokenView::CFloat(text)],
        NodeView::StringLiteral(text) => seq![TokenView::String(text)],
        NodeView::BoolLiteral(b) => seq![TokenView::Boolean(b)],
        NodeView::Identifier(name) => seq![TokenView::Identifier(name)],
        NodeView::UnaryOp { op, operand } => seq![prefix_token(op)] + wrapped(
            expression_tokens(*operand),
        ),
        NodeView::BinaryOp { op, left, right } => wrapped(expression_tokens(*left)) + seq![
            operator_token(op),
        ] + wrapped(expression_tokens(*right)),
        NodeView::Call { name, args } => seq![TokenView::Identifier(name), TokenView::LeftParen]
            + arguments_tokens(args, 0),
        _ => Seq::empty(),
    }
}

/// The arguments of a call from the `i`th on, written as tokens: the
/// arguments, `,` between them, and the closing `)`.
pub open spec fn arguments_tokens(args: Seq<NodeView>, i: nat) -> Seq<TokenView>
    decreases args, args.len() - i,
{
    if i >= args.len() {
        seq![TokenView::RightParen]
    } else if i + 1 == args.len() {
        expression_tokens(args[i as int]) + seq![TokenView::RightParen]
    } else {
        expression_tokens(args[i as int]) + seq![TokenView::Comma] + arguments_tokens(args, i + 1)
    }
}

/// Whether `part` stands among `tokens` from `pos` on.
pub open spec fn stands_at(tokens: Seq<TokenView>, pos: nat, part: Seq<TokenView>) -> bool {
    &&& pos + part.len() <= tokens.len()
    &&& forall|k: int| 0 <= k < part.len() ==> tokens[pos + k] == #[trigger] part[k]
}

/// Whether an expression can end before `token`: whether `token` is neither
/// a binary operator nor `(`.
pub open spec fn ends_expression(token: TokenView) -> bool {
    !operates_from(0, token) && token != TokenView::LeftParen
}

/// Where two parts stand one behind the other, each stands.
pub proof fn lemma_stands_apart(
    tokens: Seq<TokenView>,
    pos: nat,
    first: Seq<TokenView>,
    second: Seq<TokenView>,
)
    requires
        stands_at(tokens, pos, first + second),
    ensures
        stands_at(tokens, pos, first),
        stands_at(tokens, pos + first.len(), second),
{
    let both = first + second;
    assert forall|k: int| 0 <= k < first.len() implies tokens[pos + k] == #[trigger] first[k] by {
        assert(both[k] == first[k]);
    }
    assert forall|k: int| 0 <= k < second.len() implies tokens[pos + first.len() + k]
        == #[trigger] second[k] by {
        assert(both[first.len() + k] == second[k]);
    }
}

/// The token of an operator is that operator on its level, and on no other.
pub proof fn lemma_operator_token(op: BinaryOperator)
    ensures
        binary_operator(operator_level(op), operator_token(op)) == Some(op),
        !operates_from(operator_level(op) + 1, operator_token(op)),
        unary_operator(prefix_token(UnaryOperator::Not)) == Some(UnaryOperator::Not),
        unary_operator(prefix_token(UnaryOperator::Negate)) == Some(UnaryOperator::Negate),
{
    let token = operator_token(op);
    if operates_from(operator_level(op) + 1, token) {
        let l = choose|l: nat|
            operator_level(op) + 1 <= l && (#[trigger] binary_operator(l, token)) is Some;
        assert(binary_operator(l, token) is None);
    }
}

/// What ends an expression is no operator of any level.
pub proof fn lemma_ends_expression(token: TokenView, low: nat)
    requires
        ends_expression(token),
    ensures
        !operates_from(low, token),
        forall|l: nat| (#[trigger] binary_operator(l, token)) is None,
{
    assert forall|l: nat| (#[trigger] binary_operator(l, token)) is None by {
        if binary_operator(l, token) is Some {
            assert(operates_from(0, token));
        }
    }
    if operates_from(low, token) {
        let l = choose|l: nat| low <= l && (#[trigger] binary_operator(l, token)) is Some;
        assert(binary_operator(l, token) is None);
    }
}

/// An expression is what the grammar reads on the loosest level.
pub proof fn lemma_expression_is_loosest(tokens: Seq<TokenView>, pos: nat)
    ensures
        expression(tokens, pos) == binary(tokens, pos, 0),
{
}

/// An expression in parentheses is a primary.
proof fn lemma_primary_group(tokens: Seq<TokenView>, pos: nat, node: NodeView, next: nat)
    requires
        token_at(tokens, pos) == TokenView::LeftParen,
        expression(tokens, pos + 1) == Ok::<_, ParseErrorView>((node, next)),
        token_at(tokens, next) == TokenView::RightParen,
    ensures
        primary(tokens, pos) == Ok::<_, ParseErrorView>((node, next + 1)),
{
}

/// A name with arguments in parentheses is a call.
proof fn lemma_primary_call(
    tokens: Seq<TokenView>,
    pos: nat,
    name: Seq<char>,
    args: Seq<NodeView>,
    next: nat,
)
    requires
        token_at(tokens, pos) == TokenView::Identifier(name),
        token_at(tokens, pos + 1) == TokenView::LeftParen,
        arguments(tokens, pos + 2) == Ok::<_, ParseErrorView>((args, next)),
    ensures
        primary(tokens, pos) == Ok::<_, ParseErrorView>((NodeView::Call { name, args }, next)),
{
}

/// Where no prefix operator stands, an operand is a primary.
proof fn lemma_unary_plain(tokens: Seq<TokenView>, pos: nat)
    requires
        unary_operator(token_at(tokens, pos)) is None,
    ensures
        unary(tokens, pos) == primary(tokens, pos),
{
}

/// A prefix operator before an operand is an operand.
proof fn lemma_unary_prefix(
    tokens: Seq<TokenView>,
    pos: nat,
    op: UnaryOperator,
    operand: NodeView,
    next: nat,
)
    requires
        unary_operator(token_at(tokens, pos)) == Some(op),
        unary(tokens, pos + 1) == Ok::<_, ParseErrorView>((operand, next)),
    ensures
        unary(tokens, pos) == Ok::<_, ParseErrorView>(
            (NodeView::UnaryOp { op, operand: Box::new(operand) }, next),
        ),
{
}

/// The arguments of a call are none, or a list.
proof fn lemma_arguments_unfolded(tokens: Seq<TokenView>, pos: nat)
    ensures
        arguments(tokens, pos) == (if token_at(tokens, pos) == TokenView::RightParen {
            Ok::<_, ParseErrorView>((Seq::<NodeView>::empty(), pos + 1))
        } else {
            argument_list(tokens, pos)
        }),
{
}

/// A list of arguments is an expression and what follows it.
proof fn lemma_argument_list_unfolded(
    tokens: Seq<TokenView>,
    pos: nat,
    argument: NodeView,
    next: nat,
)
    requires
        expression(tokens, pos) == Ok::<_, ParseErrorView>((argument, next)),
        pos < next <= tokens.len(),
    ensures
        argument_list(tokens, pos) == (if token_at(tokens, next) == TokenView::Comma {
            prepend_nodes(seq![argument], argument_list(tokens, next + 1))
        } else if token_at(tokens, next) == TokenView::RightParen {
            Ok::<_, ParseErrorView>((seq![argument], next + 1))
        } else {
            Err(unexpected(tokens, next, Expected::RightParen))
        }),
{
}

/// An expression is written with at least one token, and its first token is
/// no `)`.
pub proof fn lemma_expression_tokens_start(node: NodeView)
    requires
        is_expression(node),
    ensures
        expression_tokens(node).len() > 0,
        expression_tokens(node)[0] != TokenView::RightParen,
{
    match node {
        NodeView::UnaryOp { op, operand } => {
            let rest = wrapped(expression_tokens(*operand));
            assert((seq![prefix_token(op)] + rest)[0] == prefix_token(op));
        },
        NodeView::BinaryOp { op, left, right } => {
            let first = wrapped(expression_tokens(*left));
            assert(first[0] == TokenView::LeftParen);
            let all = first + seq![operator_token(op)] + wrapped(expression_tokens(*right));
            assert(all[0] == first[0]);
        },
        NodeView::Call { name, args } => {
            let head = seq![TokenView::Identifier(name), TokenView::LeftParen];
            assert((head + arguments_tokens(args, 0))[0] == head[0]);
        },
        _ => {},
    }
}

/// The grammar reads the tokens of an expression back as the expression.
pub proof fn lemma_expression_parses(node: NodeView, tokens: Seq<TokenView>, pos: nat)
    requires
        is_expression(node),
        stands_at(tokens, pos, expression_tokens(node)),
        ends_expression(token_at(tokens, pos + expression_tokens(node).len())),
    ensures
        expression(tokens, pos) == Ok::<_, ParseErrorView>(
            (node, pos + expression_tokens(node).len()),
        ),
        expression_tokens(node).len() > 0,
    decreases node, 1nat,
{
    let written = expression_tokens(node);
    let end = pos + written.len();
    lemma_expression_tokens_start(node);
    lemma_ends_expression(token_at(tokens, end), 0);
    lemma_expression_is_loosest(tokens, pos);
    assert(tokens[(pos + 0) as int] == written[0]);
    match node {
        NodeView::UnaryOp { op, operand } => {
            let inner = wrapped(expression_tokens(*operand));
            lemma_stands_apart(tokens, pos, seq![prefix_token(op)], inner);
            lemma_operator_token(BinaryOperator::Or);
            lemma_wrapped_parses(*operand, tokens, pos + 1);
            lemma_unary_prefix(tokens, pos, op, *operand, end);
            lemma_operand_alone(tokens, pos, 0, node, end);
        },
        NodeView::BinaryOp { op, left, right } => {
            let first = wrapped(expression_tokens(*left));
            let second = wrapped(expression_tokens(*right));
            let level = operator_level(op);
            let middle = pos + first.len();
            lemma_stands_apart(tokens, pos, first + seq![operator_token(op)], second);
            lemma_stands_apart(tokens, pos, first, seq![operator_token(op)]);
            assert(tokens[(middle + 0) as int] == seq![operator_token(op)][0]);
            lemma_operator_token(op);
            lemma_wrapped_parses(*left, tokens, pos);
            lemma_wrapped_parses(*right, tokens, middle + 1);
            lemma_operand_alone(tokens, pos, level + 1, *left, middle);
            lemma_ends_expression(token_at(tokens, end), level + 1);
            lemma_operand_alone(tokens, middle + 1, level + 1, *right, end);
            lemma_level(tokens, pos, level, *left, middle);
            lemma_rest_goes_on(tokens, middle, level, *left, op, *right, end);
            lemma_rest_ends(tokens, end, level, joined(op, *left, *right));
            lemma_looser_levels(tokens, pos, level, 0, node, end);
        },
        NodeView::Call { name, args } => {
            let head = seq![TokenView::Identifier(name), TokenView::LeftParen];
            let list = arguments_tokens(args, 0);
            lemma_stands_apart(tokens, pos, head, list);
            assert(tokens[(pos + 0) as int] == head[0] && tokens[(pos + 1) as int] == head[1]);
            lemma_arguments_unfolded(tokens, pos + 2);
            if args.len() == 0 {
                assert(tokens[(pos + 2 + 0) as int] == list[0]);
                assert(args =~= Seq::<NodeView>::empty());
            } else {
                lemma_arguments_parse(args, 0, tokens, pos + 2);
                lemma_expression_tokens_start(args[0]);
                let one = expression_tokens(args[0]);
                assert(list[0] == one[0]);
                assert(tokens[(pos + 2 + 0) as int] == list[0]);
                assert(args.skip(0) =~= args);
            }
            lemma_primary_call(tokens, pos, name, args, end);
            lemma_unary_plain(tokens, pos);
            lemma_operand_alone(tokens, pos, 0, node, end);
        },
        _ => {
            lemma_atom(tokens, pos, node);
            lemma_operand_alone(tokens, pos, 0, node, end);
        },
    }
}

/// The grammar reads the tokens of an expression in parentheses back as
/// the expression, as an operand.
pub proof fn lemma_wrapped_parses(node: NodeView, tokens: Seq<TokenView>, pos: nat)
    requires
        is_expression(node),
        stands_at(tokens, pos, wrapped(expression_tokens(node))),
    ensures
        unary(tokens, pos) == Ok::<_, ParseErrorView>(
            (node, pos + expression_tokens(node).len() + 2),
        ),
        pos + expression_tokens(node).len() + 2 <= tokens.len(),
    decreases node, 2nat,
{
    let inner = expression_tokens(node);
    let open = seq![TokenView::LeftParen];
    let close = seq![TokenView::RightParen];
    lemma_stands_apart(tokens, pos, open + inner, close);
    lemma_stands_apart(tokens, pos, open, inner);
    assert(tokens[(pos + 0) as int] == open[0]);
    assert(tokens[(pos + 1 + inner.len() + 0) as int] == close[0]);
    assert(ends_expression(TokenView::RightParen)) by {
        if operates_from(0, TokenView::RightParen) {
            let l = choose|l: nat|
                0 <= l && (#[trigger] binary_operator(l, TokenView::RightParen)) is Some;
            assert(binary_operator(l, TokenView::RightParen) is None);
        }
    }
    lemma_expression_parses(node, tokens, pos + 1);
    lemma_primary_group(tokens, pos, node, pos + 1 + inner.len());
    lemma_unary_plain(tokens, pos);
}

/// The grammar reads the tokens of the arguments of a call back as the
/// arguments.
pub proof fn lemma_arguments_parse(args: Seq<NodeView>, i: nat, tokens: Seq<TokenView>, pos: nat)
    requires
        forall|k: int| 0 <= k < args.len() ==> is_expression(#[trigger] args[k]),
        i < args.len(),
        stands_at(tokens, pos, arguments_tokens(args, i)),
    ensures
        argument_list(tokens, pos) == Ok::<_, ParseErrorView>(
            (args.skip(i as int), pos + arguments_tokens(args, i).len()),
        ),
    decreases args, args.len() - i,
{
    let one = expression_tokens(args[i as int]);
    let next = pos + one.len();
    assert(forall|l: nat| (#[trigger] binary_operator(l, TokenView::Comma)) is None);
    assert(forall|l: nat| (#[trigger] binary_operator(l, TokenView::RightParen)) is None);
    assert(ends_expression(TokenView::Comma)) by {
        if operates_from(0, TokenView::Comma) {
            let l = choose|l: nat|
                0 <= l && (#[trigger] binary_operator(l, TokenView::Comma)) is Some;
            assert(binary_operator(l, TokenView::Comma) is None);
        }
    }
    assert(ends_expression(TokenView::RightParen)) by {
        if operates_from(0, TokenView::RightParen) {
            let l = choose|l: nat|
                0 <= l && (#[trigger] binary_operator(l, TokenView::RightParen)) is Some;
            assert(binary_operator(l, TokenView::RightParen) is None);
        }
    }
    if i + 1 == args.len() {
        let close = seq![TokenView::RightParen];
        lemma_stands_apart(tokens, pos, one, close);
        assert(tokens[(next + 0) as int] == close[0]);
        lemma_expression_parses(args[i as int], tokens, pos);
        lemma_argument_list_unfolded(tokens, pos, args[i as int], next);
        assert(seq![args[i as int]] =~= args.skip(i as int));
    } else {
        let comma = seq![TokenView::Comma];
        let rest = arguments_tokens(args, i + 1);
        lemma_stands_apart(tokens, pos, one + comma, rest);
        lemma_stands_apart(tokens, pos, one, comma);
        assert(tokens[(next + 0) as int] == comma[0]);
        lemma_expression_parses(args[i as int], tokens, pos);
        lemma_arguments_parse(args, i + 1, tokens, next + 1);
        lemma_argument_list_unfolded(tokens, pos, args[i as int], next);
        assert(seq![args[i as int]] + args.skip((i + 1) as int) =~= args.skip(i as int));
    }
}

/// Every expression is the parse of its own tokens: written as tokens and
/// followed by a token that is neither a binary operator nor `(`, an
/// expression is read back by the grammar as it was, wherever it stands.
pub proof fn expression_is_parse_of_its_tokens(
    node: NodeView,
    before: Seq<TokenView>,
    after: Seq<TokenView>,
)
    requires
        is_expression(node),
        after.len() > 0 ==> ends_expression(after[0]),
    ensures
        expression(before + expression_tokens(node) + after, before.len()) == Ok::<
            _,
            ParseErrorView,
        >((node, before.len() + expression_tokens(node).len())),
{
    let written = expression_tokens(node);
    let tokens = before + written + after;
    let pos = before.len();
    assert forall|k: int| 0 <= k < written.len() implies tokens[(pos + k) as int] == #[trigger] written[k] by {
        assert(tokens[(pos + k) as int] == (before + written)[pos + k]);
    }
    if after.len() > 0 {
        assert(tokens[(pos + written.len()) as int] == after[0]);
    } else {
        assert(ends_expression(TokenView::Eof)) by {
            if operates_from(0, TokenView::Eof) {
                let l = choose|l: nat|
                    0 <= l && (#[trigger] binary_operator(l, TokenView::Eof)) is Some;
                assert(binary_operator(l, TokenView::Eof) is None);
            }
        }
    }
    lemma_expression_parses(node, tokens, pos);
}

/// The keyword of a type.
pub open spec fn type_token(t: TypeName) -> TokenView {
    match t {
        TypeName::Int => TokenView::Int,
        TypeName::Float => TokenView::Float,
        TypeName::Str => TokenView::Str,
        TypeName::Bool => TokenView::Bool,
        TypeName::Void => TokenView::Void,
    }
}

/// Whether `node` is a statement as the grammar knows them, all the way
/// down: with expressions where expressions stand, blocks where blocks
/// stand, and a declaration or an assignment and an assignment in the head of
/// a `for`.
pub open spec fn is_statement(node: NodeView) -> bool
    decreases node,
{
    match node {
        NodeView::VarDecl { initializer, .. } => is_expression(*initializer),
        NodeView::Assign { value, .. } => is_expression(*value),
        NodeView::Print { value } => is_expression(*value),
        NodeView::Return { value } => is_expression(*value),
        NodeView::If { condition, then_block, else_block } => is_expression(*condition)
            && *then_block is Block && is_statement(*then_block) && (match else_block {
            Some(block) => *block is Block && is_statement(*block),
            None => true,
        }),
        NodeView::While { condition, body } => is_expression(*condition) && *body is Block
            && is_statement(*body),
        NodeView::For { init, condition, update, body } => (*init is VarDecl || *init is Assign)
            && is_statement(*init) && is_expression(*condition) && *update is Assign
            && is_statement(*update) && *body is Block && is_statement(*body),
        NodeView::FunctionDecl { body, .. } => *body is Block && is_statement(*body),
        NodeView::Block(list) => forall|i: int|
            0 <= i < list.len() ==> is_statement(#[trigger] list[i]),
        NodeView::Program(_) => false,
        _ => is_expression(node),
    }
}

/// The parameters of a function from the `i`th on, written as tokens: the
/// parameters, `,` between them, and the closing `)`.
pub open spec fn parameters_tokens(params: Seq<ParamView>, i: nat) -> Seq<TokenView>
    decreases params.len() - i,
{
    if i >= params.len() {
        seq![TokenView::RightParen]
    } else {
        let one = seq![
            TokenView::Identifier(params[i as int].name),
            TokenView::Colon,
            type_token(params[i as int].declared_type),
        ];
        if i + 1 == params.len() {
            one + seq![TokenView::RightParen]
        } else {
            one + seq![TokenView::Comma] + parameters_tokens(params, i + 1)
        }
    }
}

/// An assignment without its `;`, written as tokens.
pub open spec fn assignment_tokens(name: Seq<char>, value: NodeView) -> Seq<TokenView> {
    seq![TokenView::Identifier(name), TokenView::Assign] + expression_tokens(value)
}

/// A statement written as tokens.
pub open spec fn statement_tokens(node: NodeView) -> Seq<TokenView>
    decreases node, 0nat,
{
    match node {
        NodeView::VarDecl { name, declared_type, initializer } => seq![
            TokenView::Identifier(name),
            TokenView::Colon,
            type_token(declared_type),
            TokenView::Assign,
        ] + expression_tokens(*initializer) + seq![TokenView::Semicolon],
        NodeView::Assign { name, value } => assignment_tokens(name, *value) + seq![
            TokenView::Semicolon,
        ],
        NodeView::Print { value } => seq![TokenView::Print] + expression_tokens(*value) + seq![
            TokenView::Semicolon,
        ],
        NodeView::Return { value } => seq![TokenView::Return] + expression_tokens(*value) + seq![
            TokenView::Semicolon,
        ],
        NodeView::If { condition, then_block, else_block } => seq![TokenView::If]
            + expression_tokens(*condition) + statement_tokens(*then_block) + (match else_block {
            Some(block) => seq![TokenView::Else] + statement_tokens(*block),
            None => Seq::empty(),
        }),
        NodeView::While { condition, body } => seq![TokenView::While] + expression_tokens(
            *condition,
        ) + statement_tokens(*body),
        NodeView::For { init, condition, update, body } => seq![
            TokenView::For,
            TokenView::LeftParen,
        ] + statement_tokens(*init) + expression_tokens(*condition) + seq![TokenView::Semicolon]
            + (match *update {
            NodeView::Assign { name, value } => assignment_tokens(name, *value),
            _ => Seq::empty(),
        }) + seq![TokenView::RightParen] + statement_tokens(*body),
        NodeView::FunctionDecl { name, params, body } => seq![
            TokenView::Identifier(name),
            TokenView::Colon,
            TokenView::Void,
            TokenView::LeftParen,
        ] + parameters_tokens(params, 0) + statement_tokens(*body),
        NodeView::Block(list) => seq![TokenView::LeftBrace] + statements_tokens(list, 0) + seq![
            TokenView::RightBrace,
        ],
        NodeView::Program(_) => Seq::empty(),
        _ => expression_tokens(node) + seq![TokenView::Semicolon],
    }
}

/// The statements of `list` from the `i`th on, written as tokens one after
/// the other.
pub open spec fn statements_tokens(list: Seq<NodeView>, i: nat) -> Seq<TokenView>
    decreases list, list.len() - i,
{
    if i >= list.len() {
        Seq::empty()
    } else {
        statement_tokens(list[i as int]) + statements_tokens(list, i + 1)
    }
}

/// Whether a statement can start with `token`.
pub open spec fn starts_statement(token: TokenView) -> bool {
    token != TokenView::Else && token != TokenView::RightBrace && token != TokenView::Eof
}

/// Whether an expression starts with `token`.
pub open spec fn starts_expression(token: TokenView) -> bool {
    token is Integer || token is CFloat || token is String || token is Boolean
        || token is Identifier || token == TokenView::Not || token == TokenView::Minus || token
        == TokenView::LeftParen
}

/// An expression starts with a literal, an identifier, a prefix operator or
/// `(`; where it starts with an identifier, the identifier is all of it, or
/// `(` follows.
pub proof fn lemma_expression_first_token(node: NodeView)
    requires
        is_expression(node),
    ensures
        expression_tokens(node).len() > 0,
        starts_expression(expression_tokens(node)[0]),
        expression_tokens(node)[0] is Identifier ==> expression_tokens(node).len() == 1 || (
        expression_tokens(node).len() > 1 && expression_tokens(node)[1] == TokenView::LeftParen),
{
    match node {
        NodeView::UnaryOp { op, operand } => {
            let rest = wrapped(expression_tokens(*operand));
            assert((seq![prefix_token(op)] + rest)[0] == prefix_token(op));
        },
        NodeView::BinaryOp { op, left, right } => {
            let first = wrapped(expression_tokens(*left));
            assert(first[0] == TokenView::LeftParen);
            let all = first + seq![operator_token(op)] + wrapped(expression_tokens(*right));
            assert(all[0] == first[0]);
        },
        NodeView::Call { name, args } => {
            let head = seq![TokenView::Identifier(name), TokenView::LeftParen];
            let all = head + arguments_tokens(args, 0);
            assert(all[0] == head[0] && all[1] == head[1]);
        },
        _ => {},
    }
}

/// A `print` statement is its keyword, an expression and `;`.
proof fn lemma_print_unfolded(tokens: Seq<TokenView>, pos: nat, value: NodeView, next: nat)
    requires
        token_at(tokens, pos) == TokenView::Print,
        expression(tokens, pos + 1) == Ok::<_, ParseErrorView>((value, next)),
        token_at(tokens, next) == TokenView::Semicolon,
    ensures
        statement(tokens, pos) == Ok::<_, ParseErrorView>(
            (NodeView::Print { value: Box::new(value) }, next + 1),
        ),
{
}

/// A `return` statement is its keyword, an expression and `;`.
proof fn lemma_return_unfolded(tokens: Seq<TokenView>, pos: nat, value: NodeView, next: nat)
    requires
        token_at(tokens, pos) == TokenView::Return,
        expression(tokens, pos + 1) == Ok::<_, ParseErrorView>((value, next)),
        token_at(tokens, next) == TokenView::Semicolon,
    ensures
        statement(tokens, pos) == Ok::<_, ParseErrorView>(
            (NodeView::Return { value: Box::new(value) }, next + 1),
        ),
{
}

/// An expression and `;` is an expression statement.
proof fn lemma_expression_statement_unfolded(
    tokens: Seq<TokenView>,
    pos: nat,
    node: NodeView,
    next: nat,
)
    requires
        expression(tokens, pos) == Ok::<_, ParseErrorView>((node, next)),
        token_at(tokens, next) == TokenView::Semicolon,
    ensures
        expression_statement(tokens, pos) == Ok::<_, ParseErrorView>((node, next + 1)),
{
}

/// Where a statement starts with none of the keywords, `{` or a name before
/// `:` or `=`, it is an expression statement.
proof fn lemma_statement_is_expression(tokens: Seq<TokenView>, pos: nat)
    requires
        starts_expression(token_at(tokens, pos)),
        token_at(tokens, pos) is Identifier ==> token_at(tokens, pos + 1) != TokenView::Colon
            && token_at(tokens, pos + 1) != TokenView::Assign,
    ensures
        statement(tokens, pos) == expression_statement(tokens, pos),
{
}

/// A variable declaration is a name, `:`, a type, `=`, an expression and `;`.
proof fn lemma_var_decl_unfolded(
    tokens: Seq<TokenView>,
    pos: nat,
    name: Seq<char>,
    declared_type: TypeName,
    initializer: NodeView,
    next: nat,
)
    requires
        token_at(tokens, pos) == TokenView::Identifier(name),
        token_at(tokens, pos + 1) == TokenView::Colon,
        token_at(tokens, pos + 2) == type_token(declared_type),
        token_at(tokens, pos + 3) == TokenView::Assign,
        expression(tokens, pos + 4) == Ok::<_, ParseErrorView>((initializer, next)),
        token_at(tokens, next) == TokenView::Semicolon,
    ensures
        var_decl(tokens, pos) == Ok::<_, ParseErrorView>(
            (
                NodeView::VarDecl { name, declared_type, initializer: Box::new(initializer) },
                next + 1,
            ),
        ),
{
}

/// Where a name stands before `:` and no `void (` follows, the statement is
/// a variable declaration.
proof fn lemma_statement_is_var_decl(tokens: Seq<TokenView>, pos: nat)
    requires
        token_at(tokens, pos) is Identifier,
        token_at(tokens, pos + 1) == TokenView::Colon,
        token_at(tokens, pos + 3) != TokenView::LeftParen,
    ensures
        statement(tokens, pos) == var_decl(tokens, pos),
{
}

/// An assignment is a name, `=` and an expression, with `;` if it is
/// closed.
proof fn lemma_assignment_unfolded(
    tokens: Seq<TokenView>,
    pos: nat,
    closed: bool,
    name: Seq<char>,
    value: NodeView,
    next: nat,
)
    requires
        token_at(tokens, pos) == TokenView::Identifier(name),
        token_at(tokens, pos + 1) == TokenView::Assign,
        expression(tokens, pos + 2) == Ok::<_, ParseErrorView>((value, next)),
        closed ==> token_at(tokens, next) == TokenView::Semicolon,
    ensures
        assignment(tokens, pos, closed) == Ok::<_, ParseErrorView>(
            (
                NodeView::Assign { name, value: Box::new(value) },
                if closed {
                    next + 1
                } else {
                    next
                },
            ),
        ),
{
}

/// Where a name stands before `=`, the statement is an assignment.
proof fn lemma_statement_is_assignment(tokens: Seq<TokenView>, pos: nat)
    requires
        token_at(tokens, pos) is Identifier,
        token_at(tokens, pos + 1) == TokenView::Assign,
    ensures
        statement(tokens, pos) == assignment(tokens, pos, true),
{
}

/// A function declaration is a name, `: void (`, parameters and a block.
proof fn lemma_function_decl_unfolded(
    tokens: Seq<TokenView>,
    pos: nat,
    name: Seq<char>,
    params: Seq<ParamView>,
    next: nat,
    body: NodeView,
    end: nat,
)
    requires
        token_at(tokens, pos) == TokenView::Identifier(name),
        token_at(tokens, pos + 1) == TokenView::Colon,
        token_at(tokens, pos + 2) == TokenView::Void,
        token_at(tokens, pos + 3) == TokenView::LeftParen,
        parameters(tokens, pos + 4) == Ok::<_, ParseErrorView>((params, next)),
        block(tokens, next) == Ok::<_, ParseErrorView>((body, end)),
    ensures
        function_decl(tokens, pos) == Ok::<_, ParseErrorView>(
            (NodeView::FunctionDecl { name, params, body: Box::new(body) }, end),
        ),
{
}

/// Where a name stands before `: void (`, the statement is a function
/// declaration.
proof fn lemma_statement_is_function_decl(tokens: Seq<TokenView>, pos: nat)
    requires
        token_at(tokens, pos) is Identifier,
        token_at(tokens, pos + 1) == TokenView::Colon,
        token_at(tokens, pos + 2) == TokenView::Void,
        token_at(tokens, pos + 3) == TokenView::LeftParen,
    ensures
        statement(tokens, pos) == function_decl(tokens, pos),
{
}

/// A block is `{` and statements up to `}`.
proof fn lemma_block_unfolded(tokens: Seq<TokenView>, pos: nat, list: Seq<NodeView>, next: nat)
    requires
        token_at(tokens, pos) == TokenView::LeftBrace,
        statements(tokens, pos + 1, true) == Ok::<_, ParseErrorView>((list, next)),
    ensures
        block(tokens, pos) == Ok::<_, ParseErrorView>((NodeView::Block(list), next)),
        statement(tokens, pos) == block(tokens, pos),
{
}

/// Statements in a block end at `}`.
proof fn lemma_statements_end(tokens: Seq<TokenView>, pos: nat)
    requires
        token_at(tokens, pos) == TokenView::RightBrace,
    ensures
        statements(tokens, pos, true) == Ok::<_, ParseErrorView>((Seq::<NodeView>::empty(), pos + 1)),
{
}

/// Statements at the top level end at `Eof`.
proof fn lemma_top_statements_end(tokens: Seq<TokenView>, pos: nat)
    requires
        token_at(tokens, pos) == TokenView::Eof,
    ensures
        statements(tokens, pos, false) == Ok::<_, ParseErrorView>((Seq::<NodeView>::empty(), pos)),
{
}

/// Statements are a statement and the statements behind it.
proof fn lemma_statements_unfolded(
    tokens: Seq<TokenView>,
    pos: nat,
    nested: bool,
    node: NodeView,
    next: nat,
)
    requires
        starts_statement(token_at(tokens, pos)),
        statement(tokens, pos) == Ok::<_, ParseErrorView>((node, next)),
        pos < next <= tokens.len(),
    ensures
        statements(tokens, pos, nested) == prepend_nodes(
            seq![node],
            statements(tokens, next, nested),
        ),
{
}

/// An `if` statement behind its condition is a block, and optionally `else`
/// and a second block.
proof fn lemma_branches_unfolded(
    tokens: Seq<TokenView>,
    pos: nat,
    condition: NodeView,
    then_block: NodeView,
    next: nat,
    else_block: Option<NodeView>,
    end: nat,
)
    requires
        block(tokens, pos) == Ok::<_, ParseErrorView>((then_block, next)),
        pos < next <= tokens.len(),
        match else_block {
            Some(other) => token_at(tokens, next) == TokenView::Else && block(tokens, next + 1)
                == Ok::<_, ParseErrorView>((other, end)),
            None => token_at(tokens, next) != TokenView::Else && end == next,
        },
    ensures
        branches(tokens, pos, condition) == Ok::<_, ParseErrorView>(
            (
                NodeView::If {
                    condition: Box::new(condition),
                    then_block: Box::new(then_block),
                    else_block: match else_block {
                        Some(other) => Some(Box::new(other)),
                        None => None,
                    },
                },
                end,
            ),
        ),
{
}

/// An `if` statement is its keyword, a condition, and the branches.
proof fn lemma_conditional_unfolded(
    tokens: Seq<TokenView>,
    pos: nat,
    condition: NodeView,
    next: nat,
)
    requires
        token_at(tokens, pos) == TokenView::If,
        expression(tokens, pos + 1) == Ok::<_, ParseErrorView>((condition, next)),
        pos + 1 < next <= tokens.len(),
    ensures
        statement(tokens, pos) == conditional(tokens, pos + 1),
        conditional(tokens, pos + 1) == branches(tokens, next, condition),
{
}

/// A `while` statement is its keyword, a condition and a block.
proof fn lemma_while_unfolded(
    tokens: Seq<TokenView>,
    pos: nat,
    condition: NodeView,
    next: nat,
    body: NodeView,
    end: nat,
)
    requires
        token_at(tokens, pos) == TokenView::While,
        expression(tokens, pos + 1) == Ok::<_, ParseErrorView>((condition, next)),
        pos + 1 < next <= tokens.len(),
        block(tokens, next) == Ok::<_, ParseErrorView>((body, end)),
    ensures
        statement(tokens, pos) == while_loop(tokens, pos + 1),
        while_loop(tokens, pos + 1) == Ok::<_, ParseErrorView>(
            (NodeView::While { condition: Box::new(condition), body: Box::new(body) }, end),
        ),
{
}

/// The end of a `for` statement is an assignment, `)` and a block.
proof fn lemma_for_update_unfolded(
    tokens: Seq<TokenView>,
    pos: nat,
    init: NodeView,
    condition: NodeView,
    update: NodeView,
    next: nat,
    body: NodeView,
    end: nat,
)
    requires
        assignment(tokens, pos, false) == Ok::<_, ParseErrorView>((update, next)),
        pos < next <= tokens.len(),
        token_at(tokens, next) == TokenView::RightParen,
        block(tokens, next + 1) == Ok::<_, ParseErrorView>((body, end)),
    ensures
        for_update(tokens, pos, init, condition) == Ok::<_, ParseErrorView>(
            (
                NodeView::For {
                    init: Box::new(init),
                    condition: Box::new(condition),
                    update: Box::new(update),
                    body: Box::new(body),
                },
                end,
            ),
        ),
{
}

/// The middle of a `for` statement is a condition, `;` and the end.
proof fn lemma_for_condition_unfolded(
    tokens: Seq<TokenView>,
    pos: nat,
    init: NodeView,
    condition: NodeView,
    next: nat,
)
    requires
        expression(tokens, pos) == Ok::<_, ParseErrorView>((condition, next)),
        pos < next <= tokens.len(),
        token_at(tokens, next) == TokenView::Semicolon,
    ensures
        for_condition(tokens, pos, init) == for_update(tokens, next + 1, init, condition),
{
}

/// A `for` statement is its keyword, `(`, a first statement, and the rest.
proof fn lemma_for_unfolded(tokens: Seq<TokenView>, pos: nat, init: NodeView, next: nat)
    requires
        token_at(tokens, pos) == TokenView::For,
        token_at(tokens, pos + 1) == TokenView::LeftParen,
        for_init(tokens, pos + 2) == Ok::<_, ParseErrorView>((init, next)),
        pos + 2 < next <= tokens.len(),
    ensures
        statement(tokens, pos) == for_loop(tokens, pos + 1),
        for_loop(tokens, pos + 1) == for_condition(tokens, next, init),
{
}

/// The first statement of a `for` is a declaration if `:` follows its name,
/// else an assignment.
proof fn lemma_for_init_unfolded(tokens: Seq<TokenView>, pos: nat)
    ensures
        for_init(tokens, pos) == (if token_at(tokens, pos + 1) == TokenView::Colon {
            var_decl(tokens, pos)
        } else {
            assignment(tokens, pos, true)
        }),
{
}

/// The keyword of a type names the type.
proof fn lemma_type_token(t: TypeName)
    ensures
        named_type(type_token(t)) == Some(t),
        type_token(t) != TokenView::LeftParen,
{
}

/// The values of parameters from the `i`th on.
pub open spec fn parameters_from(params: Seq<ParamView>, i: nat) -> Seq<ParamView> {
    params.skip(i as int)
}

/// The grammar reads the tokens of a parameter list back as the
/// parameters.
pub proof fn lemma_parameters_parse(
    params: Seq<ParamView>,
    i: nat,
    tokens: Seq<TokenView>,
    pos: nat,
)
    requires
        i < params.len(),
        stands_at(tokens, pos, parameters_tokens(params, i)),
    ensures
        parameter_list(tokens, pos) == Ok::<_, ParseErrorView>(
            (parameters_from(params, i), pos + parameters_tokens(params, i).len()),
        ),
    decreases params.len() - i,
{
    let param = params[i as int];
    let one = seq![
        TokenView::Identifier(param.name),
        TokenView::Colon,
        type_token(param.declared_type),
    ];
    lemma_type_token(param.declared_type);
    if i + 1 == params.len() {
        let close = seq![TokenView::RightParen];
        lemma_stands_apart(tokens, pos, one, close);
        assert(tokens[(pos + 0) as int] == one[0]);
        assert(tokens[(pos + 1) as int] == one[1]);
        assert(tokens[(pos + 2) as int] == one[2]);
        assert(tokens[(pos + 3 + 0) as int] == close[0]);
        assert(seq![param] =~= parameters_from(params, i));
        assert(param == ParamView { name: param.name, declared_type: param.declared_type });
    } else {
        let comma = seq![TokenView::Comma];
        let rest = parameters_tokens(params, i + 1);
        lemma_stands_apart(tokens, pos, one + comma, rest);
        lemma_stands_apart(tokens, pos, one, comma);
        assert(tokens[(pos + 0) as int] == one[0]);
        assert(tokens[(pos + 1) as int] == one[1]);
        assert(tokens[(pos + 2) as int] == one[2]);
        assert(tokens[(pos + 3 + 0) as int] == comma[0]);
        lemma_parameters_parse(params, i + 1, tokens, pos + 4);
        assert(seq![param] + parameters_from(params, i + 1) =~= parameters_from(params, i));
        assert(param == ParamView { name: param.name, declared_type: param.declared_type });
    }
}

/// The grammar reads the tokens of the parameters of a function back as the
/// parameters.
pub proof fn lemma_all_parameters_parse(
    params: Seq<ParamView>,
    tokens: Seq<TokenView>,
    pos: nat,
)
    requires
        stands_at(tokens, pos, parameters_tokens(params, 0)),
    ensures
        parameters(tokens, pos) == Ok::<_, ParseErrorView>(
            (params, pos + parameters_tokens(params, 0).len()),
        ),
{
    let written = parameters_tokens(params, 0);
    if params.len() == 0 {
        assert(tokens[(pos + 0) as int] == written[0]);
        assert(params =~= Seq::<ParamView>::empty());
    } else {
        let param = params[0];
        let one = seq![
            TokenView::Identifier(param.name),
            TokenView::Colon,
            type_token(param.declared_type),
        ];
        if params.len() == 1 {
            assert(written[0] == one[0]);
        } else {
            assert(written[0] == (one + seq![TokenView::Comma])[0]);
        }
        assert(tokens[(pos + 0) as int] == written[0]);
        lemma_parameters_parse(params, 0, tokens, pos);
        assert(parameters_from(params, 0) =~= params);
    }
}

/// The tokens that close statements and parts of statements end
/// expressions.
pub proof fn lemma_delimiters()
    ensures
        ends_expression(TokenView::Semicolon),
        ends_expression(TokenView::LeftBrace),
        ends_expression(TokenView::RightParen),
        ends_expression(TokenView::Comma),
        ends_expression(TokenView::Eof),
{
    assert forall|token: TokenView|
        (forall|l: nat| (#[trigger] binary_operator(l, token)) is None) implies !operates_from(
        0,
        token,
    ) by {
        if operates_from(0, token) {
            let l = choose|l: nat| 0 <= l && (#[trigger] binary_operator(l, token)) is Some;
            assert(binary_operator(l, token) is None);
        }
    }
    assert(forall|l: nat| (#[trigger] binary_operator(l, TokenView::Semicolon)) is None);
    assert(forall|l: nat| (#[trigger] binary_operator(l, TokenView::LeftBrace)) is None);
    assert(forall|l: nat| (#[trigger] binary_operator(l, TokenView::RightParen)) is None);
    assert(forall|l: nat| (#[trigger] binary_operator(l, TokenView::Comma)) is None);
    assert(forall|l: nat| (#[trigger] binary_operator(l, TokenView::Eof)) is None);
}

/// A statement is written with at least one token, and starts as a
/// statement can; a block starts with `{`.
pub proof fn lemma_statement_first_token(node: NodeView)
    requires
        is_statement(node),
    ensures
        statement_tokens(node).len() > 0,
        starts_statement(statement_tokens(node)[0]),
        node is Block ==> statement_tokens(node)[0] == TokenView::LeftBrace,
{
    let written = statement_tokens(node);
    match node {
        NodeView::VarDecl { name, declared_type, initializer } => {
            let head = seq![
                TokenView::Identifier(name),
                TokenView::Colon,
                type_token(declared_type),
                TokenView::Assign,
            ];
            assert(written[0] == head[0]);
        },
        NodeView::Assign { name, value } => {
            let head = seq![TokenView::Identifier(name), TokenView::Assign];
            assert(written[0] == head[0]);
        },
        NodeView::Print { value } => {
            assert(written[0] == seq![TokenView::Print][0]);
        },
        NodeView::Return { value } => {
            assert(written[0] == seq![TokenView::Return][0]);
        },
        NodeView::If { condition, then_block, else_block } => {
            assert(written[0] == seq![TokenView::If][0]);
        },
        NodeView::While { condition, body } => {
            assert(written[0] == seq![TokenView::While][0]);
        },
        NodeView::For { init, condition, update, body } => {
            assert(written[0] == seq![TokenView::For, TokenView::LeftParen][0]);
        },
        NodeView::FunctionDecl { name, params, body } => {
            let head = seq![
                TokenView::Identifier(name),
                TokenView::Colon,
                TokenView::Void,
                TokenView::LeftParen,
            ];
            assert(written[0] == head[0]);
        },
        NodeView::Block(list) => {
            assert(written[0] == seq![TokenView::LeftBrace][0]);
        },
        NodeView::Program(_) => {},
        _ => {
            lemma_expression_first_token(node);
            assert(written[0] == expression_tokens(node)[0]);
        },
    }
}

/// The grammar reads the tokens of a variable declaration back as the
/// declaration.
pub proof fn lemma_var_decl_parses(node: NodeView, tokens: Seq<TokenView>, pos: nat)
    requires
        node is VarDecl,
        is_statement(node),
        stands_at(tokens, pos, statement_tokens(node)),
    ensures
        var_decl(tokens, pos) == Ok::<_, ParseErrorView>((node, pos + statement_tokens(node).len())),
        statement(tokens, pos) == var_decl(tokens, pos),
        token_at(tokens, pos + 1) == TokenView::Colon,
{
    match node {
        NodeView::VarDecl { name, declared_type, initializer } => {
            let head = seq![
                TokenView::Identifier(name),
                TokenView::Colon,
                type_token(declared_type),
                TokenView::Assign,
            ];
            let value = expression_tokens(*initializer);
            let close = seq![TokenView::Semicolon];
            let next = pos + 4 + value.len();
            lemma_stands_apart(tokens, pos, head + value, close);
            lemma_stands_apart(tokens, pos, head, value);
            assert(tokens[(pos + 0) as int] == head[0]);
            assert(tokens[(pos + 1) as int] == head[1]);
            assert(tokens[(pos + 2) as int] == head[2]);
            assert(tokens[(pos + 3) as int] == head[3]);
            assert(tokens[(next + 0) as int] == close[0]);
            lemma_delimiters();
            lemma_type_token(declared_type);
            lemma_expression_parses(*initializer, tokens, pos + 4);
            lemma_var_decl_unfolded(tokens, pos, name, declared_type, *initializer, next);
            lemma_statement_is_var_decl(tokens, pos);
        },
        _ => {},
    }
}

/// The grammar reads the tokens of an assignment back as the assignment.
pub proof fn lemma_assignment_parses(node: NodeView, tokens: Seq<TokenView>, pos: nat)
    requires
        node is Assign,
        is_statement(node),
        stands_at(tokens, pos, statement_tokens(node)),
    ensures
        assignment(tokens, pos, true) == Ok::<_, ParseErrorView>(
            (node, pos + statement_tokens(node).len()),
        ),
        statement(tokens, pos) == assignment(tokens, pos, true),
        token_at(tokens, pos + 1) == TokenView::Assign,
{
    match node {
        NodeView::Assign { name, value } => {
            let head = seq![TokenView::Identifier(name), TokenView::Assign];
            let written = expression_tokens(*value);
            let close = seq![TokenView::Semicolon];
            let next = pos + 2 + written.len();
            lemma_stands_apart(tokens, pos, head + written, close);
            lemma_stands_apart(tokens, pos, head, written);
            assert(tokens[(pos + 0) as int] == head[0]);
            assert(tokens[(pos + 1) as int] == head[1]);
            assert(tokens[(next + 0) as int] == close[0]);
            lemma_delimiters();
            lemma_expression_parses(*value, tokens, pos + 2);
            lemma_assignment_unfolded(tokens, pos, true, name, *value, next);
            lemma_statement_is_assignment(tokens, pos);
        },
        _ => {},
    }
}

/// The grammar reads the tokens of a `print` statement, of a `return`
/// statement and of an expression statement back as the statement.
pub proof fn lemma_plain_statement_parses(node: NodeView, tokens: Seq<TokenView>, pos: nat)
    requires
        node is Print || node is Return || is_expression(node),
        is_statement(node),
        stands_at(tokens, pos, statement_tokens(node)),
    ensures
        statement(tokens, pos) == Ok::<_, ParseErrorView>((node, pos + statement_tokens(node).len())),
{
    let close = seq![TokenView::Semicolon];
    lemma_delimiters();
    match node {
        NodeView::Print { value } => {
            let written = expression_tokens(*value);
            let next = pos + 1 + written.len();
            lemma_stands_apart(tokens, pos, seq![TokenView::Print] + written, close);
            lemma_stands_apart(tokens, pos, seq![TokenView::Print], written);
            assert(tokens[(pos + 0) as int] == seq![TokenView::Print][0]);
            assert(tokens[(next + 0) as int] == close[0]);
            lemma_expression_parses(*value, tokens, pos + 1);
            lemma_print_unfolded(tokens, pos, *value, next);
        },
        NodeView::Return { value } => {
            let written = expression_tokens(*value);
            let next = pos + 1 + written.len();
            lemma_stands_apart(tokens, pos, seq![TokenView::Return] + written, close);
            lemma_stands_apart(tokens, pos, seq![TokenView::Return], written);
            assert(tokens[(pos + 0) as int] == seq![TokenView::Return][0]);
            assert(tokens[(next + 0) as int] == close[0]);
            lemma_expression_parses(*value, tokens, pos + 1);
            lemma_return_unfolded(tokens, pos, *value, next);
        },
        _ => {
            let written = expression_tokens(node);
            let next = pos + written.len();
            lemma_stands_apart(tokens, pos, written, close);
            lemma_expression_first_token(node);
            assert(tokens[(pos + 0) as int] == written[0]);
            assert(tokens[(next + 0) as int] == close[0]);
            if written.len() > 1 {
                assert(tokens[(pos + 1) as int] == written[1]);
            }
            lemma_expression_parses(node, tokens, pos);
            lemma_expression_statement_unfolded(tokens, pos, node, next);
            lemma_statement_is_expression(tokens, pos);
        },
    }
}

/// Whether `follow` can stand behind the statement `node`: behind an `if`
/// without `else`, no `else` can.
pub open spec fn closes(node: NodeView, follow: TokenView) -> bool {
    node matches NodeView::If { else_block, .. } && else_block is None ==> follow
        != TokenView::Else
}

/// The grammar reads the tokens of a statement back as the statement.
pub proof fn lemma_statement_parses(node: NodeView, tokens: Seq<TokenView>, pos: nat)
    requires
        is_statement(node),
        stands_at(tokens, pos, statement_tokens(node)),
        closes(node, token_at(tokens, pos + statement_tokens(node).len())),
    ensures
        statement(tokens, pos) == Ok::<_, ParseErrorView>((node, pos + statement_tokens(node).len())),
        statement_tokens(node).len() > 0,
    decreases node, 4nat,
{
    lemma_statement_first_token(node);
    match node {
        NodeView::VarDecl { .. } => {
            lemma_var_decl_parses(node, tokens, pos);
        },
        NodeView::Assign { .. } => {
            lemma_assignment_parses(node, tokens, pos);
        },
        NodeView::If { .. } => {
            lemma_if_parses(node, tokens, pos);
        },
        NodeView::While { .. } => {
            lemma_while_parses(node, tokens, pos);
        },
        NodeView::For { .. } => {
            lemma_for_parses(node, tokens, pos);
        },
        NodeView::FunctionDecl { .. } => {
            lemma_function_parses(node, tokens, pos);
        },
        NodeView::Block(_) => {
            lemma_block_parses(node, tokens, pos);
        },
        NodeView::Program(_) => {},
        _ => {
            lemma_plain_statement_parses(node, tokens, pos);
        },
    }
}

/// The grammar reads the tokens of a block back as the block.
pub proof fn lemma_block_parses(node: NodeView, tokens: Seq<TokenView>, pos: nat)
    requires
        node is Block,
        is_statement(node),
        stands_at(tokens, pos, statement_tokens(node)),
    ensures
        block(tokens, pos) == Ok::<_, ParseErrorView>((node, pos + statement_tokens(node).len())),
        statement(tokens, pos) == block(tokens, pos),
        pos < pos + statement_tokens(node).len() <= tokens.len(),
    decreases node, 1nat,
{
    match node {
        NodeView::Block(list) => {
            let open = seq![TokenView::LeftBrace];
            let inner = statements_tokens(list, 0);
            let close = seq![TokenView::RightBrace];
            let end = pos + 1 + inner.len();
            lemma_stands_apart(tokens, pos, open + inner, close);
            lemma_stands_apart(tokens, pos, open, inner);
            assert(tokens[(pos + 0) as int] == open[0]);
            assert(tokens[(end + 0) as int] == close[0]);
            lemma_statements_parse(list, 0, tokens, pos + 1, true);
            assert(list.skip(0) =~= list);
            lemma_block_unfolded(tokens, pos, list, end + 1);
        },
        _ => {},
    }
}

/// The grammar reads the tokens of statements back as the statements: in a
/// block (`nested`) up to the `}` that must follow them, at the top level up
/// to the `Eof` that must.
pub proof fn lemma_statements_parse(
    list: Seq<NodeView>,
    i: nat,
    tokens: Seq<TokenView>,
    pos: nat,
    nested: bool,
)
    requires
        forall|k: int| 0 <= k < list.len() ==> is_statement(#[trigger] list[k]),
        i <= list.len(),
        stands_at(tokens, pos, statements_tokens(list, i)),
        token_at(tokens, pos + statements_tokens(list, i).len()) == (if nested {
            TokenView::RightBrace
        } else {
            TokenView::Eof
        }),
    ensures
        statements(tokens, pos, nested) == Ok::<_, ParseErrorView>(
            (
                list.skip(i as int),
                if nested {
                    pos + statements_tokens(list, i).len() + 1
                } else {
                    pos + statements_tokens(list, i).len()
                },
            ),
        ),
    decreases list, list.len() - i,
{
    if i >= list.len() {
        assert(list.skip(i as int) =~= Seq::<NodeView>::empty());
        if nested {
            lemma_statements_end(tokens, pos);
        } else {
            lemma_top_statements_end(tokens, pos);
        }
    } else {
        let node = list[i as int];
        let one = statement_tokens(node);
        let rest = statements_tokens(list, i + 1);
        let next = pos + one.len();
        lemma_stands_apart(tokens, pos, one, rest);
        lemma_statement_first_token(node);
        assert(tokens[(pos + 0) as int] == one[0]);
        if i + 1 < list.len() {
            lemma_statement_first_token(list[(i + 1) as int]);
            let second = statement_tokens(list[(i + 1) as int]);
            assert(rest[0] == second[0]);
            assert(tokens[(next + 0) as int] == rest[0]);
        } else {
            assert(rest =~= Seq::<TokenView>::empty());
        }
        lemma_statement_parses(node, tokens, pos);
        lemma_statements_parse(list, i + 1, tokens, next, nested);
        lemma_statements_unfolded(tokens, pos, nested, node, next);
        assert(seq![node] + list.skip((i + 1) as int) =~= list.skip(i as int));
    }
}

/// The grammar reads the tokens of an `if` statement back as the
/// statement.
proof fn lemma_if_parses(node: NodeView, tokens: Seq<TokenView>, pos: nat)
    requires
        node is If,
        is_statement(node),
        stands_at(tokens, pos, statement_tokens(node)),
        closes(node, token_at(tokens, pos + statement_tokens(node).len())),
    ensures
        statement(tokens, pos) == Ok::<_, ParseErrorView>((node, pos + statement_tokens(node).len())),
    decreases node, 2nat,
{
    match node {
        NodeView::If { condition, then_block, else_block } => {
            let head = seq![TokenView::If];
            let test = expression_tokens(*condition);
            let first = statement_tokens(*then_block);
            let other = match else_block {
                Some(block) => seq![TokenView::Else] + statement_tokens(*block),
                None => Seq::empty(),
            };
            let a = pos + 1 + test.len();
            let b = a + first.len();
            lemma_stands_apart(tokens, pos, head + test + first, other);
            lemma_stands_apart(tokens, pos, head + test, first);
            lemma_stands_apart(tokens, pos, head, test);
            assert(tokens[(pos + 0) as int] == head[0]);
            lemma_statement_first_token(*then_block);
            assert(tokens[(a + 0) as int] == first[0]);
            lemma_delimiters();
            lemma_expression_parses(*condition, tokens, pos + 1);
            lemma_block_parses(*then_block, tokens, a);
            lemma_conditional_unfolded(tokens, pos, *condition, a);
            match else_block {
                Some(block) => {
                    let second = statement_tokens(*block);
                    lemma_stands_apart(tokens, b, seq![TokenView::Else], second);
                    assert(tokens[(b + 0) as int] == seq![TokenView::Else][0]);
                    lemma_block_parses(*block, tokens, b + 1);
                    lemma_branches_unfolded(
                        tokens,
                        a,
                        *condition,
                        *then_block,
                        b,
                        Some(*block),
                        b + 1 + second.len(),
                    );
                },
                None => {
                    lemma_branches_unfolded(tokens, a, *condition, *then_block, b, None, b);
                },
            }
        },
        _ => {},
    }
}

/// The grammar reads the tokens of a `while` statement back as the
/// statement.
proof fn lemma_while_parses(node: NodeView, tokens: Seq<TokenView>, pos: nat)
    requires
        node is While,
        is_statement(node),
        stands_at(tokens, pos, statement_tokens(node)),
    ensures
        statement(tokens, pos) == Ok::<_, ParseErrorView>((node, pos + statement_tokens(node).len())),
    decreases node, 2nat,
{
    match node {
        NodeView::While { condition, body } => {
            let head = seq![TokenView::While];
            let test = expression_tokens(*condition);
            let inner = statement_tokens(*body);
            let a = pos + 1 + test.len();
            lemma_stands_apart(tokens, pos, head + test, inner);
            lemma_stands_apart(tokens, pos, head, test);
            assert(tokens[(pos + 0) as int] == head[0]);
            lemma_statement_first_token(*body);
            assert(tokens[(a + 0) as int] == inner[0]);
            lemma_delimiters();
            lemma_expression_parses(*condition, tokens, pos + 1);
            lemma_block_parses(*body, tokens, a);
            lemma_while_unfolded(tokens, pos, *condition, a, *body, a + inner.len());
        },
        _ => {},
    }
}

/// The grammar reads the tokens of a function declaration back as the
/// declaration.
proof fn lemma_function_parses(node: NodeView, tokens: Seq<TokenView>, pos: nat)
    requires
        node is FunctionDecl,
        is_statement(node),
        stands_at(tokens, pos, statement_tokens(node)),
    ensures
        statement(tokens, pos) == Ok::<_, ParseErrorView>((node, pos + statement_tokens(node).len())),
    decreases node, 2nat,
{
    match node {
        NodeView::FunctionDecl { name, params, body } => {
            let head = seq![
                TokenView::Identifier(name),
                TokenView::Colon,
                TokenView::Void,
                TokenView::LeftParen,
            ];
            let listed = parameters_tokens(params, 0);
            let inner = statement_tokens(*body);
            let a = pos + 4 + listed.len();
            lemma_stands_apart(tokens, pos, head + listed, inner);
            lemma_stands_apart(tokens, pos, head, listed);
            assert(tokens[(pos + 0) as int] == head[0]);
            assert(tokens[(pos + 1) as int] == head[1]);
            assert(tokens[(pos + 2) as int] == head[2]);
            assert(tokens[(pos + 3) as int] == head[3]);
            lemma_all_parameters_parse(params, tokens, pos + 4);
            lemma_block_parses(*body, tokens, a);
            lemma_function_decl_unfolded(tokens, pos, name, params, a, *body, a + inner.len());
            lemma_statement_is_function_decl(tokens, pos);
        },
        _ => {},
    }
}

/// Where the parts of a `for` statement stand among its tokens.
proof fn lemma_for_parts(
    init: NodeView,
    condition: NodeView,
    name: Seq<char>,
    value: NodeView,
    body: NodeView,
    tokens: Seq<TokenView>,
    pos: nat,
)
    requires
        stands_at(
            tokens,
            pos,
            statement_tokens(
                NodeView::For {
                    init: Box::new(init),
                    condition: Box::new(condition),
                    update: Box::new(NodeView::Assign { name, value: Box::new(value) }),
                    body: Box::new(body),
                },
            ),
        ),
    ensures
        ({
            let a = pos + 2 + statement_tokens(init).len();
            let b = a + expression_tokens(condition).len();
            let c = b + 3 + expression_tokens(value).len();
            &&& token_at(tokens, pos) == TokenView::For
            &&& token_at(tokens, pos + 1) == TokenView::LeftParen
            &&& stands_at(tokens, pos + 2, statement_tokens(init))
            &&& stands_at(tokens, a, expression_tokens(condition))
            &&& token_at(tokens, b) == TokenView::Semicolon
            &&& token_at(tokens, b + 1) == TokenView::Identifier(name)
            &&& token_at(tokens, b + 2) == TokenView::Assign
            &&& stands_at(tokens, b + 3, expression_tokens(value))
            &&& token_at(tokens, c) == TokenView::RightParen
            &&& stands_at(tokens, c + 1, statement_tokens(body))
            &&& c + 1 + statement_tokens(body).len() == pos + statement_tokens(
                NodeView::For {
                    init: Box::new(init),
                    condition: Box::new(condition),
                    update: Box::new(NodeView::Assign { name, value: Box::new(value) }),
                    body: Box::new(body),
                },
            ).len()
        }),
{
    let head = seq![TokenView::For, TokenView::LeftParen];
    let first = statement_tokens(init);
    let test = expression_tokens(condition);
    let semi = seq![TokenView::Semicolon];
    let start = seq![TokenView::Identifier(name), TokenView::Assign];
    let written = expression_tokens(value);
    let step = assignment_tokens(name, value);
    let close = seq![TokenView::RightParen];
    let inner = statement_tokens(body);
    let a = pos + 2 + first.len();
    let b = a + test.len();
    let c = b + 3 + written.len();
    lemma_stands_apart(tokens, pos, head + first + test + semi + step + close, inner);
    lemma_stands_apart(tokens, pos, head + first + test + semi + step, close);
    lemma_stands_apart(tokens, pos, head + first + test + semi, step);
    lemma_stands_apart(tokens, pos, head + first + test, semi);
    lemma_stands_apart(tokens, pos, head + first, test);
    lemma_stands_apart(tokens, pos, head, first);
    lemma_stands_apart(tokens, b + 1, start, written);
    assert(tokens[(pos + 0) as int] == head[0]);
    assert(tokens[(pos + 1) as int] == head[1]);
    assert(tokens[(b + 0) as int] == semi[0]);
    assert(tokens[(b + 1 + 0) as int] == start[0]);
    assert(tokens[(b + 1 + 1) as int] == start[1]);
    assert(tokens[(c + 0) as int] == close[0]);
}

/// The grammar reads the end of a `for` statement back: the update, `)` and
/// the body.
proof fn lemma_for_end_parses(
    init: NodeView,
    condition: NodeView,
    name: Seq<char>,
    value: NodeView,
    body: NodeView,
    tokens: Seq<TokenView>,
    pos: nat,
)
    requires
        is_expression(value),
        body is Block,
        is_statement(body),
        token_at(tokens, pos) == TokenView::Identifier(name),
        token_at(tokens, pos + 1) == TokenView::Assign,
        stands_at(tokens, pos + 2, expression_tokens(value)),
        token_at(tokens, pos + 2 + expression_tokens(value).len()) == TokenView::RightParen,
        stands_at(tokens, pos + 3 + expression_tokens(value).len(), statement_tokens(body)),
    ensures
        for_update(tokens, pos, init, condition) == Ok::<_, ParseErrorView>(
            (
                NodeView::For {
                    init: Box::new(init),
                    condition: Box::new(condition),
                    update: Box::new(NodeView::Assign { name, value: Box::new(value) }),
                    body: Box::new(body),
                },
                pos + 3 + expression_tokens(value).len() + statement_tokens(body).len(),
            ),
        ),
    decreases body, 2nat,
{
    let c = pos + 2 + expression_tokens(value).len();
    lemma_delimiters();
    lemma_expression_parses(value, tokens, pos + 2);
    lemma_assignment_unfolded(tokens, pos, false, name, value, c);
    lemma_block_parses(body, tokens, c + 1);
    lemma_for_update_unfolded(
        tokens,
        pos,
        init,
        condition,
        NodeView::Assign { name, value: Box::new(value) },
        c,
        body,
        c + 1 + statement_tokens(body).len(),
    );
}

/// An assignment that is a statement assigns an expression.
proof fn lemma_assignment_shape(name: Seq<char>, value: NodeView)
    requires
        is_statement(NodeView::Assign { name, value: Box::new(value) }),
    ensures
        is_expression(value),
{
}

/// The grammar reads the first statement of a `for` back.
proof fn lemma_for_init_parses(init: NodeView, tokens: Seq<TokenView>, pos: nat)
    requires
        init is VarDecl || init is Assign,
        is_statement(init),
        stands_at(tokens, pos, statement_tokens(init)),
    ensures
        for_init(tokens, pos) == Ok::<_, ParseErrorView>((init, pos + statement_tokens(init).len())),
        pos < pos + statement_tokens(init).len() <= tokens.len(),
{
    lemma_statement_first_token(init);
    lemma_for_init_unfolded(tokens, pos);
    if init is VarDecl {
        lemma_var_decl_parses(init, tokens, pos);
    } else {
        lemma_assignment_parses(init, tokens, pos);
    }
}

/// The grammar reads a `for` statement back from its parts.
proof fn lemma_for_from_parts(
    init: NodeView,
    condition: NodeView,
    update: NodeView,
    body: NodeView,
    tokens: Seq<TokenView>,
    pos: nat,
    a: nat,
    b: nat,
    end: nat,
)
    requires
        token_at(tokens, pos) == TokenView::For,
        token_at(tokens, pos + 1) == TokenView::LeftParen,
        for_init(tokens, pos + 2) == Ok::<_, ParseErrorView>((init, a)),
        pos + 2 < a <= tokens.len(),
        expression(tokens, a) == Ok::<_, ParseErrorView>((condition, b)),
        a < b <= tokens.len(),
        token_at(tokens, b) == TokenView::Semicolon,
        for_update(tokens, b + 1, init, condition) == Ok::<_, ParseErrorView>(
            (
                NodeView::For {
                    init: Box::new(init),
                    condition: Box::new(condition),
                    update: Box::new(update),
                    body: Box::new(body),
                },
                end,
            ),
        ),
    ensures
        statement(tokens, pos) == Ok::<_, ParseErrorView>(
            (
                NodeView::For {
                    init: Box::new(init),
                    condition: Box::new(condition),
                    update: Box::new(update),
                    body: Box::new(body),
                },
                end,
            ),
        ),
{
    lemma_for_unfolded(tokens, pos, init, a);
    lemma_for_condition_unfolded(tokens, a, init, condition, b);
}

/// The grammar reads the tokens of a `for` statement back as the
/// statement.
proof fn lemma_for_parses(node: NodeView, tokens: Seq<TokenView>, pos: nat)
    requires
        node is For,
        is_statement(node),
        stands_at(tokens, pos, statement_tokens(node)),
    ensures
        statement(tokens, pos) == Ok::<_, ParseErrorView>((node, pos + statement_tokens(node).len())),
    decreases node, 3nat,
{
    match node {
        NodeView::For { init, condition, update, body } => {
            match *update {
                NodeView::Assign { name, value } => {
                    let a = pos + 2 + statement_tokens(*init).len();
                    let b = a + expression_tokens(*condition).len();
                    let end = pos + statement_tokens(node).len();
                    lemma_for_parts(*init, *condition, name, *value, *body, tokens, pos);
                    lemma_delimiters();
                    lemma_assignment_shape(name, *value);
                    lemma_for_init_parses(*init, tokens, pos + 2);
                    lemma_expression_parses(*condition, tokens, a);
                    lemma_for_end_parses(*init, *condition, name, *value, *body, tokens, b + 1);
                    lemma_for_from_parts(
                        *init,
                        *condition,
                        *update,
                        *body,
                        tokens,
                        pos,
                        a,
                        b,
                        end,
                    );
                },
                _ => {},
            }
        },
        _ => {},
    }
}

/// A program written as tokens: its statements one after the other.
pub open spec fn program_tokens(list: Seq<NodeView>) -> Seq<TokenView> {
    statements_tokens(list, 0)
}

/// Every program is the parse of its own tokens: the statements of a
/// program, written as tokens, are read back by the grammar as the program.
pub proof fn program_is_parse_of_its_tokens(list: Seq<NodeView>)
    requires
        forall|k: int| 0 <= k < list.len() ==> is_statement(#[trigger] list[k]),
    ensures
        program(program_tokens(list)) == Ok::<NodeView, ParseErrorView>(NodeView::Program(list)),
{
    let tokens = program_tokens(list);
    lemma_statements_parse(list, 0, tokens, 0, false);
    assert(list.skip(0) =~= list);
}

/// What the grammar reads as an expression is an expression all the way down.
pub proof fn lemma_expression_shape(tokens: Seq<TokenView>, pos: nat)
    ensures
        expression(tokens, pos) matches Ok((node, _)) ==> is_expression(node),
    decreases tokens.len() - pos, 9nat,
{
    lemma_binary_shape(tokens, pos, 0);
}

proof fn lemma_binary_shape(tokens: Seq<TokenView>, pos: nat, level: nat)
    ensures
        binary(tokens, pos, level) matches Ok((node, _)) ==> is_expression(node),
    decreases tokens.len() - pos, if level < 6 {
            8 - level
        } else {
            2
        },
{
    if level >= levels() {
        lemma_unary_shape(tokens, pos);
    } else {
        lemma_binary_shape(tokens, pos, level + 1);
        match checked(tokens, pos, binary(tokens, pos, level + 1)) {
            Ok((left, next)) => {
                lemma_binary_rest_shape(tokens, next, level, left);
            },
            Err(_) => {},
        }
    }
}

proof fn lemma_binary_rest_shape(tokens: Seq<TokenView>, pos: nat, level: nat, left: NodeView)
    requires
        is_expression(left),
    ensures
        binary_rest(tokens, pos, level, left) matches Ok((node, _)) ==> is_expression(node),
    decreases tokens.len() - pos, 0nat,
{
    match binary_operator(level, token_at(tokens, pos)) {
        Some(op) => {
            lemma_binary_shape(tokens, pos + 1, level + 1);
            match checked(tokens, pos + 1, binary(tokens, pos + 1, level + 1)) {
                Ok((right, next)) => {
                    lemma_binary_rest_shape(
                        tokens,
                        next,
                        level,
                        NodeView::BinaryOp { op, left: Box::new(left), right: Box::new(right) },
                    );
                },
                Err(_) => {},
            }
        },
        None => {},
    }
}

proof fn lemma_unary_shape(tokens: Seq<TokenView>, pos: nat)
    ensures
        unary(tokens, pos) matches Ok((node, _)) ==> is_expression(node),
    decreases tokens.len() - pos, 1nat,
{
    match unary_operator(token_at(tokens, pos)) {
        Some(_) => {
            lemma_unary_shape(tokens, pos + 1);
        },
        None => {
            lemma_primary_shape(tokens, pos);
        },
    }
}

proof fn lemma_primary_shape(tokens: Seq<TokenView>, pos: nat)
    ensures
        primary(tokens, pos) matches Ok((node, _)) ==> is_expression(node),
    decreases tokens.len() - pos, 0nat,
{
    match token_at(tokens, pos) {
        TokenView::Identifier(_) => {
            if token_at(tokens, pos + 1) == TokenView::LeftParen {
                lemma_arguments_shape(tokens, pos + 2);
            }
        },
        TokenView::LeftParen => {
            lemma_expression_shape(tokens, pos + 1);
        },
        _ => {},
    }
}

proof fn lemma_arguments_shape(tokens: Seq<TokenView>, pos: nat)
    ensures
        arguments(tokens, pos) matches Ok((list, _)) ==> forall|i: int|
            0 <= i < list.len() ==> is_expression(#[trigger] list[i]),
    decreases tokens.len() - pos, 11nat,
{
    if token_at(tokens, pos) != TokenView::RightParen {
        lemma_argument_list_shape(tokens, pos);
    }
}

proof fn lemma_argument_list_shape(tokens: Seq<TokenView>, pos: nat)
    ensures
        argument_list(tokens, pos) matches Ok((list, _)) ==> forall|i: int|
            0 <= i < list.len() ==> is_expression(#[trigger] list[i]),
    decreases tokens.len() - pos, 10nat,
{
    lemma_expression_shape(tokens, pos);
    match checked(tokens, pos, expression(tokens, pos)) {
        Ok((argument, next)) => {
            if token_at(tokens, next) == TokenView::Comma {
                lemma_argument_list_shape(tokens, next + 1);
                match argument_list(tokens, next + 1) {
                    Ok((rest, _)) => {
                        let list = seq![argument] + rest;
                        assert forall|i: int| 0 <= i < list.len() implies is_expression(
                            #[trigger] list[i],
                        ) by {
                            if i > 0 {
                                assert(list[i] == rest[i - 1]);
                            }
                        }
                    },
                    Err(_) => {},
                }
            }
        },
        Err(_) => {},
    }
}

proof fn lemma_var_decl_shape(tokens: Seq<TokenView>, pos: nat)
    ensures
        var_decl(tokens, pos) matches Ok((node, _)) ==> node is VarDecl && is_statement(node),
    decreases tokens.len() - pos, 10nat,
{
    if token_at(tokens, pos) is Identifier && token_at(tokens, pos + 1) == TokenView::Colon
        && named_type(token_at(tokens, pos + 2)) is Some && token_at(tokens, pos + 3)
        == TokenView::Assign {
        lemma_expression_shape(tokens, pos + 4);
    }
}

proof fn lemma_assignment_shape_of(tokens: Seq<TokenView>, pos: nat, closed: bool)
    ensures
        assignment(tokens, pos, closed) matches Ok((node, _)) ==> node is Assign && is_statement(node),
    decreases tokens.len() - pos, 10nat,
{
    if token_at(tokens, pos) is Identifier && token_at(tokens, pos + 1) == TokenView::Assign {
        lemma_expression_shape(tokens, pos + 2);
    }
}

proof fn lemma_function_decl_shape(tokens: Seq<TokenView>, pos: nat)
    ensures
        function_decl(tokens, pos) matches Ok((node, _)) ==> is_statement(node),
    decreases tokens.len() - pos, 10nat,
{
    if token_at(tokens, pos) is Identifier && token_at(tokens, pos + 1) == TokenView::Colon
        && token_at(tokens, pos + 2) == TokenView::Void && token_at(tokens, pos + 3)
        == TokenView::LeftParen {
        crate::grammar::lemma_parameters_advance(tokens, pos + 4);
        match parameters(tokens, pos + 4) {
            Ok((_, next)) => {
                lemma_block_shape(tokens, next);
            },
            Err(_) => {},
        }
    }
}

proof fn lemma_block_shape(tokens: Seq<TokenView>, pos: nat)
    ensures
        block(tokens, pos) matches Ok((node, _)) ==> node is Block && is_statement(node),
    decreases tokens.len() - pos, 13nat,
{
    if token_at(tokens, pos) == TokenView::LeftBrace {
        lemma_statements_shape(tokens, pos + 1, true);
    }
}

proof fn lemma_for_init_shape(tokens: Seq<TokenView>, pos: nat)
    ensures
        for_init(tokens, pos) matches Ok((node, _)) ==> (node is VarDecl || node is Assign) && is_statement(node),
    decreases tokens.len() - pos, 11nat,
{
    if token_at(tokens, pos + 1) == TokenView::Colon {
        lemma_var_decl_shape(tokens, pos);
    } else {
        lemma_assignment_shape_of(tokens, pos, true);
    }
}

proof fn lemma_expression_statement_shape(tokens: Seq<TokenView>, pos: nat)
    ensures
        expression_statement(tokens, pos) matches Ok((node, _)) ==> is_expression(node),
    decreases tokens.len() - pos, 12nat,
{
    lemma_expression_shape(tokens, pos);
}

proof fn lemma_conditional_shape(tokens: Seq<TokenView>, pos: nat)
    ensures
        conditional(tokens, pos) matches Ok((node, _)) ==> node is If && is_statement(node),
    decreases tokens.len() - pos, 12nat,
{
    lemma_expression_shape(tokens, pos);
    match checked(tokens, pos, expression(tokens, pos)) {
        Ok((condition, next)) => {
            lemma_branches_shape(tokens, next, condition);
        },
        Err(_) => {},
    }
}

proof fn lemma_branches_shape(tokens: Seq<TokenView>, pos: nat, condition: NodeView)
    requires
        is_expression(condition),
    ensures
        branches(tokens, pos, condition) matches Ok((node, _)) ==> node is If && is_statement(node),
    decreases tokens.len() - pos, 14nat,
{
    lemma_block_shape(tokens, pos);
    match checked(tokens, pos, block(tokens, pos)) {
        Ok((_, next)) => {
            if token_at(tokens, next) == TokenView::Else {
                lemma_block_shape(tokens, next + 1);
            }
        },
        Err(_) => {},
    }
}

proof fn lemma_while_loop_shape(tokens: Seq<TokenView>, pos: nat)
    ensures
        while_loop(tokens, pos) matches Ok((node, _)) ==> node is While && is_statement(node),
    decreases tokens.len() - pos, 12nat,
{
    lemma_expression_shape(tokens, pos);
    match checked(tokens, pos, expression(tokens, pos)) {
        Ok((_, next)) => {
            lemma_block_shape(tokens, next);
        },
        Err(_) => {},
    }
}

proof fn lemma_for_loop_shape(tokens: Seq<TokenView>, pos: nat)
    ensures
        for_loop(tokens, pos) matches Ok((node, _)) ==> node is For && is_statement(node),
    decreases tokens.len() - pos, 12nat,
{
    if token_at(tokens, pos) == TokenView::LeftParen {
        lemma_for_init_shape(tokens, pos + 1);
        match checked(tokens, pos + 1, for_init(tokens, pos + 1)) {
            Ok((init, next)) => {
                lemma_for_condition_shape(tokens, next, init);
            },
            Err(_) => {},
        }
    }
}

proof fn lemma_for_condition_shape(tokens: Seq<TokenView>, pos: nat, init: NodeView)
    requires
        (init is VarDecl || init is Assign) && is_statement(init),
    ensures
        for_condition(tokens, pos, init) matches Ok((node, _)) ==> node is For && is_statement(node),
    decreases tokens.len() - pos, 12nat,
{
    lemma_expression_shape(tokens, pos);
    match checked(tokens, pos, expression(tokens, pos)) {
        Ok((condition, next)) => {
            if token_at(tokens, next) == TokenView::Semicolon {
                lemma_for_update_shape(tokens, next + 1, init, condition);
            }
        },
        Err(_) => {},
    }
}

proof fn lemma_for_update_shape(tokens: Seq<TokenView>, pos: nat, init: NodeView, condition: NodeView)
    requires
        (init is VarDecl || init is Assign) && is_statement(init) && is_expression(condition),
    ensures
        for_update(tokens, pos, init, condition) matches Ok((node, _)) ==> node is For && is_statement(node),
    decreases tokens.len() - pos, 12nat,
{
    lemma_assignment_shape_of(tokens, pos, false);
    match checked(tokens, pos, assignment(tokens, pos, false)) {
        Ok((_, next)) => {
            if token_at(tokens, next) == TokenView::RightParen {
                lemma_block_shape(tokens, next + 1);
            }
        },
        Err(_) => {},
    }
}

/// What the grammar reads as a statement is a statement all the way down.
pub proof fn lemma_statement_shape(tokens: Seq<TokenView>, pos: nat)
    ensures
        statement(tokens, pos) matches Ok((node, _)) ==> is_statement(node),
    decreases tokens.len() - pos, 14nat,
{
    match token_at(tokens, pos) {
        TokenView::Print => {
            lemma_expression_shape(tokens, pos + 1);
        },
        TokenView::Return => {
            lemma_expression_shape(tokens, pos + 1);
        },
        TokenView::If => {
            lemma_conditional_shape(tokens, pos + 1);
        },
        TokenView::While => {
            lemma_while_loop_shape(tokens, pos + 1);
        },
        TokenView::For => {
            lemma_for_loop_shape(tokens, pos + 1);
        },
        TokenView::LeftBrace => {
            lemma_block_shape(tokens, pos);
        },
        TokenView::Identifier(_) => {
            if token_at(tokens, pos + 1) == TokenView::Colon {
                if token_at(tokens, pos + 2) == TokenView::Void && token_at(tokens, pos + 3)
                    == TokenView::LeftParen {
                    lemma_function_decl_shape(tokens, pos);
                } else {
                    lemma_var_decl_shape(tokens, pos);
                }
            } else if token_at(tokens, pos + 1) == TokenView::Assign {
                lemma_assignment_shape_of(tokens, pos, true);
            } else {
                lemma_expression_statement_shape(tokens, pos);
            }
        },
        _ => {
            lemma_expression_statement_shape(tokens, pos);
        },
    }
}

proof fn lemma_statements_shape(tokens: Seq<TokenView>, pos: nat, nested: bool)
    ensures
        statements(tokens, pos, nested) matches Ok((list, _)) ==> forall|i: int|
            0 <= i < list.len() ==> is_statement(#[trigger] list[i]),
    decreases tokens.len() - pos, 15nat,
{
    let token = token_at(tokens, pos);
    if nested && token == TokenView::RightBrace {
    } else if token == TokenView::Eof {
    } else {
        lemma_statement_shape(tokens, pos);
        match checked(tokens, pos, statement(tokens, pos)) {
            Ok((node, next)) => {
                lemma_statements_shape(tokens, next, nested);
                match statements(tokens, next, nested) {
                    Ok((rest, _)) => {
                        let list = seq![node] + rest;
                        assert forall|i: int| 0 <= i < list.len() implies is_statement(
                            #[trigger] list[i],
                        ) by {
                            if i > 0 {
                                assert(list[i] == rest[i - 1]);
                            }
                        }
                    },
                    Err(_) => {},
                }
            },
            Err(_) => {},
        }
    }
}

/// The parser builds what it can read: the program that the grammar reads
/// from whatever tokens is made of statements as the grammar knows them, and
/// so is the parse of its own tokens too.
pub proof fn parsed_program_is_parse_of_its_tokens(tokens: Seq<TokenView>)
    ensures
        program(tokens) matches Ok(tree) ==> tree matches NodeView::Program(list) && (forall|
            i: int,
        |
            0 <= i < list.len() ==> is_statement(#[trigger] list[i])) && program(
            program_tokens(list),
        ) == program(tokens),
{
    lemma_statements_shape(tokens, 0, false);
    match statements(tokens, 0, false) {
        Ok((list, _)) => {
            program_is_parse_of_its_tokens(list);
        },
        Err(_) => {},
    }
}

} // verus!
