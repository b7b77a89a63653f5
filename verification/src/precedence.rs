//! Tighter operators bind first, and equal ones from the left.
//!
//! For three operands joined by two binary operators, the grammar groups the
//! operands of the tighter operator; where both bind alike, it groups the
//! left two.

use vstd::prelude::*;
use crate::ast::{BinaryOperator, NodeView};
use crate::grammar::{
    binary, binary_operator, binary_rest, expression, levels, primary, token_at, unary,
    unary_operator,
};
use crate::token::TokenView;

verus! {

/// The node that a token is by itself, if it is a literal or an identifier.
pub open spec fn atom(token: TokenView) -> Option<NodeView> {
    match token {
        TokenView::Integer(i) => Some(NodeView::IntLiteral(i)),
        TokenView::CFloat(text) => Some(NodeView::FloatLiteral(text)),
        TokenView::String(text) => Some(NodeView::StringLiteral(text)),
        TokenView::Boolean(b) => Some(NodeView::BoolLiteral(b)),
        TokenView::Identifier(name) => Some(NodeView::Identifier(name)),
        _ => None,
    }
}

/// Whether `token` is a binary operator on some level from `low` up.
pub open spec fn operates_from(low: nat, token: TokenView) -> bool {
    exists|level: nat| low <= level && (#[trigger] binary_operator(level, token)) is Some
}

/// `left op right`.
pub open spec fn joined(op: BinaryOperator, left: NodeView, right: NodeView) -> NodeView {
    NodeView::BinaryOp { op, left: Box::new(left), right: Box::new(right) }
}

/// An operator stands on one level only, and none stands above the last.
pub proof fn lemma_one_level(token: TokenView, level: nat, other: nat)
    requires
        binary_operator(level, token) is Some,
    ensures
        level < levels(),
        other != level ==> binary_operator(other, token) is None,
        !(unary_operator(token) is Some) || token == TokenView::Minus,
        atom(token) is None,
        token != TokenView::LeftParen,
{
}

/// Where no operator of the level stands, what has been read of that level
/// is all of it.
pub proof fn lemma_rest_ends(tokens: Seq<TokenView>, pos: nat, level: nat, left: NodeView)
    requires
        binary_operator(level, token_at(tokens, pos)) is None,
    ensures
        binary_rest(tokens, pos, level, left) == Ok::<_, crate::grammar::ParseErrorView>(
            (left, pos),
        ),
{
}

/// Where an operator of the level stands, the operand behind it joins what
/// has been read, and the rest of the level follows.
pub proof fn lemma_rest_goes_on(
    tokens: Seq<TokenView>,
    pos: nat,
    level: nat,
    left: NodeView,
    op: BinaryOperator,
    right: NodeView,
    next: nat,
)
    requires
        binary_operator(level, token_at(tokens, pos)) == Some(op),
        binary(tokens, pos + 1, level + 1) == Ok::<_, crate::grammar::ParseErrorView>(
            (right, next),
        ),
        pos + 1 < next <= tokens.len(),
    ensures
        binary_rest(tokens, pos, level, left) == binary_rest(
            tokens,
            next,
            level,
            joined(op, left, right),
        ),
{
}

/// The expression of a level is its first operand and the rest of the
/// level.
pub proof fn lemma_level(tokens: Seq<TokenView>, pos: nat, level: nat, left: NodeView, next: nat)
    requires
        level < levels(),
        binary(tokens, pos, level + 1) == Ok::<_, crate::grammar::ParseErrorView>((left, next)),
        pos < next <= tokens.len(),
    ensures
        binary(tokens, pos, level) == binary_rest(tokens, next, level, left),
{
}

/// Above the last level an expression is an operand.
pub proof fn lemma_top_level(tokens: Seq<TokenView>, pos: nat, level: nat)
    requires
        level >= levels(),
    ensures
        binary(tokens, pos, level) == unary(tokens, pos),
{
}

/// An operand that is followed by no operator of the levels from `level`
/// up is also the expression of that level.
pub proof fn lemma_operand_alone(
    tokens: Seq<TokenView>,
    pos: nat,
    level: nat,
    node: NodeView,
    end: nat,
)
    requires
        unary(tokens, pos) == Ok::<_, crate::grammar::ParseErrorView>((node, end)),
        pos < end <= tokens.len(),
        !operates_from(level, token_at(tokens, end)),
    ensures
        binary(tokens, pos, level) == Ok::<_, crate::grammar::ParseErrorView>((node, end)),
    decreases levels() - level,
{
    if level < levels() {
        assert(!operates_from(level + 1, token_at(tokens, end))) by {
            if operates_from(level + 1, token_at(tokens, end)) {
                let l = choose|l: nat|
                    level + 1 <= l && (#[trigger] binary_operator(l, token_at(tokens, end)))
                        is Some;
                assert(level <= l && binary_operator(l, token_at(tokens, end)) is Some);
            }
        }
        lemma_operand_alone(tokens, pos, level + 1, node, end);
        assert(binary_operator(level, token_at(tokens, end)) is None) by {
            if binary_operator(level, token_at(tokens, end)) is Some {
                assert(operates_from(level, token_at(tokens, end)));
            }
        }
        lemma_level(tokens, pos, level, node, end);
        lemma_rest_ends(tokens, end, level, node);
    } else {
        lemma_top_level(tokens, pos, level);
    }
}

/// An expression of one level that is followed by no operator of the looser
/// levels down to `low` is also the expression of that level.
pub proof fn lemma_looser_levels(
    tokens: Seq<TokenView>,
    pos: nat,
    level: nat,
    low: nat,
    node: NodeView,
    end: nat,
)
    requires
        low <= level <= levels(),
        binary(tokens, pos, level) == Ok::<_, crate::grammar::ParseErrorView>((node, end)),
        pos < end <= tokens.len(),
        forall|l: nat| low <= l < level ==> (#[trigger] binary_operator(l, token_at(tokens, end)))
            is None,
    ensures
        binary(tokens, pos, low) == Ok::<_, crate::grammar::ParseErrorView>((node, end)),
    decreases level - low,
{
    if low < level {
        lemma_looser_levels(tokens, pos, level, low + 1, node, end);
        assert(binary_operator(low, token_at(tokens, end)) is None);
        lemma_level(tokens, pos, low, node, end);
        lemma_rest_ends(tokens, end, low, node);
    }
}

/// A literal or an identifier that is followed by an operator or by a token
/// that is no `(` is an operand.
pub proof fn lemma_atom(tokens: Seq<TokenView>, pos: nat, node: NodeView)
    requires
        pos < tokens.len(),
        atom(tokens[pos as int]) == Some(node),
        token_at(tokens, pos + 1) != TokenView::LeftParen,
    ensures
        unary(tokens, pos) == Ok::<_, crate::grammar::ParseErrorView>((node, pos + 1)),
{
    assert(primary(tokens, pos) == Ok::<_, crate::grammar::ParseErrorView>((node, pos + 1)));
}

/// How the grammar groups `x p y q z`, where `p` stands on level `first`
/// and `q` on level `second`: `q` takes `y` if it binds tighter than `p`,
/// else `p` does.
pub open spec fn grouped(
    first: nat,
    p: BinaryOperator,
    second: nat,
    q: BinaryOperator,
    x: NodeView,
    y: NodeView,
    z: NodeView,
) -> NodeView {
    if second > first {
        joined(p, x, joined(q, y, z))
    } else {
        joined(q, joined(p, x, y), z)
    }
}

/// Tighter operators bind first, and equal ones from the left: three
/// literals or identifiers joined by two binary operators, and followed by a
/// token that is neither a binary operator nor `(`, are grouped as
/// [`grouped`] says.
pub proof fn tighter_binds_first(
    tokens: Seq<TokenView>,
    first: nat,
    p: BinaryOperator,
    second: nat,
    q: BinaryOperator,
    x: NodeView,
    y: NodeView,
    z: NodeView,
)
    requires
        tokens.len() >= 5,
        atom(tokens[0]) == Some(x),
        binary_operator(first, tokens[1]) == Some(p),
        atom(tokens[2]) == Some(y),
        binary_operator(second, tokens[3]) == Some(q),
        atom(tokens[4]) == Some(z),
        !operates_from(0, token_at(tokens, 5)),
        token_at(tokens, 5) != TokenView::LeftParen,
    ensures
        expression(tokens, 0) == Ok::<_, crate::grammar::ParseErrorView>(
            (grouped(first, p, second, q, x, y, z), 5nat),
        ),
{
    let end = token_at(tokens, 5);
    assert(token_at(tokens, 1) == tokens[1] && token_at(tokens, 3) == tokens[3]);
    lemma_one_level(tokens[1], first, 0);
    lemma_one_level(tokens[3], second, 0);
    lemma_atom(tokens, 0, x);
    lemma_atom(tokens, 2, y);
    lemma_atom(tokens, 4, z);
    assert forall|l: nat| (#[trigger] binary_operator(l, end)) is None by {
        if binary_operator(l, end) is Some {
            assert(operates_from(0, end));
        }
    }
    assert forall|low: nat| !operates_from(low, end) by {
        if operates_from(low, end) {
            let l = choose|l: nat| low <= l && (#[trigger] binary_operator(l, end)) is Some;
            assert(binary_operator(l, end) is None);
        }
    }
    assert forall|l: nat| l != first implies (#[trigger] binary_operator(l, tokens[1])) is None by {
        lemma_one_level(tokens[1], first, l);
    }
    assert forall|l: nat| l != second implies (#[trigger] binary_operator(l, tokens[3]))
        is None by {
        lemma_one_level(tokens[3], second, l);
    }
    assert(!operates_from(first + 1, tokens[1])) by {
        if operates_from(first + 1, tokens[1]) {
            let l = choose|l: nat|
                first + 1 <= l && (#[trigger] binary_operator(l, tokens[1])) is Some;
            assert(binary_operator(l, tokens[1]) is None);
        }
    }
    assert(!operates_from(second + 1, tokens[3])) by {
        if operates_from(second + 1, tokens[3]) {
            let l = choose|l: nat|
                second + 1 <= l && (#[trigger] binary_operator(l, tokens[3])) is Some;
            assert(binary_operator(l, tokens[3]) is None);
        }
    }
    lemma_operand_alone(tokens, 0, first + 1, x, 1);
    if second > first {
        let right = joined(q, y, z);
        lemma_operand_alone(tokens, 2, second + 1, y, 3);
        lemma_operand_alone(tokens, 4, second + 1, z, 5);
        lemma_level(tokens, 2, second, y, 3);
        lemma_rest_goes_on(tokens, 3, second, y, q, z, 5);
        lemma_rest_ends(tokens, 5, second, right);
        lemma_looser_levels(tokens, 2, second, first + 1, right, 5);
        lemma_level(tokens, 0, first, x, 1);
        lemma_rest_goes_on(tokens, 1, first, x, p, right, 5);
        lemma_rest_ends(tokens, 5, first, joined(p, x, right));
        lemma_looser_levels(tokens, 0, first, 0, joined(p, x, right), 5);
    } else {
        let left = joined(p, x, y);
        assert(!operates_from(first + 1, tokens[3])) by {
            if operates_from(first + 1, tokens[3]) {
                let l = choose|l: nat|
                    first + 1 <= l && (#[trigger] binary_operator(l, tokens[3])) is Some;
                assert(binary_operator(l, tokens[3]) is None);
            }
        }
        lemma_operand_alone(tokens, 2, first + 1, y, 3);
        lemma_operand_alone(tokens, 4, second + 1, z, 5);
        lemma_level(tokens, 0, first, x, 1);
        lemma_rest_goes_on(tokens, 1, first, x, p, y, 3);
        if second == first {
            lemma_rest_goes_on(tokens, 3, first, left, q, z, 5);
            lemma_rest_ends(tokens, 5, first, joined(q, left, z));
        } else {
            lemma_rest_ends(tokens, 3, first, left);
            lemma_looser_levels(tokens, 0, first, second + 1, left, 3);
            lemma_level(tokens, 0, second, left, 3);
            lemma_rest_goes_on(tokens, 3, second, left, q, z, 5);
            lemma_rest_ends(tokens, 5, second, joined(q, left, z));
        }
        lemma_looser_levels(tokens, 0, second, 0, joined(q, left, z), 5);
    }
}

} // verus!
