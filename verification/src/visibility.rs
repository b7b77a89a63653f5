//! What is declared in a block is gone when the block ends.
//!
//! Running a node never ends a scope that it did not enter, and never binds
//! a name in a scope other than the innermost. A block, an `if`, a loop and
//! a call run their statements in scopes of their own, so they leave every
//! scope binding the names it bound before.

use vstd::prelude::*;
use crate::ast::{NodeView, ParamView};
use crate::environment::{
    assign, declare, lemma_locate, lemma_position_in, lemma_position_pushed,
    lemma_position_updated, locate, lookup, pop_scope, position_in, push_scope, truncate,
    BindingView, Scope, Scopes,
};
use crate::grammar::statement;
use crate::machine::{argument, bind, find_function};
use crate::semantics::{
    call, eval, for_looping, gather, looping, sequence, settled, Completion, Context, Evaluated,
    Floats,
};
use crate::token::TokenView;
use crate::unparse::{is_expression, lemma_statement_shape};
use crate::value::ValueView;

verus! {

/// Whether `scope` binds `name`.
pub open spec fn binds(scope: Scope, name: Seq<char>) -> bool {
    position_in(scope, name) is Some
}

/// Whether `after` are the scopes `before`, or more, with the same names
/// bound in each but the innermost of `before`, which may bind more.
pub open spec fn grown(before: Scopes, after: Scopes) -> bool {
    &&& before.len() <= after.len()
    &&& forall|j: int, name: Seq<char>|
        0 <= j < before.len() - 1 ==> (#[trigger] binds(after[j], name)) == binds(before[j], name)
    &&& forall|name: Seq<char>|
        before.len() > 0 && binds(before.last(), name) ==> #[trigger] binds(
            after[before.len() - 1],
            name,
        )
}

/// Whether `after` are as many scopes as `before`, with the same names
/// bound in each.
pub open spec fn same_names(before: Scopes, after: Scopes) -> bool {
    &&& before.len() == after.len()
    &&& forall|j: int, name: Seq<char>|
        0 <= j < before.len() ==> (#[trigger] binds(after[j], name)) == binds(before[j], name)
}

/// Declaring a name leaves the scopes as many, binds the name in the
/// innermost, and changes no other name anywhere.
pub proof fn lemma_declare_grows(scopes: Scopes, name: Seq<char>, value: ValueView)
    requires
        scopes.len() > 0,
    ensures
        declare(scopes, name, value).len() == scopes.len(),
        grown(scopes, declare(scopes, name, value)),
        forall|j: int| 0 <= j < scopes.len() - 1 ==> declare(scopes, name, value)[j] == scopes[j],
{
    let binding = BindingView { name, value };
    let top = scopes.last();
    lemma_position_in(top, name);
    assert forall|other: Seq<char>| binds(top, other) implies #[trigger] binds(
        declare(scopes, name, value)[scopes.len() - 1],
        other,
    ) by {
        match position_in(top, name) {
            Some(j) => {
                lemma_position_updated(top, j, binding, other);
            },
            None => {
                lemma_position_pushed(top, binding, other);
            },
        }
    }
}

/// Assigning to a name leaves the scopes as many, with the same names.
pub proof fn lemma_assign_keeps_names(scopes: Scopes, name: Seq<char>, value: ValueView)
    ensures
        assign(scopes, name, value) matches Some(after) ==> same_names(scopes, after),
{
    lemma_locate(scopes, name);
    match locate(scopes, name) {
        Some((i, j)) => {
            let after = scopes.update(i, scopes[i].update(j, BindingView { name, value }));
            assert forall|k: int, other: Seq<char>| 0 <= k < scopes.len() implies (#[trigger] binds(
                after[k],
                other,
            )) == binds(scopes[k], other) by {
                if k == i {
                    lemma_position_updated(scopes[i], j, BindingView { name, value }, other);
                }
            }
        },
        None => {},
    }
}

/// Binding parameters leaves the scopes as many and changes none but the
/// innermost.
pub proof fn lemma_bind_grows(
    scopes: Scopes,
    params: Seq<ParamView>,
    values: Seq<ValueView>,
    i: nat,
)
    requires
        scopes.len() > 0,
    ensures
        bind(scopes, params, values, i).len() == scopes.len(),
        forall|j: int|
            0 <= j < scopes.len() - 1 ==> bind(scopes, params, values, i)[j] == scopes[j],
    decreases params.len() - i,
{
    if i < params.len() {
        let next = declare(scopes, params[i as int].name, argument(values, params.len(), i));
        lemma_declare_grows(scopes, params[i as int].name, argument(values, params.len(), i));
        lemma_bind_grows(next, params, values, i + 1);
    }
}

/// Scopes that have grown and are as many, and then have grown again, have
/// grown.
pub proof fn lemma_grown_twice(a: Scopes, b: Scopes, c: Scopes)
    requires
        grown(a, b),
        a.len() == b.len(),
        grown(b, c),
    ensures
        grown(a, c),
{
    assert forall|j: int, name: Seq<char>| 0 <= j < a.len() - 1 implies (#[trigger] binds(
        c[j],
        name,
    )) == binds(a[j], name) by {
        assert(binds(c[j], name) == binds(b[j], name));
        assert(binds(b[j], name) == binds(a[j], name));
    }
    assert forall|name: Seq<char>| a.len() > 0 && binds(a.last(), name) implies #[trigger] binds(
        c[a.len() - 1],
        name,
    ) by {
        assert(binds(b[a.len() - 1], name));
        assert(binds(c[b.len() - 1], name));
    }
}

/// Scopes with the same names have grown.
pub proof fn lemma_same_names_grown(a: Scopes, b: Scopes)
    requires
        same_names(a, b),
    ensures
        grown(a, b),
{
}

/// Having the same names carries over.
pub proof fn lemma_same_names_twice(a: Scopes, b: Scopes, c: Scopes)
    requires
        same_names(a, b),
        same_names(b, c),
    ensures
        same_names(a, c),
{
    assert forall|j: int, name: Seq<char>| 0 <= j < a.len() implies (#[trigger] binds(c[j], name))
        == binds(a[j], name) by {
        assert(binds(c[j], name) == binds(b[j], name));
        assert(binds(b[j], name) == binds(a[j], name));
    }
}

/// What has grown from scopes with one more scope, that scope left behind,
/// has the names of the scopes.
pub proof fn lemma_left(outer: Scopes, inner: Scopes, after: Scopes, depth: nat)
    requires
        inner.len() == outer.len() + 1,
        forall|j: int| 0 <= j < outer.len() ==> inner[j] == outer[j],
        grown(inner, after),
        depth == outer.len(),
    ensures
        same_names(outer, truncate(after, depth)),
        after.len() == inner.len() ==> same_names(outer, pop_scope(after)),
{
    let kept = truncate(after, depth);
    assert forall|j: int, name: Seq<char>| 0 <= j < outer.len() implies (#[trigger] binds(
        kept[j],
        name,
    )) == binds(outer[j], name) by {
        assert(kept[j] == after[j]);
        assert(binds(after[j], name) == binds(inner[j], name));
    }
    if after.len() == inner.len() {
        assert(pop_scope(after) =~= kept);
    }
}

/// A name that no scope binds is found in none, and the other way round.
pub proof fn lemma_unbound(scopes: Scopes, name: Seq<char>)
    ensures
        locate(scopes, name) is None <==> forall|j: int|
            0 <= j < scopes.len() ==> !#[trigger] binds(scopes[j], name),
    decreases scopes.len(),
{
    if scopes.len() > 0 {
        let rest = scopes.drop_last();
        lemma_unbound(rest, name);
        if position_in(scopes.last(), name) is None {
            if locate(rest, name) is None {
                assert forall|j: int| 0 <= j < scopes.len() implies !#[trigger] binds(
                    scopes[j],
                    name,
                ) by {
                    if j < rest.len() {
                        assert(rest[j] == scopes[j]);
                    }
                }
            } else {
                let j = choose|j: int| 0 <= j < rest.len() && #[trigger] binds(rest[j], name);
                assert(rest[j] == scopes[j]);
                assert(binds(scopes[j], name));
            }
        } else {
            assert(binds(scopes[scopes.len() - 1], name));
        }
    }
}

/// Whether running `node` declares no name in the scope it is run in:
/// whether no variable declaration is among what it runs there. What a
/// block, a `for` loop or a function runs, it runs in a scope of its own.
pub open spec fn quiet(node: NodeView) -> bool
    decreases node,
{
    match node {
        NodeView::VarDecl { .. } => false,
        NodeView::Program(list) => forall|i: int| 0 <= i < list.len() ==> quiet(#[trigger] list[i]),
        NodeView::Call { args, .. } => forall|i: int|
            0 <= i < args.len() ==> quiet(#[trigger] args[i]),
        NodeView::UnaryOp { operand, .. } => quiet(*operand),
        NodeView::BinaryOp { left, right, .. } => quiet(*left) && quiet(*right),
        NodeView::Assign { value, .. } => quiet(*value),
        NodeView::Print { value } => quiet(*value),
        NodeView::Return { value } => quiet(*value),
        NodeView::If { condition, .. } => quiet(*condition),
        NodeView::While { condition, .. } => quiet(*condition),
        _ => true,
    }
}

/// Whether `e` has kept the scopes of `before` in order: it has ended none
/// of them and has bound no name in any but the innermost; having completed
/// normally, it has left the scopes it entered; and, if `keeps` is set, it
/// has then bound no name at all.
pub open spec fn tidy(before: Context, e: Evaluated, keeps: bool) -> bool {
    &&& grown(before.scopes, e.context.scopes)
    &&& e.completion is Normal ==> e.context.scopes.len() == before.scopes.len()
    &&& e.completion is Normal && keeps ==> same_names(before.scopes, e.context.scopes)
}

/// Nothing keeps the scopes in order.
pub proof fn lemma_tidy_still(context: Context, e: Evaluated)
    requires
        e.context.scopes == context.scopes,
    ensures
        tidy(context, e, true),
{
}

/// One thing in order and then another in order are in order.
pub proof fn lemma_tidy_and(
    before: Context,
    first: Evaluated,
    rest: Evaluated,
    keeps: bool,
)
    requires
        tidy(before, first, keeps),
        first.completion is Normal ==> tidy(first.context, rest, keeps),
    ensures
        first.completion is Normal ==> tidy(before, first.and(rest), keeps),
        !(first.completion is Normal) ==> tidy(before, first, keeps),
{
    if first.completion is Normal {
        lemma_grown_twice(before.scopes, first.context.scopes, rest.context.scopes);
        if keeps && rest.completion is Normal {
            lemma_same_names_twice(before.scopes, first.context.scopes, rest.context.scopes);
        }
    }
}

/// What is in order in a scope of its own is in order around it, and binds
/// no name there.
pub proof fn lemma_tidy_scoped(before: Context, inside: Evaluated)
    requires
        before.scopes.len() > 0,
        tidy(before.enter(), inside, false),
    ensures
        tidy(before, inside.scoped(), true),
{
    let outer = before.scopes;
    let inner = before.enter().scopes;
    let after = inside.context.scopes;
    assert forall|j: int| 0 <= j < outer.len() implies inner[j] == outer[j] by {}
    lemma_left(outer, inner, after, outer.len());
    assert forall|j: int, name: Seq<char>| 0 <= j < outer.len() - 1 implies (#[trigger] binds(
        after[j],
        name,
    )) == binds(outer[j], name) by {
        assert(binds(after[j], name) == binds(inner[j], name));
    }
    assert forall|name: Seq<char>| binds(outer.last(), name) implies #[trigger] binds(
        after[outer.len() - 1],
        name,
    ) by {
        assert(binds(after[outer.len() - 1], name) == binds(inner[outer.len() - 1], name));
    }
    if inside.completion is Normal {
        lemma_same_names_grown(outer, pop_scope(after));
    }
}

/// The number of steps has nothing to do with the scopes.
pub proof fn lemma_tidy_plus(before: Context, e: Evaluated, keeps: bool, n: nat)
    requires
        tidy(before, e, keeps),
    ensures
        tidy(before, e.plus(n), keeps),
{
}

/// Running a node keeps the scopes in order, and a quiet node binds no name.
pub proof fn lemma_tidy(node: NodeView, context: Context, floats: Floats, fuel: nat)
    requires
        context.scopes.len() > 0,
    ensures
        tidy(context, eval(node, context, floats, fuel), quiet(node)),
    decreases fuel, 1nat,
{
    if fuel > 0 {
        let less = (fuel - 1) as nat;
        match node {
            NodeView::UnaryOp { .. } => {
                lemma_tidy_operand(node, context, floats, fuel);
            },
            NodeView::VarDecl { .. } => {
                lemma_tidy_operand(node, context, floats, fuel);
            },
            NodeView::Assign { .. } => {
                lemma_tidy_operand(node, context, floats, fuel);
            },
            NodeView::Print { .. } => {
                lemma_tidy_operand(node, context, floats, fuel);
            },
            NodeView::Return { .. } => {
                lemma_tidy_operand(node, context, floats, fuel);
            },
            NodeView::BinaryOp { .. } => {
                lemma_tidy_binary(node, context, floats, fuel);
            },
            NodeView::Call { .. } => {
                lemma_tidy_call_node(node, context, floats, fuel);
            },
            NodeView::Program(list) => {
                lemma_tidy_sequence(list, 0, context, floats, less);
            },
            NodeView::Block(list) => {
                lemma_tidy_sequence(list, 0, context.enter(), floats, less);
                lemma_tidy_scoped(context, sequence(list, 0, context.enter(), floats, less));
            },
            NodeView::If { .. } => {
                lemma_tidy_if(node, context, floats, fuel);
            },
            NodeView::While { condition, body } => {
                lemma_tidy_looping(*condition, *body, context, floats, less);
            },
            NodeView::For { .. } => {
                lemma_tidy_for(node, context, floats, fuel);
            },
            _ => {},
        }
    }
}

/// A node that evaluates one expression and then does something with its
/// value keeps the scopes in order.
proof fn lemma_tidy_operand(node: NodeView, context: Context, floats: Floats, fuel: nat)
    requires
        context.scopes.len() > 0,
        node is UnaryOp || node is VarDecl || node is Assign || node is Print || node is Return,
        fuel > 0,
    ensures
        tidy(context, eval(node, context, floats, fuel), quiet(node)),
    decreases fuel, 0nat,
{
    let less = (fuel - 1) as nat;
    match node {
        NodeView::UnaryOp { op, operand } => {
            lemma_tidy(*operand, context, floats, less);
        },
        NodeView::VarDecl { name, declared_type, initializer } => {
            let r = eval(*initializer, context, floats, less);
            lemma_tidy(*initializer, context, floats, less);
            match r.completion {
                Completion::Normal(v) => {
                    lemma_declare_grows(r.context.scopes, name, v);
                    lemma_grown_twice(
                        context.scopes,
                        r.context.scopes,
                        declare(r.context.scopes, name, v),
                    );
                },
                _ => {},
            }
        },
        NodeView::Assign { name, value } => {
            let r = eval(*value, context, floats, less);
            lemma_tidy(*value, context, floats, less);
            match r.completion {
                Completion::Normal(v) => {
                    lemma_assign_keeps_names(r.context.scopes, name, v);
                    match assign(r.context.scopes, name, v) {
                        Some(scopes) => {
                            lemma_same_names_grown(r.context.scopes, scopes);
                            lemma_grown_twice(context.scopes, r.context.scopes, scopes);
                            if quiet(node) {
                                lemma_same_names_twice(context.scopes, r.context.scopes, scopes);
                            }
                        },
                        None => {},
                    }
                },
                _ => {},
            }
        },
        NodeView::Print { value } => {
            lemma_tidy(*value, context, floats, less);
        },
        NodeView::Return { value } => {
            lemma_tidy(*value, context, floats, less);
        },
        _ => {},
    }
}

/// A binary operator keeps the scopes in order.
proof fn lemma_tidy_binary(node: NodeView, context: Context, floats: Floats, fuel: nat)
    requires
        context.scopes.len() > 0,
        node is BinaryOp,
        fuel > 0,
    ensures
        tidy(context, eval(node, context, floats, fuel), quiet(node)),
    decreases fuel, 0nat,
{
    let less = (fuel - 1) as nat;
    match node {
        NodeView::BinaryOp { op, left, right } => {
            let l = eval(*left, context, floats, less);
            lemma_tidy(*left, context, floats, less);
            match l.completion {
                Completion::Normal(a) => {
                    let r = eval(*right, l.context, floats, less);
                    lemma_tidy(*right, l.context, floats, less);
                    lemma_tidy_and(context, l, r, quiet(node));
                    match r.completion {
                        Completion::Normal(b) => {
                            let rest = settled(
                                crate::operators::binary_outcome(op, a, b),
                                r.context,
                                floats,
                            );
                            lemma_tidy_still(r.context, rest);
                            lemma_tidy_and(context, l.and(r), rest, quiet(node));
                        },
                        _ => {},
                    }
                },
                _ => {},
            }
        },
        _ => {},
    }
}

/// An `if` statement keeps the scopes in order.
proof fn lemma_tidy_if(node: NodeView, context: Context, floats: Floats, fuel: nat)
    requires
        context.scopes.len() > 0,
        node is If,
        fuel > 0,
    ensures
        tidy(context, eval(node, context, floats, fuel), quiet(node)),
    decreases fuel, 0nat,
{
    let less = (fuel - 1) as nat;
    match node {
        NodeView::If { condition, then_block, else_block } => {
            let c = eval(*condition, context, floats, less);
            lemma_tidy(*condition, context, floats, less);
            match c.completion {
                Completion::Normal(v) => {
                    match v {
                        ValueView::Bool(b) => {
                            if b {
                                let inside = eval(*then_block, c.context.enter(), floats, less);
                                lemma_tidy(*then_block, c.context.enter(), floats, less);
                                lemma_tidy_scoped(c.context, inside);
                                lemma_tidy_and(
                                    context,
                                    c,
                                    inside.scoped().plus(1),
                                    quiet(node),
                                );
                            } else {
                                match else_block {
                                    Some(block) => {
                                        let inside = eval(
                                            *block,
                                            c.context.enter(),
                                            floats,
                                            less,
                                        );
                                        lemma_tidy(*block, c.context.enter(), floats, less);
                                        lemma_tidy_scoped(c.context, inside);
                                        lemma_tidy_and(
                                            context,
                                            c,
                                            inside.scoped().plus(1),
                                            quiet(node),
                                        );
                                    },
                                    None => {},
                                }
                            }
                        },
                        _ => {},
                    }
                },
                _ => {},
            }
        },
        _ => {},
    }
}

/// A sequence of statements keeps the scopes in order.
proof fn lemma_tidy_sequence(
    list: Seq<NodeView>,
    i: nat,
    context: Context,
    floats: Floats,
    fuel: nat,
)
    requires
        context.scopes.len() > 0,
    ensures
        tidy(
            context,
            sequence(list, i, context, floats, fuel),
            forall|k: int| i <= k < list.len() ==> quiet(#[trigger] list[k]),
        ),
    decreases fuel, list.len() - i + 2,
{
    if i < list.len() {
        let keeps = forall|k: int| i <= k < list.len() ==> quiet(#[trigger] list[k]);
        let s = eval(list[i as int], context, floats, fuel);
        lemma_tidy(list[i as int], context, floats, fuel);
        match s.completion {
            Completion::Normal(_) => {
                lemma_tidy_sequence(list, i + 1, s.context, floats, fuel);
                lemma_tidy_and(
                    context,
                    s,
                    sequence(list, i + 1, s.context, floats, fuel),
                    keeps,
                );
            },
            _ => {},
        }
    }
}

/// The arguments of a call keep the scopes in order.
proof fn lemma_tidy_gather(
    list: Seq<NodeView>,
    i: nat,
    context: Context,
    floats: Floats,
    fuel: nat,
)
    requires
        context.scopes.len() > 0,
    ensures
        tidy(
            context,
            gather(list, i, context, floats, fuel).1,
            forall|k: int| i <= k < list.len() ==> quiet(#[trigger] list[k]),
        ),
    decreases fuel, list.len() - i + 2,
{
    if i < list.len() {
        let keeps = forall|k: int| i <= k < list.len() ==> quiet(#[trigger] list[k]);
        let a = eval(list[i as int], context, floats, fuel);
        lemma_tidy(list[i as int], context, floats, fuel);
        match a.completion {
            Completion::Normal(_) => {
                lemma_tidy_gather(list, i + 1, a.context, floats, fuel);
                lemma_tidy_and(
                    context,
                    a,
                    gather(list, i + 1, a.context, floats, fuel).1,
                    keeps,
                );
            },
            _ => {},
        }
    }
}

/// A call, from where its arguments have been evaluated, keeps the scopes
/// in order and binds no name in them.
proof fn lemma_tidy_call(
    params: Seq<ParamView>,
    body: NodeView,
    args: Seq<ValueView>,
    context: Context,
    floats: Floats,
    fuel: nat,
)
    requires
        context.scopes.len() > 0,
    ensures
        tidy(context, call(params, body, args, context, floats, fuel), true),
    decreases fuel, 2nat,
{
    match crate::machine::first_mismatch(params, args, 0) {
        Some(_) => {},
        None => {
            let outer = context.scopes;
            let inner = bind(push_scope(outer), params, args, 0);
            let b = eval(body, context.with_scopes(inner), floats, fuel);
            lemma_bind_grows(push_scope(outer), params, args, 0);
            lemma_tidy(body, context.with_scopes(inner), floats, fuel);
            let after = b.context.scopes;
            assert forall|j: int| 0 <= j < outer.len() implies inner[j] == outer[j] by {
                assert(push_scope(outer)[j] == outer[j]);
            }
            lemma_left(outer, inner, after, outer.len());
            lemma_same_names_grown(outer, truncate(after, outer.len()));
            assert forall|j: int, name: Seq<char>| 0 <= j < outer.len() - 1 implies (
            #[trigger] binds(after[j], name)) == binds(outer[j], name) by {
                assert(binds(after[j], name) == binds(inner[j], name));
            }
            assert forall|name: Seq<char>| binds(outer.last(), name) implies #[trigger] binds(
                after[outer.len() - 1],
                name,
            ) by {
                assert(binds(after[outer.len() - 1], name) == binds(
                    inner[outer.len() - 1],
                    name,
                ));
            }
        },
    }
}

/// A call keeps the scopes in order.
proof fn lemma_tidy_call_node(node: NodeView, context: Context, floats: Floats, fuel: nat)
    requires
        context.scopes.len() > 0,
        node is Call,
        fuel > 0,
    ensures
        tidy(context, eval(node, context, floats, fuel), quiet(node)),
    decreases fuel, 0nat,
{
    let less = (fuel - 1) as nat;
    match node {
        NodeView::Call { name, args } => {
            match find_function(context.functions, name) {
                Some(f) => {
                    if f.params.len() == args.len() {
                        let (values, g) = gather(args, 0, context, floats, less);
                        lemma_tidy_gather(args, 0, context, floats, less);
                        if g.completion is Normal {
                            let rest = call(f.params, f.body, values, g.context, floats, less);
                            lemma_tidy_call(f.params, f.body, values, g.context, floats, less);
                            lemma_tidy_and(context, g, rest, quiet(node));
                        }
                    }
                },
                None => {},
            }
        },
        _ => {},
    }
}

/// A `while` loop keeps the scopes in order.
proof fn lemma_tidy_looping(
    condition: NodeView,
    body: NodeView,
    context: Context,
    floats: Floats,
    fuel: nat,
)
    requires
        context.scopes.len() > 0,
    ensures
        tidy(context, looping(condition, body, context, floats, fuel), quiet(condition)),
    decreases fuel, 0nat,
{
    if fuel > 0 {
        let less = (fuel - 1) as nat;
        let keeps = quiet(condition);
        let c = eval(condition, context, floats, less);
        lemma_tidy(condition, context, floats, less);
        match c.completion {
            Completion::Normal(v) => {
                match v {
                    ValueView::Bool(go) => {
                        if go {
                            let b = eval(body, c.context.enter(), floats, less);
                            lemma_tidy(body, c.context.enter(), floats, less);
                            lemma_tidy_scoped(c.context, b);
                            match b.completion {
                                Completion::Normal(_) => {
                                    let left = b.scoped();
                                    let again = looping(
                                        condition,
                                        body,
                                        b.context.leave(),
                                        floats,
                                        less,
                                    );
                                    lemma_tidy_looping(
                                        condition,
                                        body,
                                        b.context.leave(),
                                        floats,
                                        less,
                                    );
                                    lemma_tidy_and(context, c, left, keeps);
                                    lemma_tidy_and(context, c.and(left), again, keeps);
                                },
                                _ => {
                                    lemma_tidy_and(context, c, b.scoped(), keeps);
                                },
                            }
                        }
                    },
                    _ => {},
                }
            },
            _ => {},
        }
    }
}

/// A `for` loop, from its condition on, keeps the scopes in order.
proof fn lemma_tidy_for_looping(
    condition: NodeView,
    update: NodeView,
    body: NodeView,
    context: Context,
    floats: Floats,
    fuel: nat,
)
    requires
        context.scopes.len() > 0,
    ensures
        tidy(context, for_looping(condition, update, body, context, floats, fuel), false),
    decreases fuel, 0nat,
{
    if fuel > 0 {
        let less = (fuel - 1) as nat;
        let c = eval(condition, context, floats, less);
        lemma_tidy(condition, context, floats, less);
        match c.completion {
            Completion::Normal(v) => {
                match v {
                    ValueView::Bool(go) => {
                        if go {
                            let b = eval(body, c.context, floats, less);
                            lemma_tidy(body, c.context, floats, less);
                            lemma_tidy_and(context, c, b, false);
                            match b.completion {
                                Completion::Normal(_) => {
                                    let u = eval(update, b.context, floats, less);
                                    lemma_tidy(update, b.context, floats, less);
                                    lemma_tidy_and(context, c.and(b), u, false);
                                    match u.completion {
                                        Completion::Normal(_) => {
                                            lemma_tidy_for_looping(
                                                condition,
                                                update,
                                                body,
                                                u.context,
                                                floats,
                                                less,
                                            );
                                            lemma_tidy_and(
                                                context,
                                                c.and(b).and(u),
                                                for_looping(
                                                    condition,
                                                    update,
                                                    body,
                                                    u.context,
                                                    floats,
                                                    less,
                                                ),
                                                false,
                                            );
                                        },
                                        _ => {},
                                    }
                                },
                                _ => {},
                            }
                        }
                    },
                    _ => {},
                }
            },
            _ => {},
        }
    }
}

/// A `for` statement keeps the scopes in order and binds no name in them.
proof fn lemma_tidy_for(node: NodeView, context: Context, floats: Floats, fuel: nat)
    requires
        context.scopes.len() > 0,
        node is For,
        fuel > 0,
    ensures
        tidy(context, eval(node, context, floats, fuel), true),
    decreases fuel, 0nat,
{
    let less = (fuel - 1) as nat;
    match node {
        NodeView::For { init, condition, update, body } => {
            let i = eval(*init, context.enter(), floats, less);
            lemma_tidy(*init, context.enter(), floats, less);
            match i.completion {
                Completion::Normal(_) => {
                    let looped = for_looping(*condition, *update, *body, i.context, floats, less);
                    lemma_tidy_for_looping(*condition, *update, *body, i.context, floats, less);
                    lemma_tidy_and(context.enter(), i, looped, false);
                    lemma_tidy_scoped(context, i.and(looped).plus(1));
                },
                _ => {
                    lemma_tidy_scoped(context, i);
                },
            }
        },
        _ => {},
    }
}

/// What is declared in a block is gone when the block ends: a block and
/// a `for` loop, whatever they run, and an `if` and a `while` whose condition
/// declares nothing, leave as many scopes as they found, each binding the
/// names it bound; so a name that was not bound before them is not bound
/// after them, and referring to it then is an error.
pub proof fn declarations_end_with_their_block(
    node: NodeView,
    context: Context,
    floats: Floats,
    fuel: nat,
    name: Seq<char>,
)
    requires
        context.scopes.len() > 0,
        node is Block || node is For || ((node is If || node is While) && quiet(node)),
        eval(node, context, floats, fuel).completion is Normal,
    ensures
        same_names(context.scopes, eval(node, context, floats, fuel).context.scopes),
        lookup(context.scopes, name) is None ==> lookup(
            eval(node, context, floats, fuel).context.scopes,
            name,
        ) is None,
{
    lemma_tidy(node, context, floats, fuel);
    if node is For {
        lemma_tidy_for(node, context, floats, fuel);
    }
    let after = eval(node, context, floats, fuel).context.scopes;
    lemma_unbound(context.scopes, name);
    lemma_unbound(after, name);
    if lookup(context.scopes, name) is None {
        assert forall|j: int| 0 <= j < after.len() implies !#[trigger] binds(after[j], name) by {
            assert(binds(after[j], name) == binds(context.scopes[j], name));
        }
    }
}

/// An expression declares nothing.
pub proof fn lemma_expression_is_quiet(node: NodeView)
    requires
        is_expression(node),
    ensures
        quiet(node),
    decreases node,
{
    match node {
        NodeView::UnaryOp { operand, .. } => {
            lemma_expression_is_quiet(*operand);
        },
        NodeView::BinaryOp { left, right, .. } => {
            lemma_expression_is_quiet(*left);
            lemma_expression_is_quiet(*right);
        },
        NodeView::Call { args, .. } => {
            assert forall|i: int| 0 <= i < args.len() implies quiet(#[trigger] args[i]) by {
                lemma_expression_is_quiet(args[i]);
            }
        },
        _ => {},
    }
}

/// The condition of an `if` and of a `while`, as the grammar reads them,
/// declares nothing: for what is parsed, what is declared in the blocks of
/// an `if` or in the body of a loop is gone when they end.
pub proof fn parsed_conditions_are_quiet(tokens: Seq<TokenView>, pos: nat)
    ensures
        statement(tokens, pos) matches Ok((node, _)) ==> (node is If || node is While ==> quiet(
            node,
        )),
{
    lemma_statement_shape(tokens, pos);
    match statement(tokens, pos) {
        Ok((node, _)) => {
            match node {
                NodeView::If { condition, .. } => {
                    lemma_expression_is_quiet(*condition);
                },
                NodeView::While { condition, .. } => {
                    lemma_expression_is_quiet(*condition);
                },
                _ => {},
            }
        },
        Err(_) => {},
    }
}

} // verus!
