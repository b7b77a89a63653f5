//! Programs without floating-point literals need no driver.
//!
//! A float comes into a run by a literal only. So a program that holds none
//! never hands the driver floating-point work, and [`crate::interpreter::run`]
//! alone runs it as the semantics says.

use vstd::prelude::*;
use crate::ast::{BinaryOperator, NodeView, ParamView, UnaryOperator};
use crate::environment::{
    assign, declare, lemma_locate, lookup, pop_scope, push_scope, truncate, BindingView, Scopes,
};
use crate::interpreter::executed;
use crate::machine::{
    argument, bind, find_function, innermost_boundary, invoke, keep, perform, run, start, step,
    unwind, ActionView, Event, FrameView, FunctionView, MachineView,
};
use crate::operators::{binary_outcome, unary_outcome, OutcomeView};
use crate::refinement::{context_of, driven, landed, machine_follows_semantics};
use crate::semantics::{eval, Floats, Line};
use crate::value::ValueView;

verus! {

/// Whether no floating-point literal stands in `node`.
pub open spec fn float_free(node: NodeView) -> bool
    decreases node,
{
    match node {
        NodeView::FloatLiteral(_) => false,
        NodeView::Program(list) => forall|i: int|
            0 <= i < list.len() ==> float_free(#[trigger] list[i]),
        NodeView::Block(list) => forall|i: int|
            0 <= i < list.len() ==> float_free(#[trigger] list[i]),
        NodeView::VarDecl { initializer, .. } => float_free(*initializer),
        NodeView::Assign { value, .. } => float_free(*value),
        NodeView::Print { value } => float_free(*value),
        NodeView::If { condition, then_block, else_block } => float_free(*condition)
            && float_free(*then_block) && (match else_block {
            Some(block) => float_free(*block),
            None => true,
        }),
        NodeView::While { condition, body } => float_free(*condition) && float_free(*body),
        NodeView::For { init, condition, update, body } => float_free(*init) && float_free(
            *condition,
        ) && float_free(*update) && float_free(*body),
        NodeView::FunctionDecl { body, .. } => float_free(*body),
        NodeView::Call { args, .. } => forall|i: int|
            0 <= i < args.len() ==> float_free(#[trigger] args[i]),
        NodeView::Return { value } => float_free(*value),
        NodeView::BinaryOp { left, right, .. } => float_free(*left) && float_free(*right),
        NodeView::UnaryOp { operand, .. } => float_free(*operand),
        _ => true,
    }
}

/// Whether no floating-point literal stands in any of `list`.
pub open spec fn all_float_free(list: Seq<NodeView>) -> bool {
    forall|i: int| 0 <= i < list.len() ==> float_free(#[trigger] list[i])
}

/// Whether a frame holds no floating-point literal and waits for no float.
pub open spec fn plain_frame(frame: FrameView) -> bool {
    match frame {
        FrameView::Run(node) => float_free(node),
        FrameView::Sequence(list, _) => all_float_free(list),
        FrameView::Arguments(list, _) => all_float_free(list),
        FrameView::Branch(then_block, else_block) => float_free(then_block) && (match else_block {
            Some(block) => float_free(block),
            None => true,
        }),
        FrameView::Loop(condition, body) => float_free(condition) && float_free(body),
        FrameView::ForLoop(condition, update, body) => float_free(condition) && float_free(update)
            && float_free(body),
        FrameView::ShortCircuit(_, right) => float_free(right),
        FrameView::Invoke(_, body) => float_free(body),
        FrameView::Await(_) => false,
        _ => true,
    }
}

/// Whether none of `values` is a float.
pub open spec fn plain_values(values: Seq<ValueView>) -> bool {
    forall|i: int| 0 <= i < values.len() ==> !(#[trigger] values[i] is Float)
}

/// Whether no name is bound to a float.
pub open spec fn plain_scopes(scopes: Scopes) -> bool {
    forall|i: int, j: int|
        0 <= i < scopes.len() && 0 <= j < scopes[i].len() ==> !((#[trigger] scopes[i][j]).value
            is Float)
}

/// Whether no floating-point literal stands in the body of a function.
pub open spec fn plain_functions(functions: Seq<FunctionView>) -> bool {
    forall|i: int| 0 <= i < functions.len() ==> float_free((#[trigger] functions[i]).body)
}

/// Whether all of `frames` are plain.
pub open spec fn plain_frames(frames: Seq<FrameView>) -> bool {
    forall|i: int| 0 <= i < frames.len() ==> plain_frame(#[trigger] frames[i])
}

/// Whether a state holds no float and no floating-point literal.
pub open spec fn plain(m: MachineView) -> bool {
    &&& plain_frames(m.frames)
    &&& plain_values(m.values)
    &&& plain_scopes(m.scopes)
    &&& plain_functions(m.functions)
}

/// One more plain frame leaves a state plain.
proof fn lemma_push(m: MachineView, frame: FrameView)
    requires
        plain(m),
        plain_frame(frame),
    ensures
        plain(m.push(frame)),
{
}

/// One more value that is no float leaves a state plain.
proof fn lemma_push_value(m: MachineView, v: ValueView)
    requires
        plain(m),
        !(v is Float),
    ensures
        plain(m.push_value(v)),
{
}

/// A state without its top value is plain, and the value was no float.
proof fn lemma_pop_value(m: MachineView)
    requires
        plain(m),
    ensures
        plain(m.pop_value()),
        !(m.top() is Float),
{
    if m.values.len() > 0 {
        assert(!(m.values[m.values.len() - 1] is Float));
    }
}

/// A new scope leaves a state plain.
proof fn lemma_scoped(m: MachineView)
    requires
        plain(m),
    ensures
        plain(m.scoped()),
{
    let scopes = push_scope(m.scopes);
    assert forall|i: int, j: int| 0 <= i < scopes.len() && 0 <= j < scopes[i].len() implies !((
    #[trigger] scopes[i][j]).value is Float) by {
        if i < m.scopes.len() {
            assert(scopes[i] == m.scopes[i]);
        }
    }
}

/// Declaring a name with a value that is no float leaves the scopes plain.
proof fn lemma_declare(scopes: Scopes, name: Seq<char>, value: ValueView)
    requires
        plain_scopes(scopes),
        !(value is Float),
    ensures
        plain_scopes(declare(scopes, name, value)),
{
    let after = declare(scopes, name, value);
    crate::environment::lemma_position_in(scopes.last(), name);
    assert forall|i: int, j: int| 0 <= i < after.len() && 0 <= j < after[i].len() implies !((
    #[trigger] after[i][j]).value is Float) by {
        if scopes.len() > 0 {
            if i < scopes.len() - 1 {
                assert(after[i] == scopes[i]);
            } else {
                if j < scopes[i].len() && after[i][j] != (BindingView { name, value }) {
                    assert(after[i][j] == scopes[i][j]);
                }
            }
        }
    }
}

/// Assigning a value that is no float leaves the scopes plain.
proof fn lemma_assign(scopes: Scopes, name: Seq<char>, value: ValueView)
    requires
        plain_scopes(scopes),
        !(value is Float),
    ensures
        assign(scopes, name, value) matches Some(after) ==> plain_scopes(after),
{
    lemma_locate(scopes, name);
    match assign(scopes, name, value) {
        Some(after) => {
            assert forall|i: int, j: int|
                0 <= i < after.len() && 0 <= j < after[i].len() implies !((
            #[trigger] after[i][j]).value is Float) by {
                if after[i][j] != (BindingView { name, value }) {
                    assert(after[i][j] == scopes[i][j]);
                }
            }
        },
        None => {},
    }
}

/// What a name stands for in plain scopes is no float.
proof fn lemma_lookup(scopes: Scopes, name: Seq<char>)
    requires
        plain_scopes(scopes),
    ensures
        lookup(scopes, name) matches Some(v) ==> !(v is Float),
{
    lemma_locate(scopes, name);
}

/// Binding parameters to arguments that are no floats leaves the scopes
/// plain.
proof fn lemma_bind(scopes: Scopes, params: Seq<ParamView>, values: Seq<ValueView>, i: nat)
    requires
        plain_scopes(scopes),
        plain_values(values),
    ensures
        plain_scopes(bind(scopes, params, values, i)),
    decreases params.len() - i,
{
    if i < params.len() {
        let v = argument(values, params.len(), i);
        lemma_declare(scopes, params[i as int].name, v);
        lemma_bind(declare(scopes, params[i as int].name, v), params, values, i + 1);
    }
}

/// The function that a name stands for among plain functions holds no
/// floating-point literal.
proof fn lemma_find_function(functions: Seq<FunctionView>, name: Seq<char>)
    requires
        plain_functions(functions),
    ensures
        find_function(functions, name) matches Some(f) ==> float_free(f.body),
    decreases functions.len(),
{
    if functions.len() > 0 {
        if functions.last().name != name {
            let rest = functions.drop_last();
            assert forall|i: int| 0 <= i < rest.len() implies float_free(
                (#[trigger] rest[i]).body,
            ) by {
                assert(rest[i] == functions[i]);
            }
            lemma_find_function(rest, name);
        } else {
            assert(float_free(functions[functions.len() - 1].body));
        }
    }
}

/// An operator on values that are no floats comes to a value that is no
/// float or fails; it asks for nothing.
proof fn lemma_outcomes(op: BinaryOperator, prefix: UnaryOperator, a: ValueView, b: ValueView)
    requires
        !(a is Float),
        !(b is Float),
    ensures
        !(binary_outcome(op, a, b) is Ask),
        binary_outcome(op, a, b) matches OutcomeView::Value(v) ==> !(v is Float),
        !(unary_outcome(prefix, a) is Ask),
        unary_outcome(prefix, a) matches OutcomeView::Value(v) ==> !(v is Float),
{
}

/// Whether an action is none for the driver to do floating-point work on.
pub open spec fn plain_action(action: ActionView) -> bool {
    !(action is Ask) && !(action is PrintFloat)
}

/// Fewer scopes are plain if all were.
proof fn lemma_fewer_scopes(scopes: Scopes, depth: nat)
    requires
        plain_scopes(scopes),
    ensures
        plain_scopes(truncate(scopes, depth)),
        plain_scopes(pop_scope(scopes)),
        plain_scopes(push_scope(scopes)),
{
    let kept = truncate(scopes, depth);
    assert forall|i: int, j: int| 0 <= i < kept.len() && 0 <= j < kept[i].len() implies !((
    #[trigger] kept[i][j]).value is Float) by {
        assert(kept[i] == scopes[i]);
    }
    let popped = pop_scope(scopes);
    assert forall|i: int, j: int| 0 <= i < popped.len() && 0 <= j < popped[i].len() implies !((
    #[trigger] popped[i][j]).value is Float) by {
        assert(popped[i] == scopes[i]);
    }
    let pushed = push_scope(scopes);
    assert forall|i: int, j: int| 0 <= i < pushed.len() && 0 <= j < pushed[i].len() implies !((
    #[trigger] pushed[i][j]).value is Float) by {
        if i < scopes.len() {
            assert(pushed[i] == scopes[i]);
        }
    }
}

/// Fewer values are plain if all were, also with one more that is no
/// float.
proof fn lemma_fewer_values(values: Seq<ValueView>, n: nat, v: ValueView)
    requires
        plain_values(values),
        !(v is Float),
    ensures
        plain_values(keep(values, n).push(v)),
        plain_values(crate::machine::below(values, n)),
{
    let kept = keep(values, n).push(v);
    assert forall|i: int| 0 <= i < kept.len() implies !(#[trigger] kept[i] is Float) by {
        if i < kept.len() - 1 {
            assert(kept[i] == values[i]);
        }
    }
    let low = crate::machine::below(values, n);
    assert forall|i: int| 0 <= i < low.len() implies !(#[trigger] low[i] is Float) by {
        assert(low[i] == values[i]);
    }
}

/// Running a node without floating-point literals in a plain state leaves
/// the state plain and the driver without floating-point work.
proof fn lemma_run(m: MachineView, node: NodeView)
    requires
        plain(m),
        float_free(node),
    ensures
        plain(run(m, node).0),
        plain_action(run(m, node).1),
{
    match node {
        NodeView::Program(list) => {
            lemma_push(m, FrameView::Sequence(list, 0));
        },
        NodeView::Block(list) => {
            lemma_scoped(m);
            lemma_push(m.scoped(), FrameView::Sequence(list, 0));
        },
        NodeView::VarDecl { name, declared_type, initializer } => {
            lemma_push(m, FrameView::Declare(name, declared_type));
            lemma_push(m.push(FrameView::Declare(name, declared_type)), FrameView::Run(*initializer));
        },
        NodeView::Assign { name, value } => {
            lemma_push(m, FrameView::Store(name));
            lemma_push(m.push(FrameView::Store(name)), FrameView::Run(*value));
        },
        NodeView::Print { value } => {
            lemma_push(m, FrameView::Print);
            lemma_push(m.push(FrameView::Print), FrameView::Run(*value));
        },
        NodeView::If { condition, then_block, else_block } => {
            let branch = FrameView::Branch(
                *then_block,
                match else_block {
                    Some(block) => Some(*block),
                    None => None,
                },
            );
            lemma_push(m, branch);
            lemma_push(m.push(branch), FrameView::Run(*condition));
        },
        NodeView::While { condition, body } => {
            let again = FrameView::Loop(*condition, *body);
            lemma_push(m, again);
            lemma_push(m.push(again), FrameView::Run(*condition));
        },
        NodeView::For { init, condition, update, body } => {
            lemma_scoped(m);
            let a = m.scoped().push(FrameView::ForLoop(*condition, *update, *body));
            lemma_push(m.scoped(), FrameView::ForLoop(*condition, *update, *body));
            let b = a.push(FrameView::Run(*condition));
            lemma_push(a, FrameView::Run(*condition));
            let c = b.push(FrameView::Discard);
            lemma_push(b, FrameView::Discard);
            lemma_push(c, FrameView::Run(*init));
        },
        NodeView::FunctionDecl { name, params, body } => {
            let declared = MachineView {
                functions: m.functions.push(FunctionView { name, params, body: *body }),
                ..m
            };
            assert(plain(declared));
            lemma_push_value(declared, ValueView::Void);
        },
        NodeView::Call { name, args } => {
            lemma_find_function(m.functions, name);
            match find_function(m.functions, name) {
                Some(f) => {
                    if f.params.len() == args.len() {
                        let a = m.push(FrameView::Invoke(f.params, f.body));
                        lemma_push(m, FrameView::Invoke(f.params, f.body));
                        lemma_push(a, FrameView::Arguments(args, 0));
                    }
                },
                None => {},
            }
        },
        NodeView::Return { value } => {
            lemma_push(m, FrameView::Unwind);
            lemma_push(m.push(FrameView::Unwind), FrameView::Run(*value));
        },
        NodeView::IntLiteral(i) => {
            lemma_push_value(m, ValueView::Int(i));
        },
        NodeView::FloatLiteral(_) => {},
        NodeView::StringLiteral(text) => {
            lemma_push_value(m, ValueView::Str(text));
        },
        NodeView::BoolLiteral(b) => {
            lemma_push_value(m, ValueView::Bool(b));
        },
        NodeView::Identifier(name) => {
            lemma_lookup(m.scopes, name);
            match lookup(m.scopes, name) {
                Some(v) => {
                    lemma_push_value(m, v);
                },
                None => {},
            }
        },
        NodeView::BinaryOp { op, left, right } => {
            if op == BinaryOperator::And || op == BinaryOperator::Or {
                lemma_push(m, FrameView::ShortCircuit(op, *right));
                lemma_push(m.push(FrameView::ShortCircuit(op, *right)), FrameView::Run(*left));
            } else {
                let a = m.push(FrameView::Apply(op));
                lemma_push(m, FrameView::Apply(op));
                let b = a.push(FrameView::Run(*right));
                lemma_push(a, FrameView::Run(*right));
                lemma_push(b, FrameView::Run(*left));
            }
        },
        NodeView::UnaryOp { op, operand } => {
            lemma_push(m, FrameView::ApplyUnary(op));
            lemma_push(m.push(FrameView::ApplyUnary(op)), FrameView::Run(*operand));
        },
    }
}

/// Settling an outcome that asks for nothing and is no float leaves a plain
/// state plain.
proof fn lemma_settle(m: MachineView, outcome: OutcomeView)
    requires
        plain(m),
        !(outcome is Ask),
        outcome matches OutcomeView::Value(v) ==> !(v is Float),
    ensures
        plain(m.settle(outcome).0),
        plain_action(m.settle(outcome).1),
{
    match outcome {
        OutcomeView::Value(v) => {
            lemma_push_value(m, v);
        },
        _ => {},
    }
}

/// Calling a function leaves a plain state plain.
proof fn lemma_invoke(m: MachineView, params: Seq<ParamView>, body: NodeView)
    requires
        plain(m),
        float_free(body),
    ensures
        plain(invoke(m, params, body).0),
        plain_action(invoke(m, params, body).1),
{
    lemma_fewer_values(m.values, params.len(), ValueView::Void);
    lemma_fewer_scopes(m.scopes, 0);
    lemma_bind(push_scope(m.scopes), params, m.values, 0);
    let rest = crate::machine::below(m.values, params.len());
    let boundary = FrameView::Boundary(m.scopes.len(), rest.len());
    let frames = m.frames.push(boundary).push(FrameView::Run(body));
    assert forall|i: int| 0 <= i < frames.len() implies plain_frame(#[trigger] frames[i]) by {
        if i < m.frames.len() {
            assert(frames[i] == m.frames[i]);
        }
    }
}

/// Returning from a call leaves a plain state plain.
proof fn lemma_unwind(m: MachineView, v: ValueView)
    requires
        plain(m),
        !(v is Float),
    ensures
        plain(unwind(m, v).0),
        plain_action(unwind(m, v).1),
{
    crate::refinement::lemma_boundary_index(m.frames);
    match innermost_boundary(m.frames) {
        Some(k) => {
            match m.frames[k] {
                FrameView::Boundary(depth, height) => {
                    lemma_fewer_values(m.values, height, v);
                    lemma_fewer_scopes(m.scopes, depth);
                    let frames = m.frames.take(k);
                    assert forall|i: int| 0 <= i < frames.len() implies plain_frame(
                        #[trigger] frames[i],
                    ) by {
                        assert(frames[i] == m.frames[i]);
                    }
                },
                _ => {},
            }
        },
        None => {
            assert(seq![v][0] == v);
        },
    }
}

/// Doing a plain piece of work in a plain state leaves the state plain and
/// the driver without floating-point work.
proof fn lemma_perform(m: MachineView, frame: FrameView, event: Event)
    requires
        plain(m),
        plain_frame(frame),
    ensures
        plain(perform(m, frame, event).0),
        plain_action(perform(m, frame, event).1),
{
    let popped = m.pop_value();
    let v = m.top();
    lemma_pop_value(m);
    lemma_pop_value(popped);
    lemma_fewer_scopes(m.scopes, 0);
    match frame {
        FrameView::Run(node) => {
            lemma_run(m, node);
        },
        FrameView::Sequence(list, i) => {
            if i < list.len() {
                let a = m.push(FrameView::Sequence(list, i + 1));
                lemma_push(m, FrameView::Sequence(list, i + 1));
                let b = a.push(FrameView::Discard);
                lemma_push(a, FrameView::Discard);
                lemma_push(b, FrameView::Run(list[i as int]));
            } else {
                lemma_push_value(m, ValueView::Void);
            }
        },
        FrameView::Arguments(list, i) => {
            if i < list.len() {
                let a = m.push(FrameView::Arguments(list, i + 1));
                lemma_push(m, FrameView::Arguments(list, i + 1));
                lemma_push(a, FrameView::Run(list[i as int]));
            }
        },
        FrameView::Discard => {},
        FrameView::Declare(name, _) => {
            lemma_declare(m.scopes, name, v);
            lemma_push_value(popped.with_scopes(declare(m.scopes, name, v)), ValueView::Void);
        },
        FrameView::Store(name) => {
            lemma_assign(m.scopes, name, v);
            match assign(m.scopes, name, v) {
                Some(scopes) => {
                    lemma_push_value(popped.with_scopes(scopes), ValueView::Void);
                },
                None => {},
            }
        },
        FrameView::Print => {
            lemma_push_value(popped, ValueView::Void);
        },
        FrameView::Branch(then_block, else_block) => {
            lemma_scoped(popped);
            lemma_push(popped.scoped(), FrameView::Run(then_block));
            match else_block {
                Some(block) => {
                    lemma_push(popped.scoped(), FrameView::Run(block));
                },
                None => {
                    lemma_push_value(popped, ValueView::Void);
                },
            }
        },
        FrameView::Loop(condition, body) => {
            let a = popped.push(frame);
            lemma_push(popped, frame);
            let b = a.push(FrameView::Run(condition));
            lemma_push(a, FrameView::Run(condition));
            lemma_scoped(b);
            let c = b.scoped().push(FrameView::Discard);
            lemma_push(b.scoped(), FrameView::Discard);
            lemma_push(c, FrameView::Run(body));
            lemma_push_value(popped, ValueView::Void);
        },
        FrameView::ForLoop(condition, update, body) => {
            let a = popped.push(frame);
            lemma_push(popped, frame);
            let b = a.push(FrameView::Run(condition));
            lemma_push(a, FrameView::Run(condition));
            let c = b.push(FrameView::Discard);
            lemma_push(b, FrameView::Discard);
            let d = c.push(FrameView::Run(update));
            lemma_push(c, FrameView::Run(update));
            let e = d.push(FrameView::Discard);
            lemma_push(d, FrameView::Discard);
            lemma_push(e, FrameView::Run(body));
            lemma_push_value(popped, ValueView::Void);
        },
        FrameView::PopScope => {},
        FrameView::ShortCircuit(op, right) => {
            let a = m.push(FrameView::Apply(op));
            lemma_push(m, FrameView::Apply(op));
            lemma_push(a, FrameView::Run(right));
        },
        FrameView::Apply(op) => {
            lemma_outcomes(op, UnaryOperator::Not, popped.top(), v);
            lemma_settle(popped.pop_value(), binary_outcome(op, popped.top(), v));
        },
        FrameView::ApplyUnary(op) => {
            lemma_outcomes(BinaryOperator::Add, op, v, v);
            lemma_settle(popped, unary_outcome(op, v));
        },
        FrameView::Invoke(params, body) => {
            lemma_invoke(m, params, body);
        },
        FrameView::Boundary(depth, height) => {
            lemma_fewer_values(m.values, height, ValueView::Void);
            lemma_fewer_scopes(m.scopes, depth);
        },
        FrameView::Unwind => {
            lemma_unwind(popped, v);
        },
        FrameView::Await(_) => {},
    }
}

/// Every step of a plain state leaves the state plain and the driver
/// without floating-point work.
pub proof fn lemma_step(m: MachineView, event: Event)
    requires
        plain(m),
    ensures
        plain(step(m, event).0),
        plain_action(step(m, event).1),
{
    if m.frames.len() > 0 {
        let rest = MachineView { frames: m.frames.drop_last(), ..m };
        assert(plain_frame(m.frames[m.frames.len() - 1]));
        assert forall|i: int| 0 <= i < rest.frames.len() implies plain_frame(
            #[trigger] rest.frames[i],
        ) by {
            assert(rest.frames[i] == m.frames[i]);
        }
        lemma_perform(rest, m.frames.last(), event);
    }
}

/// The lines of text as lines of output.
pub open spec fn texts(lines: Seq<Seq<char>>) -> Seq<Line> {
    Seq::new(lines.len(), |i: int| Line::Text(lines[i]))
}

/// A run of a plain state needs no driver: alone it goes as far, through
/// the same states and with the same lines written, as with a driver.
pub proof fn lemma_alone(m: MachineView, event: Event, floats: Floats, n: nat)
    requires
        plain(m),
    ensures
        executed(m, event, n).0 == driven(m, event, floats, n).machine,
        texts(executed(m, event, n).1) == driven(m, event, floats, n).lines,
        executed(m, event, n).2 == driven(m, event, floats, n).last,
        plain(executed(m, event, n).0),
    decreases n,
{
    if n == 0 {
        assert(texts(Seq::empty()) =~= Seq::<Line>::empty());
    } else {
        lemma_step(m, event);
        let (next, action) = step(m, event);
        let less = (n - 1) as nat;
        match action {
            ActionView::Continue => {
                lemma_alone(next, Event::Resume, floats, less);
            },
            ActionView::Print(text) => {
                lemma_alone(next, Event::Resume, floats, less);
                let rest = executed(next, Event::Resume, less).1;
                assert(texts(seq![text] + rest) =~= seq![Line::Text(text)] + texts(rest));
            },
            _ => {
                assert(texts(Seq::empty()) =~= Seq::<Line>::empty());
            },
        }
    }
}

/// A program without floating-point literals starts in a plain state.
pub proof fn lemma_start(program: NodeView)
    requires
        float_free(program),
    ensures
        plain(start(program)),
{
}

/// A program without floating-point literals runs alone as the semantics
/// says: if the program completes within the fuel, a run of as many steps as
/// the semantics counts, without a driver, ends where the semantics says,
/// with the lines of the semantics written; and one step more reports
/// `Finished`, or the run has reported the error of the semantics.
pub proof fn plain_program_runs_alone(program: NodeView, floats: Floats, fuel: nat)
    requires
        float_free(program),
        !(eval(program, context_of(start(program)), floats, fuel).completion is OutOfFuel),
    ensures
        ({
            let e = eval(program, context_of(start(program)), floats, fuel);
            let ran = executed(start(program), Event::Resume, e.steps);
            let base = MachineView { frames: Seq::empty(), ..start(program) };
            &&& ran.0 == landed(base, e).machine
            &&& texts(ran.1) == e.lines
            &&& ran.2 == landed(base, e).last
            &&& e.completion is Normal ==> executed(start(program), Event::Resume, e.steps + 1)
                == (ran.0, ran.1, ActionView::Finished)
        }),
{
    let e = eval(program, context_of(start(program)), floats, fuel);
    lemma_start(program);
    lemma_alone(start(program), Event::Resume, floats, e.steps);
    machine_follows_semantics(program, Event::Resume, floats, fuel);
    if e.completion is Normal {
        lemma_one_more(start(program), Event::Resume, e.steps);
    }
}

/// A run that has come to an end of the work after `n` silent or printing
/// steps reports `Finished` with the next.
proof fn lemma_one_more(m: MachineView, event: Event, n: nat)
    requires
        executed(m, event, n).2 == ActionView::Continue,
        executed(m, event, n).0.frames.len() == 0,
    ensures
        executed(m, event, n + 1) == (
            executed(m, event, n).0,
            executed(m, event, n).1,
            ActionView::Finished,
        ),
    decreases n,
{
    if n == 0 {
    } else {
        let (next, action) = step(m, event);
        match action {
            ActionView::Continue => {
                lemma_one_more(next, Event::Resume, (n - 1) as nat);
            },
            ActionView::Print(text) => {
                lemma_one_more(next, Event::Resume, (n - 1) as nat);
            },
            _ => {},
        }
    }
}

} // verus!
