//! No scope outlives its block: in every state of a run there are as many
//! scopes as the work that is left accounts for.
//!
//! Each scope above the global one was opened for a block, for a loop or for
//! a call, and the frame that ends it waits among the work that is left.
//! [`scopes_fit`] states this of a state; it holds when a run starts and every
//! step keeps it.

use vstd::prelude::*;
use crate::ast::{NodeView, ParamView};
use crate::environment::{assign, declare, lemma_locate, push_scope, Scopes};
use crate::interpreter::executed;
use crate::machine::{
    bind, innermost_boundary, perform, run, start, step, unwind, Event, FrameView, MachineView,
};
use crate::value::ValueView;

verus! {

/// Whether a frame neither ends a scope nor closes a call.
pub open spec fn keeps_depth(frame: FrameView) -> bool {
    !(frame is PopScope) && !(frame is Boundary)
}

/// The number of scopes in which the work `frames` is to be taken up: the
/// global scope, and one more for each frame that ends a scope; above the
/// boundary of a call, the scopes of the caller and the scope of the call.
pub open spec fn pending_depth(frames: Seq<FrameView>) -> nat
    decreases frames.len(),
{
    if frames.len() == 0 {
        1
    } else {
        match frames.last() {
            FrameView::PopScope => pending_depth(frames.drop_last()) + 1,
            FrameView::Boundary(depth, _) => depth + 1,
            _ => pending_depth(frames.drop_last()),
        }
    }
}

/// Whether each boundary of a call among `frames` goes back to the number
/// of scopes in which the work below it is to be taken up.
pub open spec fn boundaries_fit(frames: Seq<FrameView>) -> bool
    decreases frames.len(),
{
    frames.len() == 0 || (boundaries_fit(frames.drop_last()) && (frames.last() matches FrameView::Boundary(
        depth,
        _,
    ) ==> depth == pending_depth(frames.drop_last())))
}

/// Whether the scopes of a state are those that its work accounts for.
pub open spec fn scopes_fit(m: MachineView) -> bool {
    boundaries_fit(m.frames) && (m.frames.len() > 0 ==> m.scopes.len() == pending_depth(m.frames))
}

/// Work is taken up in at least the global scope.
pub proof fn lemma_depth_positive(frames: Seq<FrameView>)
    ensures
        pending_depth(frames) >= 1,
    decreases frames.len(),
{
    if frames.len() > 0 {
        lemma_depth_positive(frames.drop_last());
    }
}

/// What one more frame does to the depth and to the fit of the boundaries.
pub proof fn lemma_push(frames: Seq<FrameView>, frame: FrameView)
    ensures
        keeps_depth(frame) ==> pending_depth(frames.push(frame)) == pending_depth(frames),
        frame is PopScope ==> pending_depth(frames.push(frame)) == pending_depth(frames) + 1,
        frame matches FrameView::Boundary(depth, _) ==> pending_depth(frames.push(frame)) == depth
            + 1,
        boundaries_fit(frames.push(frame)) == (boundaries_fit(frames) && (
        frame matches FrameView::Boundary(depth, _) ==> depth == pending_depth(frames))),
{
    assert(frames.push(frame).drop_last() =~= frames);
}

/// Declaring a name opens and ends no scope.
pub proof fn lemma_declare_keeps_depth(scopes: Scopes, name: Seq<char>, value: ValueView)
    requires
        scopes.len() > 0,
    ensures
        declare(scopes, name, value).len() == scopes.len(),
{
}

/// Assigning to a name opens and ends no scope.
pub proof fn lemma_assign_keeps_depth(scopes: Scopes, name: Seq<char>, value: ValueView)
    ensures
        assign(scopes, name, value) matches Some(after) ==> after.len() == scopes.len(),
{
    lemma_locate(scopes, name);
}

/// Binding parameters opens and ends no scope.
pub proof fn lemma_bind_keeps_depth(
    scopes: Scopes,
    params: Seq<ParamView>,
    values: Seq<ValueView>,
    i: nat,
)
    requires
        scopes.len() > 0,
    ensures
        bind(scopes, params, values, i).len() == scopes.len(),
    decreases params.len() - i,
{
    if i < params.len() {
        let next = declare(
            scopes,
            params[i as int].name,
            crate::machine::argument(values, params.len(), i),
        );
        lemma_bind_keeps_depth(next, params, values, i + 1);
    }
}

/// Below the innermost boundary the boundaries fit, the boundary goes back
/// to the depth of the work below it, and the work above it is taken up in
/// more scopes than that.
pub proof fn lemma_innermost_boundary(frames: Seq<FrameView>)
    requires
        boundaries_fit(frames),
    ensures
        match innermost_boundary(frames) {
            Some(k) => 0 <= k < frames.len() && boundaries_fit(frames.take(k)) && (
            frames[k] matches FrameView::Boundary(depth, _) && depth == pending_depth(
                frames.take(k),
            ) && depth < pending_depth(frames)),
            None => true,
        },
    decreases frames.len(),
{
    if frames.len() > 0 {
        let rest = frames.drop_last();
        if frames.last() is Boundary {
            assert(frames.take(frames.len() - 1) =~= rest);
        } else {
            lemma_innermost_boundary(rest);
            match innermost_boundary(rest) {
                Some(k) => {
                    assert(frames.take(k) =~= rest.take(k));
                    assert(frames[k] == rest[k]);
                },
                None => {},
            }
        }
    }
}

/// A run starts in the global scope, which its work accounts for.
pub proof fn scopes_fit_at_start(program: NodeView)
    ensures
        scopes_fit(start(program)),
{
    let none = Seq::<FrameView>::empty();
    lemma_push(none, FrameView::Run(program));
    assert(start(program).frames =~= none.push(FrameView::Run(program)));
}

/// One more frame that neither ends a scope nor closes a call leaves the
/// scopes fitting.
proof fn lemma_more_work(m: MachineView, frame: FrameView)
    requires
        boundaries_fit(m.frames),
        m.scopes.len() == pending_depth(m.frames),
        keeps_depth(frame),
    ensures
        boundaries_fit(m.push(frame).frames),
        m.push(frame).scopes.len() == pending_depth(m.push(frame).frames),
{
    lemma_push(m.frames, frame);
}

/// A new scope with the frame that ends it leaves the scopes fitting.
proof fn lemma_scoped(m: MachineView)
    requires
        boundaries_fit(m.frames),
        m.scopes.len() == pending_depth(m.frames),
    ensures
        boundaries_fit(m.scoped().frames),
        m.scoped().scopes.len() == pending_depth(m.scoped().frames),
{
    lemma_push(m.frames, FrameView::PopScope);
}

/// Running a node keeps the scopes fitting.
proof fn lemma_run_keeps_fit(m: MachineView, node: NodeView)
    requires
        boundaries_fit(m.frames),
        m.scopes.len() == pending_depth(m.frames),
    ensures
        scopes_fit(run(m, node).0),
{
    match node {
        NodeView::Program(list) => {
            lemma_more_work(m, FrameView::Sequence(list, 0));
        },
        NodeView::Block(list) => {
            lemma_scoped(m);
            lemma_more_work(m.scoped(), FrameView::Sequence(list, 0));
        },
        NodeView::VarDecl { name, declared_type, initializer } => {
            let a = m.push(FrameView::Declare(name, declared_type));
            lemma_more_work(m, FrameView::Declare(name, declared_type));
            lemma_more_work(a, FrameView::Run(*initializer));
        },
        NodeView::Assign { name, value } => {
            let a = m.push(FrameView::Store(name));
            lemma_more_work(m, FrameView::Store(name));
            lemma_more_work(a, FrameView::Run(*value));
        },
        NodeView::Print { value } => {
            let a = m.push(FrameView::Print);
            lemma_more_work(m, FrameView::Print);
            lemma_more_work(a, FrameView::Run(*value));
        },
        NodeView::If { condition, then_block, else_block } => {
            let branch = FrameView::Branch(
                *then_block,
                match else_block {
                    Some(block) => Some(*block),
                    None => None,
                },
            );
            lemma_more_work(m, branch);
            lemma_more_work(m.push(branch), FrameView::Run(*condition));
        },
        NodeView::While { condition, body } => {
            let again = FrameView::Loop(*condition, *body);
            lemma_more_work(m, again);
            lemma_more_work(m.push(again), FrameView::Run(*condition));
        },
        NodeView::For { init, condition, update, body } => {
            lemma_scoped(m);
            let a = m.scoped().push(FrameView::ForLoop(*condition, *update, *body));
            lemma_more_work(m.scoped(), FrameView::ForLoop(*condition, *update, *body));
            let b = a.push(FrameView::Run(*condition));
            lemma_more_work(a, FrameView::Run(*condition));
            let c = b.push(FrameView::Discard);
            lemma_more_work(b, FrameView::Discard);
            lemma_more_work(c, FrameView::Run(*init));
        },
        NodeView::FunctionDecl { .. } => {},
        NodeView::Call { name, args } => {
            match crate::machine::find_function(m.functions, name) {
                Some(f) => {
                    if f.params.len() == args.len() {
                        let a = m.push(FrameView::Invoke(f.params, f.body));
                        lemma_more_work(m, FrameView::Invoke(f.params, f.body));
                        lemma_more_work(a, FrameView::Arguments(args, 0));
                    }
                },
                None => {},
            }
        },
        NodeView::Return { value } => {
            let a = m.push(FrameView::Unwind);
            lemma_more_work(m, FrameView::Unwind);
            lemma_more_work(a, FrameView::Run(*value));
        },
        NodeView::IntLiteral(_) => {},
        NodeView::FloatLiteral(text) => {
            lemma_more_work(
                m,
                FrameView::Await(crate::operators::FloatRequestView::Literal(text)),
            );
        },
        NodeView::StringLiteral(_) => {},
        NodeView::BoolLiteral(_) => {},
        NodeView::Identifier(_) => {},
        NodeView::BinaryOp { op, left, right } => {
            if op == crate::ast::BinaryOperator::And || op == crate::ast::BinaryOperator::Or {
                let a = m.push(FrameView::ShortCircuit(op, *right));
                lemma_more_work(m, FrameView::ShortCircuit(op, *right));
                lemma_more_work(a, FrameView::Run(*left));
            } else {
                let a = m.push(FrameView::Apply(op));
                lemma_more_work(m, FrameView::Apply(op));
                let b = a.push(FrameView::Run(*right));
                lemma_more_work(a, FrameView::Run(*right));
                lemma_more_work(b, FrameView::Run(*left));
            }
        },
        NodeView::UnaryOp { op, operand } => {
            let a = m.push(FrameView::ApplyUnary(op));
            lemma_more_work(m, FrameView::ApplyUnary(op));
            lemma_more_work(a, FrameView::Run(*operand));
        },
    }
}

/// Settling the outcome of an operator keeps the scopes fitting.
proof fn lemma_settle_keeps_fit(m: MachineView, outcome: crate::operators::OutcomeView)
    requires
        boundaries_fit(m.frames),
        m.scopes.len() == pending_depth(m.frames),
    ensures
        scopes_fit(m.settle(outcome).0),
{
    match outcome {
        crate::operators::OutcomeView::Ask(request) => {
            lemma_more_work(m, FrameView::Await(request));
        },
        _ => {},
    }
}

/// Calling a function keeps the scopes fitting.
proof fn lemma_invoke_keeps_fit(m: MachineView, params: Seq<ParamView>, body: NodeView)
    requires
        boundaries_fit(m.frames),
        m.scopes.len() == pending_depth(m.frames),
    ensures
        scopes_fit(crate::machine::invoke(m, params, body).0),
{
    let boundary = FrameView::Boundary(
        m.scopes.len(),
        crate::machine::below(m.values, params.len()).len(),
    );
    lemma_push(m.frames, boundary);
    lemma_push(m.frames.push(boundary), FrameView::Run(body));
    lemma_bind_keeps_depth(push_scope(m.scopes), params, m.values, 0);
}

/// Returning from a call keeps the scopes fitting.
proof fn lemma_unwind_keeps_fit(m: MachineView, v: ValueView)
    requires
        boundaries_fit(m.frames),
        m.scopes.len() == pending_depth(m.frames),
    ensures
        scopes_fit(unwind(m, v).0),
{
    lemma_innermost_boundary(m.frames);
}

/// Doing a piece of work keeps the scopes fitting.
proof fn lemma_perform_keeps_fit(m: MachineView, frame: FrameView, event: Event)
    requires
        scopes_fit(m.push(frame)),
    ensures
        scopes_fit(perform(m, frame, event).0),
{
    lemma_push(m.frames, frame);
    lemma_depth_positive(m.frames);
    let popped = m.pop_value();
    let v = m.top();
    match frame {
        FrameView::Run(node) => {
            lemma_run_keeps_fit(m, node);
        },
        FrameView::Sequence(list, i) => {
            if i < list.len() {
                let a = m.push(FrameView::Sequence(list, i + 1));
                lemma_more_work(m, FrameView::Sequence(list, i + 1));
                let b = a.push(FrameView::Discard);
                lemma_more_work(a, FrameView::Discard);
                lemma_more_work(b, FrameView::Run(list[i as int]));
            }
        },
        FrameView::Arguments(list, i) => {
            if i < list.len() {
                let a = m.push(FrameView::Arguments(list, i + 1));
                lemma_more_work(m, FrameView::Arguments(list, i + 1));
                lemma_more_work(a, FrameView::Run(list[i as int]));
            }
        },
        FrameView::Discard => {},
        FrameView::Declare(name, _) => {
            lemma_declare_keeps_depth(m.scopes, name, v);
        },
        FrameView::Store(name) => {
            lemma_assign_keeps_depth(m.scopes, name, v);
        },
        FrameView::Print => {},
        FrameView::Branch(then_block, else_block) => {
            lemma_scoped(popped);
            lemma_more_work(popped.scoped(), FrameView::Run(then_block));
            match else_block {
                Some(block) => {
                    lemma_more_work(popped.scoped(), FrameView::Run(block));
                },
                None => {},
            }
        },
        FrameView::Loop(condition, body) => {
            let a = popped.push(frame);
            lemma_more_work(popped, frame);
            let b = a.push(FrameView::Run(condition));
            lemma_more_work(a, FrameView::Run(condition));
            lemma_scoped(b);
            let c = b.scoped().push(FrameView::Discard);
            lemma_more_work(b.scoped(), FrameView::Discard);
            lemma_more_work(c, FrameView::Run(body));
        },
        FrameView::ForLoop(condition, update, body) => {
            let a = popped.push(frame);
            lemma_more_work(popped, frame);
            let b = a.push(FrameView::Run(condition));
            lemma_more_work(a, FrameView::Run(condition));
            let c = b.push(FrameView::Discard);
            lemma_more_work(b, FrameView::Discard);
            let d = c.push(FrameView::Run(update));
            lemma_more_work(c, FrameView::Run(update));
            let e = d.push(FrameView::Discard);
            lemma_more_work(d, FrameView::Discard);
            lemma_more_work(e, FrameView::Run(body));
        },
        FrameView::PopScope => {},
        FrameView::ShortCircuit(op, right) => {
            let a = m.push(FrameView::Apply(op));
            lemma_more_work(m, FrameView::Apply(op));
            lemma_more_work(a, FrameView::Run(right));
        },
        FrameView::Apply(op) => {
            lemma_settle_keeps_fit(
                popped.pop_value(),
                crate::operators::binary_outcome(op, popped.top(), v),
            );
        },
        FrameView::ApplyUnary(op) => {
            lemma_settle_keeps_fit(popped, crate::operators::unary_outcome(op, v));
        },
        FrameView::Invoke(params, body) => {
            lemma_invoke_keeps_fit(m, params, body);
        },
        FrameView::Boundary(depth, height) => {},
        FrameView::Unwind => {
            lemma_unwind_keeps_fit(popped, v);
        },
        FrameView::Await(request) => {},
    }
}

/// Every step keeps the scopes fitting.
pub proof fn step_keeps_scopes_fitting(m: MachineView, event: Event)
    requires
        scopes_fit(m),
    ensures
        scopes_fit(step(m, event).0),
{
    if m.frames.len() > 0 {
        let rest = MachineView { frames: m.frames.drop_last(), ..m };
        assert(rest.push(m.frames.last()).frames =~= m.frames);
        lemma_perform_keeps_fit(rest, m.frames.last(), event);
    }
}

/// No scope outlives its block: from its start and after any number of
/// steps, with whatever events, a run has the scopes that the work left to
/// do accounts for: the global scope and one for each block, loop or call
/// that has been entered and not yet left.
pub proof fn run_keeps_scopes_fitting(m: MachineView, event: Event, budget: nat)
    requires
        scopes_fit(m),
    ensures
        scopes_fit(executed(m, event, budget).0),
    decreases budget,
{
    if budget > 0 {
        step_keeps_scopes_fitting(m, event);
        run_keeps_scopes_fitting(step(m, event).0, Event::Resume, (budget - 1) as nat);
    }
}

} // verus!
