//! Every frame finds the values it takes: in every state of a run the value
//! stack holds exactly the values that the work left to do accounts for.
//!
//! Each frame, done to its end, adds a fixed number of values to the stack
//! or takes a fixed number from it. [`values_fit`] states of a state that
//! the values on the stack are those that its frames will take, and that no
//! frame of a call takes a value of its caller. It holds when a run starts
//! and every step keeps it; so no step of a run ever looks for a value on an
//! empty stack.

use vstd::prelude::*;
use crate::ast::{BinaryOperator, NodeView, ParamView};
use crate::interpreter::executed;
use crate::machine::{
    below, find_function, innermost_boundary, invoke, perform, run, start, step, unwind, Event,
    FrameView, MachineView,
};
use crate::operators::{binary_outcome, unary_outcome, FloatRequestView, OutcomeView};
use crate::value::ValueView;

verus! {

/// The number of values that a frame, done to its end, adds to the stack;
/// negative where it takes more than it gives.
pub open spec fn effect(frame: FrameView) -> int {
    match frame {
        FrameView::Run(_) => 1,
        FrameView::Sequence(_, _) => 1,
        FrameView::Arguments(list, i) => list.len() - i,
        FrameView::Discard => -1,
        FrameView::Apply(_) => -1,
        FrameView::Invoke(params, _) => 1 - params.len(),
        FrameView::Await(_) => 1,
        _ => 0,
    }
}

/// The number of values that a frame takes from the stack when it is done.
pub open spec fn takes(frame: FrameView) -> nat {
    match frame {
        FrameView::Discard => 1,
        FrameView::Declare(_, _) => 1,
        FrameView::Store(_) => 1,
        FrameView::Print => 1,
        FrameView::Branch(_, _) => 1,
        FrameView::Loop(_, _) => 1,
        FrameView::ForLoop(_, _, _) => 1,
        FrameView::ShortCircuit(_, _) => 1,
        FrameView::Apply(_) => 2,
        FrameView::ApplyUnary(_) => 1,
        FrameView::Invoke(params, _) => params.len(),
        FrameView::Unwind => 1,
        _ => 0,
    }
}

/// The number of values on the stack when `frames` is the work left to do:
/// one when nothing is left, the value of the program; one above what the
/// boundary of a call goes back to when the call is about to end.
pub open spec fn height(frames: Seq<FrameView>) -> int
    decreases frames.len(),
{
    if frames.len() == 0 {
        1
    } else {
        match frames.last() {
            FrameView::Boundary(_, kept) => kept as int + 1,
            frame => height(frames.drop_last()) - effect(frame),
        }
    }
}

/// The number of values that belong to the callers of the innermost call.
pub open spec fn floor(frames: Seq<FrameView>) -> nat
    decreases frames.len(),
{
    if frames.len() == 0 {
        0
    } else {
        match frames.last() {
            FrameView::Boundary(_, kept) => kept,
            _ => floor(frames.drop_last()),
        }
    }
}

/// Whether each of `frames` will find the values it takes above those of
/// its callers, and each boundary goes back to the values that the work
/// below it expects less the one that the call gives.
pub open spec fn heights_fit(frames: Seq<FrameView>) -> bool
    decreases frames.len(),
{
    frames.len() == 0 || {
        let rest = frames.drop_last();
        &&& heights_fit(rest)
        &&& height(frames) >= floor(frames) + takes(frames.last())
        &&& frames.last() matches FrameView::Boundary(_, kept) ==> height(rest) == kept + 1
        &&& frames.last() matches FrameView::Arguments(list, i) ==> i <= list.len()
    }
}

/// Whether the values of a state are those that its work accounts for.
pub open spec fn values_fit(m: MachineView) -> bool {
    heights_fit(m.frames) && (m.frames.len() > 0 ==> m.values.len() == height(m.frames))
}

/// What one more frame does to the height, to the floor and to the fit.
pub proof fn lemma_push(frames: Seq<FrameView>, frame: FrameView)
    ensures
        height(frames.push(frame)) == (match frame {
            FrameView::Boundary(_, kept) => kept as int + 1,
            _ => height(frames) - effect(frame),
        }),
        floor(frames.push(frame)) == (match frame {
            FrameView::Boundary(_, kept) => kept,
            _ => floor(frames),
        }),
        heights_fit(frames.push(frame)) == {
            &&& heights_fit(frames)
            &&& height(frames.push(frame)) >= floor(frames.push(frame)) + takes(frame)
            &&& frame matches FrameView::Boundary(_, kept) ==> height(frames) == kept + 1
            &&& frame matches FrameView::Arguments(list, i) ==> i <= list.len()
        },
{
    assert(frames.push(frame).drop_last() =~= frames);
}

/// The work left to do never expects fewer values than belong to the
/// callers.
pub proof fn lemma_height_above_floor(frames: Seq<FrameView>)
    requires
        heights_fit(frames),
    ensures
        height(frames) >= floor(frames),
{
}

/// Below the innermost boundary the heights fit; the boundary keeps the
/// values of the callers and goes back to one value less than the work
/// below it expects.
pub proof fn lemma_innermost_boundary(frames: Seq<FrameView>)
    requires
        heights_fit(frames),
    ensures
        match innermost_boundary(frames) {
            Some(k) => 0 <= k < frames.len() && heights_fit(frames.take(k)) && (
            frames[k] matches FrameView::Boundary(_, kept) && kept == floor(frames) && height(
                frames.take(k),
            ) == kept + 1),
            None => true,
        },
    decreases frames.len(),
{
    if frames.len() > 0 {
        let rest = frames.drop_last();
        if frames.last() is Boundary {
            assert(frames.take(frames.len() - 1) =~= rest);
        } else {
            lemma_innermost_boundary(rest);
            match innermost_boundary(rest) {
                Some(k) => {
                    assert(frames.take(k) =~= rest.take(k));
                    assert(frames[k] == rest[k]);
                },
                None => {},
            }
        }
    }
}

/// A run starts without values, as its work accounts for.
pub proof fn values_fit_at_start(program: NodeView)
    ensures
        values_fit(start(program)),
{
    let none = Seq::<FrameView>::empty();
    lemma_push(none, FrameView::Run(program));
    assert(start(program).frames =~= none.push(FrameView::Run(program)));
}

/// One more frame that finds its values leaves the heights fitting.
proof fn lemma_more_work(m: MachineView, frame: FrameView)
    requires
        heights_fit(m.frames),
        !(frame is Boundary),
        height(m.frames) - effect(frame) >= floor(m.frames) + takes(frame),
        frame matches FrameView::Arguments(list, i) ==> i <= list.len(),
    ensures
        heights_fit(m.push(frame).frames),
        height(m.push(frame).frames) == height(m.frames) - effect(frame),
        floor(m.push(frame).frames) == floor(m.frames),
        m.push(frame).values == m.values,
{
    lemma_push(m.frames, frame);
}

/// A new scope leaves the heights as they are.
proof fn lemma_scoped(m: MachineView)
    requires
        heights_fit(m.frames),
        height(m.frames) >= floor(m.frames),
    ensures
        heights_fit(m.scoped().frames),
        height(m.scoped().frames) == height(m.frames),
        floor(m.scoped().frames) == floor(m.frames),
        m.scoped().values == m.values,
{
    lemma_push(m.frames, FrameView::PopScope);
}

/// Running a node keeps the values fitting. The state is the one from
/// which the frame of the node has been taken: it is one value short of
/// what its work expects.
proof fn lemma_run_keeps_fit(m: MachineView, node: NodeView)
    requires
        heights_fit(m.frames),
        m.values.len() == height(m.frames) - 1,
        m.values.len() >= floor(m.frames),
    ensures
        values_fit(run(m, node).0),
{
    match node {
        NodeView::Program(list) => {
            lemma_more_work(m, FrameView::Sequence(list, 0));
        },
        NodeView::Block(list) => {
            lemma_scoped(m);
            lemma_more_work(m.scoped(), FrameView::Sequence(list, 0));
        },
        NodeView::VarDecl { name, declared_type, initializer } => {
            let a = m.push(FrameView::Declare(name, declared_type));
            lemma_more_work(m, FrameView::Declare(name, declared_type));
            lemma_more_work(a, FrameView::Run(*initializer));
        },
        NodeView::Assign { name, value } => {
            let a = m.push(FrameView::Store(name));
            lemma_more_work(m, FrameView::Store(name));
            lemma_more_work(a, FrameView::Run(*value));
        },
        NodeView::Print { value } => {
            let a = m.push(FrameView::Print);
            lemma_more_work(m, FrameView::Print);
            lemma_more_work(a, FrameView::Run(*value));
        },
        NodeView::If { condition, then_block, else_block } => {
            let branch = FrameView::Branch(
                *then_block,
                match else_block {
                    Some(block) => Some(*block),
                    None => None,
                },
            );
            lemma_more_work(m, branch);
            lemma_more_work(m.push(branch), FrameView::Run(*condition));
        },
        NodeView::While { condition, body } => {
            let again = FrameView::Loop(*condition, *body);
            lemma_more_work(m, again);
            lemma_more_work(m.push(again), FrameView::Run(*condition));
        },
        NodeView::For { init, condition, update, body } => {
            lemma_scoped(m);
            let a = m.scoped().push(FrameView::ForLoop(*condition, *update, *body));
            lemma_more_work(m.scoped(), FrameView::ForLoop(*condition, *update, *body));
            let b = a.push(FrameView::Run(*condition));
            lemma_more_work(a, FrameView::Run(*condition));
            let c = b.push(FrameView::Discard);
            lemma_more_work(b, FrameView::Discard);
            lemma_more_work(c, FrameView::Run(*init));
        },
        NodeView::FunctionDecl { .. } => {},
        NodeView::Call { name, args } => {
            match find_function(m.functions, name) {
                Some(f) => {
                    if f.params.len() == args.len() {
                        let a = m.push(FrameView::Invoke(f.params, f.body));
                        lemma_more_work(m, FrameView::Invoke(f.params, f.body));
                        lemma_more_work(a, FrameView::Arguments(args, 0));
                    }
                },
                None => {},
            }
        },
        NodeView::Return { value } => {
            let a = m.push(FrameView::Unwind);
            lemma_more_work(m, FrameView::Unwind);
            lemma_more_work(a, FrameView::Run(*value));
        },
        NodeView::IntLiteral(_) => {},
        NodeView::FloatLiteral(text) => {
            lemma_more_work(m, FrameView::Await(FloatRequestView::Literal(text)));
        },
        NodeView::StringLiteral(_) => {},
        NodeView::BoolLiteral(_) => {},
        NodeView::Identifier(_) => {},
        NodeView::BinaryOp { op, left, right } => {
            if op == BinaryOperator::And || op == BinaryOperator::Or {
                let a = m.push(FrameView::ShortCircuit(op, *right));
                lemma_more_work(m, FrameView::ShortCircuit(op, *right));
                lemma_more_work(a, FrameView::Run(*left));
            } else {
                let a = m.push(FrameView::Apply(op));
                lemma_more_work(m, FrameView::Apply(op));
                let b = a.push(FrameView::Run(*right));
                lemma_more_work(a, FrameView::Run(*right));
                lemma_more_work(b, FrameView::Run(*left));
            }
        },
        NodeView::UnaryOp { op, operand } => {
            let a = m.push(FrameView::ApplyUnary(op));
            lemma_more_work(m, FrameView::ApplyUnary(op));
            lemma_more_work(a, FrameView::Run(*operand));
        },
    }
}

/// Settling the outcome of an operator keeps the values fitting. The state
/// is one value short of what its work expects.
proof fn lemma_settle_keeps_fit(m: MachineView, outcome: OutcomeView)
    requires
        heights_fit(m.frames),
        m.values.len() == height(m.frames) - 1,
        m.values.len() >= floor(m.frames),
    ensures
        values_fit(m.settle(outcome).0),
{
    match outcome {
        OutcomeView::Ask(request) => {
            lemma_more_work(m, FrameView::Await(request));
        },
        _ => {},
    }
}

/// Calling a function keeps the values fitting. The state holds the
/// arguments above one value less than its work expects.
proof fn lemma_invoke_keeps_fit(m: MachineView, params: Seq<ParamView>, body: NodeView)
    requires
        heights_fit(m.frames),
        m.values.len() == height(m.frames) - 1 + params.len(),
        m.values.len() >= floor(m.frames) + params.len(),
    ensures
        values_fit(invoke(m, params, body).0),
{
    let rest = below(m.values, params.len());
    let boundary = FrameView::Boundary(m.scopes.len(), rest.len());
    lemma_push(m.frames, boundary);
    lemma_push(m.frames.push(boundary), FrameView::Run(body));
}

/// Returning from a call keeps the values fitting. The state holds, above
/// the values of the callers, what is left when the value to return has been
/// taken.
proof fn lemma_unwind_keeps_fit(m: MachineView, v: ValueView)
    requires
        heights_fit(m.frames),
        m.values.len() >= floor(m.frames),
    ensures
        values_fit(unwind(m, v).0),
{
    lemma_innermost_boundary(m.frames);
    match innermost_boundary(m.frames) {
        Some(k) => {},
        None => {
            assert(seq![v].len() == 1);
        },
    }
}

/// Doing a piece of work keeps the values fitting.
proof fn lemma_perform_keeps_fit(m: MachineView, frame: FrameView, event: Event)
    requires
        values_fit(m.push(frame)),
    ensures
        values_fit(perform(m, frame, event).0),
{
    lemma_push(m.frames, frame);
    lemma_height_above_floor(m.frames);
    let popped = m.pop_value();
    let v = m.top();
    match frame {
        FrameView::Run(node) => {
            lemma_run_keeps_fit(m, node);
        },
        FrameView::Sequence(list, i) => {
            if i < list.len() {
                let a = m.push(FrameView::Sequence(list, i + 1));
                lemma_more_work(m, FrameView::Sequence(list, i + 1));
                let b = a.push(FrameView::Discard);
                lemma_more_work(a, FrameView::Discard);
                lemma_more_work(b, FrameView::Run(list[i as int]));
            }
        },
        FrameView::Arguments(list, i) => {
            if i < list.len() {
                let a = m.push(FrameView::Arguments(list, i + 1));
                lemma_more_work(m, FrameView::Arguments(list, i + 1));
                lemma_more_work(a, FrameView::Run(list[i as int]));
            }
        },
        FrameView::Discard => {},
        FrameView::Declare(_, _) => {},
        FrameView::Store(_) => {},
        FrameView::Print => {},
        FrameView::Branch(then_block, else_block) => {
            lemma_scoped(popped);
            lemma_more_work(popped.scoped(), FrameView::Run(then_block));
            match else_block {
                Some(block) => {
                    lemma_more_work(popped.scoped(), FrameView::Run(block));
                },
                None => {},
            }
        },
        FrameView::Loop(condition, body) => {
            let a = popped.push(frame);
            lemma_more_work(popped, frame);
            let b = a.push(FrameView::Run(condition));
            lemma_more_work(a, FrameView::Run(condition));
            lemma_scoped(b);
            let c = b.scoped().push(FrameView::Discard);
            lemma_more_work(b.scoped(), FrameView::Discard);
            lemma_more_work(c, FrameView::Run(body));
        },
        FrameView::ForLoop(condition, update, body) => {
            let a = popped.push(frame);
            lemma_more_work(popped, frame);
            let b = a.push(FrameView::Run(condition));
            lemma_more_work(a, FrameView::Run(condition));
            let c = b.push(FrameView::Discard);
            lemma_more_work(b, FrameView::Discard);
            let d = c.push(FrameView::Run(update));
            lemma_more_work(c, FrameView::Run(update));
            let e = d.push(FrameView::Discard);
            lemma_more_work(d, FrameView::Discard);
            lemma_more_work(e, FrameView::Run(body));
        },
        FrameView::PopScope => {},
        FrameView::ShortCircuit(op, right) => {
            let a = m.push(FrameView::Apply(op));
            lemma_more_work(m, FrameView::Apply(op));
            lemma_more_work(a, FrameView::Run(right));
        },
        FrameView::Apply(op) => {
            lemma_settle_keeps_fit(popped.pop_value(), binary_outcome(op, popped.top(), v));
        },
        FrameView::ApplyUnary(op) => {
            lemma_settle_keeps_fit(popped, unary_outcome(op, v));
        },
        FrameView::Invoke(params, body) => {
            lemma_invoke_keeps_fit(m, params, body);
        },
        FrameView::Boundary(_, _) => {},
        FrameView::Unwind => {
            lemma_unwind_keeps_fit(popped, v);
        },
        FrameView::Await(request) => {},
    }
}

/// Every step keeps the values fitting.
pub proof fn step_keeps_values_fitting(m: MachineView, event: Event)
    requires
        values_fit(m),
    ensures
        values_fit(step(m, event).0),
{
    if m.frames.len() > 0 {
        let rest = MachineView { frames: m.frames.drop_last(), ..m };
        assert(rest.push(m.frames.last()).frames =~= m.frames);
        lemma_perform_keeps_fit(rest, m.frames.last(), event);
    }
}

/// From its start and after any number of steps, with whatever events, a
/// run has the values that the work left to do accounts for.
pub proof fn run_keeps_values_fitting(m: MachineView, event: Event, budget: nat)
    requires
        values_fit(m),
    ensures
        values_fit(executed(m, event, budget).0),
    decreases budget,
{
    if budget > 0 {
        step_keeps_values_fitting(m, event);
        run_keeps_values_fitting(step(m, event).0, Event::Resume, (budget - 1) as nat);
    }
}

/// No step looks for a value that is not there: where the values fit, the
/// stack holds at least the values that the next frame takes.
pub proof fn next_frame_finds_its_values(m: MachineView)
    requires
        values_fit(m),
        m.frames.len() > 0,
    ensures
        m.values.len() >= takes(m.frames.last()),
{
}

} // verus!
