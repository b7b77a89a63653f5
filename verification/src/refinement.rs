//! The machine does what the semantics says.
//!
//! [`driven`] is a run of the machine with a driver that answers every
//! request as [`Floats`] says and writes every line. The theorem of this
//! module, [`machine_follows_semantics`], is that such a run of a program
//! ends as [`eval`] says the program completes: with the same lines written,
//! in the same scopes, with the same functions declared, and with the same
//! error if it is aborted.

use vstd::prelude::*;
use crate::ast::{BinaryOperator, NodeView, ParamView, TypeName};
use crate::environment::{assign, declare, lookup, push_scope, truncate};
use crate::machine::{
    argument, below, bind, find_function, first_mismatch, innermost_boundary, keep, run, start,
    step, unwind, ActionView, Event, FrameView, FunctionView, MachineView,
};
use crate::operands::{
    floor, heights_fit, step_keeps_values_fitting, values_fit, values_fit_at_start,
};
use crate::operators::{binary_outcome, unary_outcome, FloatRequestView, OutcomeView};
use crate::semantics::{
    answered, call, eval, failed, for_looping, gather, looping, normal, reply, sequence, settled,
    written, wrong_condition, Completion, Context, Evaluated, Floats, Line,
};
use crate::value::{kind_of, rendered, type_error, Kinds, Operation, RuntimeErrorView, ValueView};

verus! {

/// Where a driven run stands.
pub ghost struct Driven {
    /// The state of the machine.
    pub machine: MachineView,
    /// The event that the driver gives to the next step.
    pub event: Event,
    /// The lines that the driver has written.
    pub lines: Seq<Line>,
    /// `Finished` or `Failed` where the run has ended, else `Continue`.
    pub last: ActionView,
}

/// A run of at most `n` steps from the state `m`, the first step given
/// `event`, with a driver that writes each line it is handed and answers
/// each request as `floats` says. The run ends before `n` steps where the
/// machine is finished or fails.
pub open spec fn driven(m: MachineView, event: Event, floats: Floats, n: nat) -> Driven
    decreases n,
{
    if n == 0 {
        Driven { machine: m, event, lines: Seq::empty(), last: ActionView::Continue }
    } else {
        let (next, action) = step(m, event);
        let less = (n - 1) as nat;
        match action {
            ActionView::Continue => driven(next, Event::Resume, floats, less),
            ActionView::Print(text) => driven(next, Event::Resume, floats, less).after(
                Line::Text(text),
            ),
            ActionView::PrintFloat(bits) => driven(next, Event::Resume, floats, less).after(
                Line::Float(bits),
            ),
            ActionView::Ask(request) => driven(next, reply(floats, request), floats, less),
            _ => Driven { machine: next, event: Event::Resume, lines: Seq::empty(), last: action },
        }
    }
}

impl Driven {
    /// This run with `line` written before it.
    pub open spec fn after(self, line: Line) -> Driven {
        Driven { lines: seq![line] + self.lines, ..self }
    }

    /// This run and then `next`, if this one has not ended.
    pub open spec fn and(self, next: Driven) -> Driven {
        if self.last == ActionView::Continue {
            Driven { lines: self.lines + next.lines, ..next }
        } else {
            self
        }
    }
}

/// The scopes and functions of a state.
pub open spec fn context_of(m: MachineView) -> Context {
    Context { scopes: m.scopes, functions: m.functions }
}

/// The state `m` in another context.
pub open spec fn in_context(m: MachineView, context: Context) -> MachineView {
    MachineView { scopes: context.scopes, functions: context.functions, ..m }
}

/// Where the machine stands when a node that was run in the state `base`
/// has completed as `e`: having completed normally, the state is `base` with
/// the node's value on the stack; having returned, it is where the innermost
/// call of `base` is left; having failed, the run is aborted.
pub open spec fn landed(base: MachineView, e: Evaluated) -> Driven {
    Driven {
        machine: match e.completion {
            Completion::Normal(v) => in_context(base, e.context).push_value(v),
            Completion::Return(v) => unwind(in_context(base, e.context), v).0,
            _ => in_context(base, e.context).fail(RuntimeErrorView::DivisionByZero).0,
        },
        event: Event::Resume,
        lines: e.lines,
        last: match e.completion {
            Completion::Error(error) => ActionView::Failed(error),
            _ => ActionView::Continue,
        },
    }
}

/// A run of `a + b` steps is a run of `a` steps and then one of `b`.
pub proof fn lemma_driven_add(m: MachineView, event: Event, floats: Floats, a: nat, b: nat)
    ensures
        driven(m, event, floats, a + b) == driven(m, event, floats, a).and(
            driven(
                driven(m, event, floats, a).machine,
                driven(m, event, floats, a).event,
                floats,
                b,
            ),
        ),
    decreases a,
{
    if a == 0 {
        let second = driven(m, event, floats, b);
        assert(Seq::<Line>::empty() + second.lines =~= second.lines);
    } else {
        let (next, action) = step(m, event);
        let less = (a - 1) as nat;
        assert(a + b - 1 == less + b);
        match action {
            ActionView::Continue => {
                lemma_driven_add(next, Event::Resume, floats, less, b);
            },
            ActionView::Print(text) => {
                lemma_driven_add(next, Event::Resume, floats, less, b);
                let first = driven(next, Event::Resume, floats, less);
                let second = driven(first.machine, first.event, floats, b);
                assert(seq![Line::Text(text)] + (first.lines + second.lines) =~= (seq![
                    Line::Text(text),
                ] + first.lines) + second.lines);
            },
            ActionView::PrintFloat(bits) => {
                lemma_driven_add(next, Event::Resume, floats, less, b);
                let first = driven(next, Event::Resume, floats, less);
                let second = driven(first.machine, first.event, floats, b);
                assert(seq![Line::Float(bits)] + (first.lines + second.lines) =~= (seq![
                    Line::Float(bits),
                ] + first.lines) + second.lines);
            },
            ActionView::Ask(request) => {
                lemma_driven_add(next, reply(floats, request), floats, less, b);
            },
            _ => {},
        }
    }
}

/// Every step of a driven run keeps the values fitting.
pub proof fn lemma_driven_keeps_values_fitting(m: MachineView, event: Event, floats: Floats, n: nat)
    requires
        values_fit(m),
    ensures
        values_fit(driven(m, event, floats, n).machine),
    decreases n,
{
    if n > 0 {
        step_keeps_values_fitting(m, event);
        let (next, action) = step(m, event);
        match action {
            ActionView::Ask(request) => {
                lemma_driven_keeps_values_fitting(next, reply(floats, request), floats, (n - 1) as nat);
            },
            _ => {
                lemma_driven_keeps_values_fitting(next, Event::Resume, floats, (n - 1) as nat);
            },
        }
    }
}

/// A silent step and then a run.
pub proof fn lemma_silent(m: MachineView, event: Event, floats: Floats, next: MachineView, n: nat)
    requires
        step(m, event) == (next, ActionView::Continue),
    ensures
        driven(m, event, floats, 1 + n) == driven(next, Event::Resume, floats, n),
{
}

/// Values above those of a state do not change where a `return` leads.
pub proof fn lemma_unwind_under_values(m: MachineView, values: Seq<ValueView>, v: ValueView)
    requires
        heights_fit(m.frames),
        floor(m.frames) <= m.values.len(),
    ensures
        unwind(MachineView { values: m.values + values, ..m }, v).0 == unwind(m, v).0,
{
    let above = MachineView { values: m.values + values, ..m };
    crate::operands::lemma_innermost_boundary(m.frames);
    match innermost_boundary(m.frames) {
        Some(k) => {
            match m.frames[k] {
                FrameView::Boundary(depth, kept) => {
                    assert(keep(above.values, kept) =~= keep(m.values, kept));
                },
                _ => {},
            }
        },
        None => {},
    }
}

/// Frames that are no boundaries above those of a state do not change
/// where a `return` leads.
pub proof fn lemma_unwind_under_frames(m: MachineView, frames: Seq<FrameView>, v: ValueView)
    requires
        forall|i: int| 0 <= i < frames.len() ==> !(#[trigger] frames[i] is Boundary),
    ensures
        unwind(MachineView { frames: m.frames + frames, ..m }, v).0 == unwind(m, v).0,
    decreases frames.len(),
{
    let above = MachineView { frames: m.frames + frames, ..m };
    if frames.len() == 0 {
        assert(above.frames =~= m.frames);
        assert(above == m);
    } else {
        let fewer = frames.drop_last();
        let lower = MachineView { frames: m.frames + fewer, ..m };
        assert(above.frames.drop_last() =~= lower.frames);
        assert(above.frames.last() == frames[frames.len() - 1]);
        lemma_unwind_under_frames(m, fewer, v);
        assert(innermost_boundary(above.frames) == innermost_boundary(lower.frames));
        match innermost_boundary(lower.frames) {
            Some(k) => {
                lemma_boundary_index(lower.frames);
                assert(above.frames[k] == lower.frames[k]);
                assert(above.frames.take(k) =~= lower.frames.take(k));
            },
            None => {},
        }
    }
}

/// Frames that are no boundaries, and values, above a state do not change
/// where a `return` leads.
pub proof fn lemma_unwind_from_above(
    m: MachineView,
    frames: Seq<FrameView>,
    values: Seq<ValueView>,
    v: ValueView,
)
    requires
        heights_fit(m.frames),
        floor(m.frames) <= m.values.len(),
        forall|i: int| 0 <= i < frames.len() ==> !(#[trigger] frames[i] is Boundary),
    ensures
        unwind(
            MachineView { frames: m.frames + frames, values: m.values + values, ..m },
            v,
        ).0 == unwind(m, v).0,
{
    lemma_unwind_under_values(m, values, v);
    lemma_unwind_under_frames(MachineView { values: m.values + values, ..m }, frames, v);
}

/// The innermost boundary is one of the frames, and a boundary.
pub proof fn lemma_boundary_index(frames: Seq<FrameView>)
    ensures
        innermost_boundary(frames) matches Some(k) ==> 0 <= k < frames.len()
            && frames[k] is Boundary,
    decreases frames.len(),
{
    if frames.len() > 0 {
        lemma_boundary_index(frames.drop_last());
    }
}

/// Whether none of `frames` is the boundary of a call.
pub open spec fn no_boundary(frames: Seq<FrameView>) -> bool {
    forall|i: int| 0 <= i < frames.len() ==> !(#[trigger] frames[i] is Boundary)
}

/// Whether the state `base` can take up a node: whether its frames will
/// find their values, and its values are at least those of its callers.
pub open spec fn steady(base: MachineView) -> bool {
    heights_fit(base.frames) && floor(base.frames) <= base.values.len()
}

/// A state about to run a node, in which the values fit, can take it up.
pub proof fn lemma_steady(base: MachineView, node: NodeView)
    requires
        values_fit(base.push(FrameView::Run(node))),
    ensures
        steady(base),
{
    crate::operands::lemma_push(base.frames, FrameView::Run(node));
}

/// What has not completed normally lands in the same state from above as
/// from below: a `return` leaves the frames and values above behind, and an
/// error leaves everything behind.
pub proof fn lemma_lift(
    base: MachineView,
    above: MachineView,
    frames: Seq<FrameView>,
    values: Seq<ValueView>,
    e: Evaluated,
)
    requires
        steady(base),
        above.frames == base.frames + frames,
        above.values == base.values + values,
        no_boundary(frames),
        !(e.completion is Normal),
    ensures
        landed(above, e) == landed(base, e),
{
    match e.completion {
        Completion::Return(v) => {
            let low = in_context(base, e.context);
            lemma_unwind_from_above(low, frames, values, v);
            assert(in_context(above, e.context) == MachineView {
                frames: low.frames + frames,
                values: low.values + values,
                ..low
            });
        },
        _ => {},
    }
}

/// The end of an operator: from a state whose next step settles `outcome`
/// in the state `m`, the run lands where the semantics says.
pub proof fn lemma_settle(
    x: MachineView,
    event: Event,
    base: MachineView,
    context: Context,
    outcome: OutcomeView,
    floats: Floats,
)
    requires
        step(x, event) == in_context(base, context).settle(outcome),
    ensures
        driven(x, event, floats, settled(outcome, context, floats).steps) == landed(
            base,
            settled(outcome, context, floats),
        ),
{
    let m = in_context(base, context);
    match outcome {
        OutcomeView::Value(v) => {
            assert(driven(m.push_value(v), Event::Resume, floats, 0).machine == m.push_value(v));
        },
        OutcomeView::Ask(request) => {
            let waiting = m.push(FrameView::Await(request));
            crate::machine::lemma_step_does_last_frame(
                m,
                FrameView::Await(request),
                reply(floats, request),
            );
            assert(step(waiting, reply(floats, request)) == (
                m.push_value(answered(floats, request)),
                ActionView::Continue,
            ));
            assert(driven(waiting, reply(floats, request), floats, 1) == driven(
                m.push_value(answered(floats, request)),
                Event::Resume,
                floats,
                0,
            ));
            assert(driven(x, event, floats, 2) == driven(
                waiting,
                reply(floats, request),
                floats,
                1,
            ));
        },
        OutcomeView::Fail(e) => {},
    }
}

/// A run of one step that is silent.
pub proof fn lemma_one_silent(m: MachineView, event: Event, floats: Floats, next: MachineView)
    requires
        step(m, event) == (next, ActionView::Continue),
    ensures
        driven(m, event, floats, 1) == (Driven {
            machine: next,
            event: Event::Resume,
            lines: Seq::empty(),
            last: ActionView::Continue,
        }),
{
    assert(driven(next, Event::Resume, floats, 0).machine == next);
}

/// A node that takes one step of its own.
proof fn lemma_leaf(node: NodeView, base: MachineView, event: Event, floats: Floats, fuel: nat)
    requires
        fuel > 0,
        node is IntLiteral || node is StringLiteral || node is BoolLiteral || node is Identifier
            || node is FunctionDecl || node is FloatLiteral,
    ensures
        driven(
            base.push(FrameView::Run(node)),
            event,
            floats,
            eval(node, context_of(base), floats, fuel).steps,
        ) == landed(base, eval(node, context_of(base), floats, fuel)),
{
    let s0 = base.push(FrameView::Run(node));
    let context = context_of(base);
    crate::machine::lemma_step_does_last_frame(base, FrameView::Run(node), event);
    assert(in_context(base, context) == base);
    match node {
        NodeView::FloatLiteral(text) => {
            lemma_settle(
                s0,
                event,
                base,
                context,
                OutcomeView::Ask(FloatRequestView::Literal(text)),
                floats,
            );
        },
        NodeView::Identifier(name) => {
            match lookup(base.scopes, name) {
                Some(v) => {
                    lemma_one_silent(s0, event, floats, base.push_value(v));
                },
                None => {},
            }
        },
        NodeView::IntLiteral(i) => {
            lemma_one_silent(s0, event, floats, base.push_value(ValueView::Int(i)));
        },
        NodeView::StringLiteral(text) => {
            lemma_one_silent(s0, event, floats, base.push_value(ValueView::Str(text)));
        },
        NodeView::BoolLiteral(b) => {
            lemma_one_silent(s0, event, floats, base.push_value(ValueView::Bool(b)));
        },
        NodeView::FunctionDecl { name, params, body } => {
            let declared = MachineView {
                functions: base.functions.push(FunctionView { name, params, body: *body }),
                ..base
            };
            lemma_one_silent(s0, event, floats, declared.push_value(ValueView::Void));
        },
        _ => {},
    }
}

/// Whether `whole` is `first` and then, if that completed normally,
/// `rest`.
pub open spec fn composed(whole: Evaluated, first: Evaluated, rest: Evaluated) -> bool {
    whole == (if first.completion is Normal {
        first.and(rest)
    } else {
        first
    })
}

/// A part and then the rest: from the state `at`, which lies above `base`,
/// the run of a part lands as `first` says, and from where that lands
/// normally the run of the rest lands as `rest` says; so the run of both
/// lands as `whole` says.
pub proof fn lemma_after(
    base: MachineView,
    above: MachineView,
    frames: Seq<FrameView>,
    values: Seq<ValueView>,
    floats: Floats,
    at: MachineView,
    event: Event,
    first: Evaluated,
    rest: Evaluated,
    whole: Evaluated,
)
    requires
        steady(base),
        above.frames == base.frames + frames,
        above.values == base.values + values,
        no_boundary(frames),
        composed(whole, first, rest),
        driven(at, event, floats, first.steps) == landed(above, first),
        first.completion is Normal ==> driven(
            landed(above, first).machine,
            Event::Resume,
            floats,
            rest.steps,
        ) == landed(base, rest),
    ensures
        driven(at, event, floats, whole.steps) == landed(base, whole),
{
    if first.completion is Normal {
        lemma_driven_add(at, event, floats, first.steps, rest.steps);
    } else {
        lemma_lift(base, above, frames, values, first);
    }
}

/// The first step of a node, which is silent, and then the rest.
pub proof fn lemma_begin(
    base: MachineView,
    node: NodeView,
    event: Event,
    floats: Floats,
    next: MachineView,
    rest: Evaluated,
    whole: Evaluated,
)
    requires
        run(base, node) == (next, ActionView::Continue),
        whole == rest.plus(1),
        driven(next, Event::Resume, floats, rest.steps) == landed(base, rest),
    ensures
        driven(base.push(FrameView::Run(node)), event, floats, whole.steps) == landed(base, whole),
{
    crate::machine::lemma_step_does_last_frame(base, FrameView::Run(node), event);
    lemma_silent(base.push(FrameView::Run(node)), event, floats, next, rest.steps);
}

/// The state that follows the state about to run `node`, in which the values
/// fit; its values fit too.
pub proof fn lemma_begun(base: MachineView, node: NodeView, event: Event)
    requires
        values_fit(base.push(FrameView::Run(node))),
    ensures
        values_fit(run(base, node).0),
        steady(base),
{
    crate::machine::lemma_step_does_last_frame(base, FrameView::Run(node), event);
    step_keeps_values_fitting(base.push(FrameView::Run(node)), event);
    lemma_steady(base, node);
}

/// Whether the node can be run from `base` and completes within the fuel.
pub open spec fn ready(node: NodeView, base: MachineView, floats: Floats, fuel: nat) -> bool {
    values_fit(base.push(FrameView::Run(node))) && !(eval(
        node,
        context_of(base),
        floats,
        fuel,
    ).completion is OutOfFuel)
}

/// Whether the run of the node from `base` lands as the semantics says.
pub open spec fn follows(
    node: NodeView,
    base: MachineView,
    event: Event,
    floats: Floats,
    fuel: nat,
) -> bool {
    driven(
        base.push(FrameView::Run(node)),
        event,
        floats,
        eval(node, context_of(base), floats, fuel).steps,
    ) == landed(base, eval(node, context_of(base), floats, fuel))
}

/// The machine does what the semantics says of a node.
pub proof fn lemma_eval(node: NodeView, base: MachineView, event: Event, floats: Floats, fuel: nat)
    requires
        ready(node, base, floats, fuel),
    ensures
        follows(node, base, event, floats, fuel),
    decreases fuel, 1nat,
{
    match node {
        NodeView::UnaryOp { .. } => {
            lemma_unary(node, base, event, floats, fuel);
        },
        NodeView::VarDecl { .. } => {
            lemma_var_decl(node, base, event, floats, fuel);
        },
        NodeView::Assign { .. } => {
            lemma_assign(node, base, event, floats, fuel);
        },
        NodeView::Print { .. } => {
            lemma_print(node, base, event, floats, fuel);
        },
        NodeView::Return { .. } => {
            lemma_return(node, base, event, floats, fuel);
        },
        NodeView::BinaryOp { op, .. } => {
            if op == BinaryOperator::And || op == BinaryOperator::Or {
                lemma_logical(node, base, event, floats, fuel);
            } else {
                lemma_arithmetic(node, base, event, floats, fuel);
            }
        },
        NodeView::Call { .. } => {
            lemma_call(node, base, event, floats, fuel);
        },
        NodeView::Program(_) => {
            lemma_block(node, base, event, floats, fuel);
        },
        NodeView::Block(_) => {
            lemma_block(node, base, event, floats, fuel);
        },
        NodeView::If { .. } => {
            lemma_if(node, base, event, floats, fuel);
        },
        NodeView::While { .. } => {
            lemma_while(node, base, event, floats, fuel);
        },
        NodeView::For { .. } => {
            lemma_for(node, base, event, floats, fuel);
        },
        _ => {
            lemma_leaf(node, base, event, floats, fuel);
        },
    }
}

/// A run of one step that fails.
pub proof fn lemma_one_failing(
    m: MachineView,
    event: Event,
    floats: Floats,
    base: MachineView,
    context: Context,
    e: RuntimeErrorView,
)
    requires
        step(m, event) == in_context(base, context).fail(e),
    ensures
        driven(m, event, floats, 1) == landed(base, failed(e, context, 1)),
{
}

/// The machine does what the semantics says of a prefix operator.
proof fn lemma_unary(node: NodeView, base: MachineView, event: Event, floats: Floats, fuel: nat)
    requires
        node is UnaryOp,
        ready(node, base, floats, fuel),
    ensures
        follows(node, base, event, floats, fuel),
    decreases fuel, 0nat,
{
    match node {
        NodeView::UnaryOp { op, operand } => {
            let whole = eval(node, context_of(base), floats, fuel);
            let less = (fuel - 1) as nat;
            let frame = FrameView::ApplyUnary(op);
            let above = base.push(frame);
            let at = above.push(FrameView::Run(*operand));
            let first = eval(*operand, context_of(base), floats, less);
            lemma_begun(base, node, event);
            lemma_eval(*operand, above, Event::Resume, floats, less);
            assert(above.frames =~= base.frames + seq![frame]);
            assert(above.values =~= base.values + Seq::<ValueView>::empty());
            match first.completion {
                Completion::Normal(v) => {
                    let m = in_context(base, first.context);
                    let x = m.push_value(v).push(frame);
                    crate::machine::lemma_step_does_last_frame(
                        m.push_value(v),
                        frame,
                        Event::Resume,
                    );
                    assert(m.push_value(v).pop_value().values =~= m.values);
                    assert(m.push_value(v).pop_value() == m);
                    assert(landed(above, first).machine == x);
                    let rest = settled(unary_outcome(op, v), first.context, floats);
                    lemma_settle(x, Event::Resume, base, first.context, unary_outcome(op, v), floats);
                    lemma_after(
                        base,
                        above,
                        seq![frame],
                        Seq::empty(),
                        floats,
                        at,
                        Event::Resume,
                        first,
                        rest,
                        first.and(rest),
                    );
                    lemma_begin(base, node, event, floats, at, first.and(rest), whole);
                },
                _ => {
                    lemma_after(
                        base,
                        above,
                        seq![frame],
                        Seq::empty(),
                        floats,
                        at,
                        Event::Resume,
                        first,
                        first,
                        first,
                    );
                    lemma_begin(base, node, event, floats, at, first, whole);
                },
            }
        },
        _ => {},
    }
}

/// The machine does what the semantics says of a variable declaration.
proof fn lemma_var_decl(node: NodeView, base: MachineView, event: Event, floats: Floats, fuel: nat)
    requires
        node is VarDecl,
        ready(node, base, floats, fuel),
    ensures
        follows(node, base, event, floats, fuel),
    decreases fuel, 0nat,
{
    match node {
        NodeView::VarDecl { name, declared_type, initializer } => {
            let whole = eval(node, context_of(base), floats, fuel);
            let less = (fuel - 1) as nat;
            let frame = FrameView::Declare(name, declared_type);
            let above = base.push(frame);
            let at = above.push(FrameView::Run(*initializer));
            let first = eval(*initializer, context_of(base), floats, less);
            lemma_begun(base, node, event);
            lemma_eval(*initializer, above, Event::Resume, floats, less);
            assert(above.frames =~= base.frames + seq![frame]);
            assert(above.values =~= base.values + Seq::<ValueView>::empty());
            match first.completion {
                Completion::Normal(v) => {
                    let m = in_context(base, first.context);
                    let x = m.push_value(v).push(frame);
                    crate::machine::lemma_step_does_last_frame(
                        m.push_value(v),
                        frame,
                        Event::Resume,
                    );
                    assert(m.push_value(v).pop_value().values =~= m.values);
                    assert(m.push_value(v).pop_value() == m);
                    assert(landed(above, first).machine == x);
                    let error = type_error(
                        Operation::Declare,
                        Kinds::Only(declared_type),
                        kind_of(v),
                    );
                    let bound = first.context.with_scopes(declare(first.context.scopes, name, v));
                    let rest = if kind_of(v) != declared_type {
                        failed(error, first.context, 1)
                    } else {
                        normal(ValueView::Void, bound, 1)
                    };
                    if kind_of(v) != declared_type {
                        lemma_one_failing(x, Event::Resume, floats, base, first.context, error);
                    } else {
                        lemma_one_silent(
                            x,
                            Event::Resume,
                            floats,
                            in_context(base, bound).push_value(ValueView::Void),
                        );
                    }
                    lemma_after(
                        base,
                        above,
                        seq![frame],
                        Seq::empty(),
                        floats,
                        at,
                        Event::Resume,
                        first,
                        rest,
                        first.and(rest),
                    );
                    lemma_begin(base, node, event, floats, at, first.and(rest), whole);
                },
                _ => {
                    lemma_after(
                        base,
                        above,
                        seq![frame],
                        Seq::empty(),
                        floats,
                        at,
                        Event::Resume,
                        first,
                        first,
                        first,
                    );
                    lemma_begin(base, node, event, floats, at, first, whole);
                },
            }
        },
        _ => {},
    }
}

/// The machine does what the semantics says of an assignment.
proof fn lemma_assign(node: NodeView, base: MachineView, event: Event, floats: Floats, fuel: nat)
    requires
        node is Assign,
        ready(node, base, floats, fuel),
    ensures
        follows(node, base, event, floats, fuel),
    decreases fuel, 0nat,
{
    match node {
        NodeView::Assign { name, value } => {
            let whole = eval(node, context_of(base), floats, fuel);
            let less = (fuel - 1) as nat;
            let frame = FrameView::Store(name);
            let above = base.push(frame);
            let at = above.push(FrameView::Run(*value));
            let first = eval(*value, context_of(base), floats, less);
            lemma_begun(base, node, event);
            lemma_eval(*value, above, Event::Resume, floats, less);
            assert(above.frames =~= base.frames + seq![frame]);
            assert(above.values =~= base.values + Seq::<ValueView>::empty());
            match first.completion {
                Completion::Normal(v) => {
                    let m = in_context(base, first.context);
                    let x = m.push_value(v).push(frame);
                    crate::machine::lemma_step_does_last_frame(
                        m.push_value(v),
                        frame,
                        Event::Resume,
                    );
                    assert(m.push_value(v).pop_value().values =~= m.values);
                    assert(m.push_value(v).pop_value() == m);
                    assert(landed(above, first).machine == x);
                    let error = RuntimeErrorView::UndefinedVariable { name };
                    let rest = match assign(first.context.scopes, name, v) {
                        Some(scopes) => normal(
                            ValueView::Void,
                            first.context.with_scopes(scopes),
                            1,
                        ),
                        None => failed(error, first.context, 1),
                    };
                    match assign(first.context.scopes, name, v) {
                        Some(scopes) => {
                            lemma_one_silent(
                                x,
                                Event::Resume,
                                floats,
                                in_context(base, first.context.with_scopes(scopes)).push_value(
                                    ValueView::Void,
                                ),
                            );
                        },
                        None => {
                            lemma_one_failing(x, Event::Resume, floats, base, first.context, error);
                        },
                    }
                    lemma_after(
                        base,
                        above,
                        seq![frame],
                        Seq::empty(),
                        floats,
                        at,
                        Event::Resume,
                        first,
                        rest,
                        first.and(rest),
                    );
                    lemma_begin(base, node, event, floats, at, first.and(rest), whole);
                },
                _ => {
                    lemma_after(
                        base,
                        above,
                        seq![frame],
                        Seq::empty(),
                        floats,
                        at,
                        Event::Resume,
                        first,
                        first,
                        first,
                    );
                    lemma_begin(base, node, event, floats, at, first, whole);
                },
            }
        },
        _ => {},
    }
}

/// The machine does what the semantics says of a `print` statement.
proof fn lemma_print(node: NodeView, base: MachineView, event: Event, floats: Floats, fuel: nat)
    requires
        node is Print,
        ready(node, base, floats, fuel),
    ensures
        follows(node, base, event, floats, fuel),
    decreases fuel, 0nat,
{
    match node {
        NodeView::Print { value } => {
            let whole = eval(node, context_of(base), floats, fuel);
            let less = (fuel - 1) as nat;
            let frame = FrameView::Print;
            let above = base.push(frame);
            let at = above.push(FrameView::Run(*value));
            let first = eval(*value, context_of(base), floats, less);
            lemma_begun(base, node, event);
            lemma_eval(*value, above, Event::Resume, floats, less);
            assert(above.frames =~= base.frames + seq![frame]);
            assert(above.values =~= base.values + Seq::<ValueView>::empty());
            match first.completion {
                Completion::Normal(v) => {
                    let m = in_context(base, first.context);
                    let x = m.push_value(v).push(frame);
                    crate::machine::lemma_step_does_last_frame(
                        m.push_value(v),
                        frame,
                        Event::Resume,
                    );
                    assert(m.push_value(v).pop_value().values =~= m.values);
                    assert(m.push_value(v).pop_value() == m);
                    assert(landed(above, first).machine == x);
                    let error = type_error(Operation::Print, Kinds::NotVoid, TypeName::Void);
                    let rest = match v {
                        ValueView::Void => failed(error, first.context, 1),
                        ValueView::Float(bits) => written(Line::Float(bits), first.context),
                        _ => written(Line::Text(rendered(v)), first.context),
                    };
                    let done = m.push_value(ValueView::Void);
                    assert(driven(done, Event::Resume, floats, 0).lines =~= Seq::<Line>::empty());
                    assert(forall|line: Line| seq![line] + Seq::<Line>::empty() =~= seq![line]);
                    match v {
                        ValueView::Void => {
                            lemma_one_failing(x, Event::Resume, floats, base, first.context, error);
                        },
                        ValueView::Float(bits) => {
                            assert(driven(x, Event::Resume, floats, 1) == driven(
                                done,
                                Event::Resume,
                                floats,
                                0,
                            ).after(Line::Float(bits)));
                        },
                        _ => {
                            assert(driven(x, Event::Resume, floats, 1) == driven(
                                done,
                                Event::Resume,
                                floats,
                                0,
                            ).after(Line::Text(rendered(v))));
                        },
                    }
                    lemma_after(
                        base,
                        above,
                        seq![frame],
                        Seq::empty(),
                        floats,
                        at,
                        Event::Resume,
                        first,
                        rest,
                        first.and(rest),
                    );
                    lemma_begin(base, node, event, floats, at, first.and(rest), whole);
                },
                _ => {
                    lemma_after(
                        base,
                        above,
                        seq![frame],
                        Seq::empty(),
                        floats,
                        at,
                        Event::Resume,
                        first,
                        first,
                        first,
                    );
                    lemma_begin(base, node, event, floats, at, first, whole);
                },
            }
        },
        _ => {},
    }
}

/// The machine does what the semantics says of a `return` statement.
proof fn lemma_return(node: NodeView, base: MachineView, event: Event, floats: Floats, fuel: nat)
    requires
        node is Return,
        ready(node, base, floats, fuel),
    ensures
        follows(node, base, event, floats, fuel),
    decreases fuel, 0nat,
{
    match node {
        NodeView::Return { value } => {
            let whole = eval(node, context_of(base), floats, fuel);
            let less = (fuel - 1) as nat;
            let frame = FrameView::Unwind;
            let above = base.push(frame);
            let at = above.push(FrameView::Run(*value));
            let first = eval(*value, context_of(base), floats, less);
            lemma_begun(base, node, event);
            lemma_eval(*value, above, Event::Resume, floats, less);
            assert(above.frames =~= base.frames + seq![frame]);
            assert(above.values =~= base.values + Seq::<ValueView>::empty());
            match first.completion {
                Completion::Normal(v) => {
                    let m = in_context(base, first.context);
                    let x = m.push_value(v).push(frame);
                    crate::machine::lemma_step_does_last_frame(
                        m.push_value(v),
                        frame,
                        Event::Resume,
                    );
                    assert(m.push_value(v).pop_value().values =~= m.values);
                    assert(m.push_value(v).pop_value() == m);
                    assert(landed(above, first).machine == x);
                    let rest = Evaluated {
                        completion: Completion::Return(v),
                        context: first.context,
                        lines: Seq::empty(),
                        steps: 1,
                    };
                    assert(first.lines + rest.lines =~= first.lines);
                    lemma_one_silent(x, Event::Resume, floats, unwind(m, v).0);
                    lemma_after(
                        base,
                        above,
                        seq![frame],
                        Seq::empty(),
                        floats,
                        at,
                        Event::Resume,
                        first,
                        rest,
                        first.and(rest),
                    );
                    lemma_begin(base, node, event, floats, at, first.and(rest), whole);
                },
                _ => {
                    lemma_after(
                        base,
                        above,
                        seq![frame],
                        Seq::empty(),
                        floats,
                        at,
                        Event::Resume,
                        first,
                        first,
                        first,
                    );
                    lemma_begin(base, node, event, floats, at, first, whole);
                },
            }
        },
        _ => {},
    }
}

/// Landing does not depend on the context of the state that took the node
/// up.
pub proof fn lemma_landed_in_context(base: MachineView, context: Context, e: Evaluated)
    ensures
        landed(in_context(base, context), e) == landed(base, e),
{
    assert(in_context(in_context(base, context), e.context) == in_context(base, e.context));
}

/// Landing does not depend on the number of steps.
pub proof fn lemma_landed_plus(base: MachineView, e: Evaluated, n: nat)
    ensures
        landed(base, e.plus(n)) == landed(base, e),
{
}

/// Silent steps before a run that lands.
pub proof fn lemma_silent_before(
    at: MachineView,
    event: Event,
    floats: Floats,
    next: MachineView,
    base: MachineView,
    rest: Evaluated,
)
    requires
        step(at, event) == (next, ActionView::Continue),
        driven(next, Event::Resume, floats, rest.steps) == landed(base, rest),
    ensures
        driven(at, event, floats, rest.plus(1).steps) == landed(base, rest.plus(1)),
{
    lemma_silent(at, event, floats, next, rest.steps);
}

/// Doing one thing after the other is the same whichever two are taken
/// together.
pub proof fn lemma_and_and(a: Evaluated, b: Evaluated, c: Evaluated)
    ensures
        a.and(b).and(c) == a.and(b.and(c)),
{
    assert((a.lines + b.lines) + c.lines =~= a.lines + (b.lines + c.lines));
}

/// The right operand of a binary operator, and then the operator: from the
/// state in which the left operand `a` has been evaluated.
proof fn lemma_right_operand(
    op: BinaryOperator,
    right: NodeView,
    a: ValueView,
    base: MachineView,
    floats: Floats,
    fuel: nat,
) -> (rest: Evaluated)
    requires
        steady(base),
        values_fit(
            base.push_value(a).push(FrameView::Apply(op)).push(FrameView::Run(right)),
        ),
        !(eval(right, context_of(base), floats, fuel).completion is OutOfFuel),
    ensures
        rest == (match eval(right, context_of(base), floats, fuel).completion {
            Completion::Normal(b) => eval(right, context_of(base), floats, fuel).and(
                settled(
                    binary_outcome(op, a, b),
                    eval(right, context_of(base), floats, fuel).context,
                    floats,
                ),
            ),
            _ => eval(right, context_of(base), floats, fuel),
        }),
        driven(
            base.push_value(a).push(FrameView::Apply(op)).push(FrameView::Run(right)),
            Event::Resume,
            floats,
            rest.steps,
        ) == landed(base, rest),
    decreases fuel, 2nat,
{
    let frame = FrameView::Apply(op);
    let above = base.push_value(a).push(frame);
    let at = above.push(FrameView::Run(right));
    let first = eval(right, context_of(base), floats, fuel);
    lemma_eval(right, above, Event::Resume, floats, fuel);
    assert(above.frames =~= base.frames + seq![frame]);
    assert(above.values =~= base.values + seq![a]);
    match first.completion {
        Completion::Normal(b) => {
            let m = in_context(base, first.context);
            let x = m.push_value(a).push_value(b).push(frame);
            crate::machine::lemma_step_does_last_frame(
                m.push_value(a).push_value(b),
                frame,
                Event::Resume,
            );
            assert(m.push_value(a).push_value(b).pop_value().values =~= m.push_value(a).values);
            assert(m.push_value(a).push_value(b).pop_value() == m.push_value(a));
            assert(m.push_value(a).pop_value().values =~= m.values);
            assert(m.push_value(a).pop_value() == m);
            assert(landed(above, first).machine == x);
            let last = settled(binary_outcome(op, a, b), first.context, floats);
            lemma_settle(x, Event::Resume, base, first.context, binary_outcome(op, a, b), floats);
            lemma_after(
                base,
                above,
                seq![frame],
                seq![a],
                floats,
                at,
                Event::Resume,
                first,
                last,
                first.and(last),
            );
            first.and(last)
        },
        _ => {
            lemma_after(
                base,
                above,
                seq![frame],
                seq![a],
                floats,
                at,
                Event::Resume,
                first,
                first,
                first,
            );
            first
        },
    }
}

/// What follows the left operand `a` of `&&` or `||`, as the semantics
/// says it: `a` itself where it decides, else the right operand and the
/// operator.
pub open spec fn short_circuit(
    op: BinaryOperator,
    right: NodeView,
    a: ValueView,
    context: Context,
    floats: Floats,
    fuel: nat,
) -> Evaluated {
    match a {
        ValueView::Bool(x) => if x == (op == BinaryOperator::Or) {
            normal(a, context, 1)
        } else {
            let r = eval(right, context, floats, fuel);
            match r.completion {
                Completion::Normal(b) => r.and(settled(binary_outcome(op, a, b), r.context, floats)).plus(
                    1,
                ),
                _ => r.plus(1),
            }
        },
        _ => failed(
            type_error(Operation::Binary(op), Kinds::Only(TypeName::Bool), kind_of(a)),
            context,
            1,
        ),
    }
}

/// The machine does what [`short_circuit`] says, from the state in which the
/// left operand `a` has been evaluated.
proof fn lemma_short_circuit(
    op: BinaryOperator,
    right: NodeView,
    a: ValueView,
    base: MachineView,
    floats: Floats,
    fuel: nat,
)
    requires
        steady(base),
        values_fit(base.push_value(a).push(FrameView::ShortCircuit(op, right))),
        !(short_circuit(op, right, a, context_of(base), floats, fuel).completion is OutOfFuel),
    ensures
        driven(
            base.push_value(a).push(FrameView::ShortCircuit(op, right)),
            Event::Resume,
            floats,
            short_circuit(op, right, a, context_of(base), floats, fuel).steps,
        ) == landed(base, short_circuit(op, right, a, context_of(base), floats, fuel)),
    decreases fuel, 3nat,
{
    let frame = FrameView::ShortCircuit(op, right);
    let x = base.push_value(a).push(frame);
    let context = context_of(base);
    assert(in_context(base, context) == base);
    crate::machine::lemma_step_does_last_frame(base.push_value(a), frame, Event::Resume);
    match a {
        ValueView::Bool(decided) => {
            if decided == (op == BinaryOperator::Or) {
                lemma_one_silent(x, Event::Resume, floats, base.push_value(a));
            } else {
                let next = base.push_value(a).push(FrameView::Apply(op)).push(
                    FrameView::Run(right),
                );
                step_keeps_values_fitting(x, Event::Resume);
                let tail = lemma_right_operand(op, right, a, base, floats, fuel);
                lemma_silent_before(x, Event::Resume, floats, next, base, tail);
            }
        },
        _ => {
            let error = type_error(
                Operation::Binary(op),
                Kinds::Only(TypeName::Bool),
                kind_of(a),
            );
            lemma_one_failing(x, Event::Resume, floats, base, context, error);
        },
    }
}

/// The values of a state that can take up a node fit in every context.
pub proof fn lemma_steady_in_context(base: MachineView, context: Context)
    requires
        steady(base),
    ensures
        steady(in_context(base, context)),
{
}

/// The machine does what the semantics says of `&&` and `||`.
proof fn lemma_logical(node: NodeView, base: MachineView, event: Event, floats: Floats, fuel: nat)
    requires
        node matches NodeView::BinaryOp { op, .. } && (op == BinaryOperator::And || op
            == BinaryOperator::Or),
        ready(node, base, floats, fuel),
    ensures
        follows(node, base, event, floats, fuel),
    decreases fuel, 0nat,
{
    match node {
        NodeView::BinaryOp { op, left, right } => {
            let whole = eval(node, context_of(base), floats, fuel);
            let less = (fuel - 1) as nat;
            let frame = FrameView::ShortCircuit(op, *right);
            let under = base.push(frame);
            let at = under.push(FrameView::Run(*left));
            let first = eval(*left, context_of(base), floats, less);
            lemma_begun(base, node, event);
            lemma_eval(*left, under, Event::Resume, floats, less);
            assert(under.frames =~= base.frames + seq![frame]);
            assert(under.values =~= base.values + Seq::<ValueView>::empty());
            match first.completion {
                Completion::Normal(a) => {
                    let m = in_context(base, first.context);
                    lemma_driven_keeps_values_fitting(at, Event::Resume, floats, first.steps);
                    lemma_steady_in_context(base, first.context);
                    assert(landed(under, first).machine == m.push_value(a).push(frame));
                    let rest = short_circuit(op, *right, a, first.context, floats, less);
                    match eval(*right, first.context, floats, less).completion {
                        Completion::Normal(b) => {
                            lemma_and_and(
                                first,
                                eval(*right, first.context, floats, less),
                                settled(
                                    binary_outcome(op, a, b),
                                    eval(*right, first.context, floats, less).context,
                                    floats,
                                ),
                            );
                        },
                        _ => {},
                    }
                    assert(first.lines + Seq::<Line>::empty() =~= first.lines);
                    assert(whole == first.and(rest).plus(1));
                    lemma_short_circuit(op, *right, a, m, floats, less);
                    lemma_landed_in_context(base, first.context, rest);
                    lemma_after(
                        base,
                        under,
                        seq![frame],
                        Seq::empty(),
                        floats,
                        at,
                        Event::Resume,
                        first,
                        rest,
                        first.and(rest),
                    );
                    lemma_begin(base, node, event, floats, at, first.and(rest), whole);
                },
                _ => {
                    lemma_after(
                        base,
                        under,
                        seq![frame],
                        Seq::empty(),
                        floats,
                        at,
                        Event::Resume,
                        first,
                        first,
                        first,
                    );
                    lemma_begin(base, node, event, floats, at, first, whole);
                },
            }
        },
        _ => {},
    }
}

/// The machine does what the semantics says of a binary operator other
/// than `&&` and `||`.
proof fn lemma_arithmetic(node: NodeView, base: MachineView, event: Event, floats: Floats, fuel: nat)
    requires
        node matches NodeView::BinaryOp { op, .. } && !(op == BinaryOperator::And || op
            == BinaryOperator::Or),
        ready(node, base, floats, fuel),
    ensures
        follows(node, base, event, floats, fuel),
    decreases fuel, 0nat,
{
    match node {
        NodeView::BinaryOp { op, left, right } => {
            let whole = eval(node, context_of(base), floats, fuel);
            let less = (fuel - 1) as nat;
            let under = base.push(FrameView::Apply(op)).push(FrameView::Run(*right));
            let frames = seq![FrameView::Apply(op), FrameView::Run(*right)];
            let at = under.push(FrameView::Run(*left));
            let first = eval(*left, context_of(base), floats, less);
            lemma_begun(base, node, event);
            lemma_eval(*left, under, Event::Resume, floats, less);
            assert(under.frames =~= base.frames + frames);
            assert(under.values =~= base.values + Seq::<ValueView>::empty());
            match first.completion {
                Completion::Normal(a) => {
                    let m = in_context(base, first.context);
                    lemma_driven_keeps_values_fitting(at, Event::Resume, floats, first.steps);
                    lemma_steady_in_context(base, first.context);
                    assert(landed(under, first).machine == m.push_value(a).push(
                        FrameView::Apply(op),
                    ).push(FrameView::Run(*right)));
                    let rest = lemma_right_operand(op, *right, a, m, floats, less);
                    lemma_landed_in_context(base, first.context, rest);
                    match eval(*right, first.context, floats, less).completion {
                        Completion::Normal(b) => {
                            lemma_and_and(
                                first,
                                eval(*right, first.context, floats, less),
                                settled(
                                    binary_outcome(op, a, b),
                                    eval(*right, first.context, floats, less).context,
                                    floats,
                                ),
                            );
                        },
                        _ => {},
                    }
                    lemma_after(
                        base,
                        under,
                        frames,
                        Seq::empty(),
                        floats,
                        at,
                        Event::Resume,
                        first,
                        rest,
                        first.and(rest),
                    );
                    lemma_begin(base, node, event, floats, at, first.and(rest), whole);
                },
                _ => {
                    lemma_after(
                        base,
                        under,
                        frames,
                        Seq::empty(),
                        floats,
                        at,
                        Event::Resume,
                        first,
                        first,
                        first,
                    );
                    lemma_begin(base, node, event, floats, at, first, whole);
                },
            }
        },
        _ => {},
    }
}

/// The machine does what the semantics says of a node that is run in a
/// scope of its own: from the state in which the scope has been entered.
proof fn lemma_scoped(body: NodeView, base: MachineView, floats: Floats, fuel: nat)
    requires
        steady(base),
        values_fit(base.scoped().push(FrameView::Run(body))),
        !(eval(body, context_of(base).enter(), floats, fuel).completion is OutOfFuel),
    ensures
        driven(
            base.scoped().push(FrameView::Run(body)),
            Event::Resume,
            floats,
            eval(body, context_of(base).enter(), floats, fuel).scoped().steps,
        ) == landed(base, eval(body, context_of(base).enter(), floats, fuel).scoped()),
    decreases fuel, 2nat,
{
    let above = base.scoped();
    let at = above.push(FrameView::Run(body));
    let first = eval(body, context_of(base).enter(), floats, fuel);
    lemma_eval(body, above, Event::Resume, floats, fuel);
    assert(above.frames =~= base.frames + seq![FrameView::PopScope]);
    assert(above.values =~= base.values + Seq::<ValueView>::empty());
    match first.completion {
        Completion::Normal(w) => {
            let inside = in_context(base, first.context).push_value(w);
            let rest = normal(w, first.context.leave(), 1);
            crate::machine::lemma_step_does_last_frame(
                inside,
                FrameView::PopScope,
                Event::Resume,
            );
            assert(landed(above, first).machine == inside.push(FrameView::PopScope));
            lemma_one_silent(
                inside.push(FrameView::PopScope),
                Event::Resume,
                floats,
                in_context(base, first.context.leave()).push_value(w),
            );
            assert(first.lines + rest.lines =~= first.lines);
            lemma_after(
                base,
                above,
                seq![FrameView::PopScope],
                Seq::empty(),
                floats,
                at,
                Event::Resume,
                first,
                rest,
                first.and(rest),
            );
        },
        _ => {
            lemma_after(
                base,
                above,
                seq![FrameView::PopScope],
                Seq::empty(),
                floats,
                at,
                Event::Resume,
                first,
                first,
                first,
            );
        },
    }
}

/// What follows the condition `v` of an `if` statement, as the semantics
/// says it.
pub open spec fn branch(
    then_block: NodeView,
    else_block: Option<NodeView>,
    v: ValueView,
    context: Context,
    floats: Floats,
    fuel: nat,
) -> Evaluated {
    match v {
        ValueView::Bool(b) => if b {
            eval(then_block, context.enter(), floats, fuel).scoped().plus(1)
        } else {
            match else_block {
                Some(block) => eval(block, context.enter(), floats, fuel).scoped().plus(1),
                None => normal(ValueView::Void, context, 1),
            }
        },
        _ => wrong_condition(v, context),
    }
}

/// The machine does what [`branch`] says, from the state in which the
/// condition `v` has been evaluated.
proof fn lemma_branch(
    then_block: NodeView,
    else_block: Option<NodeView>,
    v: ValueView,
    base: MachineView,
    floats: Floats,
    fuel: nat,
)
    requires
        steady(base),
        values_fit(base.push_value(v).push(FrameView::Branch(then_block, else_block))),
        !(branch(then_block, else_block, v, context_of(base), floats, fuel).completion
            is OutOfFuel),
    ensures
        driven(
            base.push_value(v).push(FrameView::Branch(then_block, else_block)),
            Event::Resume,
            floats,
            branch(then_block, else_block, v, context_of(base), floats, fuel).steps,
        ) == landed(base, branch(then_block, else_block, v, context_of(base), floats, fuel)),
    decreases fuel, 3nat,
{
    let frame = FrameView::Branch(then_block, else_block);
    let x = base.push_value(v).push(frame);
    let context = context_of(base);
    assert(in_context(base, context) == base);
    crate::machine::lemma_step_does_last_frame(base.push_value(v), frame, Event::Resume);
    assert(base.push_value(v).pop_value().values =~= base.values);
    assert(base.push_value(v).pop_value() == base);
    step_keeps_values_fitting(x, Event::Resume);
    match v {
        ValueView::Bool(b) => {
            if b {
                let next = base.scoped().push(FrameView::Run(then_block));
                lemma_scoped(then_block, base, floats, fuel);
                lemma_silent_before(
                    x,
                    Event::Resume,
                    floats,
                    next,
                    base,
                    eval(then_block, context.enter(), floats, fuel).scoped(),
                );
            } else {
                match else_block {
                    Some(block) => {
                        let next = base.scoped().push(FrameView::Run(block));
                        lemma_scoped(block, base, floats, fuel);
                        lemma_silent_before(
                            x,
                            Event::Resume,
                            floats,
                            next,
                            base,
                            eval(block, context.enter(), floats, fuel).scoped(),
                        );
                    },
                    None => {
                        lemma_one_silent(
                            x,
                            Event::Resume,
                            floats,
                            base.push_value(ValueView::Void),
                        );
                    },
                }
            }
        },
        _ => {
            let error = type_error(
                Operation::Condition,
                Kinds::Only(TypeName::Bool),
                kind_of(v),
            );
            lemma_one_failing(x, Event::Resume, floats, base, context, error);
        },
    }
}

/// The machine does what the semantics says of an `if` statement.
proof fn lemma_if(node: NodeView, base: MachineView, event: Event, floats: Floats, fuel: nat)
    requires
        node is If,
        ready(node, base, floats, fuel),
    ensures
        follows(node, base, event, floats, fuel),
    decreases fuel, 0nat,
{
    match node {
        NodeView::If { condition, then_block, else_block } => {
            let whole = eval(node, context_of(base), floats, fuel);
            let less = (fuel - 1) as nat;
            let other = match else_block {
                Some(block) => Some(*block),
                None => None,
            };
            let frame = FrameView::Branch(*then_block, other);
            let above = base.push(frame);
            let at = above.push(FrameView::Run(*condition));
            let first = eval(*condition, context_of(base), floats, less);
            lemma_begun(base, node, event);
            lemma_eval(*condition, above, Event::Resume, floats, less);
            assert(above.frames =~= base.frames + seq![frame]);
            assert(above.values =~= base.values + Seq::<ValueView>::empty());
            match first.completion {
                Completion::Normal(v) => {
                    let m = in_context(base, first.context);
                    lemma_driven_keeps_values_fitting(at, Event::Resume, floats, first.steps);
                    lemma_steady_in_context(base, first.context);
                    assert(landed(above, first).machine == m.push_value(v).push(frame));
                    let rest = branch(*then_block, other, v, first.context, floats, less);
                    assert(whole == first.and(rest).plus(1));
                    lemma_branch(*then_block, other, v, m, floats, less);
                    lemma_landed_in_context(base, first.context, rest);
                    lemma_after(
                        base,
                        above,
                        seq![frame],
                        Seq::empty(),
                        floats,
                        at,
                        Event::Resume,
                        first,
                        rest,
                        first.and(rest),
                    );
                    lemma_begin(base, node, event, floats, at, first.and(rest), whole);
                },
                _ => {
                    lemma_after(
                        base,
                        above,
                        seq![frame],
                        Seq::empty(),
                        floats,
                        at,
                        Event::Resume,
                        first,
                        first,
                        first,
                    );
                    lemma_begin(base, node, event, floats, at, first, whole);
                },
            }
        },
        _ => {},
    }
}

/// A state about to do a frame that is no boundary, in which the values
/// fit, leaves below that frame a state that can take up a node, if the frame
/// adds to the values no fewer than it takes.
pub proof fn lemma_steady_below(base: MachineView, frame: FrameView)
    requires
        values_fit(base.push(frame)),
        !(frame is Boundary),
        crate::operands::effect(frame) >= 0,
    ensures
        steady(base),
{
    crate::operands::lemma_push(base.frames, frame);
}

/// The machine does what the semantics says of a sequence of statements.
proof fn lemma_sequence(
    list: Seq<NodeView>,
    i: nat,
    base: MachineView,
    event: Event,
    floats: Floats,
    fuel: nat,
)
    requires
        values_fit(base.push(FrameView::Sequence(list, i))),
        !(sequence(list, i, context_of(base), floats, fuel).completion is OutOfFuel),
    ensures
        driven(
            base.push(FrameView::Sequence(list, i)),
            event,
            floats,
            sequence(list, i, context_of(base), floats, fuel).steps,
        ) == landed(base, sequence(list, i, context_of(base), floats, fuel)),
    decreases fuel, list.len() - i + 2,
{
    let frame = FrameView::Sequence(list, i);
    let at0 = base.push(frame);
    let context = context_of(base);
    let whole = sequence(list, i, context, floats, fuel);
    assert(in_context(base, context) == base);
    crate::machine::lemma_step_does_last_frame(base, frame, event);
    lemma_steady_below(base, frame);
    step_keeps_values_fitting(at0, event);
    if i >= list.len() {
        lemma_one_silent(at0, event, floats, base.push_value(ValueView::Void));
    } else {
        let node = list[i as int];
        let again = FrameView::Sequence(list, i + 1);
        let above = base.push(again).push(FrameView::Discard);
        let frames = seq![again, FrameView::Discard];
        let at = above.push(FrameView::Run(node));
        let first = eval(node, context, floats, fuel);
        lemma_eval(node, above, Event::Resume, floats, fuel);
        assert(above.frames =~= base.frames + frames);
        assert(above.values =~= base.values + Seq::<ValueView>::empty());
        match first.completion {
            Completion::Normal(v) => {
                let m = in_context(base, first.context);
                let x = m.push(again).push_value(v).push(FrameView::Discard);
                lemma_driven_keeps_values_fitting(at, Event::Resume, floats, first.steps);
                assert(landed(above, first).machine == x);
                crate::machine::lemma_step_does_last_frame(
                    m.push(again).push_value(v),
                    FrameView::Discard,
                    Event::Resume,
                );
                assert(m.push(again).push_value(v).pop_value().values =~= m.values);
                assert(m.push(again).push_value(v).pop_value() == m.push(again));
                step_keeps_values_fitting(x, Event::Resume);
                let tail = sequence(list, i + 1, first.context, floats, fuel);
                lemma_sequence(list, i + 1, m, Event::Resume, floats, fuel);
                lemma_landed_in_context(base, first.context, tail);
                lemma_silent_before(x, Event::Resume, floats, m.push(again), base, tail);
                let rest = tail.plus(1);
                lemma_after(
                    base,
                    above,
                    frames,
                    Seq::empty(),
                    floats,
                    at,
                    Event::Resume,
                    first,
                    rest,
                    first.and(rest),
                );
                lemma_silent_before(at0, event, floats, at, base, first.and(rest));
            },
            _ => {
                lemma_after(
                    base,
                    above,
                    frames,
                    Seq::empty(),
                    floats,
                    at,
                    Event::Resume,
                    first,
                    first,
                    first,
                );
                lemma_silent_before(at0, event, floats, at, base, first);
            },
        }
    }
}

/// The machine does what the semantics says of a program and of a block.
proof fn lemma_block(node: NodeView, base: MachineView, event: Event, floats: Floats, fuel: nat)
    requires
        node is Program || node is Block,
        ready(node, base, floats, fuel),
    ensures
        follows(node, base, event, floats, fuel),
    decreases fuel, 0nat,
{
    let whole = eval(node, context_of(base), floats, fuel);
    let less = (fuel - 1) as nat;
    lemma_begun(base, node, event);
    match node {
        NodeView::Program(list) => {
            let at = base.push(FrameView::Sequence(list, 0));
            let first = sequence(list, 0, context_of(base), floats, less);
            lemma_sequence(list, 0, base, Event::Resume, floats, less);
            lemma_begin(base, node, event, floats, at, first, whole);
        },
        NodeView::Block(list) => {
            let above = base.scoped();
            let at = above.push(FrameView::Sequence(list, 0));
            let first = sequence(list, 0, context_of(base).enter(), floats, less);
            lemma_sequence(list, 0, above, Event::Resume, floats, less);
            assert(above.frames =~= base.frames + seq![FrameView::PopScope]);
            assert(above.values =~= base.values + Seq::<ValueView>::empty());
            match first.completion {
                Completion::Normal(w) => {
                    let inside = in_context(base, first.context).push_value(w);
                    let rest = normal(w, first.context.leave(), 1);
                    crate::machine::lemma_step_does_last_frame(
                        inside,
                        FrameView::PopScope,
                        Event::Resume,
                    );
                    assert(landed(above, first).machine == inside.push(FrameView::PopScope));
                    lemma_one_silent(
                        inside.push(FrameView::PopScope),
                        Event::Resume,
                        floats,
                        in_context(base, first.context.leave()).push_value(w),
                    );
                    assert(first.lines + rest.lines =~= first.lines);
                    lemma_after(
                        base,
                        above,
                        seq![FrameView::PopScope],
                        Seq::empty(),
                        floats,
                        at,
                        Event::Resume,
                        first,
                        rest,
                        first.and(rest),
                    );
                    lemma_begin(base, node, event, floats, at, first.and(rest), whole);
                },
                _ => {
                    lemma_after(
                        base,
                        above,
                        seq![FrameView::PopScope],
                        Seq::empty(),
                        floats,
                        at,
                        Event::Resume,
                        first,
                        first,
                        first,
                    );
                    lemma_begin(base, node, event, floats, at, first, whole);
                },
            }
        },
        _ => {},
    }
}

/// What follows a true condition of a `while` loop, as the semantics says
/// it: the body in a scope of its own, and then the loop again.
pub open spec fn iteration(
    condition: NodeView,
    body: NodeView,
    context: Context,
    floats: Floats,
    fuel: nat,
) -> Evaluated {
    let b = eval(body, context.enter(), floats, fuel);
    match b.completion {
        Completion::Normal(_) => b.and(
            looping(condition, body, b.context.leave(), floats, fuel).plus(2),
        ),
        _ => b,
    }
}

/// The machine does what [`iteration`] says, from the state in which the
/// body of the loop is about to run.
proof fn lemma_iteration(
    condition: NodeView,
    body: NodeView,
    base: MachineView,
    floats: Floats,
    fuel: nat,
)
    requires
        steady(base),
        values_fit(
            base.push(FrameView::Loop(condition, body)).push(FrameView::Run(condition)).scoped().push(
                FrameView::Discard,
            ).push(FrameView::Run(body)),
        ),
        !(iteration(condition, body, context_of(base), floats, fuel).completion is OutOfFuel),
    ensures
        driven(
            base.push(FrameView::Loop(condition, body)).push(FrameView::Run(condition)).scoped().push(
                FrameView::Discard,
            ).push(FrameView::Run(body)),
            Event::Resume,
            floats,
            iteration(condition, body, context_of(base), floats, fuel).steps,
        ) == landed(base, iteration(condition, body, context_of(base), floats, fuel)),
    decreases fuel, 2nat,
{
    let again = FrameView::Loop(condition, body);
    let test = FrameView::Run(condition);
    let above = base.push(again).push(test).scoped().push(FrameView::Discard);
    let frames = seq![again, test, FrameView::PopScope, FrameView::Discard];
    let at = above.push(FrameView::Run(body));
    let first = eval(body, context_of(base).enter(), floats, fuel);
    lemma_eval(body, above, Event::Resume, floats, fuel);
    assert(above.frames =~= base.frames + frames);
    assert(above.values =~= base.values + Seq::<ValueView>::empty());
    match first.completion {
        Completion::Normal(w) => {
            let m = in_context(base, first.context);
            let loop_again = m.push(again).push(test);
            let x = loop_again.push(FrameView::PopScope).push_value(w).push(FrameView::Discard);
            lemma_driven_keeps_values_fitting(at, Event::Resume, floats, first.steps);
            assert(landed(above, first).machine == x);
            crate::machine::lemma_step_does_last_frame(
                loop_again.push(FrameView::PopScope).push_value(w),
                FrameView::Discard,
                Event::Resume,
            );
            let y = loop_again.push(FrameView::PopScope);
            assert(y.push_value(w).pop_value().values =~= y.values);
            assert(y.push_value(w).pop_value() == y);
            assert(step(x, Event::Resume) == (y, ActionView::Continue));
            step_keeps_values_fitting(x, Event::Resume);
            crate::machine::lemma_step_does_last_frame(
                loop_again,
                FrameView::PopScope,
                Event::Resume,
            );
            let left = in_context(base, first.context.leave());
            let z = left.push(again).push(test);
            assert(step(y, Event::Resume) == (z, ActionView::Continue));
            step_keeps_values_fitting(y, Event::Resume);
            lemma_steady_in_context(base, first.context.leave());
            let tail = looping(condition, body, first.context.leave(), floats, fuel);
            lemma_looping(condition, body, left, floats, fuel);
            lemma_landed_in_context(base, first.context.leave(), tail);
            lemma_silent_before(y, Event::Resume, floats, z, base, tail);
            lemma_silent_before(x, Event::Resume, floats, y, base, tail.plus(1));
            let rest = tail.plus(2);
            assert(tail.plus(1).plus(1) == rest);
            lemma_after(
                base,
                above,
                frames,
                Seq::empty(),
                floats,
                at,
                Event::Resume,
                first,
                rest,
                first.and(rest),
            );
        },
        _ => {
            lemma_after(
                base,
                above,
                frames,
                Seq::empty(),
                floats,
                at,
                Event::Resume,
                first,
                first,
                first,
            );
        },
    }
}

/// What follows the condition `v` of a `while` loop, as the semantics says
/// it.
pub open spec fn repeat(
    condition: NodeView,
    body: NodeView,
    v: ValueView,
    context: Context,
    floats: Floats,
    fuel: nat,
) -> Evaluated {
    match v {
        ValueView::Bool(go) => if go {
            iteration(condition, body, context, floats, fuel).plus(1)
        } else {
            normal(ValueView::Void, context, 1)
        },
        _ => wrong_condition(v, context),
    }
}

/// The machine does what [`repeat`] says, from the state in which the
/// condition `v` has been evaluated.
proof fn lemma_repeat(
    condition: NodeView,
    body: NodeView,
    v: ValueView,
    base: MachineView,
    floats: Floats,
    fuel: nat,
)
    requires
        steady(base),
        values_fit(base.push_value(v).push(FrameView::Loop(condition, body))),
        !(repeat(condition, body, v, context_of(base), floats, fuel).completion is OutOfFuel),
    ensures
        driven(
            base.push_value(v).push(FrameView::Loop(condition, body)),
            Event::Resume,
            floats,
            repeat(condition, body, v, context_of(base), floats, fuel).steps,
        ) == landed(base, repeat(condition, body, v, context_of(base), floats, fuel)),
    decreases fuel, 3nat,
{
    let frame = FrameView::Loop(condition, body);
    let x = base.push_value(v).push(frame);
    let context = context_of(base);
    assert(in_context(base, context) == base);
    crate::machine::lemma_step_does_last_frame(base.push_value(v), frame, Event::Resume);
    assert(base.push_value(v).pop_value().values =~= base.values);
    assert(base.push_value(v).pop_value() == base);
    step_keeps_values_fitting(x, Event::Resume);
    match v {
        ValueView::Bool(go) => {
            if go {
                let next = base.push(frame).push(FrameView::Run(condition)).scoped().push(
                    FrameView::Discard,
                ).push(FrameView::Run(body));
                lemma_iteration(condition, body, base, floats, fuel);
                lemma_silent_before(
                    x,
                    Event::Resume,
                    floats,
                    next,
                    base,
                    iteration(condition, body, context, floats, fuel),
                );
            } else {
                lemma_one_silent(x, Event::Resume, floats, base.push_value(ValueView::Void));
            }
        },
        _ => {
            let error = type_error(
                Operation::Condition,
                Kinds::Only(TypeName::Bool),
                kind_of(v),
            );
            lemma_one_failing(x, Event::Resume, floats, base, context, error);
        },
    }
}

/// The machine does what the semantics says of a `while` loop, from the
/// state in which its condition is about to be evaluated.
proof fn lemma_looping(
    condition: NodeView,
    body: NodeView,
    base: MachineView,
    floats: Floats,
    fuel: nat,
)
    requires
        steady(base),
        values_fit(base.push(FrameView::Loop(condition, body)).push(FrameView::Run(condition))),
        !(looping(condition, body, context_of(base), floats, fuel).completion is OutOfFuel),
    ensures
        driven(
            base.push(FrameView::Loop(condition, body)).push(FrameView::Run(condition)),
            Event::Resume,
            floats,
            looping(condition, body, context_of(base), floats, fuel).steps,
        ) == landed(base, looping(condition, body, context_of(base), floats, fuel)),
    decreases fuel, 0nat,
{
    let whole = looping(condition, body, context_of(base), floats, fuel);
    let less = (fuel - 1) as nat;
    let frame = FrameView::Loop(condition, body);
    let above = base.push(frame);
    let at = above.push(FrameView::Run(condition));
    let first = eval(condition, context_of(base), floats, less);
    lemma_eval(condition, above, Event::Resume, floats, less);
    assert(above.frames =~= base.frames + seq![frame]);
    assert(above.values =~= base.values + Seq::<ValueView>::empty());
    match first.completion {
        Completion::Normal(v) => {
            let m = in_context(base, first.context);
            lemma_driven_keeps_values_fitting(at, Event::Resume, floats, first.steps);
            lemma_steady_in_context(base, first.context);
            assert(landed(above, first).machine == m.push_value(v).push(frame));
            let rest = repeat(condition, body, v, first.context, floats, less);
            let b = eval(body, first.context.enter(), floats, less);
            lemma_and_and(
                first,
                b,
                looping(condition, body, b.context.leave(), floats, less).plus(2),
            );
            lemma_and_and(first, b, looping(condition, body, b.context.leave(), floats, less));
            assert(whole == first.and(rest));
            lemma_repeat(condition, body, v, m, floats, less);
            lemma_landed_in_context(base, first.context, rest);
            lemma_after(
                base,
                above,
                seq![frame],
                Seq::empty(),
                floats,
                at,
                Event::Resume,
                first,
                rest,
                first.and(rest),
            );
        },
        _ => {
            lemma_after(
                base,
                above,
                seq![frame],
                Seq::empty(),
                floats,
                at,
                Event::Resume,
                first,
                first,
                first,
            );
        },
    }
}

/// The machine does what the semantics says of a `while` statement.
proof fn lemma_while(node: NodeView, base: MachineView, event: Event, floats: Floats, fuel: nat)
    requires
        node is While,
        ready(node, base, floats, fuel),
    ensures
        follows(node, base, event, floats, fuel),
    decreases fuel, 0nat,
{
    match node {
        NodeView::While { condition, body } => {
            let whole = eval(node, context_of(base), floats, fuel);
            let less = (fuel - 1) as nat;
            let at = base.push(FrameView::Loop(*condition, *body)).push(
                FrameView::Run(*condition),
            );
            lemma_begun(base, node, event);
            lemma_looping(*condition, *body, base, floats, less);
            lemma_begin(
                base,
                node,
                event,
                floats,
                at,
                looping(*condition, *body, context_of(base), floats, less),
                whole,
            );
        },
        _ => {},
    }
}

/// What follows the body of a `for` loop, as the semantics says it: the
/// update, and then the loop again.
pub open spec fn for_update(
    condition: NodeView,
    update: NodeView,
    body: NodeView,
    context: Context,
    floats: Floats,
    fuel: nat,
) -> Evaluated {
    let u = eval(update, context, floats, fuel);
    match u.completion {
        Completion::Normal(_) => u.and(
            for_looping(condition, update, body, u.context, floats, fuel).plus(1),
        ),
        _ => u,
    }
}

/// What follows a true condition of a `for` loop, as the semantics says it:
/// the body, the update, and then the loop again.
pub open spec fn for_body(
    condition: NodeView,
    update: NodeView,
    body: NodeView,
    context: Context,
    floats: Floats,
    fuel: nat,
) -> Evaluated {
    let b = eval(body, context, floats, fuel);
    match b.completion {
        Completion::Normal(_) => b.and(
            for_update(condition, update, body, b.context, floats, fuel).plus(1),
        ),
        _ => b,
    }
}

/// What follows the condition `v` of a `for` loop, as the semantics says it.
pub open spec fn for_repeat(
    condition: NodeView,
    update: NodeView,
    body: NodeView,
    v: ValueView,
    context: Context,
    floats: Floats,
    fuel: nat,
) -> Evaluated {
    match v {
        ValueView::Bool(go) => if go {
            for_body(condition, update, body, context, floats, fuel).plus(1)
        } else {
            normal(ValueView::Void, context, 1)
        },
        _ => wrong_condition(v, context),
    }
}

/// The machine does what [`for_update`] says, from the state in which the
/// update is about to run.
proof fn lemma_for_update(
    condition: NodeView,
    update: NodeView,
    body: NodeView,
    base: MachineView,
    floats: Floats,
    fuel: nat,
)
    requires
        steady(base),
        values_fit(
            base.push(FrameView::ForLoop(condition, update, body)).push(
                FrameView::Run(condition),
            ).push(FrameView::Discard).push(FrameView::Run(update)),
        ),
        !(for_update(condition, update, body, context_of(base), floats, fuel).completion
            is OutOfFuel),
    ensures
        driven(
            base.push(FrameView::ForLoop(condition, update, body)).push(
                FrameView::Run(condition),
            ).push(FrameView::Discard).push(FrameView::Run(update)),
            Event::Resume,
            floats,
            for_update(condition, update, body, context_of(base), floats, fuel).steps,
        ) == landed(base, for_update(condition, update, body, context_of(base), floats, fuel)),
    decreases fuel, 2nat,
{
    let again = FrameView::ForLoop(condition, update, body);
    let test = FrameView::Run(condition);
    let above = base.push(again).push(test).push(FrameView::Discard);
    let frames = seq![again, test, FrameView::Discard];
    let at = above.push(FrameView::Run(update));
    let first = eval(update, context_of(base), floats, fuel);
    lemma_eval(update, above, Event::Resume, floats, fuel);
    assert(above.frames =~= base.frames + frames);
    assert(above.values =~= base.values + Seq::<ValueView>::empty());
    match first.completion {
        Completion::Normal(w) => {
            let m = in_context(base, first.context);
            let y = m.push(again).push(test);
            let x = y.push_value(w).push(FrameView::Discard);
            lemma_driven_keeps_values_fitting(at, Event::Resume, floats, first.steps);
            assert(landed(above, first).machine == x);
            crate::machine::lemma_step_does_last_frame(
                y.push_value(w),
                FrameView::Discard,
                Event::Resume,
            );
            assert(y.push_value(w).pop_value().values =~= y.values);
            assert(y.push_value(w).pop_value() == y);
            step_keeps_values_fitting(x, Event::Resume);
            lemma_steady_in_context(base, first.context);
            let tail = for_looping(condition, update, body, first.context, floats, fuel);
            lemma_for_looping(condition, update, body, m, floats, fuel);
            lemma_landed_in_context(base, first.context, tail);
            lemma_silent_before(x, Event::Resume, floats, y, base, tail);
            let rest = tail.plus(1);
            lemma_after(
                base,
                above,
                frames,
                Seq::empty(),
                floats,
                at,
                Event::Resume,
                first,
                rest,
                first.and(rest),
            );
        },
        _ => {
            lemma_after(
                base,
                above,
                frames,
                Seq::empty(),
                floats,
                at,
                Event::Resume,
                first,
                first,
                first,
            );
        },
    }
}

/// The machine does what [`for_body`] says, from the state in which the
/// body is about to run.
proof fn lemma_for_body(
    condition: NodeView,
    update: NodeView,
    body: NodeView,
    base: MachineView,
    floats: Floats,
    fuel: nat,
)
    requires
        steady(base),
        values_fit(
            base.push(FrameView::ForLoop(condition, update, body)).push(
                FrameView::Run(condition),
            ).push(FrameView::Discard).push(FrameView::Run(update)).push(FrameView::Discard).push(
                FrameView::Run(body),
            ),
        ),
        !(for_body(condition, update, body, context_of(base), floats, fuel).completion
            is OutOfFuel),
    ensures
        driven(
            base.push(FrameView::ForLoop(condition, update, body)).push(
                FrameView::Run(condition),
            ).push(FrameView::Discard).push(FrameView::Run(update)).push(FrameView::Discard).push(
                FrameView::Run(body),
            ),
            Event::Resume,
            floats,
            for_body(condition, update, body, context_of(base), floats, fuel).steps,
        ) == landed(base, for_body(condition, update, body, context_of(base), floats, fuel)),
    decreases fuel, 3nat,
{
    let again = FrameView::ForLoop(condition, update, body);
    let test = FrameView::Run(condition);
    let renew = FrameView::Run(update);
    let above = base.push(again).push(test).push(FrameView::Discard).push(renew).push(
        FrameView::Discard,
    );
    let frames = seq![again, test, FrameView::Discard, renew, FrameView::Discard];
    let at = above.push(FrameView::Run(body));
    let first = eval(body, context_of(base), floats, fuel);
    lemma_eval(body, above, Event::Resume, floats, fuel);
    assert(above.frames =~= base.frames + frames);
    assert(above.values =~= base.values + Seq::<ValueView>::empty());
    match first.completion {
        Completion::Normal(w) => {
            let m = in_context(base, first.context);
            let y = m.push(again).push(test).push(FrameView::Discard).push(renew);
            let x = y.push_value(w).push(FrameView::Discard);
            lemma_driven_keeps_values_fitting(at, Event::Resume, floats, first.steps);
            assert(landed(above, first).machine == x);
            crate::machine::lemma_step_does_last_frame(
                y.push_value(w),
                FrameView::Discard,
                Event::Resume,
            );
            assert(y.push_value(w).pop_value().values =~= y.values);
            assert(y.push_value(w).pop_value() == y);
            step_keeps_values_fitting(x, Event::Resume);
            lemma_steady_in_context(base, first.context);
            let tail = for_update(condition, update, body, first.context, floats, fuel);
            lemma_for_update(condition, update, body, m, floats, fuel);
            lemma_landed_in_context(base, first.context, tail);
            lemma_silent_before(x, Event::Resume, floats, y, base, tail);
            let rest = tail.plus(1);
            lemma_after(
                base,
                above,
                frames,
                Seq::empty(),
                floats,
                at,
                Event::Resume,
                first,
                rest,
                first.and(rest),
            );
        },
        _ => {
            lemma_after(
                base,
                above,
                frames,
                Seq::empty(),
                floats,
                at,
                Event::Resume,
                first,
                first,
                first,
            );
        },
    }
}

/// The machine does what [`for_repeat`] says, from the state in which the
/// condition `v` has been evaluated.
proof fn lemma_for_repeat(
    condition: NodeView,
    update: NodeView,
    body: NodeView,
    v: ValueView,
    base: MachineView,
    floats: Floats,
    fuel: nat,
)
    requires
        steady(base),
        values_fit(base.push_value(v).push(FrameView::ForLoop(condition, update, body))),
        !(for_repeat(condition, update, body, v, context_of(base), floats, fuel).completion
            is OutOfFuel),
    ensures
        driven(
            base.push_value(v).push(FrameView::ForLoop(condition, update, body)),
            Event::Resume,
            floats,
            for_repeat(condition, update, body, v, context_of(base), floats, fuel).steps,
        ) == landed(
            base,
            for_repeat(condition, update, body, v, context_of(base), floats, fuel),
        ),
    decreases fuel, 4nat,
{
    let frame = FrameView::ForLoop(condition, update, body);
    let x = base.push_value(v).push(frame);
    let context = context_of(base);
    assert(in_context(base, context) == base);
    crate::machine::lemma_step_does_last_frame(base.push_value(v), frame, Event::Resume);
    assert(base.push_value(v).pop_value().values =~= base.values);
    assert(base.push_value(v).pop_value() == base);
    step_keeps_values_fitting(x, Event::Resume);
    match v {
        ValueView::Bool(go) => {
            if go {
                let next = base.push(frame).push(FrameView::Run(condition)).push(
                    FrameView::Discard,
                ).push(FrameView::Run(update)).push(FrameView::Discard).push(
                    FrameView::Run(body),
                );
                lemma_for_body(condition, update, body, base, floats, fuel);
                lemma_silent_before(
                    x,
                    Event::Resume,
                    floats,
                    next,
                    base,
                    for_body(condition, update, body, context, floats, fuel),
                );
            } else {
                lemma_one_silent(x, Event::Resume, floats, base.push_value(ValueView::Void));
            }
        },
        _ => {
            let error = type_error(
                Operation::Condition,
                Kinds::Only(TypeName::Bool),
                kind_of(v),
            );
            lemma_one_failing(x, Event::Resume, floats, base, context, error);
        },
    }
}

/// The semantics of a `for` loop, said by what follows its condition.
pub proof fn lemma_for_looping_unfolded(
    condition: NodeView,
    update: NodeView,
    body: NodeView,
    context: Context,
    floats: Floats,
    fuel: nat,
)
    requires
        fuel > 0,
    ensures
        for_looping(condition, update, body, context, floats, fuel) == (match eval(
            condition,
            context,
            floats,
            (fuel - 1) as nat,
        ).completion {
            Completion::Normal(v) => eval(condition, context, floats, (fuel - 1) as nat).and(
                for_repeat(
                    condition,
                    update,
                    body,
                    v,
                    eval(condition, context, floats, (fuel - 1) as nat).context,
                    floats,
                    (fuel - 1) as nat,
                ),
            ),
            _ => eval(condition, context, floats, (fuel - 1) as nat),
        }),
{
    let less = (fuel - 1) as nat;
    let c = eval(condition, context, floats, less);
    match c.completion {
        Completion::Normal(v) => {
            match v {
                ValueView::Bool(go) => {
                    if go {
                        let b = eval(body, c.context, floats, less);
                        match b.completion {
                            Completion::Normal(_) => {
                                let u = eval(update, b.context, floats, less);
                                match u.completion {
                                    Completion::Normal(_) => {
                                        let f = for_looping(
                                            condition,
                                            update,
                                            body,
                                            u.context,
                                            floats,
                                            less,
                                        );
                                        assert(((c.lines + b.lines) + u.lines) + f.lines
                                            =~= c.lines + (b.lines + (u.lines + f.lines)));
                                    },
                                    _ => {
                                        assert((c.lines + b.lines) + u.lines =~= c.lines + (
                                        b.lines + u.lines));
                                    },
                                }
                            },
                            _ => {},
                        }
                    }
                },
                _ => {},
            }
        },
        _ => {},
    }
}

/// The machine does what the semantics says of a `for` loop, from the state
/// in which its condition is about to be evaluated.
proof fn lemma_for_looping(
    condition: NodeView,
    update: NodeView,
    body: NodeView,
    base: MachineView,
    floats: Floats,
    fuel: nat,
)
    requires
        steady(base),
        values_fit(
            base.push(FrameView::ForLoop(condition, update, body)).push(
                FrameView::Run(condition),
            ),
        ),
        !(for_looping(condition, update, body, context_of(base), floats, fuel).completion
            is OutOfFuel),
    ensures
        driven(
            base.push(FrameView::ForLoop(condition, update, body)).push(
                FrameView::Run(condition),
            ),
            Event::Resume,
            floats,
            for_looping(condition, update, body, context_of(base), floats, fuel).steps,
        ) == landed(
            base,
            for_looping(condition, update, body, context_of(base), floats, fuel),
        ),
    decreases fuel, 0nat,
{
    let whole = for_looping(condition, update, body, context_of(base), floats, fuel);
    let less = (fuel - 1) as nat;
    let frame = FrameView::ForLoop(condition, update, body);
    let above = base.push(frame);
    let at = above.push(FrameView::Run(condition));
    let first = eval(condition, context_of(base), floats, less);
    lemma_for_looping_unfolded(condition, update, body, context_of(base), floats, fuel);
    lemma_eval(condition, above, Event::Resume, floats, less);
    assert(above.frames =~= base.frames + seq![frame]);
    assert(above.values =~= base.values + Seq::<ValueView>::empty());
    match first.completion {
        Completion::Normal(v) => {
            let m = in_context(base, first.context);
            lemma_driven_keeps_values_fitting(at, Event::Resume, floats, first.steps);
            lemma_steady_in_context(base, first.context);
            assert(landed(above, first).machine == m.push_value(v).push(frame));
            let rest = for_repeat(condition, update, body, v, first.context, floats, less);
            lemma_for_repeat(condition, update, body, v, m, floats, less);
            lemma_landed_in_context(base, first.context, rest);
            lemma_after(
                base,
                above,
                seq![frame],
                Seq::empty(),
                floats,
                at,
                Event::Resume,
                first,
                rest,
                first.and(rest),
            );
        },
        _ => {
            lemma_after(
                base,
                above,
                seq![frame],
                Seq::empty(),
                floats,
                at,
                Event::Resume,
                first,
                first,
                first,
            );
        },
    }
}

/// Below a frame that tests a condition and the frame that evaluates it, a
/// state can take up a node.
pub proof fn lemma_steady_below_test(base: MachineView, again: FrameView, test: NodeView)
    requires
        values_fit(base.push(again).push(FrameView::Run(test))),
        again is Loop || again is ForLoop,
    ensures
        steady(base),
{
    crate::operands::lemma_push(base.frames, again);
    crate::operands::lemma_push(base.frames.push(again), FrameView::Run(test));
}

/// The machine does what the semantics says of a `for` statement.
proof fn lemma_for(node: NodeView, base: MachineView, event: Event, floats: Floats, fuel: nat)
    requires
        node is For,
        ready(node, base, floats, fuel),
    ensures
        follows(node, base, event, floats, fuel),
    decreases fuel, 0nat,
{
    match node {
        NodeView::For { init, condition, update, body } => {
            let whole = eval(node, context_of(base), floats, fuel);
            let less = (fuel - 1) as nat;
            let again = FrameView::ForLoop(*condition, *update, *body);
            let test = FrameView::Run(*condition);
            let above = base.scoped().push(again).push(test).push(FrameView::Discard);
            let frames = seq![FrameView::PopScope, again, test, FrameView::Discard];
            let at = above.push(FrameView::Run(*init));
            let first = eval(*init, context_of(base).enter(), floats, less);
            lemma_begun(base, node, event);
            lemma_eval(*init, above, Event::Resume, floats, less);
            assert(above.frames =~= base.frames + frames);
            assert(above.values =~= base.values + Seq::<ValueView>::empty());
            match first.completion {
                Completion::Normal(w) => {
                    let inner = in_context(base, first.context).push(FrameView::PopScope);
                    let y = inner.push(again).push(test);
                    let x = y.push_value(w).push(FrameView::Discard);
                    lemma_driven_keeps_values_fitting(at, Event::Resume, floats, first.steps);
                    assert(landed(above, first).machine == x);
                    crate::machine::lemma_step_does_last_frame(
                        y.push_value(w),
                        FrameView::Discard,
                        Event::Resume,
                    );
                    assert(y.push_value(w).pop_value().values =~= y.values);
                    assert(y.push_value(w).pop_value() == y);
                    step_keeps_values_fitting(x, Event::Resume);
                    lemma_steady_below_test(inner, again, *condition);
                    let looped = for_looping(
                        *condition,
                        *update,
                        *body,
                        first.context,
                        floats,
                        less,
                    );
                    lemma_for_looping(*condition, *update, *body, inner, floats, less);
                    assert(inner.frames =~= base.frames + seq![FrameView::PopScope]);
                    assert(inner.values =~= base.values + Seq::<ValueView>::empty());
                    match looped.completion {
                        Completion::Normal(z) => {
                            let inside = in_context(base, looped.context).push_value(z);
                            let out = normal(z, looped.context.leave(), 1);
                            crate::machine::lemma_step_does_last_frame(
                                inside,
                                FrameView::PopScope,
                                Event::Resume,
                            );
                            assert(landed(inner, looped).machine == inside.push(
                                FrameView::PopScope,
                            ));
                            lemma_one_silent(
                                inside.push(FrameView::PopScope),
                                Event::Resume,
                                floats,
                                in_context(base, looped.context.leave()).push_value(z),
                            );
                            assert(looped.lines + out.lines =~= looped.lines);
                            lemma_after(
                                base,
                                inner,
                                seq![FrameView::PopScope],
                                Seq::empty(),
                                floats,
                                y,
                                Event::Resume,
                                looped,
                                out,
                                looped.and(out),
                            );
                            let scoped = looped.and(out);
                            lemma_silent_before(x, Event::Resume, floats, y, base, scoped);
                            let rest = scoped.plus(1);
                            lemma_after(
                                base,
                                above,
                                frames,
                                Seq::empty(),
                                floats,
                                at,
                                Event::Resume,
                                first,
                                rest,
                                first.and(rest),
                            );
                            assert((first.lines + looped.lines) =~= first.lines + (looped.lines
                                + out.lines));
                            assert(whole == first.and(rest).plus(1));
                            lemma_begin(base, node, event, floats, at, first.and(rest), whole);
                        },
                        _ => {
                            lemma_after(
                                base,
                                inner,
                                seq![FrameView::PopScope],
                                Seq::empty(),
                                floats,
                                y,
                                Event::Resume,
                                looped,
                                looped,
                                looped,
                            );
                            lemma_silent_before(x, Event::Resume, floats, y, base, looped);
                            let rest = looped.plus(1);
                            lemma_after(
                                base,
                                above,
                                frames,
                                Seq::empty(),
                                floats,
                                at,
                                Event::Resume,
                                first,
                                rest,
                                first.and(rest),
                            );
                            assert(whole == first.and(rest).plus(1));
                            lemma_begin(base, node, event, floats, at, first.and(rest), whole);
                        },
                    }
                },
                _ => {
                    lemma_after(
                        base,
                        above,
                        frames,
                        Seq::empty(),
                        floats,
                        at,
                        Event::Resume,
                        first,
                        first,
                        first,
                    );
                    lemma_begin(base, node, event, floats, at, first, whole);
                },
            }
        },
        _ => {},
    }
}

/// Where the machine stands when the arguments `values` of a call have
/// been gathered as `g` says: having completed normally, the arguments are on
/// the stack of `base`.
pub open spec fn gathered(base: MachineView, values: Seq<ValueView>, g: Evaluated) -> Driven {
    if g.completion is Normal {
        Driven {
            machine: MachineView {
                frames: base.frames,
                values: base.values + values,
                scopes: g.context.scopes,
                functions: g.context.functions,
            },
            event: Event::Resume,
            lines: g.lines,
            last: ActionView::Continue,
        }
    } else {
        landed(base, g)
    }
}

/// The machine does what the semantics says of the arguments of a call.
proof fn lemma_gather(
    list: Seq<NodeView>,
    i: nat,
    base: MachineView,
    event: Event,
    floats: Floats,
    fuel: nat,
)
    requires
        values_fit(base.push(FrameView::Arguments(list, i))),
        !(gather(list, i, context_of(base), floats, fuel).1.completion is OutOfFuel),
    ensures
        driven(
            base.push(FrameView::Arguments(list, i)),
            event,
            floats,
            gather(list, i, context_of(base), floats, fuel).1.steps,
        ) == gathered(
            base,
            gather(list, i, context_of(base), floats, fuel).0,
            gather(list, i, context_of(base), floats, fuel).1,
        ),
        gather(list, i, context_of(base), floats, fuel).1.completion is Normal ==> gather(
            list,
            i,
            context_of(base),
            floats,
            fuel,
        ).0.len() == list.len() - i,
    decreases fuel, list.len() - i + 2,
{
    let frame = FrameView::Arguments(list, i);
    let at0 = base.push(frame);
    let context = context_of(base);
    let (values, whole) = gather(list, i, context, floats, fuel);
    assert(in_context(base, context) == base);
    crate::machine::lemma_step_does_last_frame(base, frame, event);
    crate::operands::lemma_push(base.frames, frame);
    assert(steady(base));
    step_keeps_values_fitting(at0, event);
    if i >= list.len() {
        lemma_one_silent(at0, event, floats, base);
        assert(base.values + values =~= base.values);
    } else {
        let node = list[i as int];
        let again = FrameView::Arguments(list, i + 1);
        let above = base.push(again);
        let at = above.push(FrameView::Run(node));
        let first = eval(node, context, floats, fuel);
        lemma_eval(node, above, Event::Resume, floats, fuel);
        assert(above.frames =~= base.frames + seq![again]);
        assert(above.values =~= base.values + Seq::<ValueView>::empty());
        lemma_silent(at0, event, floats, at, first.steps);
        match first.completion {
            Completion::Normal(v) => {
                let m = in_context(base, first.context).push_value(v);
                let (more, rest) = gather(list, i + 1, first.context, floats, fuel);
                lemma_driven_keeps_values_fitting(at, Event::Resume, floats, first.steps);
                assert(landed(above, first).machine == m.push(again));
                lemma_gather(list, i + 1, m, Event::Resume, floats, fuel);
                lemma_driven_add(at, Event::Resume, floats, first.steps, rest.steps);
                lemma_silent(at0, event, floats, at, first.steps + rest.steps);
                if rest.completion is Normal {
                    assert(m.values + more =~= base.values + (seq![v] + more));
                } else {
                    assert(m.frames =~= base.frames + Seq::<FrameView>::empty());
                    assert(m.values =~= base.values + seq![v]);
                    lemma_lift(base, m, Seq::empty(), seq![v], rest);
                }
            },
            _ => {
                lemma_lift(base, above, seq![again], Seq::empty(), first);
            },
        }
    }
}

/// Arguments are found on top of the stack whatever lies below them.
pub proof fn lemma_arguments_on_top(
    scopes: crate::environment::Scopes,
    params: Seq<ParamView>,
    low: Seq<ValueView>,
    args: Seq<ValueView>,
    i: nat,
)
    requires
        args.len() == params.len(),
    ensures
        first_mismatch(params, low + args, i) == first_mismatch(params, args, i),
        bind(scopes, params, low + args, i) == bind(scopes, params, args, i),
        argument(low + args, params.len(), i) == argument(args, params.len(), i),
    decreases params.len() - i,
{
    if i < params.len() {
        assert((low + args)[(low.len() + i) as int] == args[i as int]);
        lemma_arguments_on_top(
            declare(scopes, params[i as int].name, argument(args, params.len(), i)),
            params,
            low,
            args,
            i + 1,
        );
    }
}

/// The first parameter whose argument is of the wrong type is a parameter,
/// and its argument is found on top of the stack whatever lies below.
pub proof fn lemma_mismatch_on_top(
    params: Seq<ParamView>,
    low: Seq<ValueView>,
    args: Seq<ValueView>,
    i: nat,
)
    requires
        args.len() == params.len(),
    ensures
        first_mismatch(params, args, i) matches Some(k) ==> k < params.len() && argument(
            low + args,
            params.len(),
            k,
        ) == argument(args, params.len(), k),
    decreases params.len() - i,
{
    if i < params.len() {
        lemma_arguments_on_top(Seq::empty(), params, low, args, i);
        lemma_mismatch_on_top(params, low, args, i + 1);
    }
}

/// The machine does what the semantics says of a call, from the state in
/// which its arguments have been evaluated.
proof fn lemma_invoke(
    params: Seq<ParamView>,
    body: NodeView,
    args: Seq<ValueView>,
    base: MachineView,
    floats: Floats,
    fuel: nat,
)
    requires
        steady(base),
        args.len() == params.len(),
        values_fit(
            MachineView { values: base.values + args, ..base }.push(
                FrameView::Invoke(params, body),
            ),
        ),
        !(call(params, body, args, context_of(base), floats, fuel).completion is OutOfFuel),
    ensures
        driven(
            MachineView { values: base.values + args, ..base }.push(
                FrameView::Invoke(params, body),
            ),
            Event::Resume,
            floats,
            call(params, body, args, context_of(base), floats, fuel).steps,
        ) == landed(base, call(params, body, args, context_of(base), floats, fuel)),
    decreases fuel, 2nat,
{
    let frame = FrameView::Invoke(params, body);
    let loaded = MachineView { values: base.values + args, ..base };
    let x = loaded.push(frame);
    let context = context_of(base);
    let whole = call(params, body, args, context, floats, fuel);
    assert(in_context(base, context) == base);
    crate::machine::lemma_step_does_last_frame(loaded, frame, Event::Resume);
    lemma_arguments_on_top(push_scope(base.scopes), params, base.values, args, 0);
    lemma_mismatch_on_top(params, base.values, args, 0);
    step_keeps_values_fitting(x, Event::Resume);
    assert(below(loaded.values, params.len()) =~= base.values);
    match first_mismatch(params, args, 0) {
        Some(k) => {
            let error = type_error(
                Operation::Argument,
                Kinds::Only(params[k as int].declared_type),
                kind_of(argument(args, params.len(), k)),
            );
            assert(step(x, Event::Resume) == loaded.fail(error));
            lemma_one_failing(x, Event::Resume, floats, base, context, error);
        },
        None => {
            let inner = context.with_scopes(bind(push_scope(base.scopes), params, args, 0));
            let boundary = FrameView::Boundary(base.scopes.len(), base.values.len());
            let above = in_context(base, inner).push(boundary);
            let at = above.push(FrameView::Run(body));
            assert(step(x, Event::Resume) == (at, ActionView::Continue));
            let first = eval(body, inner, floats, fuel);
            lemma_eval(body, above, Event::Resume, floats, fuel);
            let back = first.context.with_scopes(
                truncate(first.context.scopes, base.scopes.len()),
            );
            lemma_silent(x, Event::Resume, floats, at, first.steps);
            match first.completion {
                Completion::Normal(w) => {
                    let y = in_context(base, first.context).push_value(w);
                    assert(landed(above, first).machine == y.push(boundary));
                    crate::machine::lemma_step_does_last_frame(y, boundary, Event::Resume);
                    assert(keep(y.values, base.values.len()) =~= base.values);
                    let done = in_context(base, back).push_value(ValueView::Void);
                    assert(step(y.push(boundary), Event::Resume) == (done, ActionView::Continue));
                    lemma_one_silent(y.push(boundary), Event::Resume, floats, done);
                    lemma_driven_add(at, Event::Resume, floats, first.steps, 1);
                    assert(first.lines + Seq::<Line>::empty() =~= first.lines);
                    lemma_silent(x, Event::Resume, floats, at, first.steps + 1);
                },
                Completion::Return(v) => {
                    let inside = in_context(above, first.context);
                    assert(inside.frames.drop_last() =~= base.frames);
                    assert(innermost_boundary(inside.frames) == Some(base.frames.len() as int));
                    assert(inside.frames.take(base.frames.len() as int) =~= base.frames);
                    assert(keep(inside.values, base.values.len()) =~= base.values);
                    assert(unwind(inside, v).0 == in_context(base, back).push_value(v));
                },
                _ => {},
            }
        },
    }
}

/// The machine does what the semantics says of a call.
proof fn lemma_call(node: NodeView, base: MachineView, event: Event, floats: Floats, fuel: nat)
    requires
        node is Call,
        ready(node, base, floats, fuel),
    ensures
        follows(node, base, event, floats, fuel),
    decreases fuel, 0nat,
{
    match node {
        NodeView::Call { name, args } => {
            let whole = eval(node, context_of(base), floats, fuel);
            let less = (fuel - 1) as nat;
            let context = context_of(base);
            let s0 = base.push(FrameView::Run(node));
            assert(in_context(base, context) == base);
            lemma_begun(base, node, event);
            crate::machine::lemma_step_does_last_frame(base, FrameView::Run(node), event);
            match find_function(base.functions, name) {
                Some(f) => {
                    if f.params.len() != args.len() {
                        lemma_one_failing(
                            s0,
                            event,
                            floats,
                            base,
                            context,
                            RuntimeErrorView::ArityMismatch {
                                name,
                                expected: f.params.len(),
                                found: args.len(),
                            },
                        );
                    } else {
                        let frame = FrameView::Invoke(f.params, f.body);
                        let above = base.push(frame);
                        let at = above.push(FrameView::Arguments(args, 0));
                        let (values, first) = gather(args, 0, context, floats, less);
                        lemma_gather(args, 0, above, Event::Resume, floats, less);
                        assert(above.frames =~= base.frames + seq![frame]);
                        assert(above.values =~= base.values + Seq::<ValueView>::empty());
                        lemma_silent(s0, event, floats, at, first.steps);
                        if first.completion is Normal {
                            let m = in_context(base, first.context);
                            let loaded = MachineView { values: m.values + values, ..m };
                            let rest = call(f.params, f.body, values, first.context, floats, less);
                            lemma_driven_keeps_values_fitting(
                                at,
                                Event::Resume,
                                floats,
                                first.steps,
                            );
                            assert(gathered(above, values, first).machine == loaded.push(frame));
                            lemma_steady_in_context(base, first.context);
                            lemma_invoke(f.params, f.body, values, m, floats, less);
                            lemma_landed_in_context(base, first.context, rest);
                            lemma_driven_add(at, Event::Resume, floats, first.steps, rest.steps);
                            lemma_silent(s0, event, floats, at, first.steps + rest.steps);
                        } else {
                            lemma_lift(base, above, seq![frame], Seq::empty(), first);
                        }
                    }
                },
                None => {
                    lemma_one_failing(
                        s0,
                        event,
                        floats,
                        base,
                        context,
                        RuntimeErrorView::UndefinedFunction { name },
                    );
                },
            }
        },
        _ => {},
    }
}

/// The machine does what the semantics says: a run of a program with a
/// driver that computes as `floats`, for as many steps as the semantics
/// counts, ends as the semantics says the program completes, if it completes
/// within the fuel. The lines that the driver has written are those that the
/// semantics gives; having completed normally, the machine has nothing left
/// to do and holds the value of the program; having failed, the last step
/// has reported the error of the semantics.
pub proof fn machine_follows_semantics(program: NodeView, event: Event, floats: Floats, fuel: nat)
    requires
        !(eval(program, context_of(start(program)), floats, fuel).completion is OutOfFuel),
    ensures
        driven(
            start(program),
            event,
            floats,
            eval(program, context_of(start(program)), floats, fuel).steps,
        ) == landed(
            MachineView { frames: Seq::empty(), ..start(program) },
            eval(program, context_of(start(program)), floats, fuel),
        ),
{
    let base = MachineView { frames: Seq::empty(), ..start(program) };
    assert(base.push(FrameView::Run(program)).frames =~= start(program).frames);
    assert(base.push(FrameView::Run(program)) == start(program));
    values_fit_at_start(program);
    lemma_eval(program, base, event, floats, fuel);
}

} // verus!
