//! What a program means, said node by node.
//!
//! [`eval`] gives, for a node and the scopes and functions it is run in, how
//! the node completes, what the scopes and functions are then, the lines
//! written on the way, and the number of steps that [`crate::machine`] takes
//! for it. Loops and recursion make some programs run forever, so `eval`
//! takes a bound, its fuel, on how deep it follows a program; a program
//! that needs more completes with `OutOfFuel`. What floating-point work comes
//! to is not said here: it is a parameter, [`Floats`].

use vstd::prelude::*;
use crate::ast::{BinaryOperator, NodeView, ParamView, TypeName};
use crate::environment::{assign, declare, lookup, pop_scope, push_scope, truncate, Scopes};
use crate::machine::{argument, bind, find_function, first_mismatch, Event, FunctionView};
use crate::operators::{
    binary_outcome, unary_outcome, FloatRequestView, Number, OutcomeView,
};
use crate::value::{kind_of, rendered, type_error, Kinds, Operation, RuntimeErrorView, ValueView};

verus! {

/// What floating-point work comes to: the bits of the float that a literal
/// writes, of the result of arithmetic and of the opposite of a float, and
/// the truth of a comparison.
pub ghost struct Floats {
    pub literal: spec_fn(Seq<char>) -> u64,
    pub arithmetic: spec_fn(BinaryOperator, Number, Number) -> u64,
    pub compare: spec_fn(BinaryOperator, Number, Number) -> bool,
    pub negate: spec_fn(u64) -> u64,
}

/// The answer that a driver who computes as `floats` gives to `request`.
pub open spec fn reply(floats: Floats, request: FloatRequestView) -> Event {
    match request {
        FloatRequestView::Literal(text) => Event::Float((floats.literal)(text)),
        FloatRequestView::Arithmetic { op, left, right } => Event::Float(
            (floats.arithmetic)(op, left, right),
        ),
        FloatRequestView::Compare { op, left, right } => Event::Truth(
            (floats.compare)(op, left, right),
        ),
        FloatRequestView::Negate(bits) => Event::Float((floats.negate)(bits)),
    }
}

/// The value that answers `request`.
pub open spec fn answered(floats: Floats, request: FloatRequestView) -> ValueView {
    match reply(floats, request) {
        Event::Float(bits) => ValueView::Float(bits),
        Event::Truth(b) => ValueView::Bool(b),
        Event::Resume => ValueView::Void,
    }
}

/// A line of output: text, or a float for the driver to write.
pub ghost enum Line {
    Text(Seq<char>),
    Float(u64),
}

/// What a node is run in: the scopes and the declared functions.
pub ghost struct Context {
    pub scopes: Scopes,
    pub functions: Seq<FunctionView>,
}

/// How running a node ends.
pub ghost enum Completion {
    /// With this value; for a statement, `Void`.
    Normal(ValueView),
    /// With a `return` of this value, which the innermost call takes up.
    Return(ValueView),
    /// With this error, which aborts the run.
    Error(RuntimeErrorView),
    /// Not within the fuel given.
    OutOfFuel,
}

/// A node that has been run.
pub ghost struct Evaluated {
    pub completion: Completion,
    /// The scopes and functions where the node completed. Where it did not
    /// complete normally, scopes entered on the way have not been left.
    pub context: Context,
    /// The lines written, in order.
    pub lines: Seq<Line>,
    /// The number of steps that the machine takes.
    pub steps: nat,
}

impl Context {
    /// This context with other scopes.
    pub open spec fn with_scopes(self, scopes: Scopes) -> Context {
        Context { scopes, ..self }
    }

    /// This context in a new innermost scope.
    pub open spec fn enter(self) -> Context {
        self.with_scopes(push_scope(self.scopes))
    }

    /// This context without its innermost scope.
    pub open spec fn leave(self) -> Context {
        self.with_scopes(pop_scope(self.scopes))
    }
}

impl Evaluated {
    /// This with `n` more steps.
    pub open spec fn plus(self, n: nat) -> Evaluated {
        Evaluated { steps: self.steps + n, ..self }
    }

    /// This, which completed normally, and then `next`.
    pub open spec fn and(self, next: Evaluated) -> Evaluated {
        Evaluated {
            completion: next.completion,
            context: next.context,
            lines: self.lines + next.lines,
            steps: self.steps + next.steps,
        }
    }

    /// This, which ran in a scope of its own: having completed normally, the
    /// scope is left, which takes a step.
    pub open spec fn scoped(self) -> Evaluated {
        if self.completion is Normal {
            Evaluated { context: self.context.leave(), steps: self.steps + 1, ..self }
        } else {
            self
        }
    }
}

/// Completing with `value` in `steps` steps, nothing written.
pub open spec fn normal(value: ValueView, context: Context, steps: nat) -> Evaluated {
    Evaluated { completion: Completion::Normal(value), context, lines: Seq::empty(), steps }
}

/// Aborting with `e` in `steps` steps, nothing written.
pub open spec fn failed(e: RuntimeErrorView, context: Context, steps: nat) -> Evaluated {
    Evaluated { completion: Completion::Error(e), context, lines: Seq::empty(), steps }
}

/// Running out of fuel.
pub open spec fn exhausted(context: Context) -> Evaluated {
    Evaluated { completion: Completion::OutOfFuel, context, lines: Seq::empty(), steps: 0 }
}

/// Writing `line`, which completes with `Void` in one step.
pub open spec fn written(line: Line, context: Context) -> Evaluated {
    Evaluated { completion: Completion::Normal(ValueView::Void), context, lines: seq![line], steps: 1 }
}

/// What the outcome of an operator comes to: its value in one step, the
/// value that answers its request in two, or its error in one.
pub open spec fn settled(outcome: OutcomeView, context: Context, floats: Floats) -> Evaluated {
    match outcome {
        OutcomeView::Value(v) => normal(v, context, 1),
        OutcomeView::Ask(request) => normal(answered(floats, request), context, 2),
        OutcomeView::Fail(e) => failed(e, context, 1),
    }
}

/// Testing a condition that came to `v`: anything but a boolean is a type
/// error.
pub open spec fn wrong_condition(v: ValueView, context: Context) -> Evaluated {
    failed(
        type_error(Operation::Condition, Kinds::Only(TypeName::Bool), kind_of(v)),
        context,
        1,
    )
}

/// Running `node` in `context`.
///
/// An expression completes with its value. Operands are evaluated from left
/// to right; `&&` and `||` do not evaluate their right operand where the left
/// one decides. A statement completes with `Void`, or with the `return` or
/// the error of what it runs.
pub open spec fn eval(node: NodeView, context: Context, floats: Floats, fuel: nat) -> Evaluated
    decreases fuel, 0nat,
{
    if fuel == 0 {
        exhausted(context)
    } else {
        let less = (fuel - 1) as nat;
        match node {
            NodeView::IntLiteral(i) => normal(ValueView::Int(i), context, 1),
            NodeView::FloatLiteral(text) => settled(
                OutcomeView::Ask(FloatRequestView::Literal(text)),
                context,
                floats,
            ),
            NodeView::StringLiteral(text) => normal(ValueView::Str(text), context, 1),
            NodeView::BoolLiteral(b) => normal(ValueView::Bool(b), context, 1),
            NodeView::Identifier(name) => match lookup(context.scopes, name) {
                Some(v) => normal(v, context, 1),
                None => failed(RuntimeErrorView::UndefinedVariable { name }, context, 1),
            },
            NodeView::UnaryOp { op, operand } => {
                let r = eval(*operand, context, floats, less);
                match r.completion {
                    Completion::Normal(v) => r.and(
                        settled(unary_outcome(op, v), r.context, floats),
                    ).plus(1),
                    _ => r.plus(1),
                }
            },
            NodeView::BinaryOp { op, left, right } => {
                let l = eval(*left, context, floats, less);
                match l.completion {
                    Completion::Normal(a) => if op == BinaryOperator::And || op
                        == BinaryOperator::Or {
                        match a {
                            ValueView::Bool(x) => if x == (op == BinaryOperator::Or) {
                                l.plus(2)
                            } else {
                                let r = eval(*right, l.context, floats, less);
                                match r.completion {
                                    Completion::Normal(b) => l.and(r).and(
                                        settled(binary_outcome(op, a, b), r.context, floats),
                                    ).plus(2),
                                    _ => l.and(r).plus(2),
                                }
                            },
                            _ => l.and(
                                failed(
                                    type_error(
                                        Operation::Binary(op),
                                        Kinds::Only(TypeName::Bool),
                                        kind_of(a),
                                    ),
                                    l.context,
                                    1,
                                ),
                            ).plus(1),
                        }
                    } else {
                        let r = eval(*right, l.context, floats, less);
                        match r.completion {
                            Completion::Normal(b) => l.and(r).and(
                                settled(binary_outcome(op, a, b), r.context, floats),
                            ).plus(1),
                            _ => l.and(r).plus(1),
                        }
                    },
                    _ => l.plus(1),
                }
            },
            NodeView::Call { name, args } => match find_function(context.functions, name) {
                Some(f) => if f.params.len() != args.len() {
                    failed(
                        RuntimeErrorView::ArityMismatch {
                            name,
                            expected: f.params.len(),
                            found: args.len(),
                        },
                        context,
                        1,
                    )
                } else {
                    let (values, g) = gather(args, 0, context, floats, less);
                    match g.completion {
                        Completion::Normal(_) => g.and(
                            call(f.params, f.body, values, g.context, floats, less),
                        ).plus(1),
                        _ => g.plus(1),
                    }
                },
                None => failed(RuntimeErrorView::UndefinedFunction { name }, context, 1),
            },
            NodeView::Program(list) => sequence(list, 0, context, floats, less).plus(1),
            NodeView::Block(list) => sequence(list, 0, context.enter(), floats, less).scoped().plus(
                1,
            ),
            NodeView::VarDecl { name, declared_type, initializer } => {
                let r = eval(*initializer, context, floats, less);
                match r.completion {
                    Completion::Normal(v) => if kind_of(v) != declared_type {
                        r.and(
                            failed(
                                type_error(
                                    Operation::Declare,
                                    Kinds::Only(declared_type),
                                    kind_of(v),
                                ),
                                r.context,
                                1,
                            ),
                        ).plus(1)
                    } else {
                        r.and(
                            normal(
                                ValueView::Void,
                                r.context.with_scopes(declare(r.context.scopes, name, v)),
                                1,
                            ),
                        ).plus(1)
                    },
                    _ => r.plus(1),
                }
            },
            NodeView::Assign { name, value } => {
                let r = eval(*value, context, floats, less);
                match r.completion {
                    Completion::Normal(v) => match assign(r.context.scopes, name, v) {
                        Some(scopes) => r.and(
                            normal(ValueView::Void, r.context.with_scopes(scopes), 1),
                        ).plus(1),
                        None => r.and(
                            failed(RuntimeErrorView::UndefinedVariable { name }, r.context, 1),
                        ).plus(1),
                    },
                    _ => r.plus(1),
                }
            },
            NodeView::Print { value } => {
                let r = eval(*value, context, floats, less);
                match r.completion {
                    Completion::Normal(v) => match v {
                        ValueView::Void => r.and(
                            failed(
                                type_error(Operation::Print, Kinds::NotVoid, TypeName::Void),
                                r.context,
                                1,
                            ),
                        ).plus(1),
                        ValueView::Float(bits) => r.and(written(Line::Float(bits), r.context)).plus(
                            1,
                        ),
                        _ => r.and(written(Line::Text(rendered(v)), r.context)).plus(1),
                    },
                    _ => r.plus(1),
                }
            },
            NodeView::If { condition, then_block, else_block } => {
                let c = eval(*condition, context, floats, less);
                match c.completion {
                    Completion::Normal(v) => match v {
                        ValueView::Bool(b) => if b {
                            c.and(
                                eval(*then_block, c.context.enter(), floats, less).scoped().plus(1),
                            ).plus(1)
                        } else {
                            match else_block {
                                Some(block) => c.and(
                                    eval(*block, c.context.enter(), floats, less).scoped().plus(1),
                                ).plus(1),
                                None => c.and(normal(ValueView::Void, c.context, 1)).plus(1),
                            }
                        },
                        _ => c.and(wrong_condition(v, c.context)).plus(1),
                    },
                    _ => c.plus(1),
                }
            },
            NodeView::While { condition, body } => looping(
                *condition,
                *body,
                context,
                floats,
                less,
            ).plus(1),
            NodeView::For { init, condition, update, body } => {
                let i = eval(*init, context.enter(), floats, less);
                match i.completion {
                    Completion::Normal(_) => i.and(
                        for_looping(*condition, *update, *body, i.context, floats, less),
                    ).plus(1).scoped().plus(1),
                    _ => i.plus(1),
                }
            },
            NodeView::FunctionDecl { name, params, body } => normal(
                ValueView::Void,
                Context {
                    scopes: context.scopes,
                    functions: context.functions.push(FunctionView { name, params, body: *body }),
                },
                1,
            ),
            NodeView::Return { value } => {
                let r = eval(*value, context, floats, less);
                match r.completion {
                    Completion::Normal(v) => Evaluated {
                        completion: Completion::Return(v),
                        steps: r.steps + 2,
                        ..r
                    },
                    _ => r.plus(1),
                }
            },
        }
    }
}

/// Running the statements of `list` from `i` on, one after the other. The
/// value of each is dropped; the value of the whole is `Void`.
pub open spec fn sequence(
    list: Seq<NodeView>,
    i: nat,
    context: Context,
    floats: Floats,
    fuel: nat,
) -> Evaluated
    decreases fuel, list.len() - i + 1,
{
    if i >= list.len() {
        normal(ValueView::Void, context, 1)
    } else {
        let s = eval(list[i as int], context, floats, fuel);
        match s.completion {
            Completion::Normal(_) => s.and(sequence(list, i + 1, s.context, floats, fuel)).plus(2),
            _ => s.plus(1),
        }
    }
}

/// Evaluating the expressions of `list` from `i` on, one after the other:
/// their values, and how the evaluation went.
pub open spec fn gather(
    list: Seq<NodeView>,
    i: nat,
    context: Context,
    floats: Floats,
    fuel: nat,
) -> (Seq<ValueView>, Evaluated)
    decreases fuel, list.len() - i + 1,
{
    if i >= list.len() {
        (Seq::empty(), normal(ValueView::Void, context, 1))
    } else {
        let a = eval(list[i as int], context, floats, fuel);
        match a.completion {
            Completion::Normal(v) => {
                let (values, rest) = gather(list, i + 1, a.context, floats, fuel);
                (seq![v] + values, a.and(rest).plus(1))
            },
            _ => (Seq::empty(), a.plus(1)),
        }
    }
}

/// Calling the function of `params` and `body` with `args`: each argument
/// must be of its parameter's type; the body runs in a new scope that binds
/// the parameters. The call's value is what the body returns, `Void` if it
/// returns nothing, and the scopes entered for the call are left.
pub open spec fn call(
    params: Seq<ParamView>,
    body: NodeView,
    args: Seq<ValueView>,
    context: Context,
    floats: Floats,
    fuel: nat,
) -> Evaluated
    decreases fuel, 1nat,
{
    match first_mismatch(params, args, 0) {
        Some(i) => failed(
            type_error(
                Operation::Argument,
                Kinds::Only(params[i as int].declared_type),
                kind_of(argument(args, params.len(), i)),
            ),
            context,
            1,
        ),
        None => {
            let b = eval(
                body,
                context.with_scopes(bind(push_scope(context.scopes), params, args, 0)),
                floats,
                fuel,
            );
            let back = b.context.with_scopes(truncate(b.context.scopes, context.scopes.len()));
            match b.completion {
                Completion::Normal(_) => Evaluated {
                    completion: Completion::Normal(ValueView::Void),
                    context: back,
                    lines: b.lines,
                    steps: b.steps + 2,
                },
                Completion::Return(v) => Evaluated {
                    completion: Completion::Normal(v),
                    context: back,
                    lines: b.lines,
                    steps: b.steps + 1,
                },
                _ => b.plus(1),
            }
        },
    }
}

/// A `while` loop from its condition on: as long as the condition is true
/// the body runs, each time in a scope of its own.
pub open spec fn looping(
    condition: NodeView,
    body: NodeView,
    context: Context,
    floats: Floats,
    fuel: nat,
) -> Evaluated
    decreases fuel, 1nat,
{
    if fuel == 0 {
        exhausted(context)
    } else {
        let less = (fuel - 1) as nat;
        let c = eval(condition, context, floats, less);
        match c.completion {
            Completion::Normal(v) => match v {
                ValueView::Bool(go) => if go {
                    let b = eval(body, c.context.enter(), floats, less);
                    match b.completion {
                        Completion::Normal(_) => c.and(b).and(
                            looping(condition, body, b.context.leave(), floats, less),
                        ).plus(3),
                        _ => c.and(b).plus(1),
                    }
                } else {
                    c.and(normal(ValueView::Void, c.context, 1))
                },
                _ => c.and(wrong_condition(v, c.context)),
            },
            _ => c,
        }
    }
}

/// A `for` loop from its condition on: as long as the condition is true the
/// body runs and then the update, all in the scope of the loop.
pub open spec fn for_looping(
    condition: NodeView,
    update: NodeView,
    body: NodeView,
    context: Context,
    floats: Floats,
    fuel: nat,
) -> Evaluated
    decreases fuel, 1nat,
{
    if fuel == 0 {
        exhausted(context)
    } else {
        let less = (fuel - 1) as nat;
        let c = eval(condition, context, floats, less);
        match c.completion {
            Completion::Normal(v) => match v {
                ValueView::Bool(go) => if go {
                    let b = eval(body, c.context, floats, less);
                    match b.completion {
                        Completion::Normal(_) => {
                            let u = eval(update, b.context, floats, less);
                            match u.completion {
                                Completion::Normal(_) => c.and(b).and(u).and(
                                    for_looping(condition, update, body, u.context, floats, less),
                                ).plus(3),
                                _ => c.and(b).and(u).plus(2),
                            }
                        },
                        _ => c.and(b).plus(1),
                    }
                } else {
                    c.and(normal(ValueView::Void, c.context, 1))
                },
                _ => c.and(wrong_condition(v, c.context)),
            },
            _ => c,
        }
    }
}

} // verus!
