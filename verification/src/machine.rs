//! The evaluator as a machine that runs a program one step at a time.
//!
//! The machine holds what is left to do as a stack of frames, the values
//! computed and not yet used as a second stack, the scopes, and the declared
//! functions. [`step`] says what one step does to such a state. A step hands
//! the driver an [`Action`]: nothing, a line to write, or floating-point work
//! whose answer the driver passes to the next step as an [`Event`]. Running
//! a node leaves exactly one value on the value stack; for a statement that
//! is `Void`.

use vstd::prelude::*;
use crate::ast::{
    node_views, param_views, ASTNode, BinaryOperator, NodeView, Param, ParamView, TypeName,
    UnaryOperator,
};
use crate::environment::{
    assign, declare, lookup, pop_scope, push_scope, truncate, Environment, Scopes,
};
use crate::operators::{
    apply_binary, apply_unary, binary_outcome, unary_outcome, FloatRequest, FloatRequestView,
    Outcome, OutcomeView,
};
use crate::text::same_text;
use crate::value::{
    kind_of, render, rendered, type_error, value_views, Kinds, Operation, RuntimeError,
    RuntimeErrorView, Value, ValueView,
};

verus! {

/// What the driver tells the machine with a step.
#[derive(Debug, Clone, Copy, PartialEq, Eq, Structural)]
pub enum Event {
    /// Nothing: go on.
    Resume,
    /// The bits of the float that answers the request of the last step.
    Float(u64),
    /// The truth value that answers the request of the last step.
    Truth(bool),
}

/// What a step asks of the driver.
#[derive(Debug, PartialEq)]
pub enum Action {
    /// Nothing: step again.
    Continue,
    /// Write this line to the output.
    Print(String),
    /// Write this float as a line to the output.
    PrintFloat(u64),
    /// Do this work and pass the answer to the next step.
    Ask(FloatRequest),
    /// The program has ended.
    Finished,
    /// The run is aborted with this error.
    Failed(RuntimeError),
}

/// The mathematical value of an [`Action`].
pub ghost enum ActionView {
    Continue,
    Print(Seq<char>),
    PrintFloat(u64),
    Ask(FloatRequestView),
    Finished,
    Failed(RuntimeErrorView),
}

impl View for Action {
    type V = ActionView;

    open spec fn view(&self) -> ActionView {
        match self {
            Action::Continue => ActionView::Continue,
            Action::Print(line) => ActionView::Print(line@),
            Action::PrintFloat(bits) => ActionView::PrintFloat(*bits),
            Action::Ask(request) => ActionView::Ask(request@),
            Action::Finished => ActionView::Finished,
            Action::Failed(e) => ActionView::Failed(e@),
        }
    }
}

/// A declared function.
pub struct Function<'a> {
    name: &'a String,
    params: &'a Vec<Param>,
    body: &'a ASTNode,
}

/// The mathematical value of a [`Function`].
pub ghost struct FunctionView {
    pub name: Seq<char>,
    pub params: Seq<ParamView>,
    pub body: NodeView,
}

impl<'a> View for Function<'a> {
    type V = FunctionView;

    closed spec fn view(&self) -> FunctionView {
        FunctionView { name: self.name@, params: param_views(self.params@), body: self.body@ }
    }
}

/// One piece of work that is left to do.
pub enum Frame<'a> {
    /// Run this node; its value goes onto the value stack.
    Run(&'a ASTNode),
    /// Run these statements from the given index on, dropping the value of
    /// each; the value of the whole is `Void`.
    Sequence(&'a Vec<ASTNode>, usize),
    /// Run these expressions from the given index on, keeping the value of
    /// each.
    Arguments(&'a Vec<ASTNode>, usize),
    /// Drop the top value.
    Discard,
    /// Bind this name to the top value, which must be of this type.
    Declare(&'a String, TypeName),
    /// Assign the top value to this name.
    Store(&'a String),
    /// Print the top value.
    Print,
    /// Run the first node if the top value is true, else the second, each
    /// in a scope of its own.
    Branch(&'a ASTNode, Option<&'a ASTNode>),
    /// `while`: if the top value is true, run the body in a scope of its
    /// own, then the condition, then this again.
    Loop(&'a ASTNode, &'a ASTNode),
    /// `for`: if the top value is true, run the body, then the update, then
    /// the condition, then this again.
    ForLoop(&'a ASTNode, &'a ASTNode, &'a ASTNode),
    /// End the innermost scope.
    PopScope,
    /// `&&` or `||` with the left operand on top: decide by it alone where
    /// it decides, else run the right operand.
    ShortCircuit(BinaryOperator, &'a ASTNode),
    /// Apply this operator to the two top values.
    Apply(BinaryOperator),
    /// Apply this operator to the top value.
    ApplyUnary(UnaryOperator),
    /// Call the function of these parameters and this body with the top
    /// values as arguments.
    Invoke(&'a Vec<Param>, &'a ASTNode),
    /// The end of a call: the number of scopes and of values to go back to.
    Boundary(usize, usize),
    /// Return the top value from the innermost call.
    Unwind,
    /// Wait for the answer to this request.
    Await(FloatRequest),
}

/// The mathematical value of a [`Frame`].
pub ghost enum FrameView {
    Run(NodeView),
    Sequence(Seq<NodeView>, nat),
    Arguments(Seq<NodeView>, nat),
    Discard,
    Declare(Seq<char>, TypeName),
    Store(Seq<char>),
    Print,
    Branch(NodeView, Option<NodeView>),
    Loop(NodeView, NodeView),
    ForLoop(NodeView, NodeView, NodeView),
    PopScope,
    ShortCircuit(BinaryOperator, NodeView),
    Apply(BinaryOperator),
    ApplyUnary(UnaryOperator),
    Invoke(Seq<ParamView>, NodeView),
    Boundary(nat, nat),
    Unwind,
    Await(FloatRequestView),
}

impl<'a> View for Frame<'a> {
    type V = FrameView;

    open spec fn view(&self) -> FrameView {
        match self {
            Frame::Run(node) => FrameView::Run(node@),
            Frame::Sequence(list, i) => FrameView::Sequence(node_views(list@), *i as nat),
            Frame::Arguments(list, i) => FrameView::Arguments(node_views(list@), *i as nat),
            Frame::Discard => FrameView::Discard,
            Frame::Declare(name, t) => FrameView::Declare(name@, *t),
            Frame::Store(name) => FrameView::Store(name@),
            Frame::Print => FrameView::Print,
            Frame::Branch(then_block, else_block) => FrameView::Branch(
                then_block@,
                match else_block {
                    Some(block) => Some(block@),
                    None => None,
                },
            ),
            Frame::Loop(condition, body) => FrameView::Loop(condition@, body@),
            Frame::ForLoop(condition, update, body) => FrameView::ForLoop(
                condition@,
                update@,
                body@,
            ),
            Frame::PopScope => FrameView::PopScope,
            Frame::ShortCircuit(op, right) => FrameView::ShortCircuit(*op, right@),
            Frame::Apply(op) => FrameView::Apply(*op),
            Frame::ApplyUnary(op) => FrameView::ApplyUnary(*op),
            Frame::Invoke(params, body) => FrameView::Invoke(param_views(params@), body@),
            Frame::Boundary(depth, height) => FrameView::Boundary(*depth as nat, *height as nat),
            Frame::Unwind => FrameView::Unwind,
            Frame::Await(request) => FrameView::Await(request@),
        }
    }
}

/// The values of a sequence of frames, one by one.
pub open spec fn frame_views(frames: Seq<Frame>) -> Seq<FrameView> {
    Seq::new(frames.len(), |i: int| frames[i]@)
}

/// The values of a sequence of functions, one by one.
pub open spec fn function_views(functions: Seq<Function>) -> Seq<FunctionView> {
    Seq::new(functions.len(), |i: int| functions[i]@)
}

/// The state of a run.
pub ghost struct MachineView {
    /// What is left to do, the next piece last.
    pub frames: Seq<FrameView>,
    /// The values computed and not yet used, the newest last.
    pub values: Seq<ValueView>,
    /// The scopes, the innermost last.
    pub scopes: Scopes,
    /// The functions declared so far, in order.
    pub functions: Seq<FunctionView>,
}

/// A state and what the step that led to it asks of the driver.
pub type Stepped = (MachineView, ActionView);

impl MachineView {
    /// This state with one more piece of work to do first.
    pub open spec fn push(self, frame: FrameView) -> MachineView {
        MachineView { frames: self.frames.push(frame), ..self }
    }

    /// This state with one more value.
    pub open spec fn push_value(self, value: ValueView) -> MachineView {
        MachineView { values: self.values.push(value), ..self }
    }

    /// The top value, `Void` if there is none.
    pub open spec fn top(self) -> ValueView {
        if self.values.len() > 0 {
            self.values.last()
        } else {
            ValueView::Void
        }
    }

    /// This state without its top value.
    pub open spec fn pop_value(self) -> MachineView {
        if self.values.len() > 0 {
            MachineView { values: self.values.drop_last(), ..self }
        } else {
            self
        }
    }

    /// This state with other scopes.
    pub open spec fn with_scopes(self, scopes: Scopes) -> MachineView {
        MachineView { scopes, ..self }
    }

    /// This state in a new innermost scope that ends when the work pushed
    /// after this is done.
    pub open spec fn scoped(self) -> MachineView {
        self.with_scopes(push_scope(self.scopes)).push(FrameView::PopScope)
    }

    /// This state going on silently.
    pub open spec fn go(self) -> Stepped {
        (self, ActionView::Continue)
    }

    /// The state of an aborted run: nothing is left to do and no value is
    /// kept.
    pub open spec fn fail(self, e: RuntimeErrorView) -> Stepped {
        (
            MachineView { frames: Seq::empty(), values: Seq::empty(), ..self },
            ActionView::Failed(e),
        )
    }

    /// This state after an operator came to `outcome`: with its value, or
    /// waiting for it, or aborted.
    pub open spec fn settle(self, outcome: OutcomeView) -> Stepped {
        match outcome {
            OutcomeView::Value(v) => self.push_value(v).go(),
            OutcomeView::Ask(request) => (
                self.push(FrameView::Await(request)),
                ActionView::Ask(request),
            ),
            OutcomeView::Fail(e) => self.fail(e),
        }
    }
}

/// The function that `name` stands for: the last one declared under it.
pub open spec fn find_function(functions: Seq<FunctionView>, name: Seq<char>) -> Option<
    FunctionView,
>
    decreases functions.len(),
{
    if functions.len() == 0 {
        None
    } else if functions.last().name == name {
        Some(functions.last())
    } else {
        find_function(functions.drop_last(), name)
    }
}

/// The first `n` of `values`; all of them if there are no more.
pub open spec fn keep(values: Seq<ValueView>, n: nat) -> Seq<ValueView> {
    if n < values.len() {
        values.take(n as int)
    } else {
        values
    }
}

/// `values` without the top `n`; nothing if there are no more.
pub open spec fn below(values: Seq<ValueView>, n: nat) -> Seq<ValueView> {
    if n <= values.len() {
        values.take(values.len() - n)
    } else {
        Seq::empty()
    }
}

/// The index of the innermost call boundary among `frames`.
pub open spec fn innermost_boundary(frames: Seq<FrameView>) -> Option<int>
    decreases frames.len(),
{
    if frames.len() == 0 {
        None
    } else if frames.last() is Boundary {
        Some(frames.len() - 1)
    } else {
        innermost_boundary(frames.drop_last())
    }
}

/// The argument for parameter `i` among the `n` top values; `Void` where
/// the values do not reach.
pub open spec fn argument(values: Seq<ValueView>, n: nat, i: nat) -> ValueView {
    let at = values.len() - n + i;
    if 0 <= at < values.len() {
        values[at]
    } else {
        ValueView::Void
    }
}

/// The first parameter from `i` on whose argument is not of its declared
/// type.
pub open spec fn first_mismatch(params: Seq<ParamView>, values: Seq<ValueView>, i: nat) -> Option<
    nat,
>
    decreases params.len() - i,
{
    if i >= params.len() {
        None
    } else if kind_of(argument(values, params.len(), i)) != params[i as int].declared_type {
        Some(i)
    } else {
        first_mismatch(params, values, i + 1)
    }
}

/// The scopes after binding the parameters from `i` on to their arguments
/// in the innermost scope.
pub open spec fn bind(scopes: Scopes, params: Seq<ParamView>, values: Seq<ValueView>, i: nat) -> Scopes
    decreases params.len() - i,
{
    if i >= params.len() {
        scopes
    } else {
        bind(
            declare(scopes, params[i as int].name, argument(values, params.len(), i)),
            params,
            values,
            i + 1,
        )
    }
}

/// Running `node` in the state `m`.
pub open spec fn run(m: MachineView, node: NodeView) -> Stepped {
    match node {
        NodeView::Program(list) => m.push(FrameView::Sequence(list, 0)).go(),
        NodeView::Block(list) => m.scoped().push(FrameView::Sequence(list, 0)).go(),
        NodeView::VarDecl { name, declared_type, initializer } => m.push(
            FrameView::Declare(name, declared_type),
        ).push(FrameView::Run(*initializer)).go(),
        NodeView::Assign { name, value } => m.push(FrameView::Store(name)).push(
            FrameView::Run(*value),
        ).go(),
        NodeView::Print { value } => m.push(FrameView::Print).push(FrameView::Run(*value)).go(),
        NodeView::If { condition, then_block, else_block } => m.push(
            FrameView::Branch(
                *then_block,
                match else_block {
                    Some(block) => Some(*block),
                    None => None,
                },
            ),
        ).push(FrameView::Run(*condition)).go(),
        NodeView::While { condition, body } => m.push(FrameView::Loop(*condition, *body)).push(
            FrameView::Run(*condition),
        ).go(),
        NodeView::For { init, condition, update, body } => m.scoped().push(
            FrameView::ForLoop(*condition, *update, *body),
        ).push(FrameView::Run(*condition)).push(FrameView::Discard).push(FrameView::Run(*init)).go(),
        NodeView::FunctionDecl { name, params, body } => MachineView {
            functions: m.functions.push(FunctionView { name, params, body: *body }),
            ..m
        }.push_value(ValueView::Void).go(),
        NodeView::Call { name, args } => match find_function(m.functions, name) {
            Some(f) => if f.params.len() != args.len() {
                m.fail(
                    RuntimeErrorView::ArityMismatch {
                        name,
                        expected: f.params.len(),
                        found: args.len(),
                    },
                )
            } else {
                m.push(FrameView::Invoke(f.params, f.body)).push(FrameView::Arguments(args, 0)).go()
            },
            None => m.fail(RuntimeErrorView::UndefinedFunction { name }),
        },
        NodeView::Return { value } => m.push(FrameView::Unwind).push(FrameView::Run(*value)).go(),
        NodeView::IntLiteral(i) => m.push_value(ValueView::Int(i)).go(),
        NodeView::FloatLiteral(text) => m.settle(OutcomeView::Ask(FloatRequestView::Literal(text))),
        NodeView::StringLiteral(text) => m.push_value(ValueView::Str(text)).go(),
        NodeView::BoolLiteral(b) => m.push_value(ValueView::Bool(b)).go(),
        NodeView::Identifier(name) => match lookup(m.scopes, name) {
            Some(v) => m.push_value(v).go(),
            None => m.fail(RuntimeErrorView::UndefinedVariable { name }),
        },
        NodeView::BinaryOp { op, left, right } => if op == BinaryOperator::And || op
            == BinaryOperator::Or {
            m.push(FrameView::ShortCircuit(op, *right)).push(FrameView::Run(*left)).go()
        } else {
            m.push(FrameView::Apply(op)).push(FrameView::Run(*right)).push(
                FrameView::Run(*left),
            ).go()
        },
        NodeView::UnaryOp { op, operand } => m.push(FrameView::ApplyUnary(op)).push(
            FrameView::Run(*operand),
        ).go(),
    }
}

/// Testing the condition `v` of `operation`: what to do if it is true and
/// what if it is false; anything but a boolean is a type error.
pub open spec fn decide(m: MachineView, v: ValueView, yes: Stepped, no: Stepped) -> Stepped {
    match v {
        ValueView::Bool(b) => if b {
            yes
        } else {
            no
        },
        _ => m.fail(type_error(Operation::Condition, Kinds::Only(TypeName::Bool), kind_of(v))),
    }
}

/// Calling the function of `params` and `body` with the top values of `m`
/// as arguments: each argument must be of its parameter's type; then the
/// body runs in a new scope that binds the parameters, up to a boundary to
/// return to.
pub open spec fn invoke(m: MachineView, params: Seq<ParamView>, body: NodeView) -> Stepped {
    let n = params.len();
    let rest = below(m.values, n);
    match first_mismatch(params, m.values, 0) {
        Some(i) => m.fail(
            type_error(
                Operation::Argument,
                Kinds::Only(params[i as int].declared_type),
                kind_of(argument(m.values, n, i)),
            ),
        ),
        None => MachineView {
            frames: m.frames.push(FrameView::Boundary(m.scopes.len(), rest.len())).push(
                FrameView::Run(body),
            ),
            values: rest,
            scopes: bind(push_scope(m.scopes), params, m.values, 0),
            functions: m.functions,
        }.go(),
    }
}

/// Returning `v` from the innermost call: the work, the scopes and the
/// values go back to the call's boundary, and `v` is the call's value.
/// Outside of any call nothing is left to do.
pub open spec fn unwind(m: MachineView, v: ValueView) -> Stepped {
    match innermost_boundary(m.frames) {
        Some(k) => match m.frames[k] {
            FrameView::Boundary(depth, height) => MachineView {
                frames: m.frames.take(k),
                values: keep(m.values, height).push(v),
                scopes: truncate(m.scopes, depth),
                functions: m.functions,
            }.go(),
            _ => m.go(),
        },
        None => MachineView { frames: Seq::empty(), values: seq![v], ..m }.go(),
    }
}

/// The answer `event` to `request`, for which the state `m` was waiting:
/// a float for a literal, for arithmetic and for a negation, a truth value
/// for a comparison. Anything else is no answer, and the request is made
/// again.
pub open spec fn answer(waiting: MachineView, m: MachineView, request: FloatRequestView, event: Event) -> Stepped {
    match (request, event) {
        (FloatRequestView::Compare { .. }, Event::Truth(b)) => m.push_value(ValueView::Bool(b)).go(),
        (FloatRequestView::Compare { .. }, _) => (waiting, ActionView::Ask(request)),
        (_, Event::Float(bits)) => m.push_value(ValueView::Float(bits)).go(),
        _ => (waiting, ActionView::Ask(request)),
    }
}

/// Doing the piece of work `frame` in the state `m`, from which the frame
/// has been taken.
pub open spec fn perform(m: MachineView, frame: FrameView, event: Event) -> Stepped {
    let v = m.top();
    let popped = m.pop_value();
    match frame {
        FrameView::Run(node) => run(m, node),
        FrameView::Sequence(list, i) => if i < list.len() {
            m.push(FrameView::Sequence(list, i + 1)).push(FrameView::Discard).push(
                FrameView::Run(list[i as int]),
            ).go()
        } else {
            m.push_value(ValueView::Void).go()
        },
        FrameView::Arguments(list, i) => if i < list.len() {
            m.push(FrameView::Arguments(list, i + 1)).push(FrameView::Run(list[i as int])).go()
        } else {
            m.go()
        },
        FrameView::Discard => popped.go(),
        FrameView::Declare(name, declared_type) => if kind_of(v) != declared_type {
            m.fail(type_error(Operation::Declare, Kinds::Only(declared_type), kind_of(v)))
        } else {
            popped.with_scopes(declare(m.scopes, name, v)).push_value(ValueView::Void).go()
        },
        FrameView::Store(name) => match assign(m.scopes, name, v) {
            Some(scopes) => popped.with_scopes(scopes).push_value(ValueView::Void).go(),
            None => m.fail(RuntimeErrorView::UndefinedVariable { name }),
        },
        FrameView::Print => match v {
            ValueView::Void => m.fail(
                type_error(Operation::Print, Kinds::NotVoid, TypeName::Void),
            ),
            ValueView::Float(bits) => (
                popped.push_value(ValueView::Void),
                ActionView::PrintFloat(bits),
            ),
            _ => (popped.push_value(ValueView::Void), ActionView::Print(rendered(v))),
        },
        FrameView::Branch(then_block, else_block) => decide(
            m,
            v,
            popped.scoped().push(FrameView::Run(then_block)).go(),
            match else_block {
                Some(block) => popped.scoped().push(FrameView::Run(block)).go(),
                None => popped.push_value(ValueView::Void).go(),
            },
        ),
        FrameView::Loop(condition, body) => decide(
            m,
            v,
            popped.push(frame).push(FrameView::Run(condition)).scoped().push(
                FrameView::Discard,
            ).push(FrameView::Run(body)).go(),
            popped.push_value(ValueView::Void).go(),
        ),
        FrameView::ForLoop(condition, update, body) => decide(
            m,
            v,
            popped.push(frame).push(FrameView::Run(condition)).push(FrameView::Discard).push(
                FrameView::Run(update),
            ).push(FrameView::Discard).push(FrameView::Run(body)).go(),
            popped.push_value(ValueView::Void).go(),
        ),
        FrameView::PopScope => m.with_scopes(pop_scope(m.scopes)).go(),
        FrameView::ShortCircuit(op, right) => match v {
            ValueView::Bool(b) => if b == (op == BinaryOperator::Or) {
                m.go()
            } else {
                m.push(FrameView::Apply(op)).push(FrameView::Run(right)).go()
            },
            _ => m.fail(
                type_error(Operation::Binary(op), Kinds::Only(TypeName::Bool), kind_of(v)),
            ),
        },
        FrameView::Apply(op) => popped.pop_value().settle(binary_outcome(op, popped.top(), v)),
        FrameView::ApplyUnary(op) => popped.settle(unary_outcome(op, v)),
        FrameView::Invoke(params, body) => invoke(m, params, body),
        FrameView::Boundary(depth, height) => MachineView {
            frames: m.frames,
            values: keep(m.values, height).push(ValueView::Void),
            scopes: truncate(m.scopes, depth),
            functions: m.functions,
        }.go(),
        FrameView::Unwind => unwind(popped, v),
        FrameView::Await(request) => answer(m.push(frame), m, request, event),
    }
}

/// One step of the machine: the next piece of work is taken and done. With
/// nothing left to do the program has ended.
pub open spec fn step(m: MachineView, event: Event) -> Stepped {
    if m.frames.len() == 0 {
        (m, ActionView::Finished)
    } else {
        perform(MachineView { frames: m.frames.drop_last(), ..m }, m.frames.last(), event)
    }
}

/// A step takes the last frame and does it.
pub proof fn lemma_step_does_last_frame(m: MachineView, frame: FrameView, event: Event)
    ensures
        step(m.push(frame), event) == perform(m, frame, event),
{
    assert(m.push(frame).frames.drop_last() =~= m.frames);
}

/// The state in which the run of `program` starts: the program is to be
/// run, in one global scope that binds nothing, with no function declared.
pub open spec fn start(program: NodeView) -> MachineView {
    MachineView {
        frames: seq![FrameView::Run(program)],
        values: Seq::empty(),
        scopes: seq![Seq::empty()],
        functions: Seq::empty(),
    }
}

/// A run of one program.
pub struct Machine<'a> {
    frames: Vec<Frame<'a>>,
    values: Vec<Value>,
    env: Environment,
    functions: Vec<Function<'a>>,
}

impl<'a> View for Machine<'a> {
    type V = MachineView;

    closed spec fn view(&self) -> MachineView {
        MachineView {
            frames: frame_views(self.frames@),
            values: value_views(self.values@),
            scopes: self.env@,
            functions: function_views(self.functions@),
        }
    }
}

/// The node in a box, if there is one.
fn unboxed<'a>(node: &'a Option<Box<ASTNode>>) -> (r: Option<&'a ASTNode>)
    ensures
        match node {
            Some(inner) => r matches Some(n) && n@ == inner@,
            None => r is None,
        },
{
    match node {
        Some(inner) => Some(&**inner),
        None => None,
    }
}

impl<'a> Machine<'a> {
    /// A machine about to run `program`.
    pub fn new(program: &'a ASTNode) -> (m: Self)
        ensures
            m@ == start(program@),
    {
        let mut frames: Vec<Frame<'a>> = Vec::new();
        frames.push(Frame::Run(program));
        let m = Machine { frames, values: Vec::new(), env: Environment::new(), functions: Vec::new() };
        assert(m@.frames =~= start(program@).frames);
        assert(m@.values =~= start(program@).values);
        assert(m@.functions =~= start(program@).functions);
        m
    }

    /// The value that `name` stands for in the scopes of the run.
    pub fn variable(&self, name: &String) -> (r: Option<Value>)
        ensures
            match lookup(self@.scopes, name@) {
                Some(value) => r matches Some(v) && v@ == value,
                None => r is None,
            },
    {
        self.env.lookup(name)
    }

    /// The newest value on the value stack: when the run has finished, the
    /// value of what was run.
    pub fn value(&self) -> (r: Option<Value>)
        ensures
            match r {
                Some(v) => self@.values.len() > 0 && v@ == self@.values.last(),
                None => self@.values.len() == 0,
            },
    {
        let n = self.values.len();
        assert(self@.values.len() == n);
        if n > 0 {
            Some(self.values[n - 1].clone())
        } else {
            None
        }
    }

    fn push(&mut self, frame: Frame<'a>)
        ensures
            final(self)@ == old(self)@.push(frame@),
    {
        self.frames.push(frame);
        assert(self@.frames =~= old(self)@.frames.push(frame@));
    }

    fn push_value(&mut self, value: Value)
        ensures
            final(self)@ == old(self)@.push_value(value@),
    {
        self.values.push(value);
        assert(self@.values =~= old(self)@.values.push(value@));
    }

    fn pop_value(&mut self) -> (value: Value)
        ensures
            value@ == old(self)@.top(),
            final(self)@ == old(self)@.pop_value(),
    {
        match self.values.pop() {
            Some(value) => {
                assert(self@.values =~= old(self)@.values.drop_last());
                value
            },
            None => Value::Void,
        }
    }

    fn open_scope(&mut self)
        ensures
            final(self)@ == old(self)@.scoped(),
    {
        self.env.push_scope();
        self.push(Frame::PopScope);
    }

    fn fail(&mut self, e: RuntimeError) -> (action: Action)
        ensures
            (final(self)@, action@) == old(self)@.fail(e@),
    {
        self.frames.clear();
        self.values.clear();
        assert(self@.frames =~= Seq::empty());
        assert(self@.values =~= Seq::empty());
        Action::Failed(e)
    }

    fn wrong_kind(&mut self, operation: Operation, expected: Kinds, found: TypeName) -> (action:
        Action)
        ensures
            (final(self)@, action@) == old(self)@.fail(type_error(operation, expected, found)),
    {
        self.fail(RuntimeError::TypeError { operation, expected, found })
    }

    fn settle(&mut self, outcome: Outcome) -> (action: Action)
        ensures
            (final(self)@, action@) == old(self)@.settle(outcome@),
    {
        match outcome {
            Outcome::Value(v) => {
                self.push_value(v);
                Action::Continue
            },
            Outcome::Ask(request) => {
                self.push(Frame::Await(request.clone()));
                Action::Ask(request)
            },
            Outcome::Fail(e) => self.fail(e),
        }
    }

    fn find_function(&self, name: &String) -> (r: Option<(&'a Vec<Param>, &'a ASTNode)>)
        ensures
            match find_function(self@.functions, name@) {
                Some(f) => r matches Some((params, body)) && param_views(params@) == f.params
                    && body@ == f.body && params.len() == f.params.len(),
                None => r is None,
            },
    {
        let ghost all = self@.functions;
        let mut i = self.functions.len();
        assert(all.take(i as int) =~= all);
        while i > 0
            invariant
                i <= self.functions.len(),
                all == self@.functions,
                find_function(all, name@) == find_function(all.take(i as int), name@),
            decreases i,
        {
            i = i - 1;
            assert(all.take(i + 1).drop_last() =~= all.take(i as int));
            let f = &self.functions[i];
            if same_text(f.name, name) {
                return Some((f.params, f.body));
            }
        }
        None
    }

    fn run_node(&mut self, node: &'a ASTNode) -> (action: Action)
        ensures
            (final(self)@, action@) == run(old(self)@, node@),
    {
        match node {
            ASTNode::Program(list) => {
                self.push(Frame::Sequence(list, 0));
                Action::Continue
            },
            ASTNode::Block(list) => {
                self.open_scope();
                self.push(Frame::Sequence(list, 0));
                Action::Continue
            },
            ASTNode::VarDecl { name, declared_type, initializer } => {
                self.push(Frame::Declare(name, *declared_type));
                self.push(Frame::Run(&**initializer));
                Action::Continue
            },
            ASTNode::Assign { name, value } => {
                self.push(Frame::Store(name));
                self.push(Frame::Run(&**value));
                Action::Continue
            },
            ASTNode::Print { value } => {
                self.push(Frame::Print);
                self.push(Frame::Run(&**value));
                Action::Continue
            },
            ASTNode::If { condition, then_block, else_block } => {
                self.push(Frame::Branch(&**then_block, unboxed(else_block)));
                self.push(Frame::Run(&**condition));
                Action::Continue
            },
            ASTNode::While { condition, body } => {
                self.push(Frame::Loop(&**condition, &**body));
                self.push(Frame::Run(&**condition));
                Action::Continue
            },
            ASTNode::For { init, condition, update, body } => {
                self.open_scope();
                self.push(Frame::ForLoop(&**condition, &**update, &**body));
                self.push(Frame::Run(&**condition));
                self.push(Frame::Discard);
                self.push(Frame::Run(&**init));
                Action::Continue
            },
            ASTNode::FunctionDecl { name, params, body } => {
                self.functions.push(Function { name, params, body: &**body });
                assert(self@.functions =~= old(self)@.functions.push(
                    FunctionView { name: name@, params: param_views(params@), body: body@ },
                ));
                self.push_value(Value::Void);
                Action::Continue
            },
            ASTNode::Call { name, args } => {
                match self.find_function(name) {
                    Some((params, body)) => {
                        assert(node_views(args@).len() == args.len());
                        if params.len() != args.len() {
                            self.fail(
                                RuntimeError::ArityMismatch {
                                    name: name.clone(),
                                    expected: params.len(),
                                    found: args.len(),
                                },
                            )
                        } else {
                            self.push(Frame::Invoke(params, body));
                            self.push(Frame::Arguments(args, 0));
                            Action::Continue
                        }
                    },
                    None => self.fail(RuntimeError::UndefinedFunction { name: name.clone() }),
                }
            },
            ASTNode::Return { value } => {
                self.push(Frame::Unwind);
                self.push(Frame::Run(&**value));
                Action::Continue
            },
            ASTNode::IntLiteral(i) => {
                self.push_value(Value::Int(*i));
                Action::Continue
            },
            ASTNode::FloatLiteral(text) => self.settle(
                Outcome::Ask(FloatRequest::Literal(text.clone())),
            ),
            ASTNode::StringLiteral(text) => {
                self.push_value(Value::Str(text.clone()));
                Action::Continue
            },
            ASTNode::BoolLiteral(b) => {
                self.push_value(Value::Bool(*b));
                Action::Continue
            },
            ASTNode::Identifier(name) => {
                match self.env.lookup(name) {
                    Some(v) => {
                        self.push_value(v);
                        Action::Continue
                    },
                    None => self.fail(RuntimeError::UndefinedVariable { name: name.clone() }),
                }
            },
            ASTNode::BinaryOp { op, left, right } => {
                if *op == BinaryOperator::And || *op == BinaryOperator::Or {
                    self.push(Frame::ShortCircuit(*op, &**right));
                    self.push(Frame::Run(&**left));
                } else {
                    self.push(Frame::Apply(*op));
                    self.push(Frame::Run(&**right));
                    self.push(Frame::Run(&**left));
                }
                Action::Continue
            },
            ASTNode::UnaryOp { op, operand } => {
                self.push(Frame::ApplyUnary(*op));
                self.push(Frame::Run(&**operand));
                Action::Continue
            },
        }
    }

    /// The argument for parameter `i` of `n`, among the top values.
    fn argument(&self, n: usize, i: usize) -> (r: Option<&Value>)
        requires
            i < n,
        ensures
            match r {
                Some(v) => v@ == argument(self@.values, n as nat, i as nat),
                None => argument(self@.values, n as nat, i as nat) == ValueView::Void,
            },
    {
        let len = self.values.len();
        assert(self@.values.len() == len);
        if n <= len {
            Some(&self.values[len - n + i])
        } else if i >= n - len {
            Some(&self.values[i - (n - len)])
        } else {
            None
        }
    }

    fn invoke(&mut self, params: &'a Vec<Param>, body: &'a ASTNode) -> (action: Action)
        ensures
            (final(self)@, action@) == invoke(old(self)@, param_views(params@), body@),
    {
        let n = params.len();
        let ghost views = param_views(params@);
        let ghost values = self@.values;
        let mut i: usize = 0;
        while i < n
            invariant
                i <= n,
                n == params.len(),
                views == param_views(params@),
                self@ == old(self)@,
                values == self@.values,
                first_mismatch(views, values, 0) == first_mismatch(views, values, i as nat),
            decreases n - i,
        {
            let found = match self.argument(n, i) {
                Some(v) => v.kind(),
                None => TypeName::Void,
            };
            let wanted = params[i].declared_type;
            if found != wanted {
                return self.wrong_kind(Operation::Argument, Kinds::Only(wanted), found);
            }
            i = i + 1;
        }
        let depth = self.env.depth();
        self.env.push_scope();
        let mut i: usize = 0;
        while i < n
            invariant
                i <= n,
                n == params.len(),
                views == param_views(params@),
                self@.frames == old(self)@.frames,
                self@.functions == old(self)@.functions,
                values == old(self)@.values,
                self@.values == values,
                depth == old(self)@.scopes.len(),
                bind(push_scope(old(self)@.scopes), views, values, 0) == bind(
                    self@.scopes,
                    views,
                    values,
                    i as nat,
                ),
            decreases n - i,
        {
            let value = match self.argument(n, i) {
                Some(v) => v.clone(),
                None => Value::Void,
            };
            self.env.declare(params[i].name.clone(), value);
            i = i + 1;
        }
        let len = self.values.len();
        assert(values.len() == len);
        if n <= len {
            self.values.truncate(len - n);
        } else {
            self.values.clear();
        }
        assert(self@.values =~= below(values, n as nat));
        let height = self.values.len();
        self.push(Frame::Boundary(depth, height));
        self.push(Frame::Run(body));
        Action::Continue
    }

    /// The index of the innermost call boundary among the frames.
    fn innermost_boundary(&self) -> (r: Option<usize>)
        ensures
            match innermost_boundary(self@.frames) {
                Some(k) => r == Some(k as usize) && 0 <= k < self.frames.len()
                    && self@.frames[k] is Boundary,
                None => r is None,
            },
    {
        let ghost all = self@.frames;
        let mut k = self.frames.len();
        assert(all.take(k as int) =~= all);
        while k > 0
            invariant
                k <= self.frames.len(),
                all == self@.frames,
                innermost_boundary(all) == innermost_boundary(all.take(k as int)),
            decreases k,
        {
            k = k - 1;
            assert(all.take(k + 1).drop_last() =~= all.take(k as int));
            match &self.frames[k] {
                Frame::Boundary(_, _) => {
                    return Some(k);
                },
                _ => {},
            }
        }
        None
    }

    fn unwind(&mut self, value: Value) -> (action: Action)
        ensures
            (final(self)@, action@) == unwind(old(self)@, value@),
    {
        match self.innermost_boundary() {
            Some(k) => {
                match &self.frames[k] {
                    Frame::Boundary(depth, height) => {
                        let depth = *depth;
                        let height = *height;
                        self.frames.truncate(k);
                        self.values.truncate(height);
                        self.env.truncate(depth);
                        assert(self@.frames =~= old(self)@.frames.take(k as int));
                        assert(self@.values =~= keep(old(self)@.values, height as nat));
                        self.push_value(value);
                    },
                    _ => {},
                }
            },
            None => {
                self.frames.clear();
                self.values.clear();
                assert(self@.frames =~= Seq::empty());
                self.push_value(value);
                assert(self@.values =~= seq![value@]);
            },
        }
        Action::Continue
    }

    fn decide(&mut self, value: &Value) -> (r: Result<bool, Action>)
        ensures
            match value@ {
                ValueView::Bool(b) => r == Ok::<bool, Action>(b) && final(self)@ == old(self)@,
                _ => r matches Err(action) && (final(self)@, action@) == old(self)@.fail(
                    type_error(
                        Operation::Condition,
                        Kinds::Only(TypeName::Bool),
                        kind_of(value@),
                    ),
                ),
            },
    {
        match value {
            Value::Bool(b) => Ok(*b),
            _ => Err(
                self.wrong_kind(Operation::Condition, Kinds::Only(TypeName::Bool), value.kind()),
            ),
        }
    }

    fn answer(&mut self, request: FloatRequest, event: Event) -> (action: Action)
        ensures
            (final(self)@, action@) == answer(
                old(self)@.push(FrameView::Await(request@)),
                old(self)@,
                request@,
                event,
            ),
    {
        match (&request, event) {
            (FloatRequest::Compare { .. }, Event::Truth(b)) => {
                self.push_value(Value::Bool(b));
                Action::Continue
            },
            (FloatRequest::Compare { .. }, _) => {
                self.push(Frame::Await(request.clone()));
                Action::Ask(request)
            },
            (_, Event::Float(bits)) => {
                self.push_value(Value::Float(bits));
                Action::Continue
            },
            _ => {
                self.push(Frame::Await(request.clone()));
                Action::Ask(request)
            },
        }
    }

    fn perform(&mut self, frame: Frame<'a>, event: Event) -> (action: Action)
        ensures
            (final(self)@, action@) == perform(old(self)@, frame@, event),
    {
        match frame {
            Frame::Run(node) => self.run_node(node),
            Frame::Sequence(list, i) => {
                assert(node_views(list@).len() == list.len());
                if i < list.len() {
                    self.push(Frame::Sequence(list, i + 1));
                    self.push(Frame::Discard);
                    self.push(Frame::Run(&list[i]));
                } else {
                    self.push_value(Value::Void);
                }
                Action::Continue
            },
            Frame::Arguments(list, i) => {
                assert(node_views(list@).len() == list.len());
                if i < list.len() {
                    self.push(Frame::Arguments(list, i + 1));
                    self.push(Frame::Run(&list[i]));
                }
                Action::Continue
            },
            Frame::Discard => {
                self.pop_value();
                Action::Continue
            },
            Frame::Declare(name, declared_type) => {
                let value = self.pop_value();
                let found = value.kind();
                if found != declared_type {
                    self.wrong_kind(Operation::Declare, Kinds::Only(declared_type), found)
                } else {
                    self.env.declare(name.clone(), value);
                    self.push_value(Value::Void);
                    Action::Continue
                }
            },
            Frame::Store(name) => {
                let value = self.pop_value();
                if self.env.assign(name, value) {
                    self.push_value(Value::Void);
                    Action::Continue
                } else {
                    self.fail(RuntimeError::UndefinedVariable { name: name.clone() })
                }
            },
            Frame::Print => {
                let value = self.pop_value();
                match value {
                    Value::Void => self.wrong_kind(Operation::Print, Kinds::NotVoid, TypeName::Void),
                    Value::Float(bits) => {
                        self.push_value(Value::Void);
                        Action::PrintFloat(bits)
                    },
                    _ => {
                        self.push_value(Value::Void);
                        Action::Print(render(&value))
                    },
                }
            },
            Frame::Branch(then_block, else_block) => {
                let value = self.pop_value();
                match self.decide(&value) {
                    Ok(true) => {
                        self.open_scope();
                        self.push(Frame::Run(then_block));
                        Action::Continue
                    },
                    Ok(false) => {
                        match else_block {
                            Some(block) => {
                                self.open_scope();
                                self.push(Frame::Run(block));
                            },
                            None => {
                                self.push_value(Value::Void);
                            },
                        }
                        Action::Continue
                    },
                    Err(action) => action,
                }
            },
            Frame::Loop(condition, body) => {
                let value = self.pop_value();
                match self.decide(&value) {
                    Ok(true) => {
                        self.push(Frame::Loop(condition, body));
                        self.push(Frame::Run(condition));
                        self.open_scope();
                        self.push(Frame::Discard);
                        self.push(Frame::Run(body));
                        Action::Continue
                    },
                    Ok(false) => {
                        self.push_value(Value::Void);
                        Action::Continue
                    },
                    Err(action) => action,
                }
            },
            Frame::ForLoop(condition, update, body) => {
                let value = self.pop_value();
                match self.decide(&value) {
                    Ok(true) => {
                        self.push(Frame::ForLoop(condition, update, body));
                        self.push(Frame::Run(condition));
                        self.push(Frame::Discard);
                        self.push(Frame::Run(update));
                        self.push(Frame::Discard);
                        self.push(Frame::Run(body));
                        Action::Continue
                    },
                    Ok(false) => {
                        self.push_value(Value::Void);
                        Action::Continue
                    },
                    Err(action) => action,
                }
            },
            Frame::PopScope => {
                self.env.pop_scope();
                Action::Continue
            },
            Frame::ShortCircuit(op, right) => {
                let decided = match self.values.last() {
                    Some(Value::Bool(b)) => Ok(*b == (op == BinaryOperator::Or)),
                    Some(v) => Err(v.kind()),
                    None => Err(TypeName::Void),
                };
                assert(self@.values.len() == self.values.len());
                match decided {
                    Ok(true) => Action::Continue,
                    Ok(false) => {
                        self.push(Frame::Apply(op));
                        self.push(Frame::Run(right));
                        Action::Continue
                    },
                    Err(found) => self.wrong_kind(
                        Operation::Binary(op),
                        Kinds::Only(TypeName::Bool),
                        found,
                    ),
                }
            },
            Frame::Apply(op) => {
                let right = self.pop_value();
                let left = self.pop_value();
                self.settle(apply_binary(op, &left, &right))
            },
            Frame::ApplyUnary(op) => {
                let value = self.pop_value();
                self.settle(apply_unary(op, &value))
            },
            Frame::Invoke(params, body) => self.invoke(params, body),
            Frame::Boundary(depth, height) => {
                self.values.truncate(height);
                self.env.truncate(depth);
                assert(self@.values =~= keep(old(self)@.values, height as nat));
                self.push_value(Value::Void);
                Action::Continue
            },
            Frame::Unwind => {
                let value = self.pop_value();
                self.unwind(value)
            },
            Frame::Await(request) => self.answer(request, event),
        }
    }

    /// Does one step of the run. `event` is the answer to the request of the
    /// step before, where that step made one, and else is not looked at.
    pub fn step(&mut self, event: Event) -> (action: Action)
        ensures
            (final(self)@, action@) == step(old(self)@, event),
    {
        match self.frames.pop() {
            Some(frame) => {
                assert(self@.frames =~= old(self)@.frames.drop_last());
                assert(frame@ == old(self)@.frames.last());
                self.perform(frame, event)
            },
            None => Action::Finished,
        }
    }
}

} // verus!
