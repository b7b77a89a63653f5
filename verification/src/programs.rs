//! What some programs do, whatever the numbers and names in them.
//!
//! The semantics is put to work on small programs: one that declares a
//! variable and prints it, one that calls a function that adds, one that
//! counts in a loop, an operator whose left operand decides, and an
//! assignment to a name that is not bound.

use vstd::prelude::*;
use crate::ast::{BinaryOperator, NodeView, ParamView, TypeName};
use crate::environment::{
    assign, assigned_name_has_its_value, declare, declared_name_has_its_value, lemma_locate,
    locate, lookup, pop_scope, push_scope, truncate, BindingView, Scopes,
};
use crate::interpreter::executed;
use crate::machine::{
    argument, bind, find_function, first_mismatch, start, ActionView, Event, FunctionView,
};
use crate::operators::binary_outcome;
use crate::plain::{float_free, plain_program_runs_alone, texts};
use crate::refinement::context_of;
use crate::semantics::{
    call, eval, failed, gather, looping, normal, sequence, Completion, Context, Evaluated,
    Floats, Line,
};
use crate::source::{front_end, program_text, program_text_is_read_back, writable};
use crate::spelling::is_identifier;
use crate::text::decimal_text;
use crate::unparse::{is_expression, is_statement};
use crate::value::{RuntimeErrorView, ValueView};

verus! {

/// `x op y`.
pub open spec fn binary_node(op: BinaryOperator, x: NodeView, y: NodeView) -> NodeView {
    NodeView::BinaryOp { op, left: Box::new(x), right: Box::new(y) }
}

/// What an integer literal comes to.
proof fn lemma_int_literal(value: i64, context: Context, floats: Floats, fuel: nat)
    requires
        fuel > 0,
    ensures
        eval(NodeView::IntLiteral(value), context, floats, fuel) == normal(
            ValueView::Int(value),
            context,
            1,
        ),
{
}

/// What referring to a name comes to.
proof fn lemma_identifier(name: Seq<char>, context: Context, floats: Floats, fuel: nat)
    requires
        fuel > 0,
    ensures
        eval(NodeView::Identifier(name), context, floats, fuel) == (match lookup(
            context.scopes,
            name,
        ) {
            Some(v) => normal(v, context, 1),
            None => failed(RuntimeErrorView::UndefinedVariable { name }, context, 1),
        }),
{
}

/// What an operator other than `&&` and `||` comes to on two operands that
/// come to integers without writing anything or changing the context.
proof fn lemma_binary_on_integers(
    op: BinaryOperator,
    left: NodeView,
    right: NodeView,
    x: i64,
    y: i64,
    context: Context,
    floats: Floats,
    fuel: nat,
)
    requires
        fuel > 0,
        op != BinaryOperator::And && op != BinaryOperator::Or,
        eval(left, context, floats, (fuel - 1) as nat) == normal(ValueView::Int(x), context, 1),
        eval(right, context, floats, (fuel - 1) as nat) == normal(ValueView::Int(y), context, 1),
        binary_outcome(op, ValueView::Int(x), ValueView::Int(y)) is Value,
    ensures
        eval(binary_node(op, left, right), context, floats, fuel) == normal(
            binary_outcome(op, ValueView::Int(x), ValueView::Int(y))->Value_0,
            context,
            4,
        ),
{
    assert(Seq::<Line>::empty() + Seq::<Line>::empty() =~= Seq::<Line>::empty());
}

/// What is left of a sequence when all its statements have been run.
proof fn lemma_sequence_done(
    list: Seq<NodeView>,
    i: nat,
    context: Context,
    floats: Floats,
    fuel: nat,
)
    requires
        i >= list.len(),
    ensures
        sequence(list, i, context, floats, fuel) == normal(ValueView::Void, context, 1),
{
}

/// A statement of a sequence, and then the rest if it completed normally.
proof fn lemma_sequence_next(
    list: Seq<NodeView>,
    i: nat,
    context: Context,
    floats: Floats,
    fuel: nat,
)
    requires
        i < list.len(),
    ensures
        sequence(list, i, context, floats, fuel) == (if eval(
            list[i as int],
            context,
            floats,
            fuel,
        ).completion is Normal {
            eval(list[i as int], context, floats, fuel).and(
                sequence(
                    list,
                    i + 1,
                    eval(list[i as int], context, floats, fuel).context,
                    floats,
                    fuel,
                ),
            ).plus(2)
        } else {
            eval(list[i as int], context, floats, fuel).plus(1)
        }),
{
}

/// The program `name : int = value ; print ( name ) ;`.
pub open spec fn declare_and_print(name: Seq<char>, value: i64) -> NodeView {
    NodeView::Program(
        seq![
            NodeView::VarDecl {
                name,
                declared_type: TypeName::Int,
                initializer: Box::new(NodeView::IntLiteral(value)),
            },
            NodeView::Print { value: Box::new(NodeView::Identifier(name)) },
        ],
    )
}

/// What declaring an integer variable comes to.
proof fn lemma_declare_int(
    name: Seq<char>,
    value: i64,
    context: Context,
    floats: Floats,
    fuel: nat,
)
    requires
        fuel > 1,
    ensures
        eval(
            NodeView::VarDecl {
                name,
                declared_type: TypeName::Int,
                initializer: Box::new(NodeView::IntLiteral(value)),
            },
            context,
            floats,
            fuel,
        ) == normal(
            ValueView::Void,
            context.with_scopes(declare(context.scopes, name, ValueView::Int(value))),
            3,
        ),
{
    lemma_int_literal(value, context, floats, (fuel - 1) as nat);
    assert(Seq::<Line>::empty() + Seq::<Line>::empty() =~= Seq::<Line>::empty());
}

/// What printing a name that stands for an integer comes to.
proof fn lemma_print_int(
    name: Seq<char>,
    value: i64,
    context: Context,
    floats: Floats,
    fuel: nat,
)
    requires
        fuel > 1,
        lookup(context.scopes, name) == Some(ValueView::Int(value)),
    ensures
        eval(
            NodeView::Print { value: Box::new(NodeView::Identifier(name)) },
            context,
            floats,
            fuel,
        ) == (Evaluated {
            completion: Completion::Normal(ValueView::Void),
            context,
            lines: seq![Line::Text(decimal_text(value as int))],
            steps: 3,
        }),
{
    lemma_identifier(name, context, floats, (fuel - 1) as nat);
    let line = Line::Text(decimal_text(value as int));
    assert(Seq::<Line>::empty() + seq![line] =~= seq![line]);
}

/// A declared variable prints its value: in whatever scopes, the program
/// `name : int = value ; print ( name ) ;` completes normally, having
/// written the one line that is `value` in decimal.
pub proof fn declared_variable_prints_its_value(
    name: Seq<char>,
    value: i64,
    context: Context,
    floats: Floats,
    fuel: nat,
)
    requires
        fuel > 2,
    ensures
        eval(declare_and_print(name, value), context, floats, fuel).completion
            == Completion::Normal(ValueView::Void),
        eval(declare_and_print(name, value), context, floats, fuel).lines == seq![
            Line::Text(decimal_text(value as int)),
        ],
{
    let less = (fuel - 1) as nat;
    let first = NodeView::VarDecl {
        name,
        declared_type: TypeName::Int,
        initializer: Box::new(NodeView::IntLiteral(value)),
    };
    let second = NodeView::Print { value: Box::new(NodeView::Identifier(name)) };
    let list = seq![first, second];
    let declared = context.with_scopes(declare(context.scopes, name, ValueView::Int(value)));
    let line = Line::Text(decimal_text(value as int));
    lemma_declare_int(name, value, context, floats, less);
    declared_name_has_its_value(context.scopes, name, ValueView::Int(value), name);
    lemma_print_int(name, value, declared, floats, less);
    lemma_sequence_next(list, 0, context, floats, less);
    lemma_sequence_next(list, 1, declared, floats, less);
    lemma_sequence_done(list, 2, declared, floats, less);
    assert(seq![line] + Seq::<Line>::empty() =~= seq![line]);
    assert(Seq::<Line>::empty() + seq![line] =~= seq![line]);
}

/// A name stands in a new scope for what it stood for outside.
pub proof fn lemma_lookup_entered(scopes: Scopes, name: Seq<char>)
    ensures
        lookup(push_scope(scopes), name) == lookup(scopes, name),
{
    let entered = push_scope(scopes);
    assert(entered.drop_last() =~= scopes);
    assert(entered.last() =~= Seq::<BindingView>::empty());
    lemma_locate(scopes, name);
}

/// Declaring a name changes no scope but the innermost.
pub proof fn lemma_declare_inside(scopes: Scopes, name: Seq<char>, value: ValueView)
    requires
        scopes.len() > 0,
    ensures
        declare(scopes, name, value).len() == scopes.len(),
        declare(scopes, name, value).drop_last() == scopes.drop_last(),
{
    assert(declare(scopes, name, value).drop_last() =~= scopes.drop_last());
}

/// What the arguments of a call come to when all have been evaluated.
proof fn lemma_gather_done(
    list: Seq<NodeView>,
    i: nat,
    context: Context,
    floats: Floats,
    fuel: nat,
)
    requires
        i >= list.len(),
    ensures
        gather(list, i, context, floats, fuel) == (
            Seq::<ValueView>::empty(),
            normal(ValueView::Void, context, 1),
        ),
{
}

/// An argument that comes to a value without writing anything or changing
/// the context, and then the rest.
proof fn lemma_gather_next(
    list: Seq<NodeView>,
    i: nat,
    v: ValueView,
    context: Context,
    floats: Floats,
    fuel: nat,
)
    requires
        i < list.len(),
        eval(list[i as int], context, floats, fuel) == normal(v, context, 1),
    ensures
        gather(list, i, context, floats, fuel).0 == seq![v] + gather(
            list,
            i + 1,
            context,
            floats,
            fuel,
        ).0,
        gather(list, i, context, floats, fuel).1 == normal(v, context, 1).and(
            gather(list, i + 1, context, floats, fuel).1,
        ).plus(1),
{
}

/// The function `name : void ( a : int , b : int ) { return a + b ; }`.
pub open spec fn adder(name: Seq<char>, a: Seq<char>, b: Seq<char>) -> FunctionView {
    FunctionView {
        name,
        params: seq![
            ParamView { name: a, declared_type: TypeName::Int },
            ParamView { name: b, declared_type: TypeName::Int },
        ],
        body: NodeView::Block(
            seq![
                NodeView::Return {
                    value: Box::new(
                        binary_node(
                            BinaryOperator::Add,
                            NodeView::Identifier(a),
                            NodeView::Identifier(b),
                        ),
                    ),
                },
            ],
        ),
    }
}

/// The call `name ( x , y )`.
pub open spec fn call_with(name: Seq<char>, x: i64, y: i64) -> NodeView {
    NodeView::Call { name, args: seq![NodeView::IntLiteral(x), NodeView::IntLiteral(y)] }
}

/// The scopes in which the body of [`adder`] runs when it is called with
/// `x` and `y`.
pub open spec fn adder_scopes(scopes: Scopes, a: Seq<char>, b: Seq<char>, x: i64, y: i64) -> Scopes {
    declare(declare(push_scope(scopes), a, ValueView::Int(x)), b, ValueView::Int(y))
}

/// Two integers fit two parameters of type `int`, and are bound to them in
/// order.
proof fn lemma_adder_arguments(scopes: Scopes, a: Seq<char>, b: Seq<char>, x: i64, y: i64)
    ensures
        first_mismatch(
            adder(Seq::empty(), a, b).params,
            seq![ValueView::Int(x), ValueView::Int(y)],
            0,
        ) is None,
        bind(
            push_scope(scopes),
            adder(Seq::empty(), a, b).params,
            seq![ValueView::Int(x), ValueView::Int(y)],
            0,
        ) == adder_scopes(scopes, a, b, x, y),
{
    let params = adder(Seq::empty(), a, b).params;
    let args = seq![ValueView::Int(x), ValueView::Int(y)];
    assert(argument(args, 2, 0) == ValueView::Int(x));
    assert(argument(args, 2, 1) == ValueView::Int(y));
    assert(first_mismatch(params, args, 2) is None);
    assert(first_mismatch(params, args, 1) is None);
    let one = declare(push_scope(scopes), a, ValueView::Int(x));
    let two = declare(one, b, ValueView::Int(y));
    assert(bind(two, params, args, 2) == two);
    assert(bind(one, params, args, 1) == two);
}

/// What the body of [`adder`] comes to in the scopes of a call with `x` and
/// `y`: a `return` of their sum.
proof fn lemma_adder_body(
    name: Seq<char>,
    a: Seq<char>,
    b: Seq<char>,
    x: i64,
    y: i64,
    context: Context,
    floats: Floats,
    fuel: nat,
)
    requires
        a != b,
        fuel > 3,
    ensures
        ({
            let inner = context.with_scopes(adder_scopes(context.scopes, a, b, x, y));
            let e = eval(adder(name, a, b).body, inner, floats, fuel);
            &&& e.completion == Completion::Return(ValueView::Int(x.wrapping_add(y)))
            &&& e.context == inner.enter()
            &&& e.lines == Seq::<Line>::empty()
        }),
{
    let inner = context.with_scopes(adder_scopes(context.scopes, a, b, x, y));
    let inside = inner.enter();
    let sum = binary_node(BinaryOperator::Add, NodeView::Identifier(a), NodeView::Identifier(b));
    let statement = NodeView::Return { value: Box::new(sum) };
    let list = seq![statement];
    let one = declare(push_scope(context.scopes), a, ValueView::Int(x));
    declared_name_has_its_value(push_scope(context.scopes), a, ValueView::Int(x), a);
    declared_name_has_its_value(one, b, ValueView::Int(y), a);
    declared_name_has_its_value(one, b, ValueView::Int(y), b);
    lemma_lookup_entered(inner.scopes, a);
    lemma_lookup_entered(inner.scopes, b);
    lemma_identifier(a, inside, floats, (fuel - 3) as nat);
    lemma_identifier(b, inside, floats, (fuel - 3) as nat);
    lemma_binary_on_integers(
        BinaryOperator::Add,
        NodeView::Identifier(a),
        NodeView::Identifier(b),
        x,
        y,
        inside,
        floats,
        (fuel - 2) as nat,
    );
    lemma_return_of(sum, ValueView::Int(x.wrapping_add(y)), inside, floats, (fuel - 1) as nat);
    lemma_sequence_next(list, 0, inside, floats, (fuel - 1) as nat);
}

/// What returning an expression comes to that comes to a value without
/// writing anything or changing the context.
proof fn lemma_return_of(
    value: NodeView,
    v: ValueView,
    context: Context,
    floats: Floats,
    fuel: nat,
)
    requires
        fuel > 0,
        eval(value, context, floats, (fuel - 1) as nat).completion == Completion::Normal(v),
        eval(value, context, floats, (fuel - 1) as nat).context == context,
        eval(value, context, floats, (fuel - 1) as nat).lines == Seq::<Line>::empty(),
    ensures
        eval(NodeView::Return { value: Box::new(value) }, context, floats, fuel).completion
            == Completion::Return(v),
        eval(NodeView::Return { value: Box::new(value) }, context, floats, fuel).context
            == context,
        eval(NodeView::Return { value: Box::new(value) }, context, floats, fuel).lines
            == Seq::<Line>::empty(),
{
}

/// A call of a function that adds yields the sum: where `name` stands for
/// the function `name : void ( a : int , b : int ) { return a + b ; }`, the
/// call `name ( x , y )` completes with the sum of `x` and `y`, wrapped
/// around at 64 bits, and leaves the scopes and the functions as they were.
pub proof fn call_of_adder_yields_sum(
    name: Seq<char>,
    a: Seq<char>,
    b: Seq<char>,
    x: i64,
    y: i64,
    context: Context,
    floats: Floats,
    fuel: nat,
)
    requires
        a != b,
        context.scopes.len() > 0,
        find_function(context.functions, name) == Some(adder(name, a, b)),
        fuel > 4,
    ensures
        eval(call_with(name, x, y), context, floats, fuel).completion == Completion::Normal(
            ValueView::Int(x.wrapping_add(y)),
        ),
        eval(call_with(name, x, y), context, floats, fuel).context == context,
        eval(call_with(name, x, y), context, floats, fuel).lines == Seq::<Line>::empty(),
{
    let less = (fuel - 1) as nat;
    let args = seq![NodeView::IntLiteral(x), NodeView::IntLiteral(y)];
    let values = seq![ValueView::Int(x), ValueView::Int(y)];
    let f = adder(name, a, b);
    let none = Seq::<Line>::empty();
    lemma_int_literal(x, context, floats, less);
    lemma_int_literal(y, context, floats, less);
    lemma_gather_next(args, 0, ValueView::Int(x), context, floats, less);
    lemma_gather_next(args, 1, ValueView::Int(y), context, floats, less);
    lemma_gather_done(args, 2, context, floats, less);
    assert(none + none =~= none);
    let (gathered, g) = gather(args, 0, context, floats, less);
    assert(gathered =~= values);
    assert(g.completion is Normal && g.context == context && g.lines == none);
    lemma_adder_arguments(context.scopes, a, b, x, y);
    lemma_adder_body(name, a, b, x, y, context, floats, less);
    let entered = push_scope(context.scopes);
    let one = declare(entered, a, ValueView::Int(x));
    let two = adder_scopes(context.scopes, a, b, x, y);
    lemma_declare_inside(entered, a, ValueView::Int(x));
    lemma_declare_inside(one, b, ValueView::Int(y));
    assert(entered.drop_last() =~= context.scopes);
    assert(truncate(push_scope(two), context.scopes.len()) =~= two.drop_last());
    let called = call(f.params, f.body, values, context, floats, less);
    assert(called.completion == Completion::Normal(ValueView::Int(x.wrapping_add(y))));
    assert(called.context == context);
}

/// Assigning in a new scope to a name that is bound outside assigns
/// outside.
pub proof fn lemma_assign_entered(scopes: Scopes, name: Seq<char>, value: ValueView)
    requires
        assign(scopes, name, value) is Some,
    ensures
        assign(push_scope(scopes), name, value) == Some(
            push_scope(assign(scopes, name, value)->Some_0),
        ),
{
    let entered = push_scope(scopes);
    assert(entered.drop_last() =~= scopes);
    assert(entered.last() =~= Seq::<BindingView>::empty());
    lemma_locate(scopes, name);
    match locate(scopes, name) {
        Some((i, j)) => {
            let binding = BindingView { name, value };
            assert(entered.update(i, entered[i].update(j, binding)) =~= push_scope(
                scopes.update(i, scopes[i].update(j, binding)),
            ));
        },
        None => {},
    }
}

/// A `while` loop, said by one turn of it.
proof fn lemma_looping_unfolded(
    condition: NodeView,
    body: NodeView,
    context: Context,
    floats: Floats,
    fuel: nat,
)
    requires
        fuel > 0,
        eval(condition, context, floats, (fuel - 1) as nat).context == context,
        eval(condition, context, floats, (fuel - 1) as nat).lines == Seq::<Line>::empty(),
    ensures
        eval(condition, context, floats, (fuel - 1) as nat).completion == Completion::Normal(
            ValueView::Bool(false),
        ) ==> {
            let l = looping(condition, body, context, floats, fuel);
            &&& l.completion == Completion::Normal(ValueView::Void)
            &&& l.context == context
            &&& l.lines == Seq::<Line>::empty()
        },
        eval(condition, context, floats, (fuel - 1) as nat).completion == Completion::Normal(
            ValueView::Bool(true),
        ) && eval(body, context.enter(), floats, (fuel - 1) as nat).completion is Normal ==> {
            let b = eval(body, context.enter(), floats, (fuel - 1) as nat);
            let rest = looping(condition, body, b.context.leave(), floats, (fuel - 1) as nat);
            let l = looping(condition, body, context, floats, fuel);
            &&& l.completion == rest.completion
            &&& l.context == rest.context
            &&& l.lines == b.lines + rest.lines
        },
{
    let c = eval(condition, context, floats, (fuel - 1) as nat);
    let b = eval(body, context.enter(), floats, (fuel - 1) as nat);
    let rest = looping(condition, body, b.context.leave(), floats, (fuel - 1) as nat);
    assert(c.lines + Seq::<Line>::empty() =~= Seq::<Line>::empty());
    assert((c.lines + b.lines) + rest.lines =~= b.lines + rest.lines);
}

/// A block, said by its statements.
proof fn lemma_block_unfolded(list: Seq<NodeView>, context: Context, floats: Floats, fuel: nat)
    requires
        fuel > 0,
    ensures
        eval(NodeView::Block(list), context, floats, fuel) == sequence(
            list,
            0,
            context.enter(),
            floats,
            (fuel - 1) as nat,
        ).scoped().plus(1),
{
}

/// What assigning an expression to a bound name comes to, where the
/// expression comes to a value without writing anything or changing the
/// context.
proof fn lemma_assign_of(
    name: Seq<char>,
    value: NodeView,
    v: ValueView,
    context: Context,
    floats: Floats,
    fuel: nat,
)
    requires
        fuel > 0,
        eval(value, context, floats, (fuel - 1) as nat).completion == Completion::Normal(v),
        eval(value, context, floats, (fuel - 1) as nat).context == context,
        eval(value, context, floats, (fuel - 1) as nat).lines == Seq::<Line>::empty(),
        assign(context.scopes, name, v) is Some,
    ensures
        ({
            let e = eval(NodeView::Assign { name, value: Box::new(value) }, context, floats, fuel);
            &&& e.completion == Completion::Normal(ValueView::Void)
            &&& e.context == context.with_scopes(assign(context.scopes, name, v)->Some_0)
            &&& e.lines == Seq::<Line>::empty()
        }),
{
    assert(Seq::<Line>::empty() + Seq::<Line>::empty() =~= Seq::<Line>::empty());
}

/// The condition `name < bound`.
pub open spec fn below_bound(name: Seq<char>, bound: i64) -> NodeView {
    binary_node(BinaryOperator::Less, NodeView::Identifier(name), NodeView::IntLiteral(bound))
}

/// The block `{ print ( name ) ; name = name + 1 ; }`.
pub open spec fn print_and_count(name: Seq<char>) -> NodeView {
    NodeView::Block(
        seq![
            NodeView::Print { value: Box::new(NodeView::Identifier(name)) },
            NodeView::Assign {
                name,
                value: Box::new(
                    binary_node(
                        BinaryOperator::Add,
                        NodeView::Identifier(name),
                        NodeView::IntLiteral(1),
                    ),
                ),
            },
        ],
    )
}

/// The lines that write the integers from `from` up to but not including
/// `to`, in order.
pub open spec fn counted(from: int, to: int) -> Seq<Line>
    decreases to - from,
{
    if from >= to {
        Seq::empty()
    } else {
        seq![Line::Text(decimal_text(from))] + counted(from + 1, to)
    }
}

/// What the condition `name < bound` comes to where `name` stands for `k`.
proof fn lemma_below_bound(
    name: Seq<char>,
    k: i64,
    bound: i64,
    context: Context,
    floats: Floats,
    fuel: nat,
)
    requires
        fuel > 1,
        lookup(context.scopes, name) == Some(ValueView::Int(k)),
    ensures
        eval(below_bound(name, bound), context, floats, fuel) == normal(
            ValueView::Bool(k < bound),
            context,
            4,
        ),
{
    lemma_identifier(name, context, floats, (fuel - 1) as nat);
    lemma_int_literal(bound, context, floats, (fuel - 1) as nat);
    lemma_binary_on_integers(
        BinaryOperator::Less,
        NodeView::Identifier(name),
        NodeView::IntLiteral(bound),
        k,
        bound,
        context,
        floats,
        fuel,
    );
}

/// What the block `{ print ( name ) ; name = name + 1 ; }` comes to where
/// `name` stands for `k`: it writes `k`, and `name` then stands for `k + 1`.
proof fn lemma_print_and_count(
    name: Seq<char>,
    k: i64,
    context: Context,
    floats: Floats,
    fuel: nat,
)
    requires
        fuel > 4,
        k < i64::MAX,
        lookup(context.scopes, name) == Some(ValueView::Int(k)),
    ensures
        ({
            let e = eval(print_and_count(name), context, floats, fuel);
            let next = ValueView::Int((k + 1) as i64);
            &&& assign(context.scopes, name, next) is Some
            &&& e.completion == Completion::Normal(ValueView::Void)
            &&& e.context == context.with_scopes(assign(context.scopes, name, next)->Some_0)
            &&& e.lines == seq![Line::Text(decimal_text(k as int))]
        }),
{
    let inside = context.enter();
    let next = ValueView::Int((k + 1) as i64);
    let line = Line::Text(decimal_text(k as int));
    let print = NodeView::Print { value: Box::new(NodeView::Identifier(name)) };
    let sum = binary_node(BinaryOperator::Add, NodeView::Identifier(name), NodeView::IntLiteral(1));
    let count = NodeView::Assign { name, value: Box::new(sum) };
    let list = seq![print, count];
    let less = (fuel - 1) as nat;
    lemma_lookup_entered(context.scopes, name);
    assigned_name_has_its_value(context.scopes, name, next, name);
    lemma_assign_entered(context.scopes, name, next);
    let after = context.with_scopes(assign(context.scopes, name, next)->Some_0);
    lemma_print_int(name, k, inside, floats, less);
    lemma_identifier(name, inside, floats, (less - 2) as nat);
    lemma_int_literal(1, inside, floats, (less - 2) as nat);
    lemma_binary_on_integers(
        BinaryOperator::Add,
        NodeView::Identifier(name),
        NodeView::IntLiteral(1),
        k,
        1,
        inside,
        floats,
        (less - 1) as nat,
    );
    assert(k.wrapping_add(1) == (k + 1) as i64);
    lemma_assign_of(name, sum, next, inside, floats, less);
    lemma_sequence_next(list, 0, inside, floats, less);
    lemma_sequence_next(list, 1, inside, floats, less);
    lemma_sequence_done(list, 2, after.enter(), floats, less);
    lemma_block_unfolded(list, context, floats, fuel);
    assert(seq![line] + (Seq::<Line>::empty() + Seq::<Line>::empty()) =~= seq![line]);
    assert(pop_scope(push_scope(after.scopes)) =~= after.scopes);
}

/// A loop that counts: where `name` stands for `k`, not above `bound`, the
/// loop `while ( name < bound ) { print ( name ) ; name = name + 1 ; }`
/// writes the integers from `k` up to but not including `bound`, in
/// order, and completes, given fuel for as many turns; `name` then stands
/// for `bound`.
pub proof fn counting_loop_counts(
    name: Seq<char>,
    k: i64,
    bound: i64,
    context: Context,
    floats: Floats,
    fuel: nat,
)
    requires
        k <= bound,
        lookup(context.scopes, name) == Some(ValueView::Int(k)),
        fuel > bound - k + 5,
    ensures
        ({
            let l = looping(below_bound(name, bound), print_and_count(name), context, floats, fuel);
            &&& l.completion == Completion::Normal(ValueView::Void)
            &&& l.lines == counted(k as int, bound as int)
            &&& lookup(l.context.scopes, name) == Some(ValueView::Int(bound))
            &&& l.context.functions == context.functions
        }),
    decreases bound - k,
{
    let condition = below_bound(name, bound);
    let body = print_and_count(name);
    let less = (fuel - 1) as nat;
    lemma_below_bound(name, k, bound, context, floats, less);
    lemma_looping_unfolded(condition, body, context, floats, fuel);
    if k < bound {
        let next = ValueView::Int((k + 1) as i64);
        lemma_lookup_entered(context.scopes, name);
        lemma_print_and_count(name, k, context.enter(), floats, less);
        assigned_name_has_its_value(context.scopes, name, next, name);
        lemma_assign_entered(context.scopes, name, next);
        let after = context.with_scopes(assign(context.scopes, name, next)->Some_0);
        let b = eval(body, context.enter(), floats, less);
        assert(b.context.leave().scopes =~= after.scopes);
        assert(b.context.leave() == after);
        counting_loop_counts(name, (k + 1) as i64, bound, after, floats, less);
    }
}

/// The program
/// `name : int = 0 ; while ( name < bound ) { print ( name ) ; name = name + 1 ; }`.
pub open spec fn count_up(name: Seq<char>, bound: i64) -> NodeView {
    NodeView::Program(
        seq![
            NodeView::VarDecl {
                name,
                declared_type: TypeName::Int,
                initializer: Box::new(NodeView::IntLiteral(0)),
            },
            NodeView::While {
                condition: Box::new(below_bound(name, bound)),
                body: Box::new(print_and_count(name)),
            },
        ],
    )
}

/// A `while` statement is its loop.
proof fn lemma_while_unfolded(
    condition: NodeView,
    body: NodeView,
    context: Context,
    floats: Floats,
    fuel: nat,
)
    requires
        fuel > 0,
    ensures
        eval(
            NodeView::While { condition: Box::new(condition), body: Box::new(body) },
            context,
            floats,
            fuel,
        ) == looping(condition, body, context, floats, (fuel - 1) as nat).plus(1),
{
}

/// A program is its statements.
proof fn lemma_program_unfolded(list: Seq<NodeView>, context: Context, floats: Floats, fuel: nat)
    requires
        fuel > 0,
    ensures
        eval(NodeView::Program(list), context, floats, fuel) == sequence(
            list,
            0,
            context,
            floats,
            (fuel - 1) as nat,
        ).plus(1),
{
}

/// Counting up terminates and writes the numbers in order: for every
/// `bound` that is not negative, the program [`count_up`] completes, given
/// fuel for as many turns, having written the integers from 0 up to but not
/// including `bound`.
pub proof fn count_up_writes_the_numbers(
    name: Seq<char>,
    bound: i64,
    context: Context,
    floats: Floats,
    fuel: nat,
)
    requires
        bound >= 0,
        fuel > bound + 7,
    ensures
        eval(count_up(name, bound), context, floats, fuel).completion == Completion::Normal(
            ValueView::Void,
        ),
        eval(count_up(name, bound), context, floats, fuel).lines == counted(0, bound as int),
{
    let less = (fuel - 1) as nat;
    let first = NodeView::VarDecl {
        name,
        declared_type: TypeName::Int,
        initializer: Box::new(NodeView::IntLiteral(0)),
    };
    let condition = below_bound(name, bound);
    let body = print_and_count(name);
    let second = NodeView::While { condition: Box::new(condition), body: Box::new(body) };
    let list = seq![first, second];
    let declared = context.with_scopes(declare(context.scopes, name, ValueView::Int(0)));
    lemma_program_unfolded(list, context, floats, fuel);
    lemma_declare_int(name, 0, context, floats, less);
    declared_name_has_its_value(context.scopes, name, ValueView::Int(0), name);
    lemma_while_unfolded(condition, body, declared, floats, less);
    counting_loop_counts(name, 0, bound, declared, floats, (less - 1) as nat);
    let looped = eval(second, declared, floats, less);
    lemma_sequence_next(list, 0, context, floats, less);
    lemma_sequence_next(list, 1, declared, floats, less);
    lemma_sequence_done(list, 2, looped.context, floats, less);
    assert(Seq::<Line>::empty() + (looped.lines + Seq::<Line>::empty()) =~= looped.lines);
}

/// A variable that is declared and printed, from text to output: for
/// every name that an identifier can have and every `value` that is not
/// negative, the text of the program `name : int = value ; print ( name ) ;`
/// is read as that program, and the program, run without a driver, writes
/// the one line that is `value` in decimal and finishes.
pub proof fn declare_and_print_from_text(name: Seq<char>, value: i64, floats: Floats)
    requires
        is_identifier(name),
        value >= 0,
    ensures
        ({
            let tree = declare_and_print(name, value);
            let e = eval(tree, context_of(start(tree)), floats, 3);
            &&& front_end(program_text(tree->Program_0)) == Some(tree)
            &&& executed(start(tree), Event::Resume, e.steps + 1).1 == seq![
                decimal_text(value as int),
            ]
            &&& executed(start(tree), Event::Resume, e.steps + 1).2 == ActionView::Finished
        }),
{
    let tree = declare_and_print(name, value);
    let first = NodeView::VarDecl {
        name,
        declared_type: TypeName::Int,
        initializer: Box::new(NodeView::IntLiteral(value)),
    };
    let second = NodeView::Print { value: Box::new(NodeView::Identifier(name)) };
    let list = seq![first, second];
    assert(is_expression(NodeView::IntLiteral(value)) && writable(NodeView::IntLiteral(value)));
    assert(float_free(NodeView::IntLiteral(value)));
    assert(is_expression(NodeView::Identifier(name)) && writable(NodeView::Identifier(name)));
    assert(is_statement(first) && writable(first) && float_free(first));
    assert(float_free(NodeView::Identifier(name)));
    assert(is_statement(second) && writable(second) && float_free(second));
    program_text_is_read_back(list);
    assert(float_free(tree));
    declared_variable_prints_its_value(name, value, context_of(start(tree)), floats, 3);
    plain_program_runs_alone(tree, floats, 3);
    let e = eval(tree, context_of(start(tree)), floats, 3);
    let ran = executed(start(tree), Event::Resume, e.steps + 1);
    assert(texts(ran.1).len() == 1);
    assert(texts(ran.1)[0] == Line::Text(ran.1[0]));
    assert(ran.1 =~= seq![decimal_text(value as int)]);
}

/// What a boolean literal comes to.
proof fn lemma_bool_literal(value: bool, context: Context, floats: Floats, fuel: nat)
    requires
        fuel > 0,
    ensures
        eval(NodeView::BoolLiteral(value), context, floats, fuel) == normal(
            ValueView::Bool(value),
            context,
            1,
        ),
{
}

/// Where the left operand decides, the right one is not evaluated:
/// `false && x` is `false` and `true || x` is `true` whatever `x` is, be it
/// an error or a loop without end.
pub proof fn decided_operator_ignores_right_operand(
    op: BinaryOperator,
    left: bool,
    right: NodeView,
    context: Context,
    floats: Floats,
    fuel: nat,
)
    requires
        (op == BinaryOperator::And && !left) || (op == BinaryOperator::Or && left),
        fuel > 1,
    ensures
        eval(binary_node(op, NodeView::BoolLiteral(left), right), context, floats, fuel) == normal(
            ValueView::Bool(left),
            context,
            3,
        ),
{
    lemma_bool_literal(left, context, floats, (fuel - 1) as nat);
}

/// Assigning to a name that no scope binds is an error: `name = value ;`
/// aborts the run with `UndefinedVariable` of that name.
pub proof fn assignment_to_unbound_name_is_an_error(
    name: Seq<char>,
    value: i64,
    context: Context,
    floats: Floats,
    fuel: nat,
)
    requires
        lookup(context.scopes, name) is None,
        fuel > 1,
    ensures
        eval(
            NodeView::Assign { name, value: Box::new(NodeView::IntLiteral(value)) },
            context,
            floats,
            fuel,
        ).completion == Completion::Error(RuntimeErrorView::UndefinedVariable { name }),
{
    lemma_int_literal(value, context, floats, (fuel - 1) as nat);
    assigned_name_has_its_value(context.scopes, name, ValueView::Int(value), name);
}

/// A name that no scope binds stands for nothing: referring to it aborts
/// the run with `UndefinedVariable` of that name.
pub proof fn unbound_name_is_undefined(
    name: Seq<char>,
    context: Context,
    floats: Floats,
    fuel: nat,
)
    requires
        lookup(context.scopes, name) is None,
        fuel > 0,
    ensures
        eval(NodeView::Identifier(name), context, floats, fuel) == failed(
            RuntimeErrorView::UndefinedVariable { name },
            context,
            1,
        ),
{
}

} // verus!
