//! The environment of a run: a stack of scopes, each binding names to
//! values.
//!
//! A name is looked up from the innermost scope outward and the first scope
//! that binds it answers. A scope binds a name at most once: declaring a name
//! again in the same scope replaces its value.

use vstd::prelude::*;
use crate::text::same_text;
use crate::value::{Value, ValueView};

verus! {

/// One name and the value bound to it.
pub struct Binding {
    name: String,
    value: Value,
}

/// The mathematical value of a [`Binding`].
pub ghost struct BindingView {
    pub name: Seq<char>,
    pub value: ValueView,
}

impl View for Binding {
    type V = BindingView;

    closed spec fn view(&self) -> BindingView {
        BindingView { name: self.name@, value: self.value@ }
    }
}

/// A scope: its bindings.
pub type Scope = Seq<BindingView>;

/// A stack of scopes, the innermost last.
pub type Scopes = Seq<Seq<BindingView>>;

/// The bindings of a scope, one by one.
pub open spec fn scope_view(scope: Seq<Binding>) -> Scope {
    Seq::new(scope.len(), |j: int| scope[j]@)
}

/// The scopes of a stack, one by one.
pub open spec fn scopes_view(scopes: Seq<Vec<Binding>>) -> Scopes {
    Seq::new(scopes.len(), |i: int| scope_view(scopes[i]@))
}

/// Where `scope` binds `name`, if it does.
pub open spec fn position_in(scope: Scope, name: Seq<char>) -> Option<int>
    decreases scope.len(),
{
    if scope.len() == 0 {
        None
    } else if scope.last().name == name {
        Some(scope.len() - 1)
    } else {
        position_in(scope.drop_last(), name)
    }
}

/// The innermost scope that binds `name`, and where in it, if any does.
pub open spec fn locate(scopes: Scopes, name: Seq<char>) -> Option<(int, int)>
    decreases scopes.len(),
{
    if scopes.len() == 0 {
        None
    } else {
        match position_in(scopes.last(), name) {
            Some(j) => Some((scopes.len() - 1, j)),
            None => locate(scopes.drop_last(), name),
        }
    }
}

/// The value that `name` stands for: that of its innermost binding.
pub open spec fn lookup(scopes: Scopes, name: Seq<char>) -> Option<ValueView> {
    match locate(scopes, name) {
        Some((i, j)) => Some(scopes[i][j].value),
        None => None,
    }
}

/// The scopes after `name = value`: the innermost binding of `name` holds
/// `value`, in the scope where it was found. Without a binding there is no
/// assignment.
pub open spec fn assign(scopes: Scopes, name: Seq<char>, value: ValueView) -> Option<Scopes> {
    match locate(scopes, name) {
        Some((i, j)) => Some(scopes.update(i, scopes[i].update(j, BindingView { name, value }))),
        None => None,
    }
}

/// The scopes after declaring `name` with `value`: the innermost scope binds
/// `name` to `value`, and the outer scopes are as they were.
pub open spec fn declare(scopes: Scopes, name: Seq<char>, value: ValueView) -> Scopes {
    let binding = BindingView { name, value };
    if scopes.len() == 0 {
        seq![seq![binding]]
    } else {
        let top = scopes.last();
        let bound = match position_in(top, name) {
            Some(j) => top.update(j, binding),
            None => top.push(binding),
        };
        scopes.update(scopes.len() - 1, bound)
    }
}

/// The scopes with a new, empty innermost scope.
pub open spec fn push_scope(scopes: Scopes) -> Scopes {
    scopes.push(Seq::empty())
}

/// The scopes without the innermost one.
pub open spec fn pop_scope(scopes: Scopes) -> Scopes {
    if scopes.len() > 0 {
        scopes.drop_last()
    } else {
        scopes
    }
}

/// The outermost `depth` scopes; all of them if there are no more.
pub open spec fn truncate(scopes: Scopes, depth: nat) -> Scopes {
    if depth < scopes.len() {
        scopes.take(depth as int)
    } else {
        scopes
    }
}

/// Where a scope binds a name, the binding is in the scope and has that name.
pub proof fn lemma_position_in(scope: Scope, name: Seq<char>)
    ensures
        position_in(scope, name) matches Some(j) ==> 0 <= j < scope.len() && scope[j].name
            == name,
        position_in(scope, name) is None ==> forall|j: int|
            0 <= j < scope.len() ==> (#[trigger] scope[j]).name != name,
    decreases scope.len(),
{
    if scope.len() > 0 && scope.last().name != name {
        let rest = scope.drop_last();
        lemma_position_in(rest, name);
        if position_in(scope, name) is None {
            assert forall|j: int| 0 <= j < scope.len() implies (#[trigger] scope[j]).name
                != name by {
                if j < rest.len() {
                    assert(rest[j] == scope[j]);
                }
            }
        }
    }
}

/// Where a name is located, there is a binding of that name.
pub proof fn lemma_locate(scopes: Scopes, name: Seq<char>)
    ensures
        locate(scopes, name) matches Some((i, j)) ==> 0 <= i < scopes.len() && 0 <= j
            < scopes[i].len() && scopes[i][j].name == name,
    decreases scopes.len(),
{
    if scopes.len() > 0 {
        lemma_position_in(scopes.last(), name);
        if position_in(scopes.last(), name) is None {
            lemma_locate(scopes.drop_last(), name);
        }
    }
}

/// A scope ends with what was declared in it: a name declared in the
/// innermost scope stands, once that scope is gone, for what it stood for
/// outside of it, or for nothing.
pub proof fn declaration_ends_with_its_scope(scopes: Scopes, name: Seq<char>, value: ValueView)
    requires
        scopes.len() > 0,
    ensures
        pop_scope(declare(scopes, name, value)) == pop_scope(scopes),
        lookup(pop_scope(declare(scopes, name, value)), name) == lookup(pop_scope(scopes), name),
        pop_scope(declare(push_scope(scopes), name, value)) == scopes,
{
    assert(pop_scope(declare(scopes, name, value)) =~= pop_scope(scopes));
    assert(pop_scope(declare(push_scope(scopes), name, value)) =~= scopes);
}

/// Where a scope with one more binding binds a name: at the new binding if
/// that has the name, else where it bound it before.
pub proof fn lemma_position_pushed(scope: Scope, binding: BindingView, name: Seq<char>)
    ensures
        position_in(scope.push(binding), name) == (if binding.name == name {
            Some(scope.len() as int)
        } else {
            position_in(scope, name)
        }),
{
    assert(scope.push(binding).drop_last() =~= scope);
}

/// Replacing a binding by one of the same name does not change where the
/// scope binds which name.
pub proof fn lemma_position_updated(scope: Scope, j: int, binding: BindingView, name: Seq<char>)
    requires
        0 <= j < scope.len(),
        scope[j].name == binding.name,
    ensures
        position_in(scope.update(j, binding), name) == position_in(scope, name),
    decreases scope.len(),
{
    let updated = scope.update(j, binding);
    if j == scope.len() - 1 {
        assert(updated.drop_last() =~= scope.drop_last());
    } else {
        assert(updated.drop_last() =~= scope.drop_last().update(j, binding));
        lemma_position_updated(scope.drop_last(), j, binding, name);
    }
}

/// Replacing one scope by one that binds `name` where the old one did does
/// not change where `name` is located.
pub proof fn lemma_locate_updated(scopes: Scopes, i: int, scope: Scope, name: Seq<char>)
    requires
        0 <= i < scopes.len(),
        position_in(scope, name) == position_in(scopes[i], name),
    ensures
        locate(scopes.update(i, scope), name) == locate(scopes, name),
    decreases scopes.len(),
{
    let updated = scopes.update(i, scope);
    if i == scopes.len() - 1 {
        assert(updated.drop_last() =~= scopes.drop_last());
    } else {
        assert(updated.drop_last() =~= scopes.drop_last().update(i, scope));
        lemma_locate_updated(scopes.drop_last(), i, scope, name);
    }
}

/// A declared name stands for the value it was declared with, and every
/// other name for what it stood for.
pub proof fn declared_name_has_its_value(
    scopes: Scopes,
    name: Seq<char>,
    value: ValueView,
    other: Seq<char>,
)
    ensures
        lookup(declare(scopes, name, value), name) == Some(value),
        other != name ==> lookup(declare(scopes, name, value), other) == lookup(scopes, other),
{
    let binding = BindingView { name, value };
    let after = declare(scopes, name, value);
    if scopes.len() == 0 {
        let none = Seq::<BindingView>::empty();
        assert(seq![binding] =~= none.push(binding));
        assert(after.drop_last() =~= scopes);
        lemma_position_pushed(none, binding, name);
        lemma_position_pushed(none, binding, other);
    } else {
        let top = scopes.last();
        let last = scopes.len() - 1;
        lemma_position_in(top, name);
        lemma_position_in(top, other);
        lemma_locate(scopes.drop_last(), other);
        assert(after.drop_last() =~= scopes.drop_last());
        match position_in(top, name) {
            Some(j) => {
                lemma_position_updated(top, j, binding, name);
                lemma_position_updated(top, j, binding, other);
                if other != name {
                    lemma_position_in(top, other);
                }
            },
            None => {
                lemma_position_pushed(top, binding, name);
                lemma_position_pushed(top, binding, other);
                if other != name {
                    lemma_position_in(top, other);
                }
            },
        }
    }
}

/// A name can be assigned to if and only if it stands for a value; it then
/// stands for the value assigned, and every other name for what it stood
/// for.
pub proof fn assigned_name_has_its_value(
    scopes: Scopes,
    name: Seq<char>,
    value: ValueView,
    other: Seq<char>,
)
    ensures
        assign(scopes, name, value) is Some <==> lookup(scopes, name) is Some,
        assign(scopes, name, value) matches Some(after) ==> lookup(after, name) == Some(value) && (
        other != name ==> lookup(after, other) == lookup(scopes, other)),
{
    lemma_locate(scopes, name);
    lemma_locate(scopes, other);
    match locate(scopes, name) {
        Some((i, j)) => {
            let binding = BindingView { name, value };
            let scope = scopes[i].update(j, binding);
            let after = scopes.update(i, scope);
            lemma_position_updated(scopes[i], j, binding, name);
            lemma_position_updated(scopes[i], j, binding, other);
            lemma_locate_updated(scopes, i, scope, name);
            lemma_locate_updated(scopes, i, scope, other);
            if other != name {
                match locate(scopes, other) {
                    Some((k, l)) => {
                        if k == i {
                            assert(l != j);
                        }
                    },
                    None => {},
                }
            }
        },
        None => {},
    }
}

/// Where `scope` binds `name`.
fn find(scope: &Vec<Binding>, name: &String) -> (r: Option<usize>)
    ensures
        match position_in(scope_view(scope@), name@) {
            Some(j) => r == Some(j as usize) && 0 <= j < scope.len(),
            None => r is None,
        },
{
    let ghost view = scope_view(scope@);
    let mut j = scope.len();
    assert(view.take(j as int) =~= view);
    while j > 0
        invariant
            j <= scope.len(),
            view == scope_view(scope@),
            position_in(view, name@) == position_in(view.take(j as int), name@),
        decreases j,
    {
        j = j - 1;
        assert(view.take(j + 1).drop_last() =~= view.take(j as int));
        if same_text(&scope[j].name, name) {
            return Some(j);
        }
    }
    None
}

/// The variables of a run.
pub struct Environment {
    scopes: Vec<Vec<Binding>>,
}

impl View for Environment {
    type V = Scopes;

    closed spec fn view(&self) -> Scopes {
        scopes_view(self.scopes@)
    }
}

impl Environment {
    /// An environment of one scope, the global one, that binds nothing.
    pub fn new() -> (env: Environment)
        ensures
            env@ == seq![Seq::<BindingView>::empty()],
    {
        let mut scopes: Vec<Vec<Binding>> = Vec::new();
        scopes.push(Vec::new());
        let env = Environment { scopes };
        assert(env@ =~~= seq![Seq::<BindingView>::empty()]);
        env
    }

    /// The number of scopes.
    pub fn depth(&self) -> (d: usize)
        ensures
            d == self@.len(),
    {
        self.scopes.len()
    }

    /// Opens a new innermost scope.
    pub fn push_scope(&mut self)
        ensures
            final(self)@ == push_scope(old(self)@),
    {
        self.scopes.push(Vec::new());
        assert(self@ =~~= push_scope(old(self)@));
    }

    /// Ends the innermost scope.
    pub fn pop_scope(&mut self)
        ensures
            final(self)@ == pop_scope(old(self)@),
    {
        self.scopes.pop();
        assert(self@ =~~= pop_scope(old(self)@));
    }

    /// Ends all scopes but the outermost `depth`.
    pub fn truncate(&mut self, depth: usize)
        ensures
            final(self)@ == truncate(old(self)@, depth as nat),
    {
        self.scopes.truncate(depth);
        assert(self@ =~~= truncate(old(self)@, depth as nat));
    }

    /// The innermost scope that binds `name`, and where in it.
    fn locate(&self, name: &String) -> (r: Option<(usize, usize)>)
        ensures
            match locate(self@, name@) {
                Some((i, j)) => r == Some((i as usize, j as usize)) && 0 <= i < self.scopes.len()
                    && 0 <= j < self.scopes[i].len(),
                None => r is None,
            },
    {
        let ghost view = self@;
        let mut i = self.scopes.len();
        assert(view.take(i as int) =~= view);
        while i > 0
            invariant
                i <= self.scopes.len(),
                view == self@,
                locate(view, name@) == locate(view.take(i as int), name@),
            decreases i,
        {
            i = i - 1;
            assert(view.take(i + 1).drop_last() =~= view.take(i as int));
            assert(view.take(i + 1).last() == scope_view(self.scopes[i as int]@));
            match find(&self.scopes[i], name) {
                Some(j) => {
                    return Some((i, j));
                },
                None => {},
            }
        }
        None
    }

    /// The value that `name` stands for.
    pub fn lookup(&self, name: &String) -> (r: Option<Value>)
        ensures
            match lookup(self@, name@) {
                Some(value) => r matches Some(v) && v@ == value,
                None => r is None,
            },
    {
        match self.locate(name) {
            Some((i, j)) => Some(self.scopes[i][j].value.clone()),
            None => None,
        }
    }

    /// Gives the innermost binding of `name` the value `value`. Returns
    /// whether there was a binding; without one nothing changes.
    pub fn assign(&mut self, name: &String, value: Value) -> (done: bool)
        ensures
            match assign(old(self)@, name@, value@) {
                Some(scopes) => done && final(self)@ == scopes,
                None => !done && final(self)@ == old(self)@,
            },
    {
        match self.locate(name) {
            Some((i, j)) => {
                proof {
                    lemma_locate(self@, name@);
                }
                let scope = &mut self.scopes[i];
                let binding = &mut scope[j];
                binding.value = value;
                assert(self@ =~~= assign(old(self)@, name@, value@).unwrap());
                true
            },
            None => false,
        }
    }

    /// Binds `name` to `value` in the innermost scope.
    pub fn declare(&mut self, name: String, value: Value)
        ensures
            final(self)@ == declare(old(self)@, name@, value@),
    {
        let depth = self.scopes.len();
        if depth == 0 {
            let mut scope: Vec<Binding> = Vec::new();
            scope.push(Binding { name, value });
            self.scopes.push(scope);
            assert(self@ =~~= declare(old(self)@, name@, value@));
        } else {
            proof {
                lemma_position_in(old(self)@.last(), name@);
            }
            let found = find(&self.scopes[depth - 1], &name);
            let scope = &mut self.scopes[depth - 1];
            match found {
                Some(j) => {
                    scope[j] = Binding { name, value };
                },
                None => {
                    scope.push(Binding { name, value });
                },
            }
            assert(self@ =~~= declare(old(self)@, name@, value@));
        }
    }
}

} // verus!
