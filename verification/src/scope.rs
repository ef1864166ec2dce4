//! Lexical scopes and the stack that nests them.
//!
//! Every binding is a cell, and a scope maps the names it can see to cells.
//! A nested scope starts with the bindings of the scope around it, so both
//! reach the same cells: an assignment made inside is seen outside. A
//! declaration makes a new cell, which only the declaring scope and the
//! scopes nested in it can reach, and which is given up when the declaring
//! scope is left.

use vstd::prelude::*;
use vstd::hash_map::StringHashMap;
use vstd::string::StringExecFns;
use crate::variable::Variable;

verus! {

/// Why an operation on a scope stack was refused.
#[derive(Debug, PartialEq, Eq)]
pub enum ScopeError {
    /// No binding of this name is visible from the current scope.
    UnknownIdentifier(String),
}

impl ScopeError {
    /// The text of the error message.
    pub open spec fn spec_message(self) -> Seq<char> {
        match self {
            ScopeError::UnknownIdentifier(name) => "Unknown variable identifier \""@ + name@
                + "\""@,
        }
    }

    /// A message that names the identifier.
    pub fn message(&self) -> (text: String)
        ensures
            text@ == self.spec_message(),
    {
        match self {
            ScopeError::UnknownIdentifier(name) => {
                let mut text = String::from_str("Unknown variable identifier \"");
                text.append(name.as_str());
                text.append("\"");
                text
            },
        }
    }
}

/// The mathematical value of a [`Scope`].
pub struct ScopeView {
    /// The cell of each visible name.
    pub visible: Map<Seq<char>, nat>,
    /// The names declared in this scope, in the order of their declaration.
    pub owned: Seq<Seq<char>>,
    /// The number of cells that existed when the scope was entered: the
    /// cells from this one on were made in this scope or in one nested in it.
    pub first_cell: nat,
}

/// One lexical scope.
pub struct Scope {
    /// The cell of each name that is visible from this scope.
    variables: StringHashMap<usize>,
    /// The visible names, each at least once; a nested scope walks this
    /// list to take the bindings over.
    names: Vec<String>,
    /// The names declared in this scope.
    owned_variables: Vec<String>,
    /// The number of cells that existed when the scope was entered.
    first_cell: usize,
}

/// The characters of each string of a sequence.
pub open spec fn string_views(strings: Seq<String>) -> Seq<Seq<char>> {
    strings.map_values(|s: String| s@)
}

impl View for Scope {
    type V = ScopeView;

    closed spec fn view(&self) -> ScopeView {
        ScopeView {
            visible: self.variables@.map_values(|cell: usize| cell as nat),
            owned: string_views(self.owned_variables@),
            first_cell: self.first_cell as nat,
        }
    }
}

impl Scope {
    /// Whether the scope is well formed: every visible name is on its list
    /// of names.
    pub closed spec fn wf(&self) -> bool {
        forall|name: Seq<char>| #[trigger]
            self.variables@.contains_key(name) ==> string_views(self.names@).contains(name)
    }

    /// A scope that sees no name and owns none.
    pub fn new() -> (scope: Self)
        ensures
            scope.wf(),
            scope@ == (ScopeView { visible: Map::empty(), owned: Seq::empty(), first_cell: 0 }),
    {
        let scope = Scope {
            variables: StringHashMap::new(),
            names: Vec::new(),
            owned_variables: Vec::new(),
            first_cell: 0,
        };
        assert(scope@.visible =~= Map::empty());
        assert(scope@.owned =~= Seq::empty());
        scope
    }

    /// Whether `name` is visible from this scope.
    pub fn sees(&self, name: &str) -> (visible: bool)
        ensures
            visible == self@.visible.contains_key(name@),
    {
        self.variables.contains_key(name)
    }

    /// A scope nested in `parent`: it sees what `parent` sees, through the
    /// same cells, and owns nothing yet.
    fn inherit(parent: &Scope, first_cell: usize) -> (scope: Self)
        requires
            parent.wf(),
        ensures
            scope.wf(),
            scope@ == (ScopeView {
                visible: parent@.visible,
                owned: Seq::empty(),
                first_cell: first_cell as nat,
            }),
    {
        let mut variables: StringHashMap<usize> = StringHashMap::new();
        let mut names: Vec<String> = Vec::new();
        let mut i: usize = 0;
        while i < parent.names.len()
            invariant
                i <= parent.names.len(),
                forall|name: Seq<char>| #[trigger]
                    variables@.contains_key(name) ==> string_views(names@).contains(name),
                forall|name: Seq<char>| #[trigger]
                    variables@.contains_key(name) ==> parent.variables@.contains_key(name)
                        && variables@[name] == parent.variables@[name],
                forall|j: int|
                    0 <= j < i && parent.variables@.contains_key(
                        #[trigger] string_views(parent.names@)[j],
                    ) ==> variables@.contains_key(string_views(parent.names@)[j]),
            decreases parent.names.len() - i,
        {
            let name = &parent.names[i];
            assert(string_views(parent.names@)[i as int] == name@);
            match parent.variables.get(name.as_str()) {
                Some(cell) => {
                    let ghost listed = string_views(names@);
                    variables.insert(name.clone(), *cell);
                    names.push(name.clone());
                    assert(string_views(names@) =~= listed.push(name@));
                    assert forall|other: Seq<char>| #[trigger]
                        variables@.contains_key(other) implies string_views(names@).contains(
                        other,
                    ) by {
                        if other == name@ {
                            assert(string_views(names@)[listed.len() as int] == other);
                        } else {
                            let k = choose|k: int| 0 <= k < listed.len() && listed[k] == other;
                            assert(string_views(names@)[k] == other);
                        }
                    }
                },
                None => {},
            }
            i += 1;
        }
        let scope = Scope { variables, names, owned_variables: Vec::new(), first_cell };
        proof {
            assert forall|name: Seq<char>|
                parent.variables@.contains_key(name) implies variables@.contains_key(name) by {
                let j = choose|j: int|
                    0 <= j < string_views(parent.names@).len() && string_views(parent.names@)[j]
                        == name;
                assert(parent.variables@.contains_key(string_views(parent.names@)[j]));
            }
            assert(scope.variables@ =~= parent.variables@);
            assert(scope@.owned =~= Seq::empty());
        }
        scope
    }

    /// Binds `name` to `cell` in this scope and records the name as owned.
    /// An earlier binding of the name is no longer visible from here.
    fn variable_declare(&mut self, name: &str, cell: usize)
        requires
            old(self).wf(),
        ensures
            final(self).wf(),
            final(self)@ == (ScopeView {
                visible: old(self)@.visible.insert(name@, cell as nat),
                owned: old(self)@.owned.push(name@),
                first_cell: old(self)@.first_cell,
            }),
    {
        let ghost listed = string_views(self.names@);
        let ghost owned = string_views(self.owned_variables@);
        let ghost visible = self.variables@;
        self.owned_variables.push(name.to_string());
        if !self.variables.contains_key(name) {
            self.names.push(name.to_string());
            assert(string_views(self.names@) =~= listed.push(name@));
            assert(string_views(self.names@)[listed.len() as int] == name@);
        }
        self.variables.insert(name.to_string(), cell);
        proof {
            assert(string_views(self.owned_variables@) =~= owned.push(name@));
            assert forall|other: Seq<char>| #[trigger]
                self.variables@.contains_key(other) implies string_views(self.names@).contains(
                other,
            ) by {
                if other == name@ {
                    assert(string_views(self.names@).contains(name@));
                } else {
                    let k = choose|k: int| 0 <= k < listed.len() && listed[k] == other;
                    assert(string_views(self.names@)[k] == other);
                }
            }
            assert(self@.visible =~= old(self)@.visible.insert(name@, cell as nat));
        }
    }

    /// The cell that `name` is bound to, if the name is visible.
    fn variable_get(&self, name: &str) -> (cell: Option<usize>)
        ensures
            match cell {
                Some(id) => self@.visible.contains_key(name@) && self@.visible[name@] == id,
                None => !self@.visible.contains_key(name@),
            },
    {
        match self.variables.get(name) {
            Some(id) => Some(*id),
            None => None,
        }
    }

    /// Puts `variable` into the cell that `name` is bound to. Where the name
    /// is not visible, the cells stay as they are.
    fn variable_set(&self, cells: &mut Vec<Variable>, name: &str, variable: Variable) -> (done:
        Result<(), ScopeError>)
        requires
            forall|other: Seq<char>| #[trigger]
                self@.visible.contains_key(other) ==> self@.visible[other] < old(cells).len(),
        ensures
            match done {
                Ok(_) => self@.visible.contains_key(name@) && final(cells)@ == old(cells)@.update(
                    self@.visible[name@] as int,
                    variable,
                ),
                Err(ScopeError::UnknownIdentifier(unknown)) => !self@.visible.contains_key(name@)
                    && unknown@ == name@ && final(cells)@ == old(cells)@,
            },
    {
        match self.variable_get(name) {
            Some(id) => {
                cells[id] = variable;
                Ok(())
            },
            None => Err(ScopeError::UnknownIdentifier(name.to_string())),
        }
    }

    /// Gives up the bindings of the names that this scope owns: they are no
    /// longer visible from it, and it owns nothing.
    fn retract_owned(&mut self)
        requires
            old(self).wf(),
        ensures
            final(self).wf(),
            final(self)@ == (ScopeView {
                visible: old(self)@.visible.remove_keys(old(self)@.owned.to_set()),
                owned: Seq::empty(),
                first_cell: old(self)@.first_cell,
            }),
    {
        let ghost owned = string_views(self.owned_variables@);
        let mut i: usize = 0;
        while i < self.owned_variables.len()
            invariant
                i <= self.owned_variables.len(),
                self.owned_variables == old(self).owned_variables,
                self.names == old(self).names,
                self.first_cell == old(self).first_cell,
                owned == string_views(self.owned_variables@),
                self.variables@ == old(self).variables@.remove_keys(owned.take(i as int).to_set()),
            decreases self.owned_variables.len() - i,
        {
            let ghost before = self.variables@;
            assert(owned[i as int] == self.owned_variables[i as int]@);
            self.variables.remove(self.owned_variables[i].as_str());
            proof {
                let taken = owned.take(i as int);
                let more = owned.take(i + 1);
                assert(more =~= taken.push(owned[i as int]));
                assert forall|name: Seq<char>| more.to_set().contains(name) <==> (
                taken.to_set().contains(name) || name == owned[i as int]) by {
                    if taken.contains(name) {
                        let k = choose|k: int| 0 <= k < taken.len() && taken[k] == name;
                        assert(more[k] == name);
                    }
                    if name == owned[i as int] {
                        assert(more[i as int] == name);
                    }
                }
                assert(self.variables@ =~= old(self).variables@.remove_keys(more.to_set()));
            }
            i += 1;
        }
        self.owned_variables = Vec::new();
        proof {
            assert(owned.take(owned.len() as int) =~= owned);
            assert(self@.visible =~= old(self)@.visible.remove_keys(old(self)@.owned.to_set()));
            assert(self@.owned =~= Seq::empty());
        }
    }
}

/// The mathematical value of a [`ScopeStack`]: its scopes from the base
/// scope to the current one, and the cells that their bindings reach.
pub struct StackView {
    /// The scopes, the base scope first and the current scope last.
    pub scopes: Seq<ScopeView>,
    /// The value in each cell.
    pub cells: Seq<Variable>,
}

impl StackView {
    /// The current scope.
    pub open spec fn top(self) -> ScopeView {
        self.scopes.last()
    }

    /// The number of cells that scope `i` may reach: those that existed
    /// when the scope nested in it was entered, or all of them for the
    /// current scope.
    pub open spec fn limit(self, i: int) -> nat {
        if i + 1 < self.scopes.len() {
            self.scopes[i + 1].first_cell
        } else {
            self.cells.len()
        }
    }

    /// What scope `i` found visible when it was entered: the bindings of
    /// the scope around it, or nothing for the base scope.
    pub open spec fn inherited(self, i: int) -> Map<Seq<char>, nat> {
        if i > 0 {
            self.scopes[i - 1].visible
        } else {
            Map::empty()
        }
    }

    /// Whether scope `i` is in order: it reaches only cells below its limit,
    /// it binds each name that it owns to a cell of its own, and it binds
    /// every other name as the scope around it does.
    pub open spec fn scope_valid(self, i: int) -> bool {
        let scope = self.scopes[i];
        &&& scope.first_cell <= self.limit(i)
        &&& forall|name: Seq<char>| #[trigger]
            scope.visible.contains_key(name) ==> scope.visible[name] < self.limit(i)
        &&& forall|name: Seq<char>| #[trigger]
            scope.owned.contains(name) ==> scope.visible.contains_key(name) && scope.visible[name]
                >= scope.first_cell
        &&& forall|name: Seq<char>|
            !scope.owned.contains(name) ==> (#[trigger] scope.visible.contains_key(name)
                <==> self.inherited(i).contains_key(name))
        &&& forall|name: Seq<char>|
            !scope.owned.contains(name) && #[trigger] scope.visible.contains_key(name)
                ==> scope.visible[name] == self.inherited(i)[name]
    }

    /// Whether the stack is in order: it holds at least the base scope, and
    /// each of its scopes is in order.
    pub open spec fn valid(self) -> bool {
        &&& self.scopes.len() >= 1
        &&& forall|i: int| 0 <= i < self.scopes.len() ==> #[trigger] self.scope_valid(i)
    }

    /// The value that `name` resolves to from the current scope, if the name
    /// is visible there.
    pub open spec fn lookup(self, name: Seq<char>) -> Option<Variable> {
        if self.top().visible.contains_key(name) {
            Some(self.cells[self.top().visible[name] as int])
        } else {
            None
        }
    }

    /// The stack with an empty base scope and no cells.
    pub open spec fn base() -> StackView {
        StackView {
            scopes: seq![ScopeView { visible: Map::empty(), owned: Seq::empty(), first_cell: 0 }],
            cells: Seq::empty(),
        }
    }

    /// The stack after a new scope is entered: the new scope sees what the
    /// current scope sees, through the same cells, and owns nothing.
    pub open spec fn push(self) -> StackView {
        StackView {
            scopes: self.scopes.push(
                ScopeView {
                    visible: self.top().visible,
                    owned: Seq::empty(),
                    first_cell: self.cells.len(),
                },
            ),
            cells: self.cells,
        }
    }

    /// The stack after `name` is declared with `value`: a new cell holds
    /// the value, and the current scope binds the name to it and owns it.
    pub open spec fn declare(self, name: Seq<char>, value: Variable) -> StackView {
        StackView {
            scopes: self.scopes.update(
                self.scopes.len() - 1,
                ScopeView {
                    visible: self.top().visible.insert(name, self.cells.len()),
                    owned: self.top().owned.push(name),
                    first_cell: self.top().first_cell,
                },
            ),
            cells: self.cells.push(value),
        }
    }

    /// The stack after `value` is assigned to `name`, which is visible: the
    /// cell that the current scope binds the name to holds the value.
    pub open spec fn assign(self, name: Seq<char>, value: Variable) -> StackView
        recommends
            self.top().visible.contains_key(name),
    {
        StackView {
            scopes: self.scopes,
            cells: self.cells.update(self.top().visible[name] as int, value),
        }
    }

    /// The stack after the current scope is left, which is not the base
    /// scope: the scope is gone, and so are the cells made since it was
    /// entered.
    pub open spec fn pop(self) -> StackView
        recommends
            self.scopes.len() > 1,
    {
        StackView {
            scopes: self.scopes.drop_last(),
            cells: self.cells.take(self.top().first_cell as int),
        }
    }

    /// The record of the current scope as `pop` hands it out: the bindings
    /// of the names that the scope owns are retracted.
    pub open spec fn exited(self) -> ScopeView {
        ScopeView {
            visible: self.top().visible.remove_keys(self.top().owned.to_set()),
            owned: Seq::empty(),
            first_cell: self.top().first_cell,
        }
    }
}

/// A stack of nested scopes. It always holds the base scope; the last scope
/// is the current one.
pub struct ScopeStack {
    /// The scopes, the base scope first.
    stack: Vec<Scope>,
    /// The cells of all bindings, in the order in which they were made.
    cells: Vec<Variable>,
}

impl View for ScopeStack {
    type V = StackView;

    closed spec fn view(&self) -> StackView {
        StackView { scopes: self.stack@.map_values(|scope: Scope| scope@), cells: self.cells@ }
    }
}

impl ScopeStack {
    /// Whether the stack is well formed: each of its scopes is, and its
    /// value is in order.
    pub closed spec fn wf(&self) -> bool {
        &&& forall|i: int| 0 <= i < self.stack.len() ==> (#[trigger] self.stack[i]).wf()
        &&& self@.valid()
    }

    /// A well-formed stack has a value that is in order.
    pub proof fn lemma_wf_valid(&self)
        requires
            self.wf(),
        ensures
            self@.valid(),
    {
    }

    /// A stack that holds the base scope alone.
    pub fn new() -> (stack: Self)
        ensures
            stack.wf(),
            stack@ == StackView::base(),
    {
        let mut scopes: Vec<Scope> = Vec::new();
        scopes.push(Scope::new());
        let stack = ScopeStack { stack: scopes, cells: Vec::new() };
        proof {
            assert(stack@.scopes =~= StackView::base().scopes);
            lemma_base_valid();
        }
        stack
    }

    /// The current scope. There always is one.
    pub fn peek(&self) -> (scope: Option<&Scope>)
        requires
            self.wf(),
        ensures
            scope is Some,
            scope->0.wf(),
            scope->0@ == self@.top(),
    {
        Some(&self.stack[self.stack.len() - 1])
    }

    /// Leaves the current scope and hands out its record, with the bindings
    /// of the names it owned retracted. The base scope cannot be left: on a
    /// stack that holds it alone, nothing changes.
    pub fn pop(&mut self) -> (exited: Option<Scope>)
        requires
            old(self).wf(),
        ensures
            final(self).wf(),
            old(self)@.scopes.len() == 1 ==> exited is None && final(self)@ == old(self)@,
            old(self)@.scopes.len() > 1 ==> {
                &&& exited is Some
                &&& exited->0.wf()
                &&& exited->0@ == old(self)@.exited()
                &&& final(self)@ == old(self)@.pop()
            },
    {
        if self.stack.len() <= 1 {
            return None;
        }
        proof {
            lemma_pop_valid(self@);
        }
        let mut scope = self.stack.pop().unwrap();
        self.cells.truncate(scope.first_cell);
        assert(self@.scopes =~= old(self)@.scopes.drop_last());
        scope.retract_owned();
        Some(scope)
    }

    /// Enters a new scope, nested in the current one.
    pub fn push(&mut self)
        requires
            old(self).wf(),
        ensures
            final(self).wf(),
            final(self)@ == old(self)@.push(),
    {
        proof {
            lemma_push_valid(self@);
        }
        let new_scope = Scope::inherit(&self.stack[self.stack.len() - 1], self.cells.len());
        self.stack.push(new_scope);
        assert(self@.scopes =~= old(self)@.push().scopes);
    }

    /// The value of `name` as the current scope sees it; `None` where the
    /// name is not visible.
    pub fn variable_get(&self, name: &str) -> (value: Option<&Variable>)
        requires
            self.wf(),
        ensures
            match value {
                Some(v) => self@.lookup(name@) == Some(*v),
                None => self@.lookup(name@) is None,
            },
    {
        let top = self.stack.len() - 1;
        assert(self@.scope_valid(top as int));
        match self.stack[top].variable_get(name) {
            Some(cell) => Some(&self.cells[cell]),
            None => None,
        }
    }

    /// Declares `name` in the current scope, with `variable` as its value.
    /// A binding of the same name that was visible before is shadowed.
    pub fn variable_declare(&mut self, name: &str, variable: Variable)
        requires
            old(self).wf(),
        ensures
            final(self).wf(),
            final(self)@ == old(self)@.declare(name@, variable),
    {
        proof {
            lemma_declare_valid(self@, name@, variable);
        }
        let top = self.stack.len() - 1;
        let cell = self.cells.len();
        self.cells.push(variable);
        self.stack[top].variable_declare(name, cell);
        assert(self@.scopes =~= old(self)@.declare(name@, variable).scopes);
    }

    /// Assigns `variable` to `name`, through the binding that the current
    /// scope sees. Where the name is not visible the assignment is refused
    /// and nothing changes.
    pub fn variable_set(&mut self, name: &str, variable: Variable) -> (done: Result<(), ScopeError>)
        requires
            old(self).wf(),
        ensures
            final(self).wf(),
            match done {
                Ok(_) => old(self)@.lookup(name@) is Some && final(self)@ == old(self)@.assign(
                    name@,
                    variable,
                ),
                Err(ScopeError::UnknownIdentifier(unknown)) => old(self)@.lookup(name@) is None
                    && unknown@ == name@ && final(self)@ == old(self)@,
            },
    {
        let top = self.stack.len() - 1;
        proof {
            assert(self@.scope_valid(top as int));
            if self@.top().visible.contains_key(name@) {
                lemma_assign_valid(self@, name@, variable);
            }
        }
        self.stack[top].variable_set(&mut self.cells, name, variable)
    }
}

/// The stack that holds an empty base scope is in order.
pub proof fn lemma_base_valid()
    ensures
        StackView::base().valid(),
{
    let s = StackView::base();
    assert(s.scope_valid(0));
}

/// Entering a scope keeps the stack in order.
pub proof fn lemma_push_valid(s: StackView)
    requires
        s.valid(),
    ensures
        s.push().valid(),
{
    let p = s.push();
    let n = s.scopes.len() as int;
    assert(s.scope_valid(n - 1));
    assert forall|i: int| 0 <= i < p.scopes.len() implies #[trigger] p.scope_valid(i) by {
        if i < n {
            assert(s.scope_valid(i));
            assert(p.scopes[i] == s.scopes[i]);
            assert(p.inherited(i) == s.inherited(i));
        } else {
            assert(p.inherited(i) == s.top().visible);
        }
    }
}

/// Declaring a name keeps the stack in order.
pub proof fn lemma_declare_valid(s: StackView, name: Seq<char>, value: Variable)
    requires
        s.valid(),
    ensures
        s.declare(name, value).valid(),
{
    let d = s.declare(name, value);
    let n = s.scopes.len() as int;
    assert forall|i: int| 0 <= i < d.scopes.len() implies #[trigger] d.scope_valid(i) by {
        assert(s.scope_valid(i));
        assert(d.inherited(i) == s.inherited(i));
        if i == n - 1 {
            let old_top = s.top();
            let new_top = d.scopes[i];
            assert forall|other: Seq<char>| #[trigger]
                new_top.owned.contains(other) implies new_top.visible.contains_key(other)
                && new_top.visible[other] >= new_top.first_cell by {
                if other != name {
                    let k = choose|k: int| 0 <= k < new_top.owned.len() && new_top.owned[k] == other;
                    assert(old_top.owned[k] == other);
                    assert(old_top.owned.contains(other));
                }
            }
            assert forall|other: Seq<char>| !new_top.owned.contains(other) implies !old_top.owned.contains(
                other,
            ) && other != name by {
                if old_top.owned.contains(other) {
                    let k = choose|k: int| 0 <= k < old_top.owned.len() && old_top.owned[k] == other;
                    assert(new_top.owned[k] == other);
                }
                assert(new_top.owned[old_top.owned.len() as int] == name);
            }
        } else {
            assert(d.scopes[i] == s.scopes[i]);
        }
    }
}

/// Assigning to a visible name keeps the stack in order.
pub proof fn lemma_assign_valid(s: StackView, name: Seq<char>, value: Variable)
    requires
        s.valid(),
        s.top().visible.contains_key(name),
    ensures
        s.assign(name, value).valid(),
{
    let a = s.assign(name, value);
    assert(s.scope_valid(s.scopes.len() - 1));
    assert forall|i: int| 0 <= i < a.scopes.len() implies #[trigger] a.scope_valid(i) by {
        assert(s.scope_valid(i));
        assert(a.inherited(i) == s.inherited(i));
    }
}

/// Leaving a scope that is not the base scope keeps the stack in order.
pub proof fn lemma_pop_valid(s: StackView)
    requires
        s.valid(),
        s.scopes.len() > 1,
    ensures
        s.pop().valid(),
        s.top().first_cell <= s.cells.len(),
{
    let p = s.pop();
    assert(s.scope_valid(s.scopes.len() - 1));
    assert forall|i: int| 0 <= i < p.scopes.len() implies #[trigger] p.scope_valid(i) by {
        assert(s.scope_valid(i));
        assert(p.inherited(i) == s.inherited(i));
    }
}

/// A new scope sees every name as the scope around it does.
pub proof fn push_keeps_bindings(s: StackView, name: Seq<char>)
    requires
        s.valid(),
    ensures
        s.push().lookup(name) == s.lookup(name),
{
    assert(s.scope_valid(s.scopes.len() - 1));
}

/// After a declaration the name resolves to the declared value, and every
/// other name resolves as before.
pub proof fn declare_binds_name(s: StackView, name: Seq<char>, value: Variable, other: Seq<char>)
    requires
        s.valid(),
    ensures
        s.declare(name, value).lookup(name) == Some(value),
        other != name ==> s.declare(name, value).lookup(other) == s.lookup(other),
{
    assert(s.scope_valid(s.scopes.len() - 1));
}

/// After an assignment to a visible name the name resolves to the assigned
/// value.
pub proof fn assign_sets_value(s: StackView, name: Seq<char>, value: Variable)
    requires
        s.valid(),
        s.top().visible.contains_key(name),
    ensures
        s.assign(name, value).lookup(name) == Some(value),
{
    assert(s.scope_valid(s.scopes.len() - 1));
}

/// Entering a scope, declaring a name in it and leaving it again restores
/// the stack exactly: the declaration is retracted with its scope.
pub proof fn push_declare_pop_restores(s: StackView, name: Seq<char>, value: Variable)
    requires
        s.valid(),
    ensures
        s.push().declare(name, value).pop() == s,
{
    let after = s.push().declare(name, value).pop();
    assert(after.scopes =~= s.scopes);
    assert(after.cells =~= s.cells);
}

/// A declaration in the current scope leaves no trace once the scope is
/// left.
pub proof fn declaration_ends_with_scope(s: StackView, name: Seq<char>, value: Variable)
    requires
        s.valid(),
        s.scopes.len() > 1,
    ensures
        s.declare(name, value).pop() == s.pop(),
{
    assert(s.scope_valid(s.scopes.len() - 1));
    let after = s.declare(name, value).pop();
    assert(after.scopes =~= s.pop().scopes);
    assert(after.cells =~= s.pop().cells);
}

/// A name that is declared in a scope and declared again in a scope nested
/// in it resolves to the outer value once the inner scope is left: the
/// inner declaration shadows the outer one and is retracted in full.
pub proof fn inner_shadow_is_retracted(
    s: StackView,
    name: Seq<char>,
    outer: Variable,
    inner: Variable,
)
    requires
        s.valid(),
    ensures
        s.push().declare(name, outer).push().declare(name, inner).pop().lookup(name) == Some(
            outer,
        ),
{
    let entered = s.push().declare(name, outer);
    lemma_push_valid(s);
    lemma_declare_valid(s.push(), name, outer);
    push_declare_pop_restores(entered, name, inner);
    declare_binds_name(s.push(), name, outer, name);
}

/// A value assigned in a nested scope to a name that the scope around it
/// declared is what the name resolves to once the nested scope is left:
/// both scopes reach the same cell.
pub proof fn inner_assignment_reaches_outer(
    s: StackView,
    name: Seq<char>,
    first: Variable,
    second: Variable,
)
    requires
        s.valid(),
    ensures
        s.declare(name, first).push().lookup(name) == Some(first),
        s.declare(name, first).push().assign(name, second).pop().lookup(name) == Some(second),
{
    let declared = s.declare(name, first);
    lemma_declare_valid(s, name, first);
    lemma_push_valid(declared);
    declare_binds_name(s, name, first, name);
    push_keeps_bindings(declared, name);
    assignment_outlives_scope(declared.push(), name, second);
}

/// An assignment to a name that the current scope sees but does not own
/// is still in force once the scope is left.
pub proof fn assignment_outlives_scope(s: StackView, name: Seq<char>, value: Variable)
    requires
        s.valid(),
        s.scopes.len() > 1,
        s.top().visible.contains_key(name),
        !s.top().owned.contains(name),
    ensures
        s.assign(name, value).pop().lookup(name) == Some(value),
{
    let n = s.scopes.len() as int;
    assert(s.scope_valid(n - 1));
    assert(s.scope_valid(n - 2));
    assert(s.inherited(n - 1) == s.scopes[n - 2].visible);
    assert(s.assign(name, value).pop().top() == s.scopes[n - 2]);
}

/// An assignment to a name that the current scope owns is gone once the
/// scope is left: it leaves the stack as if it had not been made.
pub proof fn owned_assignment_ends_with_scope(s: StackView, name: Seq<char>, value: Variable)
    requires
        s.valid(),
        s.scopes.len() > 1,
        s.top().owned.contains(name),
    ensures
        s.assign(name, value).pop() == s.pop(),
{
    let n = s.scopes.len() as int;
    assert(s.scope_valid(n - 1));
    assert(s.assign(name, value).pop().cells =~= s.pop().cells);
}

/// A name that none of the scopes up to scope `i` owns is not visible from
/// scope `i`.
pub proof fn lemma_unowned_is_invisible(s: StackView, name: Seq<char>, i: int)
    requires
        s.valid(),
        0 <= i < s.scopes.len(),
        forall|j: int| 0 <= j <= i ==> !(#[trigger] s.scopes[j]).owned.contains(name),
    ensures
        !s.scopes[i].visible.contains_key(name),
    decreases i,
{
    assert(s.scope_valid(i));
    assert(!s.scopes[i].owned.contains(name));
    if i > 0 {
        lemma_unowned_is_invisible(s, name, i - 1);
    }
}

/// A name that was declared in none of the scopes of the stack resolves to
/// nothing, so an assignment to it is refused.
pub proof fn undeclared_name_is_unknown(s: StackView, name: Seq<char>)
    requires
        s.valid(),
        forall|j: int| 0 <= j < s.scopes.len() ==> !(#[trigger] s.scopes[j]).owned.contains(name),
    ensures
        s.lookup(name) is None,
{
    lemma_unowned_is_invisible(s, name, s.scopes.len() - 1);
}

} // verus!
