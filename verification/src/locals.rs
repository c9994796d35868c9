//! Scopes of local names, nested in each other.
use crate::types::{copy_range, Capture};
use std::ops::Range;
use vstd::prelude::*;

verus! {

/// A scope, by its number.
#[derive(Debug, Clone, Copy, PartialEq, Eq, Structural, Hash)]
pub struct Scope(pub u32);

impl Scope {
    /// The scope that holds all others.
    pub fn root() -> (scope: Scope)
        ensures
            scope == Scope(0),
    {
        Scope(0)
    }
}

/// A name that a scope defines.
#[derive(Debug, PartialEq, Eq)]
pub struct Definition {
    pub name: String,
    pub capture: Capture,
    pub range: Range<u32>,
}

/// What is known of one scope.
#[derive(Debug, PartialEq, Eq)]
pub struct ScopeData {
    pub definitions: Vec<Definition>,
    pub range: Range<u32>,
    /// Names that are not defined here are looked up in the parent.
    pub inherit: bool,
    pub children: Vec<Scope>,
    pub parent: Option<Scope>,
}

/// What is known of one scope, with sequences for its parts.
pub struct ScopeView {
    pub definitions: Seq<Definition>,
    pub range: Range<u32>,
    pub inherit: bool,
    pub children: Seq<Scope>,
    pub parent: Option<Scope>,
}

impl View for ScopeData {
    type V = ScopeView;

    open spec fn view(&self) -> ScopeView {
        ScopeView {
            definitions: self.definitions@,
            range: self.range,
            inherit: self.inherit,
            children: self.children@,
            parent: self.parent,
        }
    }
}

impl Clone for Definition {
    fn clone(&self) -> (copy: Self)
        ensures
            copy == *self,
    {
        Definition {
            name: self.name.clone(),
            capture: self.capture,
            range: copy_range(&self.range),
        }
    }
}

impl Clone for ScopeData {
    fn clone(&self) -> (copy: Self)
        ensures
            copy@ == self@,
    {
        let mut definitions: Vec<Definition> = Vec::with_capacity(self.definitions.len());
        for i in 0..self.definitions.len()
            invariant
                definitions@ == self.definitions@.take(i as int),
        {
            definitions.push(self.definitions[i].clone());
            assert(definitions@ =~= self.definitions@.take(i + 1));
        }
        let mut children: Vec<Scope> = Vec::with_capacity(self.children.len());
        for i in 0..self.children.len()
            invariant
                children@ == self.children@.take(i as int),
        {
            children.push(self.children[i]);
            assert(children@ =~= self.children@.take(i + 1));
        }
        assert(self.definitions@.take(self.definitions.len() as int) =~= self.definitions@);
        assert(self.children@.take(self.children.len() as int) =~= self.children@);
        ScopeData {
            definitions,
            range: copy_range(&self.range),
            inherit: self.inherit,
            children,
            parent: self.parent,
        }
    }
}

impl Clone for Locals {
    fn clone(&self) -> (copy: Self)
        ensures
            copy@ == self@,
    {
        let mut scopes: Vec<ScopeData> = Vec::with_capacity(self.scopes.len());
        for i in 0..self.scopes.len()
            invariant
                scopes.len() == i,
                forall|k: int| 0 <= k < i ==> (#[trigger] scopes@[k])@ == self.scopes@[k]@,
        {
            scopes.push(self.scopes[i].clone());
        }
        let copy = Locals { scopes };
        assert(copy@ =~= self@);
        copy
    }
}

/// The scopes of a layer.
#[derive(Debug, PartialEq, Eq)]
pub struct Locals {
    scopes: Vec<ScopeData>,
}

impl View for Locals {
    type V = Seq<ScopeView>;

    closed spec fn view(&self) -> Seq<ScopeView> {
        Seq::new(self.scopes@.len(), |i: int| self.scopes@[i]@)
    }
}

/// Whether scopes form a tree: the root is there, and children come behind their parents.
pub open spec fn is_scope_tree(scopes: Seq<ScopeView>) -> bool {
    &&& 0 < scopes.len() <= u32::MAX
    &&& forall|s: int, c: int|
        #![trigger scopes[s].children[c]]
        0 <= s < scopes.len() && 0 <= c < scopes[s].children.len() ==> s
            < scopes[s].children[c].0 < scopes.len()
}

/// The position of the first of some child scopes, from `from` on, that ends behind `pos`.
pub open spec fn child_ending_past(
    scopes: Seq<ScopeView>,
    children: Seq<Scope>,
    from: int,
    pos: u32,
) -> int
    decreases children.len() - from,
{
    if 0 <= from < children.len() && scopes[children[from].0 as int].range.end <= pos {
        child_ending_past(scopes, children, from + 1, pos)
    } else {
        from
    }
}

/// The child of a scope that `pos` lies in: the first one that ends behind it, if it starts by
/// then.
pub open spec fn child_at(scopes: Seq<ScopeView>, scope: Scope, pos: u32) -> Option<Scope> {
    let children = scopes[scope.0 as int].children;
    let at = child_ending_past(scopes, children, 0, pos);
    if 0 <= at < children.len() && scopes[children[at].0 as int].range.start <= pos {
        Some(children[at])
    } else {
        None
    }
}

/// The innermost scope within `scope` that `pos` lies in.
pub open spec fn scope_within(scopes: Seq<ScopeView>, scope: Scope, pos: u32) -> Scope
    decreases scopes.len() - scope.0,
    when is_scope_tree(scopes) && scope.0 < scopes.len()
{
    match child_at(scopes, scope, pos) {
        Some(child) => {
            proof {
                lemma_child_ending_past(scopes, scopes[scope.0 as int].children, 0, pos);
            }
            scope_within(scopes, child, pos)
        },
        None => scope,
    }
}

/// The innermost scope that `pos` lies in.
pub open spec fn scope_at(scopes: Seq<ScopeView>, pos: u32) -> Scope {
    scope_within(scopes, Scope(0), pos)
}

/// The search for a child stays within the children, and what it passes ends by `pos`.
pub proof fn lemma_child_ending_past(
    scopes: Seq<ScopeView>,
    children: Seq<Scope>,
    from: int,
    pos: u32,
)
    requires
        0 <= from <= children.len(),
    ensures
        from <= child_ending_past(scopes, children, from, pos) <= children.len(),
        forall|i: int|
            from <= i < child_ending_past(scopes, children, from, pos) ==> scopes[(
            #[trigger] children[i]).0 as int].range.end <= pos,
        ({
            let at = child_ending_past(scopes, children, from, pos);
            at < children.len() ==> pos < scopes[children[at].0 as int].range.end
        }),
    decreases children.len() - from,
{
    if from < children.len() && scopes[children[from].0 as int].range.end <= pos {
        lemma_child_ending_past(scopes, children, from + 1, pos);
    }
}

/// Whether the children of every scope lie inside of it, one behind the other.
pub open spec fn is_nested(scopes: Seq<ScopeView>) -> bool {
    &&& forall|s: int, c: int|
        #![trigger scopes[s].children[c]]
        0 <= s < scopes.len() && 0 <= c < scopes[s].children.len() ==> {
            let child = scopes[scopes[s].children[c].0 as int].range;
            &&& scopes[s].range.start <= child.start
            &&& child.end <= scopes[s].range.end
        }
    &&& forall|s: int, c: int, d: int|
        #![trigger scopes[s].children[c], scopes[s].children[d]]
        0 <= s < scopes.len() && 0 <= c < d < scopes[s].children.len() ==> scopes[scopes[s].children[c].0 as int].range.end
            <= scopes[scopes[s].children[d].0 as int].range.start
}

/// In nested scopes the scope found for a position holds it, and none of its children does.
pub proof fn lemma_scope_within_is_innermost(scopes: Seq<ScopeView>, scope: Scope, pos: u32)
    requires
        is_scope_tree(scopes),
        is_nested(scopes),
        scope.0 < scopes.len(),
        scopes[scope.0 as int].range.start <= pos < scopes[scope.0 as int].range.end,
    ensures
        ({
            let found = scopes[scope_within(scopes, scope, pos).0 as int];
            &&& scope_within(scopes, scope, pos).0 < scopes.len()
            &&& found.range.start <= pos < found.range.end
            &&& forall|c: int|
                #![trigger found.children[c]]
                0 <= c < found.children.len() ==> !(scopes[found.children[c].0 as int].range.start
                    <= pos < scopes[found.children[c].0 as int].range.end)
        }),
    decreases scopes.len() - scope.0,
{
    let data = scopes[scope.0 as int];
    let children = data.children;
    lemma_child_ending_past(scopes, children, 0, pos);
    let at = child_ending_past(scopes, children, 0, pos);
    match child_at(scopes, scope, pos) {
        Some(child) => {
            lemma_scope_within_is_innermost(scopes, child, pos);
        },
        None => {
            assert forall|c: int| 0 <= c < children.len() implies !(scopes[(
            #[trigger] children[c]).0 as int].range.start <= pos < scopes[children[c].0 as int].range.end) by {
                if c > at {
                    assert(scopes[children[at].0 as int].range.end
                        <= scopes[children[c].0 as int].range.start);
                }
            }
        },
    }
}

/// The scopes of a layer without scopes of its own: the root, which covers everything.
pub open spec fn only_root() -> Seq<ScopeView> {
    seq![
        ScopeView {
            definitions: Seq::empty(),
            range: 0..u32::MAX,
            inherit: false,
            children: Seq::empty(),
            parent: None,
        },
    ]
}

impl Default for Locals {
    fn default() -> (locals: Self)
        ensures
            is_scope_tree(locals@),
            locals@ == only_root(),
    {
        let root = ScopeData {
            definitions: Vec::new(),
            range: 0..u32::MAX,
            inherit: false,
            children: Vec::new(),
            parent: None,
        };
        let mut scopes: Vec<ScopeData> = Vec::new();
        scopes.push(root);
        let locals = Locals { scopes };
        assert(locals@ =~= only_root());
        locals
    }
}

impl Locals {
    /// Adds a scope behind the other children of its parent.
    pub fn push(&mut self, scope: ScopeData) -> (added: Scope)
        requires
            is_scope_tree(old(self)@),
            old(self)@.len() < u32::MAX,
            scope.parent matches Some(parent) && parent.0 < old(self)@.len(),
            scope.children.len() == 0,
        ensures
            is_scope_tree(final(self)@),
            added.0 == old(self)@.len(),
            final(self)@.len() == old(self)@.len() + 1,
            final(self)@[added.0 as int] == scope@,
            ({
                let Scope(number) = scope.parent->0;
                let parent = number as int;
                &&& final(self)@[parent] == (ScopeView {
                    children: old(self)@[parent].children.push(added),
                    ..old(self)@[parent]
                })
                &&& forall|i: int|
                    0 <= i < old(self)@.len() && i != parent ==> final(self)@[i] == #[trigger] old(
                        self,
                    )@[i]
            }),
    {
        let added = Scope(self.scopes.len() as u32);
        let ghost before = self@;
        if let Some(parent) = scope.parent {
            self.scopes[parent.0 as usize].children.push(added);
        }
        self.scopes.push(scope);
        proof {
            let scopes = self@;
            assert forall|s: int, c: int|
                #![trigger scopes[s].children[c]]
                0 <= s < scopes.len() && 0 <= c < scopes[s].children.len() implies s
                < scopes[s].children[c].0 < scopes.len() by {
                if s < before.len() && c < before[s].children.len() {
                    assert(scopes[s].children[c] == before[s].children[c]);
                }
            }
        }
        added
    }

    /// Finds the child of a scope that `pos` lies in.
    fn find_child(&self, scope: Scope, pos: u32) -> (child: Option<Scope>)
        requires
            is_scope_tree(self@),
            scope.0 < self@.len(),
        ensures
            child == child_at(self@, scope, pos),
    {
        let children = &self.scopes[scope.0 as usize].children;
        let mut at: usize = 0;
        while at < children.len() && self.scopes[children[at].0 as usize].range.end <= pos
            invariant
                is_scope_tree(self@),
                self@.len() == self.scopes.len(),
                scope.0 < self.scopes.len(),
                children@ == self@[scope.0 as int].children,
                at <= children.len(),
                child_ending_past(self@, children@, 0, pos) == child_ending_past(
                    self@,
                    children@,
                    at as int,
                    pos,
                ),
            decreases children.len() - at,
        {
            at = at + 1;
        }
        if at < children.len() && self.scopes[children[at].0 as usize].range.start <= pos {
            Some(children[at])
        } else {
            None
        }
    }

    /// Finds the innermost scope that `pos` lies in.
    fn find_scope(&self, pos: u32) -> (scope: Scope)
        requires
            is_scope_tree(self@),
        ensures
            scope == scope_at(self@, pos),
            scope.0 < self@.len(),
    {
        let mut scope = Scope(0);
        loop
            invariant
                is_scope_tree(self@),
                scope.0 < self@.len(),
                scope_within(self@, scope, pos) == scope_at(self@, pos),
            decreases self@.len() - scope.0,
        {
            proof {
                lemma_child_ending_past(self@, self@[scope.0 as int].children, 0, pos);
            }
            match self.find_child(scope, pos) {
                Some(child) => {
                    scope = child;
                },
                None => {
                    return scope;
                },
            }
        }
    }

    /// Starts to follow the scopes of a document at `pos`.
    pub fn scope_cursor(&self, pos: u32) -> (cursor: ScopeCursor<'_>)
        requires
            is_scope_tree(self@),
        ensures
            cursor.locals == self,
            cursor.scope == scope_at(self@, pos),
    {
        ScopeCursor { locals: self, scope: self.find_scope(pos) }
    }
}

/// Follows the scopes of a document.
#[derive(Debug)]
pub struct ScopeCursor<'a> {
    pub locals: &'a Locals,
    pub scope: Scope,
}

impl<'a> ScopeCursor<'a> {
    /// Moves to another position, and returns the innermost scope there.
    pub fn advance(&mut self, to: u32) -> (scope: Scope)
        requires
            is_scope_tree(old(self).locals@),
        ensures
            final(self).locals == old(self).locals,
            final(self).scope == scope_at(old(self).locals@, to),
            scope == final(self).scope,
    {
        self.scope = self.locals.find_scope(to);
        self.scope
    }

    /// The innermost scope at the current position.
    pub fn current_scope(&self) -> (scope: Scope)
        ensures
            scope == self.scope,
    {
        self.scope
    }
}

/// A position that lies in a child of a scope is looked up in that child. One that lies in no
/// child belongs to the scope itself.
pub proof fn lemma_scope_of_a_child(scopes: Seq<ScopeView>, scope: Scope, pos: u32)
    requires
        is_scope_tree(scopes),
        is_nested(scopes),
        scope.0 < scopes.len(),
    ensures
        forall|c: int|
            #![trigger scopes[scope.0 as int].children[c]]
            0 <= c < scopes[scope.0 as int].children.len() && scopes[scopes[scope.0 as int].children[c].0 as int].range.start
                <= pos < scopes[scopes[scope.0 as int].children[c].0 as int].range.end
                ==> scope_within(scopes, scope, pos) == scope_within(
                scopes,
                scopes[scope.0 as int].children[c],
                pos,
            ),
        (forall|c: int|
            #![trigger scopes[scope.0 as int].children[c]]
            0 <= c < scopes[scope.0 as int].children.len() ==> !(scopes[scopes[scope.0 as int].children[c].0 as int].range.start
                <= pos < scopes[scopes[scope.0 as int].children[c].0 as int].range.end))
            ==> scope_within(scopes, scope, pos) == scope,
{
    let children = scopes[scope.0 as int].children;
    lemma_child_ending_past(scopes, children, 0, pos);
    let at = child_ending_past(scopes, children, 0, pos);
    assert forall|c: int|
        #![trigger scopes[scope.0 as int].children[c]]
        0 <= c < children.len() && scopes[children[c].0 as int].range.start <= pos
            < scopes[children[c].0 as int].range.end implies scope_within(scopes, scope, pos)
        == scope_within(scopes, children[c], pos) by {
        assert(scopes[scope.0 as int].children[at] == children[at]);
        if at < c {
            assert(scopes[children[at].0 as int].range.end
                <= scopes[children[c].0 as int].range.start);
        }
        assert(at == c);
    }
}

/// A position is looked up from the scope that holds all others.
pub proof fn lemma_lookup_starts_at_the_root(scopes: Seq<ScopeView>, pos: u32)
    requires
        is_scope_tree(scopes),
    ensures
        scope_at(scopes, pos) == scope_within(scopes, Scope(0), pos),
        scopes[0].children.len() == 0 ==> scope_at(scopes, pos) == Scope(0),
{
}

} // verus!
