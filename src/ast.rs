use vstd::prelude::*;

use crate::num::Num;

verus! {

/// One endpoint of a range.
#[derive(Clone, Copy, Debug, PartialEq, Eq, Structural)]
pub enum Bound {
    Inclusive,
    Exclusive,
}

/// A binary operator.
#[derive(Clone, Copy, Debug, PartialEq, Eq, Structural)]
pub enum Op {
    Add,
    Sub,
    Mul,
    Div,
    Eq,
    Neq,
    Gt,
    Ge,
    Lt,
    Le,
}

/// The modifier of a declaration.
#[derive(Clone, Copy, Debug, PartialEq, Eq, Structural)]
pub enum Mut {
    Mutable,
    Immutable,
}

/// A node of the syntax tree; values of the interpreter are nodes too.
#[derive(Debug, PartialEq)]
pub enum Node {
    Nada,
    Number(Num),
    Bool(bool),
    String(String),
    Range { from: Box<Node>, to: Box<Node>, lower: Bound, upper: Bound },
    Loop { var: String, iterable: Box<Node>, inner: Box<Node> },
    While { condition: Box<Node>, inner: Box<Node> },
    IfElse { condition: Box<Node>, if_block: Box<Node>, else_block: Box<Node> },
    Statements(Vec<Node>),
    FnCall(String, Vec<Node>),
    FnDef(Option<String>, Vec<String>, Box<Node>),
    ScopedFnDef(Option<String>, Vec<String>, Box<Node>, Scope),
    List(Vec<Node>),
    Expr { op: Op, lhs: Box<Node>, rhs: Box<Node> },
    Define(Mut, String, Box<Node>),
    Assign(String, Box<Node>),
    VarRef(String),
}

/// The bindings of the interpreter. `vars` is a stack of bindings, innermost last, whose
/// entries from index `frame` on belong to the innermost block; `parent` holds what a
/// closure captured.
#[derive(Debug, PartialEq)]
pub struct Scope {
    pub vars: Vec<(String, Node)>,
    pub frame: usize,
    pub parent: Vec<(String, Node)>,
}

/// The mathematical value of a node: names are character sequences, children sequences.
pub enum Term {
    Nada,
    Number(Num),
    Bool(bool),
    Str(Seq<char>),
    Range { from: Box<Term>, to: Box<Term>, lower: Bound, upper: Bound },
    Loop { var: Seq<char>, iterable: Box<Term>, inner: Box<Term> },
    While { condition: Box<Term>, inner: Box<Term> },
    IfElse { condition: Box<Term>, if_block: Box<Term>, else_block: Box<Term> },
    Statements(Seq<Term>),
    FnCall(Seq<char>, Seq<Term>),
    FnDef(Option<Seq<char>>, Seq<Seq<char>>, Box<Term>),
    ScopedFnDef(Option<Seq<char>>, Seq<Seq<char>>, Box<Term>, Env),
    List(Seq<Term>),
    Expr { op: Op, lhs: Box<Term>, rhs: Box<Term> },
    Define(Mut, Seq<char>, Box<Term>),
    Assign(Seq<char>, Box<Term>),
    VarRef(Seq<char>),
}

/// The mathematical value of a scope.
pub struct Env {
    pub vars: Seq<(Seq<char>, Term)>,
    pub frame: nat,
    pub parent: Seq<(Seq<char>, Term)>,
}

pub open spec fn name_view(n: Option<String>) -> Option<Seq<char>> {
    match n {
        Some(s) => Some(s@),
        None => None,
    }
}

pub open spec fn names_view(v: Seq<String>) -> Seq<Seq<char>> {
    v.map_values(|s: String| s@)
}

pub open spec fn nodes_view(s: Seq<Node>) -> Seq<Term>
    decreases s,
{
    Seq::new(s.len(), |i: int| if 0 <= i < s.len() { s[i].view() } else { Term::Nada })
}

pub open spec fn entries_view(s: Seq<(String, Node)>) -> Seq<(Seq<char>, Term)>
    decreases s,
{
    Seq::new(s.len(), |i: int| if 0 <= i < s.len() { (s[i].0@, s[i].1.view()) } else { (Seq::empty(), Term::Nada) })
}

impl Node {
    pub open spec fn view(&self) -> Term
        decreases self,
    {
        match self {
            Node::Nada => Term::Nada,
            Node::Number(n) => Term::Number(*n),
            Node::Bool(b) => Term::Bool(*b),
            Node::String(s) => Term::Str(s@),
            Node::Range { from, to, lower, upper } => Term::Range {
                from: Box::new(from.view()),
                to: Box::new(to.view()),
                lower: *lower,
                upper: *upper,
            },
            Node::Loop { var, iterable, inner } => Term::Loop {
                var: var@,
                iterable: Box::new(iterable.view()),
                inner: Box::new(inner.view()),
            },
            Node::While { condition, inner } => Term::While {
                condition: Box::new(condition.view()),
                inner: Box::new(inner.view()),
            },
            Node::IfElse { condition, if_block, else_block } => Term::IfElse {
                condition: Box::new(condition.view()),
                if_block: Box::new(if_block.view()),
                else_block: Box::new(else_block.view()),
            },
            Node::Statements(v) => Term::Statements(nodes_view(v@)),
            Node::FnCall(name, args) => Term::FnCall(name@, nodes_view(args@)),
            Node::FnDef(name, params, body) => Term::FnDef(
                name_view(*name),
                names_view(params@),
                Box::new(body.view()),
            ),
            Node::ScopedFnDef(name, params, body, scope) => Term::ScopedFnDef(
                name_view(*name),
                names_view(params@),
                Box::new(body.view()),
                Env {
                    vars: entries_view(scope.vars@),
                    frame: scope.frame as nat,
                    parent: entries_view(scope.parent@),
                },
            ),
            Node::List(v) => Term::List(nodes_view(v@)),
            Node::Expr { op, lhs, rhs } => Term::Expr {
                op: *op,
                lhs: Box::new(lhs.view()),
                rhs: Box::new(rhs.view()),
            },
            Node::Define(m, name, e) => Term::Define(*m, name@, Box::new(e.view())),
            Node::Assign(name, e) => Term::Assign(name@, Box::new(e.view())),
            Node::VarRef(name) => Term::VarRef(name@),
        }
    }
}

pub proof fn lemma_nodes_view(s: Seq<Node>)
    ensures
        nodes_view(s).len() == s.len(),
        forall|i: int| 0 <= i < s.len() ==> #[trigger] nodes_view(s)[i] == s[i].view(),
{
    reveal_with_fuel(nodes_view, 1);
}

pub proof fn lemma_entries_view(s: Seq<(String, Node)>)
    ensures
        entries_view(s).len() == s.len(),
        forall|i: int| 0 <= i < s.len() ==> #[trigger] entries_view(s)[i] == (s[i].0@, s[i].1.view()),
{
    reveal_with_fuel(entries_view, 1);
}

impl Node {
    /// A copy of the node with the same value.
    pub fn deep_clone(&self) -> (r: Node)
        ensures
            r.view() == self.view(),
        decreases self,
    {
        match self {
            Node::Nada => Node::Nada,
            Node::Number(n) => Node::Number(*n),
            Node::Bool(b) => Node::Bool(*b),
            Node::String(s) => Node::String(s.clone()),
            Node::Range { from, to, lower, upper } => Node::Range {
                from: Box::new(from.deep_clone()),
                to: Box::new(to.deep_clone()),
                lower: *lower,
                upper: *upper,
            },
            Node::Loop { var, iterable, inner } => Node::Loop {
                var: var.clone(),
                iterable: Box::new(iterable.deep_clone()),
                inner: Box::new(inner.deep_clone()),
            },
            Node::While { condition, inner } => Node::While {
                condition: Box::new(condition.deep_clone()),
                inner: Box::new(inner.deep_clone()),
            },
            Node::IfElse { condition, if_block, else_block } => Node::IfElse {
                condition: Box::new(condition.deep_clone()),
                if_block: Box::new(if_block.deep_clone()),
                else_block: Box::new(else_block.deep_clone()),
            },
            Node::Statements(v) => Node::Statements(clone_nodes(v)),
            Node::FnCall(name, args) => Node::FnCall(name.clone(), clone_nodes(args)),
            Node::FnDef(name, params, body) => Node::FnDef(
                clone_name(name),
                clone_names(params),
                Box::new(body.deep_clone()),
            ),
            Node::ScopedFnDef(name, params, body, scope) => Node::ScopedFnDef(
                clone_name(name),
                clone_names(params),
                Box::new(body.deep_clone()),
                scope.deep_clone(),
            ),
            Node::List(v) => Node::List(clone_nodes(v)),
            Node::Expr { op, lhs, rhs } => Node::Expr {
                op: *op,
                lhs: Box::new(lhs.deep_clone()),
                rhs: Box::new(rhs.deep_clone()),
            },
            Node::Define(m, name, e) => Node::Define(*m, name.clone(), Box::new(e.deep_clone())),
            Node::Assign(name, e) => Node::Assign(name.clone(), Box::new(e.deep_clone())),
            Node::VarRef(name) => Node::VarRef(name.clone()),
        }
    }
}

pub fn clone_name(n: &Option<String>) -> (r: Option<String>)
    ensures
        name_view(r) == name_view(*n),
{
    match n {
        Some(s) => Some(s.clone()),
        None => None,
    }
}

pub fn clone_names(v: &Vec<String>) -> (r: Vec<String>)
    ensures
        names_view(r@) == names_view(v@),
{
    let mut w: Vec<String> = Vec::new();
    let mut i: usize = 0;
    while i < v.len()
        invariant
            i <= v@.len(),
            w@.len() == i,
            forall|j: int| 0 <= j < i ==> #[trigger] w@[j]@ == v@[j]@,
        decreases v@.len() - i,
    {
        w.push(v[i].clone());
        i = i + 1;
    }
    assert(names_view(w@) =~= names_view(v@));
    w
}

pub fn clone_nodes(v: &Vec<Node>) -> (r: Vec<Node>)
    ensures
        nodes_view(r@) == nodes_view(v@),
    decreases v,
{
    let mut w: Vec<Node> = Vec::new();
    let mut i: usize = 0;
    while i < v.len()
        invariant
            i <= v@.len(),
            w@.len() == i,
            forall|j: int| 0 <= j < i ==> #[trigger] w@[j].view() == v@[j].view(),
        decreases v@.len() - i,
    {
        proof {
            assert(decreases_to!(*v => v@));
            assert(decreases_to!(v@ => v@[i as int]));
        }
        let c = v[i].deep_clone();
        w.push(c);
        i = i + 1;
    }
    proof {
        lemma_nodes_view(w@);
        lemma_nodes_view(v@);
    }
    assert(nodes_view(w@) =~= nodes_view(v@));
    w
}

pub fn clone_entries(v: &Vec<(String, Node)>) -> (r: Vec<(String, Node)>)
    ensures
        entries_view(r@) == entries_view(v@),
    decreases v,
{
    let mut w: Vec<(String, Node)> = Vec::new();
    let mut i: usize = 0;
    while i < v.len()
        invariant
            i <= v@.len(),
            w@.len() == i,
            forall|j: int| 0 <= j < i ==> #[trigger] w@[j].1.view() == v@[j].1.view() && w@[j].0@ == v@[j].0@,
        decreases v@.len() - i,
    {
        proof {
            assert(decreases_to!(*v => v@));
            assert(decreases_to!(v@ => v@[i as int]));
            assert(decreases_to!(v@[i as int] => v@[i as int].1));
        }
        let c = v[i].1.deep_clone();
        w.push((v[i].0.clone(), c));
        i = i + 1;
    }
    proof {
        lemma_entries_view(w@);
        lemma_entries_view(v@);
    }
    assert(entries_view(w@) =~= entries_view(v@));
    w
}

impl Scope {
    /// A copy of the scope with the same value.
    pub fn deep_clone(&self) -> (r: Scope)
        ensures
            r.view() == self.view(),
        decreases self,
    {
        Scope { vars: clone_entries(&self.vars), frame: self.frame, parent: clone_entries(&self.parent) }
    }
}

impl Scope {
    pub open spec fn view(&self) -> Env {
        Env {
            vars: entries_view(self.vars@),
            frame: self.frame as nat,
            parent: entries_view(self.parent@),
        }
    }
}

} // verus!
