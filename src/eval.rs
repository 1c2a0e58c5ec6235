use vstd::prelude::*;

use crate::ast::{
    clone_name, clone_names, entries_view, lemma_entries_view, lemma_nodes_view, name_view,
    names_view, nodes_view, Bound, Env, Node, Op, Term,
};
use crate::num::{
    add_spec, div_spec, eq_spec, floor_spec, lt_spec, mul_spec, num_of_int, sub_spec, Arith, Num,
};

pub use crate::ast::Scope;

verus! {

/// What went wrong during evaluation, as a mathematical value.
pub enum Fault {
    UnboundName(Seq<char>),
    TypeError,
    Overflow,
    DivisionByZero,
    ArityError,
    OutOfFuel,
}

/// What went wrong during evaluation.
#[derive(Debug, PartialEq, Eq)]
pub enum EvalError {
    /// A name that no binding in scope has.
    UnboundName(String),
    /// An operand or a condition of the wrong shape.
    TypeError,
    /// An arithmetic result that does not fit.
    Overflow,
    /// A division by zero.
    DivisionByZero,
    /// A call whose number of arguments differs from the number of parameters.
    ArityError,
    /// The evaluation ran out of steps.
    OutOfFuel,
}

impl EvalError {
    pub open spec fn view(&self) -> Fault {
        match self {
            EvalError::UnboundName(s) => Fault::UnboundName(s@),
            EvalError::TypeError => Fault::TypeError,
            EvalError::Overflow => Fault::Overflow,
            EvalError::DivisionByZero => Fault::DivisionByZero,
            EvalError::ArityError => Fault::ArityError,
            EvalError::OutOfFuel => Fault::OutOfFuel,
        }
    }
}

pub open spec fn result_view(r: Result<Node, EvalError>) -> Result<Term, Fault> {
    match r {
        Ok(n) => Ok(n.view()),
        Err(e) => Err(e.view()),
    }
}

/// The lines printed so far: the arguments of each call of `printf`.
pub type Out = Seq<Seq<Term>>;

/// The result of evaluating one node, with the scope and the output after it.
pub struct Outcome {
    pub value: Result<Term, Fault>,
    pub env: Env,
    pub out: Out,
}

/// The result of evaluating a sequence of nodes into a sequence of values.
pub struct Items {
    pub values: Result<Seq<Term>, Fault>,
    pub env: Env,
    pub out: Out,
}

pub type Entries = Seq<(Seq<char>, Term)>;

/// The index of the last binding of `k` in `s`, or -1.
pub open spec fn last_index(s: Entries, k: Seq<char>) -> int
    decreases s.len(),
{
    if s.len() == 0 {
        -1
    } else if s.last().0 == k {
        s.len() - 1
    } else {
        last_index(s.drop_last(), k)
    }
}

/// The value that `k` names: the innermost own binding, else the captured one.
pub open spec fn lookup(e: Env, k: Seq<char>) -> Option<Term> {
    let i = last_index(e.vars, k);
    let j = last_index(e.parent, k);
    if i >= 0 {
        Some(e.vars[i].1)
    } else if j >= 0 {
        Some(e.parent[j].1)
    } else {
        None
    }
}

/// All bindings visible in a scope, flattened; later entries shadow earlier ones.
pub open spec fn combined(e: Env) -> Entries {
    e.parent + e.vars
}

/// Binds `k` in the innermost block: a binding there is replaced, else one is added.
pub open spec fn define(e: Env, k: Seq<char>, v: Term) -> Env {
    let i = last_index(e.vars, k);
    if i >= e.frame {
        Env { vars: e.vars.update(i, (k, v)), frame: e.frame, parent: e.parent }
    } else {
        Env { vars: e.vars.push((k, v)), frame: e.frame, parent: e.parent }
    }
}

/// Rebinds the nearest binding of `k`; `None` when there is none.
pub open spec fn assign(e: Env, k: Seq<char>, v: Term) -> Option<Env> {
    let i = last_index(e.vars, k);
    let j = last_index(e.parent, k);
    if i >= 0 {
        Some(Env { vars: e.vars.update(i, (k, v)), frame: e.frame, parent: e.parent })
    } else if j >= 0 {
        Some(Env { vars: e.vars, frame: e.frame, parent: e.parent.update(j, (k, v)) })
    } else {
        None
    }
}

pub open spec fn truncate(s: Entries, n: nat) -> Entries {
    if s.len() > n {
        s.subrange(0, n as int)
    } else {
        s
    }
}

pub open spec fn empty_env() -> Env {
    Env { vars: Seq::empty(), frame: 0, parent: Seq::empty() }
}

pub open spec fn printf_name() -> Seq<char> {
    seq!['p', 'r', 'i', 'n', 't', 'f']
}

pub open spec fn arith_result(r: Arith) -> Result<Term, Fault> {
    match r {
        Arith::Value(n) => Ok(Term::Number(n)),
        Arith::Overflow => Err(Fault::Overflow),
        Arith::DivisionByZero => Err(Fault::DivisionByZero),
    }
}

/// `a op b` on two numbers.
pub open spec fn arith(op: Op, a: Num, b: Num) -> Result<Term, Fault> {
    match op {
        Op::Add => arith_result(add_spec(a, b)),
        Op::Sub => arith_result(sub_spec(a, b)),
        Op::Mul => arith_result(mul_spec(a, b)),
        Op::Div => arith_result(div_spec(a, b)),
        Op::Eq => Ok(Term::Bool(eq_spec(a, b))),
        Op::Neq => Ok(Term::Bool(!eq_spec(a, b))),
        Op::Gt => Ok(Term::Bool(lt_spec(b, a))),
        Op::Ge => Ok(Term::Bool(!lt_spec(a, b))),
        Op::Lt => Ok(Term::Bool(lt_spec(a, b))),
        Op::Le => Ok(Term::Bool(!lt_spec(b, a))),
    }
}

/// `k * t` (for `Mul`) or `t / k` (for `Div`), element by element through nested lists.
pub open spec fn scale(op: Op, k: Num, t: Term) -> Result<Term, Fault>
    decreases t, 0nat,
{
    match t {
        Term::Number(n) => if op is Mul {
            arith(op, k, n)
        } else {
            arith(op, n, k)
        },
        Term::List(xs) => scale_items(op, k, xs, 0, Seq::empty()),
        _ => Err(Fault::TypeError),
    }
}

/// Scales `xs` from index `i` on, after the already scaled `acc`.
pub open spec fn scale_items(op: Op, k: Num, xs: Seq<Term>, i: int, acc: Seq<Term>) -> Result<Term, Fault>
    decreases xs, xs.len() - i,
{
    if 0 <= i < xs.len() {
        match scale(op, k, xs[i]) {
            Ok(v) => scale_items(op, k, xs, i + 1, acc.push(v)),
            Err(e) => Err(e),
        }
    } else {
        Ok(Term::List(acc))
    }
}

/// A binary operator on two values.
pub open spec fn binop(op: Op, l: Term, r: Term) -> Result<Term, Fault> {
    match (l, r) {
        (Term::Number(a), Term::Number(b)) => arith(op, a, b),
        (Term::List(xs), Term::List(ys)) => if op is Add {
            Ok(Term::List(xs + ys))
        } else {
            Err(Fault::TypeError)
        },
        (Term::Number(a), Term::List(_)) => if op is Mul {
            scale(op, a, r)
        } else {
            Err(Fault::TypeError)
        },
        (Term::List(_), Term::Number(b)) => if op is Div {
            scale(op, b, l)
        } else {
            Err(Fault::TypeError)
        },
        _ => Err(Fault::TypeError),
    }
}

pub open spec fn out_of_fuel(env: Env, out: Out) -> Outcome {
    Outcome { value: Err(Fault::OutOfFuel), env, out }
}

pub open spec fn fail(f: Fault, env: Env, out: Out) -> Outcome {
    Outcome { value: Err(f), env, out }
}

pub open spec fn done(v: Term, env: Env, out: Out) -> Outcome {
    Outcome { value: Ok(v), env, out }
}

/// The value of `t` in scope `env` after output `out`, within `fuel` steps.
pub open spec fn eval_spec(t: Term, env: Env, out: Out, fuel: nat) -> Outcome
    decreases fuel, 1nat,
{
    if fuel == 0 {
        out_of_fuel(env, out)
    } else {
        let f = (fuel - 1) as nat;
        match t {
            Term::Statements(ts) => {
                let inner = Env { vars: env.vars, frame: env.vars.len(), parent: env.parent };
                let o = eval_block(ts, 0, Term::Nada, inner, out, f);
                match o.value {
                    Ok(v) => done(
                        v,
                        Env {
                            vars: truncate(o.env.vars, env.vars.len()),
                            frame: env.frame,
                            parent: o.env.parent,
                        },
                        o.out,
                    ),
                    Err(_) => o,
                }
            },
            Term::Define(_, k, e) => {
                let o = eval_spec(*e, env, out, f);
                match o.value {
                    Ok(v) => done(Term::Nada, define(o.env, k, v), o.out),
                    Err(_) => o,
                }
            },
            Term::Assign(k, e) => {
                let o = eval_spec(*e, env, out, f);
                match o.value {
                    Ok(v) => match assign(o.env, k, v) {
                        Some(e2) => done(Term::Nada, e2, o.out),
                        None => fail(Fault::UnboundName(k), o.env, o.out),
                    },
                    Err(_) => o,
                }
            },
            Term::List(ts) => {
                let o = eval_items(ts, 0, Seq::empty(), env, out, f);
                match o.values {
                    Ok(vs) => done(Term::List(vs), o.env, o.out),
                    Err(x) => fail(x, o.env, o.out),
                }
            },
            Term::Range { from, to, lower, upper } => {
                let o1 = eval_spec(*from, env, out, f);
                match o1.value {
                    Ok(a) => {
                        let o2 = eval_spec(*to, o1.env, o1.out, f);
                        match o2.value {
                            Ok(z) => if a is Number && z is Number {
                                done(
                                    Term::Range { from: Box::new(a), to: Box::new(z), lower, upper },
                                    o2.env,
                                    o2.out,
                                )
                            } else {
                                fail(Fault::TypeError, o2.env, o2.out)
                            },
                            Err(_) => o2,
                        }
                    },
                    Err(_) => o1,
                }
            },
            Term::While { condition, inner } => eval_while(*condition, *inner, Term::Nada, env, out, f),
            Term::Loop { var, iterable, inner } => {
                let o = eval_spec(*iterable, env, out, f);
                match o.value {
                    Ok(Term::Range { from, to, lower, upper }) => match (*from, *to) {
                        (Term::Number(a), Term::Number(z)) => {
                            let start = floor_spec(a) + if lower is Exclusive { 1int } else { 0int };
                            let end = floor_spec(z) + if upper is Inclusive { 1int } else { 0int };
                            eval_range(var, *inner, start, end, Seq::empty(), o.env, o.out, f)
                        },
                        _ => fail(Fault::TypeError, o.env, o.out),
                    },
                    Ok(Term::List(xs)) => eval_each(var, *inner, xs, 0, Seq::empty(), o.env, o.out, f),
                    Ok(_) => fail(Fault::TypeError, o.env, o.out),
                    Err(_) => o,
                }
            },
            Term::FnDef(name, params, body) => {
                let closure = Term::ScopedFnDef(
                    name,
                    params,
                    body,
                    Env { vars: Seq::empty(), frame: 0, parent: combined(env) },
                );
                match name {
                    Some(k) => done(closure, define(env, k, closure), out),
                    None => done(closure, env, out),
                }
            },
            Term::IfElse { condition, if_block, else_block } => {
                let o = eval_spec(*condition, env, out, f);
                match o.value {
                    Ok(Term::Bool(true)) => eval_spec(*if_block, o.env, o.out, f),
                    Ok(Term::Bool(false)) => eval_spec(*else_block, o.env, o.out, f),
                    Ok(_) => fail(Fault::TypeError, o.env, o.out),
                    Err(_) => o,
                }
            },
            Term::Expr { op, lhs, rhs } => {
                let o1 = eval_spec(*lhs, env, out, f);
                match o1.value {
                    Ok(a) => {
                        let o2 = eval_spec(*rhs, o1.env, o1.out, f);
                        match o2.value {
                            Ok(b) => Outcome { value: binop(op, a, b), env: o2.env, out: o2.out },
                            Err(_) => o2,
                        }
                    },
                    Err(_) => o1,
                }
            },
            Term::FnCall(k, args) => {
                let o = eval_items(args, 0, Seq::empty(), env, out, f);
                match o.values {
                    Err(x) => fail(x, o.env, o.out),
                    Ok(vs) => if k == printf_name() {
                        done(Term::Nada, o.env, o.out.push(vs))
                    } else {
                        match lookup(o.env, k) {
                            None => fail(Fault::UnboundName(k), o.env, o.out),
                            Some(fv) => match fv {
                                Term::ScopedFnDef(dn, ps, body, cap) => if ps.len() != vs.len() {
                                    fail(Fault::ArityError, o.env, o.out)
                                } else {
                                    let e0 = match dn {
                                        Some(d) => define(cap, d, fv),
                                        None => cap,
                                    };
                                    let r = eval_spec(*body, bind_params(e0, ps, vs, 0), o.out, f);
                                    Outcome { value: r.value, env: o.env, out: r.out }
                                },
                                _ => fail(Fault::TypeError, o.env, o.out),
                            },
                        }
                    },
                }
            },
            Term::VarRef(k) => match lookup(env, k) {
                Some(v) => done(v, env, out),
                None => fail(Fault::UnboundName(k), env, out),
            },
            _ => done(t, env, out),
        }
    }
}

/// The value of a program: like `eval_spec`, except that the statements of a top-level
/// block run in `env` itself, so that their definitions stay in it.
pub open spec fn eval_top(t: Term, env: Env, out: Out, fuel: nat) -> Outcome {
    if fuel == 0 {
        out_of_fuel(env, out)
    } else {
        match t {
            Term::Statements(ts) => eval_block(ts, 0, Term::Nada, env, out, (fuel - 1) as nat),
            _ => eval_spec(t, env, out, fuel),
        }
    }
}

/// Binds parameter names to argument values, from index `i` on, in order.
pub open spec fn bind_params(e: Env, ps: Seq<Seq<char>>, vs: Seq<Term>, i: int) -> Env
    decreases ps.len() - i,
{
    if 0 <= i < ps.len() && i < vs.len() {
        bind_params(define(e, ps[i], vs[i]), ps, vs, i + 1)
    } else {
        e
    }
}

/// Evaluates `ts` from index `i` on; the value is the last one, `last` if there is none.
pub open spec fn eval_block(ts: Seq<Term>, i: int, last: Term, env: Env, out: Out, fuel: nat) -> Outcome
    decreases fuel, 0nat,
{
    if fuel == 0 {
        out_of_fuel(env, out)
    } else if 0 <= i < ts.len() {
        let o = eval_spec(ts[i], env, out, (fuel - 1) as nat);
        match o.value {
            Ok(v) => eval_block(ts, i + 1, v, o.env, o.out, (fuel - 1) as nat),
            Err(_) => o,
        }
    } else {
        done(last, env, out)
    }
}

/// Evaluates `ts` from index `i` on into values, after those in `acc`.
pub open spec fn eval_items(ts: Seq<Term>, i: int, acc: Seq<Term>, env: Env, out: Out, fuel: nat) -> Items
    decreases fuel, 0nat,
{
    if fuel == 0 {
        Items { values: Err(Fault::OutOfFuel), env, out }
    } else if 0 <= i < ts.len() {
        let o = eval_spec(ts[i], env, out, (fuel - 1) as nat);
        match o.value {
            Ok(v) => eval_items(ts, i + 1, acc.push(v), o.env, o.out, (fuel - 1) as nat),
            Err(x) => Items { values: Err(x), env: o.env, out: o.out },
        }
    } else {
        Items { values: Ok(acc), env, out }
    }
}

/// Runs a `while` loop whose body last gave `last`.
pub open spec fn eval_while(c: Term, body: Term, last: Term, env: Env, out: Out, fuel: nat) -> Outcome
    decreases fuel, 0nat,
{
    if fuel == 0 {
        out_of_fuel(env, out)
    } else {
        let f = (fuel - 1) as nat;
        let oc = eval_spec(c, env, out, f);
        match oc.value {
            Ok(Term::Bool(true)) => {
                let ob = eval_spec(body, oc.env, oc.out, f);
                match ob.value {
                    Ok(v) => eval_while(c, body, v, ob.env, ob.out, f),
                    Err(_) => ob,
                }
            },
            Ok(Term::Bool(false)) => done(last, oc.env, oc.out),
            Ok(_) => fail(Fault::TypeError, oc.env, oc.out),
            Err(_) => oc,
        }
    }
}

/// Keeps a loop body's value unless it is `Nada`.
pub open spec fn collect(acc: Seq<Term>, v: Term) -> Seq<Term> {
    if v is Nada {
        acc
    } else {
        acc.push(v)
    }
}

/// Runs a `for` loop over the integers `i .. end`.
pub open spec fn eval_range(
    var: Seq<char>,
    body: Term,
    i: int,
    end: int,
    acc: Seq<Term>,
    env: Env,
    out: Out,
    fuel: nat,
) -> Outcome
    decreases fuel, 0nat,
{
    if fuel == 0 {
        out_of_fuel(env, out)
    } else if i < end {
        let f = (fuel - 1) as nat;
        let ob = eval_spec(body, define(env, var, Term::Number(num_of_int(i))), out, f);
        match ob.value {
            Ok(v) => eval_range(var, body, i + 1, end, collect(acc, v), ob.env, ob.out, f),
            Err(_) => ob,
        }
    } else {
        done(Term::List(acc), env, out)
    }
}

/// Runs a `for` loop over the elements of `xs` from index `i` on.
pub open spec fn eval_each(
    var: Seq<char>,
    body: Term,
    xs: Seq<Term>,
    i: int,
    acc: Seq<Term>,
    env: Env,
    out: Out,
    fuel: nat,
) -> Outcome
    decreases fuel, 0nat,
{
    if fuel == 0 {
        out_of_fuel(env, out)
    } else if 0 <= i < xs.len() {
        let f = (fuel - 1) as nat;
        let ob = eval_spec(body, define(env, var, xs[i]), out, f);
        match ob.value {
            Ok(v) => eval_each(var, body, xs, i + 1, collect(acc, v), ob.env, ob.out, f),
            Err(_) => ob,
        }
    } else {
        done(Term::List(acc), env, out)
    }
}

} // verus!

verus! {

proof fn lemma_entries_update(s: Seq<(String, Node)>, i: int, k: String, v: Node)
    requires
        0 <= i < s.len(),
    ensures
        entries_view(s.update(i, (k, v))) == entries_view(s).update(i, (k@, v.view())),
{
    lemma_entries_view(s);
    lemma_entries_view(s.update(i, (k, v)));
    assert(entries_view(s.update(i, (k, v))) =~= entries_view(s).update(i, (k@, v.view())));
}

proof fn lemma_entries_push(s: Seq<(String, Node)>, k: String, v: Node)
    ensures
        entries_view(s.push((k, v))) == entries_view(s).push((k@, v.view())),
{
    lemma_entries_view(s);
    lemma_entries_view(s.push((k, v)));
    assert(entries_view(s.push((k, v))) =~= entries_view(s).push((k@, v.view())));
}

proof fn lemma_entries_truncate(s: Seq<(String, Node)>, n: nat)
    requires
        n <= s.len(),
    ensures
        entries_view(s.subrange(0, n as int)) == entries_view(s).subrange(0, n as int),
{
    lemma_entries_view(s);
    lemma_entries_view(s.subrange(0, n as int));
    assert(entries_view(s.subrange(0, n as int)) =~= entries_view(s).subrange(0, n as int));
}

proof fn lemma_last_index_range(s: Entries, k: Seq<char>)
    ensures
        -1 <= last_index(s, k) < s.len(),
        last_index(s, k) >= 0 ==> s[last_index(s, k)].0 == k,
    decreases s.len(),
{
    if s.len() > 0 && s.last().0 != k {
        lemma_last_index_range(s.drop_last(), k);
    }
}

/// The index of the last entry of `v` bound to `k`.
fn find_last(v: &Vec<(String, Node)>, k: &String) -> (r: Option<usize>)
    ensures
        match r {
            Some(i) => i as int == last_index(entries_view(v@), k@),
            None => last_index(entries_view(v@), k@) == -1,
        },
{
    let ghost ev = entries_view(v@);
    proof {
        lemma_entries_view(v@);
        assert(ev.subrange(0, v@.len() as int) =~= ev);
    }
    let mut i: usize = v.len();
    while i > 0
        invariant
            i <= v@.len(),
            ev == entries_view(v@),
            ev.len() == v@.len(),
            forall|j: int| 0 <= j < v@.len() ==> #[trigger] ev[j] == (v@[j].0@, v@[j].1.view()),
            last_index(ev, k@) == last_index(ev.subrange(0, i as int), k@),
        decreases i,
    {
        let ghost sub = ev.subrange(0, i as int);
        if v[i - 1].0 == *k {
            assert(sub.last().0 == k@);
            return Some(i - 1);
        }
        assert(sub.drop_last() =~= ev.subrange(0, i - 1));
        i = i - 1;
    }
    None
}

impl Scope {
    /// The value that `key` names: the innermost own binding, else the captured one.
    pub fn get(&self, key: &String) -> (r: Option<&Node>)
        ensures
            match r {
                Some(n) => lookup(self.view(), key@) == Some(n.view()),
                None => lookup(self.view(), key@) is None,
            },
    {
        proof {
            lemma_entries_view(self.vars@);
            lemma_entries_view(self.parent@);
            lemma_last_index_range(self.view().vars, key@);
            lemma_last_index_range(self.view().parent, key@);
        }
        match find_last(&self.vars, key) {
            Some(i) => Some(&self.vars[i].1),
            None => match find_last(&self.parent, key) {
                Some(j) => Some(&self.parent[j].1),
                None => None,
            },
        }
    }

    /// All bindings visible here, flattened: the captured ones, then the own ones.
    pub fn combined(&self) -> (r: Vec<(String, Node)>)
        ensures
            entries_view(r@) == combined(self.view()),
    {
        let mut r = crate::ast::clone_entries(&self.parent);
        let mut own = crate::ast::clone_entries(&self.vars);
        let ghost (a, b) = (r@, own@);
        r.append(&mut own);
        proof {
            lemma_entries_view(a);
            lemma_entries_view(b);
            lemma_entries_view(r@);
            assert(entries_view(r@) =~= entries_view(a) + entries_view(b));
        }
        r
    }

    /// Binds `k` in the innermost block: a binding there is replaced, else one is added.
    pub fn define(&mut self, k: &String, v: Node)
        ensures
            final(self).view() == define(old(self).view(), k@, v.view()),
    {
        proof {
            lemma_entries_view(self.vars@);
            lemma_last_index_range(self.view().vars, k@);
        }
        match find_last(&self.vars, k) {
            Some(i) => {
                if i >= self.frame {
                    proof {
                        lemma_entries_update(self.vars@, i as int, *k, v);
                    }
                    self.vars.set(i, (k.clone(), v));
                    return;
                }
            },
            None => {},
        }
        proof {
            lemma_entries_push(self.vars@, *k, v);
        }
        self.vars.push((k.clone(), v));
    }

    /// Rebinds the nearest binding of `k`; false, with nothing changed, when there is none.
    pub fn assign(&mut self, k: &String, v: Node) -> (r: bool)
        ensures
            match assign(old(self).view(), k@, v.view()) {
                Some(e) => r && final(self).view() == e,
                None => !r && final(self).view() == old(self).view(),
            },
    {
        proof {
            lemma_entries_view(self.vars@);
            lemma_entries_view(self.parent@);
            lemma_last_index_range(self.view().vars, k@);
            lemma_last_index_range(self.view().parent, k@);
        }
        match find_last(&self.vars, k) {
            Some(i) => {
                proof {
                    lemma_entries_update(self.vars@, i as int, *k, v);
                }
                self.vars.set(i, (k.clone(), v));
                true
            },
            None => match find_last(&self.parent, k) {
                Some(j) => {
                    proof {
                        lemma_entries_update(self.parent@, j as int, *k, v);
                    }
                    self.parent.set(j, (k.clone(), v));
                    true
                },
                None => false,
            },
        }
    }
}

proof fn lemma_nodes_push(s: Seq<Node>, v: Node)
    ensures
        nodes_view(s.push(v)) == nodes_view(s).push(v.view()),
{
    lemma_nodes_view(s);
    lemma_nodes_view(s.push(v));
    assert(nodes_view(s.push(v)) =~= nodes_view(s).push(v.view()));
}

proof fn lemma_nodes_empty(s: Seq<Node>)
    requires
        s.len() == 0,
    ensures
        nodes_view(s) == Seq::<Term>::empty(),
{
    lemma_nodes_view(s);
    assert(nodes_view(s) =~= Seq::<Term>::empty());
}

proof fn lemma_nodes_concat(a: Seq<Node>, b: Seq<Node>)
    ensures
        nodes_view(a + b) == nodes_view(a) + nodes_view(b),
{
    lemma_nodes_view(a);
    lemma_nodes_view(b);
    lemma_nodes_view(a + b);
    assert(nodes_view(a + b) =~= nodes_view(a) + nodes_view(b));
}

fn from_arith(r: Arith) -> (res: Result<Node, EvalError>)
    ensures
        result_view(res) == arith_result(r),
{
    match r {
        Arith::Value(n) => Ok(Node::Number(n)),
        Arith::Overflow => Err(EvalError::Overflow),
        Arith::DivisionByZero => Err(EvalError::DivisionByZero),
    }
}

/// `a op b` on two numbers.
pub fn arith_exec(op: Op, a: Num, b: Num) -> (r: Result<Node, EvalError>)
    ensures
        result_view(r) == arith(op, a, b),
{
    match op {
        Op::Add => from_arith(a.add(b)),
        Op::Sub => from_arith(a.sub(b)),
        Op::Mul => from_arith(a.mul(b)),
        Op::Div => from_arith(a.div(b)),
        Op::Eq => Ok(Node::Bool(a.same(b))),
        Op::Neq => Ok(Node::Bool(!a.same(b))),
        Op::Gt => Ok(Node::Bool(b.lt(a))),
        Op::Ge => Ok(Node::Bool(!a.lt(b))),
        Op::Lt => Ok(Node::Bool(a.lt(b))),
        Op::Le => Ok(Node::Bool(!b.lt(a))),
    }
}

/// `k * t` (for `Mul`) or `t / k` (for `Div`), element by element through nested lists.
pub fn scale_exec(op: Op, k: Num, t: &Node) -> (r: Result<Node, EvalError>)
    ensures
        result_view(r) == scale(op, k, t.view()),
    decreases t,
{
    match t {
        Node::Number(n) => if matches!(op, Op::Mul) {
            arith_exec(op, k, *n)
        } else {
            arith_exec(op, *n, k)
        },
        Node::List(xs) => {
            let ghost xv = nodes_view(xs@);
            let mut acc: Vec<Node> = Vec::new();
            proof {
                lemma_nodes_view(xs@);
                lemma_nodes_empty(acc@);
            }
            let mut i: usize = 0;
            while i < xs.len()
                invariant
                    *t == Node::List(*xs),
                    xv == nodes_view(xs@),
                    xv.len() == xs@.len(),
                    forall|j: int| 0 <= j < xs@.len() ==> #[trigger] xv[j] == xs@[j].view(),
                    i <= xs@.len(),
                    scale_items(op, k, xv, i as int, nodes_view(acc@)) == scale(op, k, t.view()),
                decreases xs@.len() - i,
            {
                proof {
                    assert(decreases_to!(*t => t->List_0));
                    assert(decreases_to!(*xs => xs@));
                    assert(decreases_to!(xs@ => xs@[i as int]));
                }
                match scale_exec(op, k, &xs[i]) {
                    Ok(v) => {
                        proof {
                            lemma_nodes_push(acc@, v);
                        }
                        acc.push(v);
                    },
                    Err(e) => {
                        return Err(e);
                    },
                }
                i = i + 1;
            }
            Ok(Node::List(acc))
        },
        _ => Err(EvalError::TypeError),
    }
}

/// A binary operator on two values.
pub fn binop_exec(op: Op, l: Node, r: Node) -> (res: Result<Node, EvalError>)
    ensures
        result_view(res) == binop(op, l.view(), r.view()),
{
    match (l, r) {
        (Node::Number(a), Node::Number(b)) => arith_exec(op, a, b),
        (Node::List(xs), Node::List(ys)) => if matches!(op, Op::Add) {
            let mut xs = xs;
            let mut ys = ys;
            let ghost (a, b) = (xs@, ys@);
            xs.append(&mut ys);
            proof {
                lemma_nodes_concat(a, b);
            }
            Ok(Node::List(xs))
        } else {
            Err(EvalError::TypeError)
        },
        (Node::Number(a), r) => if matches!(op, Op::Mul) && matches!(r, Node::List(_)) {
            scale_exec(op, a, &r)
        } else {
            Err(EvalError::TypeError)
        },
        (l, Node::Number(b)) => if matches!(op, Op::Div) && matches!(l, Node::List(_)) {
            scale_exec(op, b, &l)
        } else {
            Err(EvalError::TypeError)
        },
        _ => Err(EvalError::TypeError),
    }
}

/// Whether the name is that of the built-in printer.
fn is_printf(k: &String) -> (r: bool)
    ensures
        r == (k@ == printf_name()),
{
    let s = k.as_str();
    if s.unicode_len() != 6 {
        return false;
    }
    let r = s.get_char(0) == 'p' && s.get_char(1) == 'r' && s.get_char(2) == 'i' && s.get_char(3)
        == 'n' && s.get_char(4) == 't' && s.get_char(5) == 'f';
    proof {
        if r {
            assert(s@ =~= printf_name());
        }
    }
    r
}

/// Whether an evaluation ended as the outcome says: same value, scope and output.
pub open spec fn matches_outcome(r: Result<Node, EvalError>, s: Scope, e: Eval, o: Outcome) -> bool {
    &&& result_view(r) == o.value
    &&& s.view() == o.env
    &&& e.out() == o.out
}

/// Whether an evaluation of a sequence ended as the outcome says.
pub open spec fn matches_items(r: Result<Vec<Node>, EvalError>, s: Scope, e: Eval, o: Items) -> bool {
    &&& match r {
        Ok(v) => o.values == Ok::<Seq<Term>, Fault>(nodes_view(v@)),
        Err(x) => o.values == Err::<Seq<Term>, Fault>(x.view()),
    }
    &&& s.view() == o.env
    &&& e.out() == o.out
}

/// The tree-walking interpreter. It keeps what `printf` printed, line by line.
pub struct Eval {
    pub printed: Vec<Vec<Node>>,
}

/// The number of steps that `run` allows.
pub const RUN_FUEL: u64 = 0xffff_ffff_ffff_ffff;

impl Eval {
    /// The arguments of each call of `printf` so far.
    pub open spec fn out(&self) -> Out {
        Seq::new(self.printed@.len(), |i: int| nodes_view(self.printed@[i]@))
    }

    pub fn new() -> (r: Eval)
        ensures
            r.out() == Seq::<Seq<Term>>::empty(),
    {
        let r = Eval { printed: Vec::new() };
        assert(r.out() =~= Seq::<Seq<Term>>::empty());
        r
    }

    /// Evaluates a program in a fresh, empty scope.
    pub fn run(&mut self, node: &Node) -> (r: Result<Node, EvalError>)
        ensures
            result_view(r) == eval_top(node.view(), empty_env(), old(self).out(), RUN_FUEL as nat).value,
            final(self).out() == eval_top(node.view(), empty_env(), old(self).out(), RUN_FUEL as nat).out,
    {
        let mut scope = Scope { vars: Vec::new(), frame: 0, parent: Vec::new() };
        proof {
            lemma_entries_view(scope.vars@);
            lemma_entries_view(scope.parent@);
            assert(scope.view().vars =~= Seq::<(Seq<char>, Term)>::empty());
            assert(scope.view().parent =~= Seq::<(Seq<char>, Term)>::empty());
        }
        self.eval(node, &mut scope, RUN_FUEL)
    }

    proof fn lemma_out_push(old_e: Eval, new_e: Eval, v: Vec<Node>)
        requires
            new_e.printed@ == old_e.printed@.push(v),
        ensures
            new_e.out() == old_e.out().push(nodes_view(v@)),
    {
        assert(new_e.out() =~= old_e.out().push(nodes_view(v@)));
    }

    /// Evaluates a program in `scope` within `fuel` steps: the statements of a top-level
    /// block define into `scope` itself, while nested blocks keep their definitions local.
    pub fn eval(&mut self, node: &Node, scope: &mut Scope, fuel: u64) -> (r: Result<Node, EvalError>)
        ensures
            matches_outcome(r, *final(scope), *final(self), eval_top(node.view(), old(scope).view(), old(self).out(), fuel as nat)),
    {
        if fuel == 0 {
            return Err(EvalError::OutOfFuel);
        }
        match node {
            Node::Statements(ts) => self.eval_block_exec(ts, scope, fuel - 1),
            _ => self.eval_node(node, scope, fuel),
        }
    }

    /// Evaluates `node` in `scope` within `fuel` steps.
    fn eval_node(&mut self, node: &Node, scope: &mut Scope, fuel: u64) -> (r: Result<Node, EvalError>)
        ensures
            matches_outcome(r, *final(scope), *final(self), eval_spec(node.view(), old(scope).view(), old(self).out(), fuel as nat)),
        decreases fuel, 2nat,
    {
        if fuel == 0 {
            return Err(EvalError::OutOfFuel);
        }
        let f = fuel - 1;
        match node {
            Node::Statements(ts) => {
                let saved = scope.frame;
                let len = scope.vars.len();
                proof {
                    lemma_entries_view(scope.vars@);
                }
                scope.frame = len;
                let r = self.eval_block_exec(ts, scope, f);
                match r {
                    Ok(v) => {
                        proof {
                            lemma_entries_view(scope.vars@);
                            if len <= scope.vars@.len() {
                                lemma_entries_truncate(scope.vars@, len as nat);
                                assert(entries_view(scope.vars@).subrange(0, len as int) =~= truncate(
                                    entries_view(scope.vars@),
                                    len as nat,
                                ));
                            }
                        }
                        scope.vars.truncate(len);
                        scope.frame = saved;
                        Ok(v)
                    },
                    Err(e) => Err(e),
                }
            },
            Node::Define(_, k, e) => match self.eval_node(e, scope, f) {
                Ok(v) => {
                    scope.define(k, v);
                    Ok(Node::Nada)
                },
                Err(x) => Err(x),
            },
            Node::Assign(k, e) => match self.eval_node(e, scope, f) {
                Ok(v) => {
                    if scope.assign(k, v) {
                        Ok(Node::Nada)
                    } else {
                        Err(EvalError::UnboundName(k.clone()))
                    }
                },
                Err(x) => Err(x),
            },
            Node::List(ts) => match self.eval_items_exec(ts, scope, f) {
                Ok(vs) => Ok(Node::List(vs)),
                Err(x) => Err(x),
            },
            Node::Range { from, to, lower, upper } => {
                let a = match self.eval_node(from, scope, f) {
                    Ok(a) => a,
                    Err(x) => return Err(x),
                };
                let z = match self.eval_node(to, scope, f) {
                    Ok(z) => z,
                    Err(x) => return Err(x),
                };
                if matches!(a, Node::Number(_)) && matches!(z, Node::Number(_)) {
                    Ok(Node::Range { from: Box::new(a), to: Box::new(z), lower: *lower, upper: *upper })
                } else {
                    Err(EvalError::TypeError)
                }
            },
            Node::While { condition, inner } => self.eval_while_exec(condition, inner, scope, f),
            Node::Loop { var, iterable, inner } => self.eval_loop(var, iterable, inner, scope, fuel),
            Node::FnDef(name, params, body) => {
                let cap = Scope { vars: Vec::new(), frame: 0, parent: scope.combined() };
                proof {
                    lemma_entries_view(cap.vars@);
                    assert(entries_view(cap.vars@) =~= Seq::<(Seq<char>, Term)>::empty());
                }
                let closure = Node::ScopedFnDef(
                    clone_name(name),
                    clone_names(params),
                    Box::new(body.deep_clone()),
                    cap,
                );
                match name {
                    Some(k) => {
                        let c = closure.deep_clone();
                        scope.define(k, c);
                    },
                    None => {},
                }
                Ok(closure)
            },
            Node::IfElse { condition, if_block, else_block } => match self.eval_node(condition, scope, f) {
                Ok(Node::Bool(b)) => if b {
                    self.eval_node(if_block, scope, f)
                } else {
                    self.eval_node(else_block, scope, f)
                },
                Ok(_) => Err(EvalError::TypeError),
                Err(x) => Err(x),
            },
            Node::Expr { op, lhs, rhs } => {
                let a = match self.eval_node(lhs, scope, f) {
                    Ok(a) => a,
                    Err(x) => return Err(x),
                };
                let b = match self.eval_node(rhs, scope, f) {
                    Ok(b) => b,
                    Err(x) => return Err(x),
                };
                binop_exec(*op, a, b)
            },
            Node::FnCall(k, args) => self.eval_call(k, args, scope, fuel),
            Node::VarRef(k) => match scope.get(k) {
                Some(v) => Ok(v.deep_clone()),
                None => Err(EvalError::UnboundName(k.clone())),
            },
            _ => Ok(node.deep_clone()),
        }
    }

    /// Evaluates the statements of a block in order.
    fn eval_block_exec(&mut self, ts: &Vec<Node>, scope: &mut Scope, fuel: u64) -> (r: Result<Node, EvalError>)
        ensures
            matches_outcome(r, *final(scope), *final(self), eval_block(nodes_view(ts@), 0, Term::Nada, old(scope).view(), old(self).out(), fuel as nat)),
        decreases fuel, 0nat,
    {
        let ghost tv = nodes_view(ts@);
        let ghost target = eval_block(tv, 0, Term::Nada, scope.view(), self.out(), fuel as nat);
        proof {
            lemma_nodes_view(ts@);
        }
        let mut last = Node::Nada;
        let mut g = fuel;
        let mut i: usize = 0;
        loop
            invariant
                target == eval_block(tv, 0, Term::Nada, old(scope).view(), old(self).out(), fuel as nat),
                tv == nodes_view(ts@),
                tv.len() == ts@.len(),
                forall|j: int| 0 <= j < ts@.len() ==> #[trigger] tv[j] == ts@[j].view(),
                i <= ts@.len(),
                g <= fuel,
                eval_block(tv, i as int, last.view(), scope.view(), self.out(), g as nat) == target,
            decreases g,
        {
            if g == 0 {
                return Err(EvalError::OutOfFuel);
            }
            if i >= ts.len() {
                return Ok(last);
            }
            match self.eval_node(&ts[i], scope, g - 1) {
                Ok(v) => {
                    last = v;
                },
                Err(x) => {
                    return Err(x);
                },
            }
            i = i + 1;
            g = g - 1;
        }
    }

    /// Evaluates nodes in order into a vector of values.
    fn eval_items_exec(&mut self, ts: &Vec<Node>, scope: &mut Scope, fuel: u64) -> (r: Result<Vec<Node>, EvalError>)
        ensures
            matches_items(r, *final(scope), *final(self), eval_items(nodes_view(ts@), 0, Seq::empty(), old(scope).view(), old(self).out(), fuel as nat)),
        decreases fuel, 0nat,
    {
        let ghost tv = nodes_view(ts@);
        let ghost target = eval_items(tv, 0, Seq::empty(), scope.view(), self.out(), fuel as nat);
        let mut acc: Vec<Node> = Vec::new();
        proof {
            lemma_nodes_view(ts@);
            lemma_nodes_empty(acc@);
        }
        let mut g = fuel;
        let mut i: usize = 0;
        loop
            invariant
                target == eval_items(tv, 0, Seq::empty(), old(scope).view(), old(self).out(), fuel as nat),
                tv == nodes_view(ts@),
                tv.len() == ts@.len(),
                forall|j: int| 0 <= j < ts@.len() ==> #[trigger] tv[j] == ts@[j].view(),
                i <= ts@.len(),
                g <= fuel,
                eval_items(tv, i as int, nodes_view(acc@), scope.view(), self.out(), g as nat) == target,
            decreases g,
        {
            if g == 0 {
                return Err(EvalError::OutOfFuel);
            }
            if i >= ts.len() {
                return Ok(acc);
            }
            match self.eval_node(&ts[i], scope, g - 1) {
                Ok(v) => {
                    proof {
                        lemma_nodes_push(acc@, v);
                    }
                    acc.push(v);
                },
                Err(x) => {
                    return Err(x);
                },
            }
            i = i + 1;
            g = g - 1;
        }
    }

    /// Runs a `while` loop.
    fn eval_while_exec(&mut self, c: &Node, b: &Node, scope: &mut Scope, fuel: u64) -> (r: Result<Node, EvalError>)
        ensures
            matches_outcome(r, *final(scope), *final(self), eval_while(c.view(), b.view(), Term::Nada, old(scope).view(), old(self).out(), fuel as nat)),
        decreases fuel, 0nat,
    {
        let ghost target = eval_while(c.view(), b.view(), Term::Nada, scope.view(), self.out(), fuel as nat);
        let mut last = Node::Nada;
        let mut g = fuel;
        loop
            invariant
                target == eval_while(c.view(), b.view(), Term::Nada, old(scope).view(), old(self).out(), fuel as nat),
                g <= fuel,
                eval_while(c.view(), b.view(), last.view(), scope.view(), self.out(), g as nat) == target,
            decreases g,
        {
            if g == 0 {
                return Err(EvalError::OutOfFuel);
            }
            match self.eval_node(c, scope, g - 1) {
                Ok(Node::Bool(true)) => {},
                Ok(Node::Bool(false)) => {
                    return Ok(last);
                },
                Ok(_) => {
                    return Err(EvalError::TypeError);
                },
                Err(x) => {
                    return Err(x);
                },
            }
            match self.eval_node(b, scope, g - 1) {
                Ok(v) => {
                    last = v;
                },
                Err(x) => {
                    return Err(x);
                },
            }
            g = g - 1;
        }
    }

    /// Runs a `for` loop: over the integers of a range, or over the elements of a list.
    fn eval_loop(&mut self, var: &String, iterable: &Node, inner: &Node, scope: &mut Scope, fuel: u64) -> (r: Result<Node, EvalError>)
        requires
            fuel > 0,
        ensures
            matches_outcome(r, *final(scope), *final(self), eval_spec(Term::Loop { var: var@, iterable: Box::new(iterable.view()), inner: Box::new(inner.view()) }, old(scope).view(), old(self).out(), fuel as nat)),
        decreases fuel, 1nat,
    {
        let f = fuel - 1;
        let it = match self.eval_node(iterable, scope, f) {
            Ok(it) => it,
            Err(x) => return Err(x),
        };
        match it {
            Node::Range { from, to, lower, upper } => match (&*from, &*to) {
                (Node::Number(a), Node::Number(z)) => {
                    let start: i128 = a.floor() as i128 + if matches!(lower, Bound::Exclusive) { 1 } else { 0 };
                    let end: i128 = z.floor() as i128 + if matches!(upper, Bound::Inclusive) { 1 } else { 0 };
                    proof {
                        let o = eval_spec(iterable.view(), old(scope).view(), old(self).out(), f as nat);
                        assert(o.value == Ok::<Term, Fault>(
                            Term::Range { from: Box::new(from.view()), to: Box::new(to.view()), lower, upper },
                        ));
                        assert(scope.view() == o.env);
                    }
                    self.eval_range_exec(var, inner, start, end, scope, f)
                },
                _ => Err(EvalError::TypeError),
            },
            Node::List(xs) => self.eval_each_exec(var, inner, &xs, scope, f),
            _ => Err(EvalError::TypeError),
        }
    }

    /// Runs a loop body for each integer from `start` up to `end`.
    fn eval_range_exec(&mut self, var: &String, body: &Node, start: i128, end: i128, scope: &mut Scope, fuel: u64) -> (r: Result<Node, EvalError>)
        requires
            i64::MIN <= start,
            end <= i64::MAX + 1,
        ensures
            matches_outcome(r, *final(scope), *final(self), eval_range(var@, body.view(), start as int, end as int, Seq::empty(), old(scope).view(), old(self).out(), fuel as nat)),
        decreases fuel, 0nat,
    {
        let ghost target = eval_range(var@, body.view(), start as int, end as int, Seq::empty(), scope.view(), self.out(), fuel as nat);
        let mut acc: Vec<Node> = Vec::new();
        proof {
            lemma_nodes_empty(acc@);
        }
        let mut g = fuel;
        let mut i: i128 = start;
        loop
            invariant
                target == eval_range(var@, body.view(), start as int, end as int, Seq::empty(), old(scope).view(), old(self).out(), fuel as nat),
                start <= i,
                end <= i64::MAX + 1,
                i64::MIN <= start,
                g <= fuel,
                eval_range(var@, body.view(), i as int, end as int, nodes_view(acc@), scope.view(), self.out(), g as nat) == target,
            decreases g,
        {
            if g == 0 {
                return Err(EvalError::OutOfFuel);
            }
            if i >= end {
                return Ok(Node::List(acc));
            }
            scope.define(var, Node::Number(Num::from_int(i as i64)));
            match self.eval_node(body, scope, g - 1) {
                Ok(v) => {
                    if !matches!(v, Node::Nada) {
                        proof {
                            lemma_nodes_push(acc@, v);
                        }
                        acc.push(v);
                    }
                },
                Err(x) => {
                    return Err(x);
                },
            }
            i = i + 1;
            g = g - 1;
        }
    }

    /// Runs a loop body for each element of `xs`.
    fn eval_each_exec(&mut self, var: &String, body: &Node, xs: &Vec<Node>, scope: &mut Scope, fuel: u64) -> (r: Result<Node, EvalError>)
        ensures
            matches_outcome(r, *final(scope), *final(self), eval_each(var@, body.view(), nodes_view(xs@), 0, Seq::empty(), old(scope).view(), old(self).out(), fuel as nat)),
        decreases fuel, 0nat,
    {
        let ghost xv = nodes_view(xs@);
        let ghost target = eval_each(var@, body.view(), xv, 0, Seq::empty(), scope.view(), self.out(), fuel as nat);
        let mut acc: Vec<Node> = Vec::new();
        proof {
            lemma_nodes_view(xs@);
            lemma_nodes_empty(acc@);
        }
        let mut g = fuel;
        let mut i: usize = 0;
        loop
            invariant
                target == eval_each(var@, body.view(), xv, 0, Seq::empty(), old(scope).view(), old(self).out(), fuel as nat),
                xv == nodes_view(xs@),
                xv.len() == xs@.len(),
                forall|j: int| 0 <= j < xs@.len() ==> #[trigger] xv[j] == xs@[j].view(),
                i <= xs@.len(),
                g <= fuel,
                eval_each(var@, body.view(), xv, i as int, nodes_view(acc@), scope.view(), self.out(), g as nat) == target,
            decreases g,
        {
            if g == 0 {
                return Err(EvalError::OutOfFuel);
            }
            if i >= xs.len() {
                return Ok(Node::List(acc));
            }
            scope.define(var, xs[i].deep_clone());
            match self.eval_node(body, scope, g - 1) {
                Ok(v) => {
                    if !matches!(v, Node::Nada) {
                        proof {
                            lemma_nodes_push(acc@, v);
                        }
                        acc.push(v);
                    }
                },
                Err(x) => {
                    return Err(x);
                },
            }
            i = i + 1;
            g = g - 1;
        }
    }

    /// Calls a function by name: `printf`, or a closure bound in scope.
    fn eval_call(&mut self, k: &String, args: &Vec<Node>, scope: &mut Scope, fuel: u64) -> (r: Result<Node, EvalError>)
        requires
            fuel > 0,
        ensures
            matches_outcome(r, *final(scope), *final(self), eval_spec(Term::FnCall(k@, nodes_view(args@)), old(scope).view(), old(self).out(), fuel as nat)),
        decreases fuel, 1nat,
    {
        let f = fuel - 1;
        let vals = match self.eval_items_exec(args, scope, f) {
            Ok(vs) => vs,
            Err(x) => return Err(x),
        };
        if is_printf(k) {
            let ghost before = *self;
            self.printed.push(vals);
            proof {
                Eval::lemma_out_push(before, *self, vals);
            }
            return Ok(Node::Nada);
        }
        let fnode = match scope.get(k) {
            Some(n) => n.deep_clone(),
            None => return Err(EvalError::UnboundName(k.clone())),
        };
        match &fnode {
            Node::ScopedFnDef(dn, ps, body, cap) => {
                if ps.len() != vals.len() {
                    return Err(EvalError::ArityError);
                }
                let mut call = cap.deep_clone();
                match dn {
                    Some(d) => {
                        let c = fnode.deep_clone();
                        call.define(d, c);
                    },
                    None => {},
                }
                let ghost pv = names_view(ps@);
                let ghost vv = nodes_view(vals@);
                let ghost e0 = call.view();
                let ghost target = bind_params(e0, pv, vv, 0);
                proof {
                    lemma_nodes_view(vals@);
                }
                let mut i: usize = 0;
                while i < ps.len()
                    invariant
                        target == bind_params(e0, pv, vv, 0),
                        pv == names_view(ps@),
                        vv == nodes_view(vals@),
                        ps@.len() == vals@.len(),
                        vv.len() == vals@.len(),
                        forall|j: int| 0 <= j < vals@.len() ==> #[trigger] vv[j] == vals@[j].view(),
                        i <= ps@.len(),
                        bind_params(call.view(), pv, vv, i as int) == target,
                    decreases ps@.len() - i,
                {
                    call.define(&ps[i], vals[i].deep_clone());
                    i = i + 1;
                }
                self.eval_node(body, &mut call, f)
            },
            _ => Err(EvalError::TypeError),
        }
    }
}

} // verus!
