use vstd::prelude::*;

use crate::ast::{Bound, Env, Mut, Op, Term};
use crate::comp::{decls, main_term, supported};
use crate::eval::{
    arith, arith_result, binop, collect, combined, define, eval_range, eval_spec, lookup, scale,
    scale_items, truncate, Fault, Out, Outcome, assign, last_index, eval_block,
};
use crate::num::{
    add_spec, div_spec, eq_spec, fits, lemma_floor_of_int, lemma_int_arith, lemma_int_div, lt_spec, mul_spec,
    num_of_int, sub_spec, Num,
};
use crate::parser::{infix_spec, toks_view, AlphaParser, ParseError, Token, TokenView};

verus! {

/// A binary operator on two number literals evaluates to the operator applied to the two
/// numbers: `+ - * /` give the exact result (or its overflow or division-by-zero error), and
/// the comparisons give a boolean with the expected truth value.
pub proof fn law_operator_evaluation(op: Op, a: Num, b: Num, env: Env, out: Out, fuel: nat)
    requires
        fuel >= 2,
    ensures
        ({
            let v = eval_spec(
                Term::Expr { op, lhs: Box::new(Term::Number(a)), rhs: Box::new(Term::Number(b)) },
                env,
                out,
                fuel,
            ).value;
            &&& v == arith(op, a, b)
            &&& op is Add ==> v == arith_result(add_spec(a, b))
            &&& op is Sub ==> v == arith_result(sub_spec(a, b))
            &&& op is Mul ==> v == arith_result(mul_spec(a, b))
            &&& op is Div ==> v == arith_result(div_spec(a, b))
            &&& op is Eq ==> v == Ok::<Term, Fault>(Term::Bool(eq_spec(a, b)))
            &&& op is Neq ==> v == Ok::<Term, Fault>(Term::Bool(!eq_spec(a, b)))
            &&& op is Lt ==> v == Ok::<Term, Fault>(Term::Bool(lt_spec(a, b)))
            &&& op is Gt ==> v == Ok::<Term, Fault>(Term::Bool(lt_spec(b, a)))
            &&& op is Le ==> v == Ok::<Term, Fault>(Term::Bool(!lt_spec(b, a)))
            &&& op is Ge ==> v == Ok::<Term, Fault>(Term::Bool(!lt_spec(a, b)))
        }),
{
    let f = (fuel - 1) as nat;
    assert(eval_spec(Term::Number(a), env, out, f).value == Ok::<Term, Fault>(Term::Number(a)));
    assert(eval_spec(Term::Number(b), env, out, f).value == Ok::<Term, Fault>(Term::Number(b)));
}

proof fn lemma_last_index_push(s: Seq<(Seq<char>, Term)>, k: Seq<char>, v: Term)
    ensures
        last_index(s.push((k, v)), k) == s.len(),
{
    assert(s.push((k, v)).drop_last() =~= s);
}

proof fn lemma_last_index_bounds(s: Seq<(Seq<char>, Term)>, k: Seq<char>)
    ensures
        -1 <= last_index(s, k) < s.len(),
        last_index(s, k) >= 0 ==> s[last_index(s, k)].0 == k,
        forall|j: int| last_index(s, k) < j < s.len() ==> s[j].0 != k,
    decreases s.len(),
{
    if s.len() > 0 && s.last().0 != k {
        lemma_last_index_bounds(s.drop_last(), k);
        assert forall|j: int| last_index(s, k) < j < s.len() implies s[j].0 != k by {
            if j < s.len() - 1 {
                assert(s.drop_last()[j] == s[j]);
            }
        }
    }
}

/// Once a name is bound, reading it gives the value it was bound to.
pub proof fn law_define_then_lookup(e: Env, k: Seq<char>, v: Term)
    ensures
        lookup(define(e, k, v), k) == Some(v),
{
    let i = last_index(e.vars, k);
    lemma_last_index_bounds(e.vars, k);
    if i >= e.frame {
        let s = e.vars.update(i, (k, v));
        lemma_last_index_bounds(s, k);
        assert forall|j: int| i < j < s.len() implies s[j].0 != k by {
            assert(s[j] == e.vars[j]);
        }
        if last_index(s, k) != i {
            assert(s[i].0 == k);
        }
    } else {
        lemma_last_index_push(e.vars, k, v);
    }
}

/// Rebinding a name that is bound makes it read as the new value.
pub proof fn law_assign_then_lookup(e: Env, k: Seq<char>, v: Term)
    requires
        lookup(e, k) is Some,
    ensures
        assign(e, k, v) is Some,
        lookup(assign(e, k, v)->Some_0, k) == Some(v),
{
    lemma_last_index_bounds(e.vars, k);
    lemma_last_index_bounds(e.parent, k);
    let i = last_index(e.vars, k);
    if i >= 0 {
        let s = e.vars.update(i, (k, v));
        lemma_last_index_bounds(s, k);
        assert forall|j: int| i < j < s.len() implies s[j].0 != k by {
            assert(s[j] == e.vars[j]);
        }
        if last_index(s, k) != i {
            assert(s[i].0 == k);
        }
    } else {
        let j = last_index(e.parent, k);
        let s = e.parent.update(j, (k, v));
        lemma_last_index_bounds(s, k);
        assert forall|m: int| j < m < s.len() implies s[m].0 != k by {
            assert(s[m] == e.parent[m]);
        }
        if last_index(s, k) != j {
            assert(s[j].0 == k);
        }
    }
}

/// A definition in an inner block shadows an outer binding of the same name inside the block,
/// and is gone when the block ends: the scope is then what it was before the block.
pub proof fn law_inner_define_is_scoped(e: Env, k: Seq<char>, v: Term)
    ensures
        ({
            let inner = Env { vars: e.vars, frame: e.vars.len(), parent: e.parent };
            let during = define(inner, k, v);
            let after = Env {
                vars: truncate(during.vars, e.vars.len()),
                frame: e.frame,
                parent: during.parent,
            };
            &&& lookup(during, k) == Some(v)
            &&& after == e
        }),
{
    let inner = Env { vars: e.vars, frame: e.vars.len(), parent: e.parent };
    law_define_then_lookup(inner, k, v);
    lemma_last_index_bounds(e.vars, k);
    lemma_last_index_push(e.vars, k, v);
    assert(e.vars.push((k, v)).subrange(0, e.vars.len() as int) =~= e.vars);
}

/// Rebinding, in an inner block, a name bound outside it changes the outer binding, and the
/// change outlasts the block.
pub proof fn law_inner_assign_updates_outer(e: Env, k: Seq<char>, v: Term)
    requires
        lookup(e, k) is Some,
    ensures
        ({
            let inner = Env { vars: e.vars, frame: e.vars.len(), parent: e.parent };
            let during = assign(inner, k, v)->Some_0;
            let after = Env {
                vars: truncate(during.vars, e.vars.len()),
                frame: e.frame,
                parent: during.parent,
            };
            &&& assign(inner, k, v) is Some
            &&& lookup(after, k) == Some(v)
        }),
{
    let inner = Env { vars: e.vars, frame: e.vars.len(), parent: e.parent };
    law_assign_then_lookup(inner, k, v);
    lemma_last_index_bounds(e.vars, k);
    lemma_last_index_bounds(e.parent, k);
    let during = assign(inner, k, v)->Some_0;
    assert(during.vars.len() == e.vars.len());
    assert(truncate(during.vars, e.vars.len()) == during.vars);
}

/// A function literal evaluates to a closure that holds the whole scope it was created in;
/// a named one is also bound to that closure under its name.
pub proof fn law_closure_captures_scope(
    name: Option<Seq<char>>,
    params: Seq<Seq<char>>,
    body: Term,
    env: Env,
    out: Out,
    fuel: nat,
)
    requires
        fuel >= 1,
    ensures
        ({
            let closure = Term::ScopedFnDef(
                name,
                params,
                Box::new(body),
                Env { vars: Seq::empty(), frame: 0, parent: combined(env) },
            );
            let o = eval_spec(Term::FnDef(name, params, Box::new(body)), env, out, fuel);
            &&& o.value == Ok::<Term, Fault>(closure)
            &&& name is Some ==> lookup(o.env, name->Some_0) == Some(closure)
        }),
{
    let closure = Term::ScopedFnDef(
        name,
        params,
        Box::new(body),
        Env { vars: Seq::empty(), frame: 0, parent: combined(env) },
    );
    if name is Some {
        law_define_then_lookup(env, name->Some_0, closure);
    }
}

/// The integers `i, i + 1, ..., end - 1` as numbers.
pub open spec fn int_range(i: int, end: int) -> Seq<Term> {
    Seq::new((end - i) as nat, |k: int| Term::Number(num_of_int(i + k)))
}

/// A `for` loop over the integers `i .. end` whose body is the loop variable yields those
/// integers in order, after the values already collected.
pub proof fn law_range_loop_yields_indices(
    var: Seq<char>,
    i: int,
    end: int,
    acc: Seq<Term>,
    env: Env,
    out: Out,
    fuel: nat,
)
    requires
        i <= end,
        fuel > end - i,
    ensures
        eval_range(var, Term::VarRef(var), i, end, acc, env, out, fuel).value == Ok::<Term, Fault>(
            Term::List(acc + int_range(i, end)),
        ),
    decreases end - i,
{
    if i < end {
        let f = (fuel - 1) as nat;
        let x = Term::Number(num_of_int(i));
        let e1 = define(env, var, x);
        law_define_then_lookup(env, var, x);
        let ob = eval_spec(Term::VarRef(var), e1, out, f);
        assert(ob.value == Ok::<Term, Fault>(x));
        assert(collect(acc, x) == acc.push(x));
        law_range_loop_yields_indices(var, i + 1, end, acc.push(x), ob.env, ob.out, f);
        assert(acc.push(x) + int_range(i + 1, end) =~= acc + int_range(i, end));
    } else {
        assert(acc + int_range(i, end) =~= acc);
    }
}

/// Scaling a list of numbers multiplies (or divides) each element by the number, when no
/// element's result overflows or divides by zero.
pub proof fn law_scale_numbers(op: Op, k: Num, xs: Seq<Term>, i: int, acc: Seq<Term>)
    requires
        0 <= i <= xs.len(),
        forall|j: int| 0 <= j < xs.len() ==> (#[trigger] xs[j]) is Number,
        forall|j: int| 0 <= j < xs.len() ==> (#[trigger] scale(op, k, xs[j])) is Ok,
    ensures
        scale_items(op, k, xs, i, acc) == Ok::<Term, Fault>(
            Term::List(acc + Seq::new((xs.len() - i) as nat, |j: int| scale(op, k, xs[i + j])->Ok_0)),
        ),
        forall|j: int|
            0 <= j < xs.len() ==> #[trigger] scale(op, k, xs[j]) == if op is Mul {
                arith(op, k, xs[j]->Number_0)
            } else {
                arith(op, xs[j]->Number_0, k)
            },
    decreases xs.len() - i,
{
    if i < xs.len() {
        let v = scale(op, k, xs[i])->Ok_0;
        law_scale_numbers(op, k, xs, i + 1, acc.push(v));
        assert(acc.push(v) + Seq::new((xs.len() - (i + 1)) as nat, |j: int| scale(op, k, xs[i + 1 + j])->Ok_0)
            =~= acc + Seq::new((xs.len() - i) as nat, |j: int| scale(op, k, xs[i + j])->Ok_0));
    } else {
        assert(acc + Seq::new((xs.len() - i) as nat, |j: int| scale(op, k, xs[i + j])->Ok_0) =~= acc);
    }
}

/// Adding two lists concatenates them.
pub proof fn law_list_concat(xs: Seq<Term>, ys: Seq<Term>)
    ensures
        binop(Op::Add, Term::List(xs), Term::List(ys)) == Ok::<Term, Fault>(Term::List(xs + ys)),
{
}

/// Reading a name that nothing binds fails, naming it.
pub proof fn law_unbound_name(k: Seq<char>, env: Env, out: Out, fuel: nat)
    requires
        fuel >= 1,
        lookup(env, k) is None,
    ensures
        eval_spec(Term::VarRef(k), env, out, fuel).value == Err::<Term, Fault>(Fault::UnboundName(k)),
{
}

/// A list literal is not compiled, anywhere in a program.
pub proof fn law_list_not_compiled(xs: Seq<Term>)
    ensures
        !supported(Term::List(xs)),
        decls(main_term(Term::List(xs))) is None,
{
    assert(decls(Term::List(xs)) is None);
}

} // verus!

verus! {

/// An arithmetic expression over integer literals, as a source text would spell it.
pub enum ArithExpr {
    Lit(i64),
    Bin(Op, Box<ArithExpr>, Box<ArithExpr>),
}

/// The literals are non-negative (the grammar has no negative literal).
pub open spec fn arith_wf(e: ArithExpr) -> bool
    decreases e,
{
    match e {
        ArithExpr::Lit(n) => n >= 0,
        ArithExpr::Bin(_, l, r) => arith_wf(*l) && arith_wf(*r),
    }
}

/// The tree the expression stands for.
pub open spec fn term_of(e: ArithExpr) -> Term
    decreases e,
{
    match e {
        ArithExpr::Lit(n) => Term::Number(num_of_int(n as int)),
        ArithExpr::Bin(op, l, r) => Term::Expr { op, lhs: Box::new(term_of(*l)), rhs: Box::new(term_of(*r)) },
    }
}

/// The token of an operator.
pub open spec fn op_token(op: Op) -> TokenView {
    match op {
        Op::Add => TokenView::Plus,
        Op::Sub => TokenView::Minus,
        Op::Mul => TokenView::Star,
        Op::Div => TokenView::Slash,
        Op::Eq => TokenView::EqEq,
        Op::Neq => TokenView::NotEq,
        Op::Gt => TokenView::Gt,
        Op::Ge => TokenView::Ge,
        Op::Lt => TokenView::Lt,
        Op::Le => TokenView::Le,
    }
}

/// The tokens of the expression with every operation in parentheses: `(l) op (r)`.
pub open spec fn render(e: ArithExpr) -> Seq<TokenView>
    decreases e,
{
    match e {
        ArithExpr::Lit(n) => seq![TokenView::Int(n)],
        ArithExpr::Bin(op, l, r) => seq![TokenView::LParen] + render(*l) + seq![
            TokenView::RParen,
            op_token(op),
            TokenView::LParen,
        ] + render(*r) + seq![TokenView::RParen],
    }
}

/// The tokens of `p` from `pos` on begin with `s`.
pub open spec fn tokens_at(p: AlphaParser, pos: int, s: Seq<TokenView>) -> bool {
    &&& 0 <= pos
    &&& pos + s.len() <= p.len()
    &&& forall|k: int| 0 <= k < s.len() ==> (#[trigger] p.toks@[pos + k]).view() == s[k]
}

/// Position `i` ends an expression: the input ends there, or a `)` stands there.
pub open spec fn stops(p: AlphaParser, i: int) -> bool {
    i == p.len() || (0 <= i < p.len() && p.toks@[i] is RParen)
}

proof fn lemma_render_len(e: ArithExpr)
    ensures
        render(e).len() >= 1,
        e is Bin ==> render(e).len() >= 5 && render(e)[0] == TokenView::LParen,
        e is Lit ==> render(e).len() == 1,
    decreases e,
{
    match e {
        ArithExpr::Lit(_) => {},
        ArithExpr::Bin(_, l, r) => {
            lemma_render_len(*l);
            lemma_render_len(*r);
        },
    }
}

proof fn lemma_climb_stops(p: AlphaParser, lhs: Term, i: int, min: int)
    requires
        p.wf(),
        stops(p, i),
    ensures
        p.sp_climb(lhs, i, min) == Ok::<(Term, int), ParseError>((lhs, i)),
{
    if i < p.len() {
        assert(infix_spec(p.toks@[i]) is None);
    }
}

/// Parsing, from `pos`, the rendering of `e` followed by the end or a `)` gives `e`.
proof fn lemma_parse_render(p: AlphaParser, e: ArithExpr, pos: int)
    requires
        p.wf(),
        arith_wf(e),
        tokens_at(p, pos, render(e)),
        stops(p, pos + render(e).len()),
    ensures
        p.sp_expr(pos, 0) == Ok::<(Term, int), ParseError>((term_of(e), pos + render(e).len())),
    decreases e, 0nat,
{
    lemma_render_len(e);
    let s = render(e);
    match e {
        ArithExpr::Lit(n) => {
            assert(p.toks@[pos + 0].view() == s[0]);
            assert(p.toks@[pos] is Int);
            assert(p.sp_primary(pos) == Ok::<(Term, int), ParseError>((term_of(e), pos + 1)));
            lemma_climb_stops(p, term_of(e), pos + 1, 0);
        },
        ArithExpr::Bin(op, l, r) => {
            let ll = render(*l).len() as int;
            let rl = render(*r).len() as int;
            lemma_render_len(*l);
            lemma_render_len(*r);
            assert(s.len() == ll + rl + 5);
            assert(p.toks@[pos + 0].view() == s[0]);
            assert(p.toks@[pos] is LParen);
            assert forall|k: int| 0 <= k < ll implies (#[trigger] p.toks@[pos + 1 + k]).view() == render(*l)[k] by {
                assert(p.toks@[pos + (1 + k)].view() == s[1 + k]);
                assert(s[1 + k] == render(*l)[k]);
            }
            assert(tokens_at(p, pos + 1, render(*l)));
            assert(p.toks@[pos + (1 + ll)].view() == s[1 + ll]);
            assert(p.toks@[pos + 1 + ll] is RParen);
            lemma_parse_render(p, *l, pos + 1);
            assert(!(p.endpoint_ok(pos + 1) && p.tok_is(pos + 2, Token::Comma))) by {
                if ll == 1 {
                    assert(p.toks@[pos + 2] is RParen);
                } else {
                    assert(p.toks@[pos + (1 + 0)].view() == s[1]);
                    assert(s[1] == render(*l)[0]);
                }
            }
            assert(p.sp_primary(pos) == Ok::<(Term, int), ParseError>((term_of(*l), pos + 2 + ll)));
            let o = pos + 2 + ll;
            assert(p.toks@[pos + (2 + ll)].view() == s[2 + ll]);
            assert(p.toks@[o].view() == op_token(op));
            assert(infix_spec(p.toks@[o]) is Some && infix_spec(p.toks@[o])->Some_0.0 == op);
            let (_, power, right) = infix_spec(p.toks@[o])->Some_0;
            let next = if right { power as int } else { power as int + 1 };
            assert forall|k: int| 0 <= k < rl + 2 implies (#[trigger] p.toks@[o + 1 + k]).view() == (seq![TokenView::LParen] + render(*r) + seq![TokenView::RParen])[k] by {
                assert(p.toks@[pos + (3 + ll + k)].view() == s[3 + ll + k]);
            }
            lemma_parse_paren(p, *r, o + 1, next);
            let end = pos + s.len();
            assert(o + 1 + rl + 2 == end);
            assert(p.sp_climb(term_of(*l), o, 0) == p.sp_climb(term_of(e), end, 0));
            lemma_climb_stops(p, term_of(e), end, 0);
        },
    }
}

/// Parsing, from `pos`, `(` then the rendering of `e` then `)`, followed by the end or a
/// `)`, gives `e`, whatever the binding power asked for.
proof fn lemma_parse_paren(p: AlphaParser, e: ArithExpr, pos: int, min: int)
    requires
        p.wf(),
        arith_wf(e),
        0 <= pos,
        pos + render(e).len() + 2 <= p.len(),
        forall|k: int|
            0 <= k < render(e).len() + 2 ==> (#[trigger] p.toks@[pos + k]).view() == (seq![TokenView::LParen]
                + render(e) + seq![TokenView::RParen])[k],
        stops(p, pos + render(e).len() + 2),
    ensures
        p.sp_expr(pos, min) == Ok::<(Term, int), ParseError>((term_of(e), pos + render(e).len() + 2)),
    decreases e, 1nat,
{
    lemma_render_len(e);
    let n = render(e).len() as int;
    let w = seq![TokenView::LParen] + render(e) + seq![TokenView::RParen];
    assert(p.toks@[pos + 0].view() == w[0]);
    assert(p.toks@[pos] is LParen);
    assert forall|k: int| 0 <= k < n implies (#[trigger] p.toks@[pos + 1 + k]).view() == render(e)[k] by {
        assert(p.toks@[pos + (1 + k)].view() == w[1 + k]);
    }
    assert(p.toks@[pos + (1 + n)].view() == w[1 + n]);
    assert(p.toks@[pos + 1 + n] is RParen);
    lemma_parse_render(p, e, pos + 1);
    assert(!(p.endpoint_ok(pos + 1) && p.tok_is(pos + 2, Token::Comma))) by {
        if n == 1 {
            assert(p.toks@[pos + 2] is RParen);
        } else {
            assert(p.toks@[pos + (1 + 0)].view() == w[1]);
        }
    }
    assert(p.sp_primary(pos) == Ok::<(Term, int), ParseError>((term_of(e), pos + n + 2)));
    lemma_climb_stops(p, term_of(e), pos + n + 2, min);
}

/// Parsing a program that is an arithmetic expression with every operation in
/// parentheses gives back that expression's tree, as the only statement.
pub proof fn law_parenthesized_round_trip(p: AlphaParser, e: ArithExpr)
    requires
        p.wf(),
        arith_wf(e),
        toks_view(p.toks@) == render(e),
    ensures
        p.sp_program() == Ok::<Term, ParseError>(Term::Statements(seq![term_of(e)])),
{
    lemma_render_len(e);
    assert forall|k: int| 0 <= k < render(e).len() implies (#[trigger] p.toks@[0 + k]).view() == render(e)[k] by {
        assert(toks_view(p.toks@)[k] == p.toks@[k].view());
    }
    lemma_parse_render(p, e, 0);
    assert(p.toks@[0].view() == render(e)[0]);
    assert(!(p.toks@[0] is Name) && !(p.toks@[0] is Let) && !(p.toks@[0] is Semi) && !(p.toks@[0] is End) && !(p.toks@[0] is Else));
    assert(p.sp_statement(0) == p.sp_expr(0, 0));
    let n = render(e).len() as int;
    assert(p.sp_statements(n, seq![term_of(e)]) == Ok::<(Term, int), ParseError>((Term::Statements(seq![term_of(e)]), n)));
    assert(Seq::<Term>::empty().push(term_of(e)) == seq![term_of(e)]);
}

} // verus!

verus! {

/// The binding power of an infix operator: `+ -` loosest, then `* /`, then the orderings,
/// then `== !=` tightest.
pub open spec fn power(op: Op) -> int {
    match op {
        Op::Add | Op::Sub => 1,
        Op::Mul | Op::Div => 2,
        Op::Lt | Op::Le | Op::Gt | Op::Ge => 6,
        Op::Eq | Op::Neq => 7,
    }
}

/// Whether an operator groups to the right: the comparisons do, the arithmetic does not.
pub open spec fn right_assoc(op: Op) -> bool {
    match op {
        Op::Add | Op::Sub | Op::Mul | Op::Div => false,
        _ => true,
    }
}

proof fn lemma_infix_of_op(t: Token, op: Op)
    requires
        t.view() == op_token(op),
    ensures
        infix_spec(t) == Some((op, power(op) as u8, right_assoc(op))),
        !(t is Bang) && !(t is Caret),
{
}

/// `a op1 b op2 c` groups as the operator table says: to the right when `op2` binds more
/// tightly than `op1`, or as tightly with `op1` grouping to the right; otherwise to the left.
pub proof fn law_precedence(p: AlphaParser, a: i64, op1: Op, b: i64, op2: Op, c: i64)
    requires
        p.wf(),
        a >= 0 && b >= 0 && c >= 0,
        toks_view(p.toks@) == seq![
            TokenView::Int(a),
            op_token(op1),
            TokenView::Int(b),
            op_token(op2),
            TokenView::Int(c),
        ],
    ensures
        ({
            let (ta, tb, tc) = (
                Term::Number(num_of_int(a as int)),
                Term::Number(num_of_int(b as int)),
                Term::Number(num_of_int(c as int)),
            );
            let grouped = if power(op2) > power(op1) || (power(op2) == power(op1) && right_assoc(op1)) {
                Term::Expr {
                    op: op1,
                    lhs: Box::new(ta),
                    rhs: Box::new(Term::Expr { op: op2, lhs: Box::new(tb), rhs: Box::new(tc) }),
                }
            } else {
                Term::Expr {
                    op: op2,
                    lhs: Box::new(Term::Expr { op: op1, lhs: Box::new(ta), rhs: Box::new(tb) }),
                    rhs: Box::new(tc),
                }
            };
            p.sp_program() == Ok::<Term, ParseError>(Term::Statements(seq![grouped]))
        }),
{
    let ta = Term::Number(num_of_int(a as int));
    let tb = Term::Number(num_of_int(b as int));
    let tc = Term::Number(num_of_int(c as int));
    let tv = toks_view(p.toks@);
    assert(tv.len() == p.toks@.len());
    assert(tv.len() == 5);
    assert(p.len() == 5);
    assert(p.toks@[0].view() == tv[0]);
    assert(p.toks@[1].view() == tv[1]);
    assert(p.toks@[2].view() == tv[2]);
    assert(p.toks@[3].view() == tv[3]);
    assert(p.toks@[4].view() == tv[4]);
    lemma_infix_of_op(p.toks@[1], op1);
    lemma_infix_of_op(p.toks@[3], op2);
    let n1 = if right_assoc(op1) { power(op1) } else { power(op1) + 1 };
    let n2 = if right_assoc(op2) { power(op2) } else { power(op2) + 1 };
    assert(p.sp_primary(0) == Ok::<(Term, int), ParseError>((ta, 1)));
    assert(p.sp_primary(2) == Ok::<(Term, int), ParseError>((tb, 3)));
    assert(p.sp_primary(4) == Ok::<(Term, int), ParseError>((tc, 5)));
    lemma_climb_stops(p, tc, 5, n2);
    assert(p.sp_expr(4, n2) == Ok::<(Term, int), ParseError>((tc, 5)));
    let bc = Term::Expr { op: op2, lhs: Box::new(tb), rhs: Box::new(tc) };
    let ab = Term::Expr { op: op1, lhs: Box::new(ta), rhs: Box::new(tb) };
    if power(op2) >= n1 {
        lemma_climb_stops(p, bc, 5, n1);
        assert(p.sp_climb(tb, 3, n1) == Ok::<(Term, int), ParseError>((bc, 5)));
        assert(p.sp_expr(2, n1) == Ok::<(Term, int), ParseError>((bc, 5)));
        let whole = Term::Expr { op: op1, lhs: Box::new(ta), rhs: Box::new(bc) };
        lemma_climb_stops(p, whole, 5, 0);
        assert(p.sp_climb(ta, 1, 0) == Ok::<(Term, int), ParseError>((whole, 5)));
        assert(p.sp_expr(0, 0) == Ok::<(Term, int), ParseError>((whole, 5)));
        assert(p.toks@[0] is Int);
        assert(p.sp_statement(0) == p.sp_expr(0, 0));
        assert(p.sp_statements(5, seq![whole]) == Ok::<(Term, int), ParseError>((Term::Statements(seq![whole]), 5)));
        assert(Seq::<Term>::empty().push(whole) == seq![whole]);
        assert(p.sp_statements(0, Seq::empty()) == Ok::<(Term, int), ParseError>((Term::Statements(seq![whole]), 5)));
    } else {
        assert(p.sp_climb(tb, 3, n1) == Ok::<(Term, int), ParseError>((tb, 3)));
        assert(p.sp_expr(2, n1) == Ok::<(Term, int), ParseError>((tb, 3)));
        let whole = Term::Expr { op: op2, lhs: Box::new(ab), rhs: Box::new(tc) };
        lemma_climb_stops(p, whole, 5, 0);
        assert(p.sp_expr(4, n2) == Ok::<(Term, int), ParseError>((tc, 5)));
        assert(p.sp_climb(ab, 3, 0) == Ok::<(Term, int), ParseError>((whole, 5)));
        assert(p.sp_climb(ta, 1, 0) == Ok::<(Term, int), ParseError>((whole, 5)));
        assert(p.sp_expr(0, 0) == Ok::<(Term, int), ParseError>((whole, 5)));
        assert(p.toks@[0] is Int);
        assert(p.sp_statement(0) == p.sp_expr(0, 0));
        assert(p.sp_statements(5, seq![whole]) == Ok::<(Term, int), ParseError>((Term::Statements(seq![whole]), 5)));
        assert(Seq::<Term>::empty().push(whole) == seq![whole]);
        assert(p.sp_statements(0, Seq::empty()) == Ok::<(Term, int), ParseError>((Term::Statements(seq![whole]), 5)));
    }
}

} // verus!

verus! {

/// A `for` loop over the integers `i .. end` whose body is the block `{ var }` yields those
/// integers in order, after the values already collected.
pub proof fn law_range_loop_block_yields_indices(
    var: Seq<char>,
    i: int,
    end: int,
    acc: Seq<Term>,
    env: Env,
    out: Out,
    fuel: nat,
)
    requires
        i <= end,
        fuel > 4 * (end - i),
    ensures
        eval_range(var, Term::Statements(seq![Term::VarRef(var)]), i, end, acc, env, out, fuel).value
            == Ok::<Term, Fault>(Term::List(acc + int_range(i, end))),
    decreases end - i,
{
    let body = Term::Statements(seq![Term::VarRef(var)]);
    if i < end {
        let f = (fuel - 1) as nat;
        let x = Term::Number(num_of_int(i));
        let e1 = define(env, var, x);
        law_define_then_lookup(env, var, x);
        let inner = Env { vars: e1.vars, frame: e1.vars.len(), parent: e1.parent };
        assert(lookup(inner, var) == lookup(e1, var));
        let g = (f - 1) as nat;
        let r = eval_spec(Term::VarRef(var), inner, out, (g - 1) as nat);
        assert(r.value == Ok::<Term, Fault>(x));
        let blk = eval_block(seq![Term::VarRef(var)], 0, Term::Nada, inner, out, g);
        assert(eval_block(seq![Term::VarRef(var)], 1, x, r.env, r.out, (g - 1) as nat).value == Ok::<Term, Fault>(x));
        assert(blk.value == Ok::<Term, Fault>(x));
        let ob = eval_spec(body, e1, out, f);
        assert(ob.value == Ok::<Term, Fault>(x));
        assert(collect(acc, x) == acc.push(x));
        law_range_loop_block_yields_indices(var, i + 1, end, acc.push(x), ob.env, ob.out, f);
        assert(acc.push(x) + int_range(i + 1, end) =~= acc + int_range(i, end));
    } else {
        assert(acc + int_range(i, end) =~= acc);
    }
}

/// `for var in <range> do var end`, over a range of integer literals, yields the integers of
/// the range in order: from `a` (or `a + 1` when open there) up to `b` (or `b - 1` when
/// open there).
pub proof fn law_for_over_range(
    var: Seq<char>,
    a: i64,
    b: i64,
    lower: Bound,
    upper: Bound,
    env: Env,
    out: Out,
    fuel: nat,
)
    requires
        ({
            let start = a + if lower is Exclusive { 1int } else { 0int };
            let end = b + if upper is Inclusive { 1int } else { 0int };
            start <= end && fuel > 4 * (end - start) + 4
        }),
    ensures
        ({
            let start = a + if lower is Exclusive { 1int } else { 0int };
            let end = b + if upper is Inclusive { 1int } else { 0int };
            let range = Term::Range {
                from: Box::new(Term::Number(num_of_int(a as int))),
                to: Box::new(Term::Number(num_of_int(b as int))),
                lower,
                upper,
            };
            let looped = Term::Loop {
                var,
                iterable: Box::new(range),
                inner: Box::new(Term::Statements(seq![Term::VarRef(var)])),
            };
            eval_spec(looped, env, out, fuel).value == Ok::<Term, Fault>(Term::List(int_range(start, end)))
        }),
{
    let start = a + if lower is Exclusive { 1int } else { 0int };
    let end = b + if upper is Inclusive { 1int } else { 0int };
    let na = num_of_int(a as int);
    let nb = num_of_int(b as int);
    lemma_floor_of_int(a as int);
    lemma_floor_of_int(b as int);
    let range = Term::Range { from: Box::new(Term::Number(na)), to: Box::new(Term::Number(nb)), lower, upper };
    let f = (fuel - 1) as nat;
    let o = eval_spec(range, env, out, f);
    assert(eval_spec(Term::Number(na), env, out, (f - 1) as nat).value == Ok::<Term, Fault>(Term::Number(na)));
    assert(eval_spec(Term::Number(nb), env, out, (f - 1) as nat).value == Ok::<Term, Fault>(Term::Number(nb)));
    assert(o.value == Ok::<Term, Fault>(range));
    assert(o.env == env && o.out == out);
    law_range_loop_block_yields_indices(var, start, end, Seq::empty(), env, out, f);
    assert(Seq::<Term>::empty() + int_range(start, end) =~= int_range(start, end));
}

} // verus!

verus! {

/// A block that defines a name and then reads it yields the value it defined, and leaves the
/// scope around it exactly as it was: the definition shadows an outer one only inside.
pub proof fn law_block_define_is_local(m: Mut, k: Seq<char>, v: Num, env: Env, out: Out, fuel: nat)
    requires
        fuel >= 8,
    ensures
        eval_spec(
            Term::Statements(seq![Term::Define(m, k, Box::new(Term::Number(v))), Term::VarRef(k)]),
            env,
            out,
            fuel,
        ) == (Outcome { value: Ok::<Term, Fault>(Term::Number(v)), env, out }),
{
    let ts = seq![Term::Define(m, k, Box::new(Term::Number(v))), Term::VarRef(k)];
    let f = (fuel - 1) as nat;
    let inner = Env { vars: env.vars, frame: env.vars.len(), parent: env.parent };
    let x = Term::Number(v);
    assert(eval_spec(x, inner, out, (f - 2) as nat) == (Outcome { value: Ok::<Term, Fault>(x), env: inner, out }));
    let e2 = define(inner, k, x);
    assert(eval_spec(ts[0], inner, out, (f - 1) as nat) == (Outcome { value: Ok::<Term, Fault>(Term::Nada), env: e2, out }));
    law_inner_define_is_scoped(env, k, x);
    assert(lookup(e2, k) == Some(x));
    assert(eval_spec(ts[1], e2, out, (f - 2) as nat) == (Outcome { value: Ok::<Term, Fault>(x), env: e2, out }));
    assert(eval_block(ts, 2, x, e2, out, (f - 2) as nat) == (Outcome { value: Ok::<Term, Fault>(x), env: e2, out }));
    assert(eval_block(ts, 1, Term::Nada, e2, out, (f - 1) as nat) == (Outcome { value: Ok::<Term, Fault>(x), env: e2, out }));
    assert(eval_block(ts, 0, Term::Nada, inner, out, f) == (Outcome { value: Ok::<Term, Fault>(x), env: e2, out }));
}

} // verus!

verus! {

/// On integer literals, `+ - *` evaluate to the integer result (or `Overflow` when it does not
/// fit `i64`), `/` by a positive divisor of a non-negative integer to the quotient, and the
/// comparisons to the integer comparison.
pub proof fn law_integer_operators(op: Op, i: i64, j: i64, env: Env, out: Out, fuel: nat)
    requires
        fuel >= 2,
    ensures
        ({
            let v = eval_spec(
                Term::Expr {
                    op,
                    lhs: Box::new(Term::Number(num_of_int(i as int))),
                    rhs: Box::new(Term::Number(num_of_int(j as int))),
                },
                env,
                out,
                fuel,
            ).value;
            let num = |n: int| Ok::<Term, Fault>(Term::Number(num_of_int(n)));
            &&& op is Add ==> v == if fits(i + j) { num(i + j) } else { Err(Fault::Overflow) }
            &&& op is Sub ==> v == if fits(i - j) { num(i - j) } else { Err(Fault::Overflow) }
            &&& op is Mul ==> v == if fits(i * j) { num(i * j) } else { Err(Fault::Overflow) }
            &&& (op is Div && 0 <= i && 0 < j && i % j == 0) ==> v == num(i / j)
            &&& op is Lt ==> v == Ok::<Term, Fault>(Term::Bool(i < j))
            &&& op is Le ==> v == Ok::<Term, Fault>(Term::Bool(i <= j))
            &&& op is Gt ==> v == Ok::<Term, Fault>(Term::Bool(i > j))
            &&& op is Ge ==> v == Ok::<Term, Fault>(Term::Bool(i >= j))
            &&& op is Eq ==> v == Ok::<Term, Fault>(Term::Bool(i == j))
            &&& op is Neq ==> v == Ok::<Term, Fault>(Term::Bool(i != j))
        }),
{
    let (a, b) = (num_of_int(i as int), num_of_int(j as int));
    law_operator_evaluation(op, a, b, env, out, fuel);
    lemma_int_arith(i as int, j as int);
    lemma_int_arith(j as int, i as int);
    if 0 <= i && 0 < j && i % j == 0 {
        lemma_int_div(i as int, j as int);
    }
}

} // verus!
