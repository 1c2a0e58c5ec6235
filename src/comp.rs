use vstd::prelude::*;

use crate::ast::{lemma_nodes_view, name_view, names_view, nodes_view, Node, Op, Term};
use crate::num::floor_spec;
use crate::parser::string_of;

verus! {

/// An integer comparison, signed.
#[derive(Clone, Copy, Debug, PartialEq, Eq, Structural)]
pub enum IntCC {
    Equal,
    NotEqual,
    SignedGreaterThan,
    SignedGreaterThanOrEqual,
    SignedLessThan,
    SignedLessThanOrEqual,
}

/// An integer arithmetic operation.
#[derive(Clone, Copy, Debug, PartialEq, Eq, Structural)]
pub enum BinOp {
    Iadd,
    Isub,
    Imul,
}

/// One step of building a function in SSA form. Steps marked "value" yield the next
/// value number, `CreateBlock` the next block number, `DeclareVar` the next variable number;
/// every value is a 64-bit integer.
#[derive(Debug)]
pub enum Inst {
    /// value: a constant.
    Iconst(i64),
    /// value: arithmetic on two values.
    Binary(BinOp, usize, usize),
    /// value: a one-bit flag, set when the comparison holds.
    Icmp(IntCC, usize, usize),
    /// value: a flag widened to a 64-bit integer, 1 or 0.
    Uextend(usize),
    /// value: the current definition of a variable.
    UseVar(usize),
    DeclareVar,
    DefVar(usize, usize),
    CreateBlock,
    /// value: a new parameter of the block.
    AppendBlockParam(usize),
    SwitchToBlock(usize),
    SealBlock(usize),
    /// Branch on a value: to the first block when it is non-zero, else to the second one
    /// with the given arguments.
    Brif(usize, usize, usize, Vec<usize>),
    Jump(usize, Vec<usize>),
    /// value: the result of calling the declared function of that number.
    Call(usize, Vec<usize>),
    Return(usize),
}

/// A function built from the syntax tree.
#[derive(Debug)]
pub struct Function {
    pub name: String,
    /// The number of the declaration it defines.
    pub id: usize,
    pub params: usize,
    pub insts: Vec<Inst>,
    /// How many values, blocks and variables its steps create.
    pub n_values: usize,
    pub n_blocks: usize,
    pub n_vars: usize,
}

/// The mathematical value of a step: argument lists as sequences.
pub enum InstView {
    Iconst(i64),
    Binary(BinOp, usize, usize),
    Icmp(IntCC, usize, usize),
    Uextend(usize),
    UseVar(usize),
    DeclareVar,
    DefVar(usize, usize),
    CreateBlock,
    AppendBlockParam(usize),
    SwitchToBlock(usize),
    SealBlock(usize),
    Brif(usize, usize, usize, Seq<usize>),
    Jump(usize, Seq<usize>),
    Call(usize, Seq<usize>),
    Return(usize),
}

impl Inst {
    pub open spec fn view(&self) -> InstView {
        match self {
            Inst::Iconst(n) => InstView::Iconst(*n),
            Inst::Binary(o, a, b) => InstView::Binary(*o, *a, *b),
            Inst::Icmp(c, a, b) => InstView::Icmp(*c, *a, *b),
            Inst::Uextend(a) => InstView::Uextend(*a),
            Inst::UseVar(v) => InstView::UseVar(*v),
            Inst::DeclareVar => InstView::DeclareVar,
            Inst::DefVar(v, x) => InstView::DefVar(*v, *x),
            Inst::CreateBlock => InstView::CreateBlock,
            Inst::AppendBlockParam(b) => InstView::AppendBlockParam(*b),
            Inst::SwitchToBlock(b) => InstView::SwitchToBlock(*b),
            Inst::SealBlock(b) => InstView::SealBlock(*b),
            Inst::Brif(c, t, e, a) => InstView::Brif(*c, *t, *e, a@),
            Inst::Jump(b, a) => InstView::Jump(*b, a@),
            Inst::Call(f, a) => InstView::Call(*f, a@),
            Inst::Return(x) => InstView::Return(*x),
        }
    }
}

pub open spec fn insts_view(s: Seq<Inst>) -> Seq<InstView> {
    s.map_values(|i: Inst| i.view())
}

pub open spec fn pairs_view(s: Seq<(String, usize)>) -> Seq<(Seq<char>, nat)> {
    s.map_values(|p: (String, usize)| (p.0@, p.1 as nat))
}

/// The mathematical value of a function under construction.
pub struct BState {
    pub insts: Seq<InstView>,
    pub nv: nat,
    pub nb: nat,
    pub nvars: nat,
    pub vars: Seq<(Seq<char>, nat)>,
}

/// The mathematical value of a built function.
pub struct FunctionView {
    pub name: Seq<char>,
    pub id: nat,
    pub params: nat,
    pub insts: Seq<InstView>,
    pub nv: nat,
    pub nb: nat,
    pub nvars: nat,
}

impl Function {
    pub open spec fn view(&self) -> FunctionView {
        FunctionView {
            name: self.name@,
            id: self.id as nat,
            params: self.params as nat,
            insts: insts_view(self.insts@),
            nv: self.n_values as nat,
            nb: self.n_blocks as nat,
            nvars: self.n_vars as nat,
        }
    }
}

pub open spec fn fns_view(s: Seq<Function>) -> Seq<FunctionView> {
    s.map_values(|f: Function| f.view())
}

/// Why a program cannot be compiled, as a mathematical value.
pub enum CompileFault {
    Unsupported,
    UnboundName(Seq<char>),
    ArityError,
}

impl CompileError {
    pub open spec fn view(&self) -> CompileFault {
        match self {
            CompileError::Unsupported => CompileFault::Unsupported,
            CompileError::UnboundName(s) => CompileFault::UnboundName(s@),
            CompileError::ArityError => CompileFault::ArityError,
        }
    }
}

/// The index of the last entry named `k`, or -1.
pub open spec fn last_key(s: Seq<(Seq<char>, nat)>, k: Seq<char>) -> int
    decreases s.len(),
{
    if s.len() == 0 {
        -1
    } else if s.last().0 == k {
        s.len() - 1
    } else {
        last_key(s.drop_last(), k)
    }
}

/// Adds a step that yields nothing.
pub open spec fn st_emit(st: BState, i: InstView) -> BState {
    BState { insts: st.insts.push(i), ..st }
}

/// Adds a step that yields the value numbered `st.nv`.
pub open spec fn st_value(st: BState, i: InstView) -> BState {
    BState { insts: st.insts.push(i), nv: st.nv + 1, ..st }
}

/// Creates the block numbered `st.nb`.
pub open spec fn st_block(st: BState) -> BState {
    BState { insts: st.insts.push(InstView::CreateBlock), nb: st.nb + 1, ..st }
}

/// Declares the variable numbered `st.nvars` for `name`.
pub open spec fn st_var(st: BState, name: Seq<char>) -> BState {
    BState {
        insts: st.insts.push(InstView::DeclareVar),
        nvars: st.nvars + 1,
        vars: st.vars.push((name, st.nvars)),
        ..st
    }
}

pub open spec fn st_new() -> BState {
    BState { insts: Seq::empty(), nv: 0, nb: 0, nvars: 0, vars: Seq::empty() }
}

pub open spec fn all_below(v: Seq<usize>, n: nat) -> bool {
    forall|k: int| 0 <= k < v.len() ==> (#[trigger] v[k] as nat) < n
}

/// Whether a step refers only to values, blocks and variables below the given counts, and
/// calls only declared functions, with as many arguments as they have parameters.
pub open spec fn inst_ok(i: Inst, nv: nat, nb: nat, nvars: nat, decls: Seq<(String, usize)>) -> bool {
    match i {
        Inst::Binary(_, a, b) => a < nv && b < nv,
        Inst::Icmp(_, a, b) => a < nv && b < nv,
        Inst::Uextend(a) => a < nv,
        Inst::UseVar(v) => v < nvars,
        Inst::DefVar(v, x) => v < nvars && x < nv,
        Inst::AppendBlockParam(b) => b < nb,
        Inst::SwitchToBlock(b) => b < nb,
        Inst::SealBlock(b) => b < nb,
        Inst::Brif(c, t, e, args) => c < nv && t < nb && e < nb && all_below(args@, nv),
        Inst::Jump(b, args) => b < nb && all_below(args@, nv),
        Inst::Call(f, args) => f < decls.len() && args@.len() == decls[f as int].1 && all_below(args@, nv),
        Inst::Return(x) => x < nv,
        _ => true,
    }
}

proof fn lemma_inst_ok_grows(
    i: Inst,
    nv: nat,
    nb: nat,
    nvars: nat,
    nv2: nat,
    nb2: nat,
    nvars2: nat,
    decls: Seq<(String, usize)>,
)
    requires
        inst_ok(i, nv, nb, nvars, decls),
        nv <= nv2,
        nb <= nb2,
        nvars <= nvars2,
    ensures
        inst_ok(i, nv2, nb2, nvars2, decls),
{
}

impl Function {
    /// Every step refers only to what the function itself creates, and calls declared
    /// functions with the right number of arguments.
    pub open spec fn wf_in(&self, decls: Seq<(String, usize)>) -> bool {
        forall|k: int|
            0 <= k < self.insts@.len() ==> inst_ok(
                #[trigger] self.insts@[k],
                self.n_values as nat,
                self.n_blocks as nat,
                self.n_vars as nat,
                decls,
            )
    }
}

/// Why a program cannot be compiled.
#[derive(Debug, PartialEq, Eq)]
pub enum CompileError {
    /// A construct that the compiler does not lower.
    Unsupported,
    /// A variable or function that is not declared.
    UnboundName(String),
    /// A call with another number of arguments than the function has parameters.
    ArityError,
}

pub type Decls = Seq<(Seq<char>, nat)>;

/// The outcome of lowering a node: the function under construction, the functions built
/// so far, and the number of the value that holds the node's value.
pub type Lowered = Result<(BState, Seq<FunctionView>, nat), CompileFault>;

pub open spec fn bin_of(op: Op) -> BinOp {
    match op {
        Op::Sub => BinOp::Isub,
        Op::Mul => BinOp::Imul,
        _ => BinOp::Iadd,
    }
}

/// The signed comparison of a comparison operator.
pub open spec fn cc_of(op: Op) -> IntCC {
    match op {
        Op::Eq => IntCC::Equal,
        Op::Neq => IntCC::NotEqual,
        Op::Gt => IntCC::SignedGreaterThan,
        Op::Ge => IntCC::SignedGreaterThanOrEqual,
        Op::Lt => IntCC::SignedLessThan,
        _ => IntCC::SignedLessThanOrEqual,
    }
}

pub open spec fn trunc_vars(s: Seq<(Seq<char>, nat)>, n: nat) -> Seq<(Seq<char>, nat)> {
    if s.len() > n {
        s.subrange(0, n as int)
    } else {
        s
    }
}

/// The steps that compute the value of `t`, added to `st`; `fns` are the functions built so
/// far and `d` the declarations. Names resolve to their latest binding; a block's own
/// bindings end with it.
pub open spec fn lower_spec(t: Term, st: BState, fns: Seq<FunctionView>, d: Decls) -> Lowered
    decreases t, 0nat,
{
    match t {
        Term::Nada => Ok((st_value(st, InstView::Iconst(0)), fns, st.nv)),
        Term::Number(n) => Ok((st_value(st, InstView::Iconst(floor_spec(n) as i64)), fns, st.nv)),
        Term::VarRef(x) => {
            let i = last_key(st.vars, x);
            if i >= 0 {
                Ok((st_value(st, InstView::UseVar(st.vars[i].1 as usize)), fns, st.nv))
            } else {
                Err(CompileFault::UnboundName(x))
            }
        },
        Term::Define(_, x, e) => {
            let var = st.nvars;
            match lower_spec(*e, st_var(st, x), fns, d) {
                Ok((s2, f2, v)) => Ok((st_emit(s2, InstView::DefVar(var as usize, v as usize)), f2, v)),
                Err(x) => Err(x),
            }
        },
        Term::Assign(x, e) => {
            let i = last_key(st.vars, x);
            if i < 0 {
                Err(CompileFault::UnboundName(x))
            } else {
                match lower_spec(*e, st, fns, d) {
                    Ok((s2, f2, v)) => Ok((st_emit(s2, InstView::DefVar(st.vars[i].1 as usize, v as usize)), f2, v)),
                    Err(x) => Err(x),
                }
            }
        },
        Term::Expr { op, lhs, rhs } => match lower_spec(*lhs, st, fns, d) {
            Err(e) => Err(e),
            Ok((s1, f1, x)) => match lower_spec(*rhs, s1, f1, d) {
                Err(e) => Err(e),
                Ok((s2, f2, y)) => if op is Div {
                    Err(CompileFault::Unsupported)
                } else if op is Add || op is Sub || op is Mul {
                    Ok((st_value(s2, InstView::Binary(bin_of(op), x as usize, y as usize)), f2, s2.nv))
                } else {
                    let s3 = st_value(s2, InstView::Icmp(cc_of(op), x as usize, y as usize));
                    Ok((st_value(s3, InstView::Uextend(s2.nv as usize)), f2, s3.nv))
                },
            },
        },
        Term::Statements(ts) => match lower_stmts(ts, 0, st_value(st, InstView::Iconst(0)), fns, st.nv, d) {
            Ok((s1, f1, v)) => Ok((BState { vars: trunc_vars(s1.vars, st.vars.len()), ..s1 }, f1, v)),
            Err(e) => Err(e),
        },
        Term::IfElse { condition, if_block, else_block } => match lower_spec(*condition, st, fns, d) {
            Err(e) => Err(e),
            Ok((s1, f1, c)) => {
                let (tb, eb, j) = (s1.nb, s1.nb + 1, s1.nb + 2);
                let s4 = st_block(st_block(st_block(s1)));
                let res = s4.nv;
                let s5 = st_value(s4, InstView::AppendBlockParam(j as usize));
                let s6 = st_emit(s5, InstView::Brif(c as usize, tb as usize, eb as usize, Seq::empty()));
                let s7 = st_emit(st_emit(s6, InstView::SwitchToBlock(tb as usize)), InstView::SealBlock(tb as usize));
                match lower_spec(*if_block, s7, f1, d) {
                    Err(e) => Err(e),
                    Ok((s8, f2, tv)) => {
                        let s9 = st_emit(
                            st_emit(st_emit(s8, InstView::Jump(j as usize, seq![tv as usize])), InstView::SwitchToBlock(eb as usize)),
                            InstView::SealBlock(eb as usize),
                        );
                        match lower_spec(*else_block, s9, f2, d) {
                            Err(e) => Err(e),
                            Ok((s10, f3, ev)) => Ok((
                                st_emit(
                                    st_emit(st_emit(s10, InstView::Jump(j as usize, seq![ev as usize])), InstView::SwitchToBlock(j as usize)),
                                    InstView::SealBlock(j as usize),
                                ),
                                f3,
                                res,
                            )),
                        }
                    },
                }
            },
        },
        Term::While { condition, inner } => {
            let cb = st.nb;
            let s1 = st_block(st);
            let run = s1.nv;
            let s2 = st_value(s1, InstView::AppendBlockParam(cb as usize));
            let bb = s2.nb;
            let xb = s2.nb + 1;
            let s3 = st_block(st_block(s2));
            let res = s3.nv;
            let s4 = st_value(s3, InstView::AppendBlockParam(xb as usize));
            let zero = s4.nv;
            let s5 = st_value(s4, InstView::Iconst(0));
            let s6 = st_emit(st_emit(s5, InstView::Jump(cb as usize, seq![zero as usize])), InstView::SwitchToBlock(cb as usize));
            match lower_spec(*condition, s6, fns, d) {
                Err(e) => Err(e),
                Ok((s7, f1, c)) => {
                    let s8 = st_emit(
                        st_emit(
                            st_emit(s7, InstView::Brif(c as usize, bb as usize, xb as usize, seq![run as usize])),
                            InstView::SwitchToBlock(bb as usize),
                        ),
                        InstView::SealBlock(bb as usize),
                    );
                    match lower_spec(*inner, s8, f1, d) {
                        Err(e) => Err(e),
                        Ok((s9, f2, bv)) => Ok((
                            st_emit(
                                st_emit(
                                    st_emit(
                                        st_emit(s9, InstView::Jump(cb as usize, seq![bv as usize])),
                                        InstView::SealBlock(cb as usize),
                                    ),
                                    InstView::SwitchToBlock(xb as usize),
                                ),
                                InstView::SealBlock(xb as usize),
                            ),
                            f2,
                            res,
                        )),
                    }
                },
            }
        },
        Term::FnCall(f, args) => {
            let id = last_key(d, f);
            if id < 0 {
                Err(CompileFault::UnboundName(f))
            } else if d[id].1 != args.len() {
                Err(CompileFault::ArityError)
            } else {
                match lower_args(args, 0, st, fns, Seq::empty(), d) {
                    Ok((s1, f1, vals)) => Ok((st_value(s1, InstView::Call(id as usize, vals)), f1, s1.nv)),
                    Err(e) => Err(e),
                }
            }
        },
        Term::FnDef(name, params, body) => match build_spec(name, params, *body, fns, d) {
            Ok(f1) => Ok((st_value(st, InstView::Iconst(0)), f1, st.nv)),
            Err(e) => Err(e),
        },
        _ => Err(CompileFault::Unsupported),
    }
}

/// Lowers the statements of `ts` from index `i` on; the value is the last one's, else `v`.
pub open spec fn lower_stmts(ts: Seq<Term>, i: int, st: BState, fns: Seq<FunctionView>, v: nat, d: Decls) -> Lowered
    decreases ts, ts.len() - i,
{
    if 0 <= i < ts.len() {
        match lower_spec(ts[i], st, fns, d) {
            Ok((s1, f1, v1)) => lower_stmts(ts, i + 1, s1, f1, v1, d),
            Err(e) => Err(e),
        }
    } else {
        Ok((st, fns, v))
    }
}

/// Lowers the arguments of `ts` from index `i` on, after the values in `vals`.
pub open spec fn lower_args(
    ts: Seq<Term>,
    i: int,
    st: BState,
    fns: Seq<FunctionView>,
    vals: Seq<usize>,
    d: Decls,
) -> Result<(BState, Seq<FunctionView>, Seq<usize>), CompileFault>
    decreases ts, ts.len() - i,
{
    if 0 <= i < ts.len() {
        match lower_spec(ts[i], st, fns, d) {
            Ok((s1, f1, v1)) => lower_args(ts, i + 1, s1, f1, vals.push(v1 as usize), d),
            Err(e) => Err(e),
        }
    } else {
        Ok((st, fns, vals))
    }
}

/// Binds the parameters from index `i` on, each to a new variable set from a new
/// parameter of the entry block.
pub open spec fn bind_params_spec(ps: Seq<Seq<char>>, i: int, st: BState) -> BState
    decreases ps.len() - i,
{
    if 0 <= i < ps.len() {
        let p = st.nv;
        let s1 = st_value(st, InstView::AppendBlockParam(0));
        let var = s1.nvars;
        bind_params_spec(ps, i + 1, st_emit(st_var(s1, ps[i]), InstView::DefVar(var as usize, p as usize)))
    } else {
        st
    }
}

/// The functions built after building the function `name` from `params` and `body`:
/// the functions that its body defines, then the function itself.
pub open spec fn build_spec(
    name: Option<Seq<char>>,
    params: Seq<Seq<char>>,
    body: Term,
    fns: Seq<FunctionView>,
    d: Decls,
) -> Result<Seq<FunctionView>, CompileFault>
    decreases body, 1nat,
{
    if name is None || !supported(body) {
        Err(CompileFault::Unsupported)
    } else {
        let k = name->Some_0;
        let id = last_key(d, k);
        if id < 0 {
            Err(CompileFault::UnboundName(k))
        } else {
            let s1 = st_emit(st_block(st_new()), InstView::SwitchToBlock(0));
            match lower_spec(body, bind_params_spec(params, 0, s1), fns, d) {
                Err(e) => Err(e),
                Ok((s3, f3, v)) => {
                    let s4 = st_emit(st_emit(s3, InstView::Return(v as usize)), InstView::SealBlock(0));
                    Ok(f3.push(FunctionView {
                        name: k,
                        id: id as nat,
                        params: params.len(),
                        insts: s4.insts,
                        nv: s4.nv,
                        nb: s4.nb,
                        nvars: s4.nvars,
                    }))
                },
            }
        }
    }
}

/// The functions built from a tree of blocks of function definitions, in order.
pub open spec fn top_spec(t: Term, fns: Seq<FunctionView>, d: Decls) -> Result<Seq<FunctionView>, CompileFault>
    decreases t, 0nat,
{
    match t {
        Term::Statements(ts) => top_seq(ts, 0, fns, d),
        Term::FnDef(name, params, body) => build_spec(name, params, *body, fns, d),
        _ => Err(CompileFault::Unsupported),
    }
}

/// The functions built from `ts` from index `i` on, after `fns`.
pub open spec fn top_seq(ts: Seq<Term>, i: int, fns: Seq<FunctionView>, d: Decls) -> Result<Seq<FunctionView>, CompileFault>
    decreases ts, ts.len() - i,
{
    if 0 <= i < ts.len() {
        match top_spec(ts[i], fns, d) {
            Ok(f1) => top_seq(ts, i + 1, f1, d),
            Err(e) => Err(e),
        }
    } else {
        Ok(fns)
    }
}

proof fn lemma_decls_pairs(v: Seq<(String, usize)>)
    ensures
        decls_view(v) == pairs_view(v),
{
    assert(decls_view(v) =~= pairs_view(v));
}

/// Whether the compiler lowers every node of `t`.
pub open spec fn supported(t: Term) -> bool
    decreases t, 0nat,
{
    match t {
        Term::Nada => true,
        Term::Number(_) => true,
        Term::VarRef(_) => true,
        Term::Define(_, _, e) => supported(*e),
        Term::Assign(_, e) => supported(*e),
        Term::Expr { op, lhs, rhs } => !(op is Div) && supported(*lhs) && supported(*rhs),
        Term::Statements(ts) => supported_from(ts, 0),
        Term::IfElse { condition, if_block, else_block } => supported(*condition) && supported(
            *if_block,
        ) && supported(*else_block),
        Term::While { condition, inner } => supported(*condition) && supported(*inner),
        Term::FnCall(_, args) => supported_from(args, 0),
        Term::FnDef(name, _, body) => name is Some && supported(*body),
        _ => false,
    }
}

/// Whether the compiler lowers every node of `ts` from index `i` on.
pub open spec fn supported_from(ts: Seq<Term>, i: int) -> bool
    decreases ts, ts.len() - i,
{
    if 0 <= i < ts.len() {
        supported(ts[i]) && supported_from(ts, i + 1)
    } else {
        true
    }
}

/// Both lists of declarations, in order, when neither was rejected.
pub open spec fn join(a: Option<Seq<(Seq<char>, nat)>>, b: Option<Seq<(Seq<char>, nat)>>) -> Option<Seq<(Seq<char>, nat)>> {
    match (a, b) {
        (Some(x), Some(y)) => Some(x + y),
        _ => None,
    }
}

/// The functions that `t` defines, innermost first, each with its parameter count; `None`
/// when `t` holds a node that the declaration pass rejects.
pub open spec fn decls(t: Term) -> Option<Seq<(Seq<char>, nat)>>
    decreases t, 0nat,
{
    match t {
        Term::Nada => Some(Seq::empty()),
        Term::Number(_) => Some(Seq::empty()),
        Term::VarRef(_) => Some(Seq::empty()),
        Term::FnCall(_, args) => decls_seq(args, 0, Seq::empty()),
        Term::Define(_, _, e) => decls(*e),
        Term::Assign(_, e) => decls(*e),
        Term::Expr { op, lhs, rhs } => join(decls(*lhs), decls(*rhs)),
        Term::Statements(ts) => decls_seq(ts, 0, Seq::empty()),
        Term::IfElse { condition, if_block, else_block } => join(
            decls(*condition),
            join(decls(*if_block), decls(*else_block)),
        ),
        Term::While { condition, inner } => join(decls(*condition), decls(*inner)),
        Term::Loop { var, iterable, inner } => join(decls(*iterable), decls(*inner)),
        Term::FnDef(name, params, body) => match (name, decls(*body)) {
            (Some(k), Some(inner)) => Some(inner.push((k, params.len()))),
            _ => None,
        },
        _ => None,
    }
}

/// The declarations of `ts` from index `i` on, after those in `acc`.
pub open spec fn decls_seq(ts: Seq<Term>, i: int, acc: Seq<(Seq<char>, nat)>) -> Option<Seq<(Seq<char>, nat)>>
    decreases ts, ts.len() - i,
{
    if 0 <= i < ts.len() {
        match decls(ts[i]) {
            Some(d) => decls_seq(ts, i + 1, acc + d),
            None => None,
        }
    } else {
        Some(acc)
    }
}

pub open spec fn decls_view(v: Seq<(String, usize)>) -> Seq<(Seq<char>, nat)> {
    Seq::new(v.len(), |i: int| (v[i].0@, v[i].1 as nat))
}

/// Whether the compiler lowers every node of the tree.
pub fn check_supported(node: &Node) -> (r: bool)
    ensures
        r == supported(node.view()),
    decreases node,
{
    match node {
        Node::Nada => true,
        Node::Number(_) => true,
        Node::VarRef(_) => true,
        Node::Define(_, _, e) => check_supported(e),
        Node::Assign(_, e) => check_supported(e),
        Node::Expr { op, lhs, rhs } => !matches!(op, Op::Div) && check_supported(lhs) && check_supported(rhs),
        Node::Statements(ts) => {
            proof {
                lemma_nodes_view(ts@);
            }
            assert(node.view() == Term::Statements(nodes_view(ts@)));
            all_supported(ts)
        },
        Node::FnCall(k, ts) => {
            proof {
                lemma_nodes_view(ts@);
            }
            assert(node.view() == Term::FnCall(k@, nodes_view(ts@)));
            all_supported(ts)
        },
        Node::IfElse { condition, if_block, else_block } => check_supported(condition) && check_supported(
            if_block,
        ) && check_supported(else_block),
        Node::While { condition, inner } => check_supported(condition) && check_supported(inner),
        Node::FnDef(name, _, body) => {
            let r = name.is_some() && check_supported(body);
            assert(r == supported(node.view()));
            r
        },
        _ => false,
    }
}

proof fn lemma_supported_from(ts: Seq<Term>, i: int)
    requires
        0 <= i,
        supported_from(ts, i),
    ensures
        forall|j: int| i <= j < ts.len() ==> supported(#[trigger] ts[j]),
    decreases ts.len() - i,
{
    if i < ts.len() {
        lemma_supported_from(ts, i + 1);
    }
}

/// Whether the compiler lowers every node of the sequence.
fn all_supported(ts: &Vec<Node>) -> (r: bool)
    ensures
        r == supported_from(nodes_view(ts@), 0),
    decreases ts,
{
    proof {
        lemma_nodes_view(ts@);
    }
    let ghost tv = nodes_view(ts@);
    let mut i: usize = 0;
    while i < ts.len()
        invariant
            tv == nodes_view(ts@),
            i <= ts@.len(),
            supported_from(tv, i as int) == supported_from(tv, 0),
            tv.len() == ts@.len(),
            forall|j: int| 0 <= j < ts@.len() ==> #[trigger] tv[j] == ts@[j].view(),
        decreases ts@.len() - i,
    {
        proof {
            assert(decreases_to!(*ts => ts@));
            assert(decreases_to!(ts@ => ts@[i as int]));
        }
        if !check_supported(&ts[i]) {
            return false;
        }
        i = i + 1;
    }
    true
}

/// The index of the last entry named `k`.
fn find_name(v: &Vec<(String, usize)>, k: &String) -> (r: Option<usize>)
    ensures
        match r {
            Some(i) => i < v@.len() && v@[i as int].0@ == k@ && i as int == last_key(pairs_view(v@), k@),
            None => (forall|j: int| 0 <= j < v@.len() ==> v@[j].0@ != k@) && last_key(pairs_view(v@), k@) == -1,
        },
{
    let ghost pv = pairs_view(v@);
    assert(pv.subrange(0, v@.len() as int) =~= pv);
    let mut i: usize = v.len();
    while i > 0
        invariant
            i <= v@.len(),
            pv == pairs_view(v@),
            pv.len() == v@.len(),
            forall|j: int| i <= j < v@.len() ==> v@[j].0@ != k@,
            last_key(pv, k@) == last_key(pv.subrange(0, i as int), k@),
        decreases i,
    {
        let ghost sub = pv.subrange(0, i as int);
        assert(sub.last() == pv[i - 1]);
        if v[i - 1].0 == *k {
            return Some(i - 1);
        }
        assert(sub.drop_last() =~= pv.subrange(0, i - 1));
        i = i - 1;
    }
    None
}

/// The state of building one function: its steps so far, the numbers handed out, and the
/// variable that each source name stands for.
pub struct FunctionBuilder {
    pub insts: Vec<Inst>,
    pub n_values: usize,
    pub n_blocks: usize,
    pub n_vars: usize,
    pub variables: Vec<(String, usize)>,
}

proof fn lemma_insts_push(s: Seq<Inst>, i: Inst)
    ensures
        insts_view(s.push(i)) == insts_view(s).push(i.view()),
{
    assert(insts_view(s.push(i)) =~= insts_view(s).push(i.view()));
}

proof fn lemma_pairs_push(s: Seq<(String, usize)>, k: String, v: usize)
    ensures
        pairs_view(s.push((k, v))) == pairs_view(s).push((k@, v as nat)),
{
    assert(pairs_view(s.push((k, v))) =~= pairs_view(s).push((k@, v as nat)));
}

impl FunctionBuilder {
    pub open spec fn view(&self) -> BState {
        BState {
            insts: insts_view(self.insts@),
            nv: self.n_values as nat,
            nb: self.n_blocks as nat,
            nvars: self.n_vars as nat,
            vars: pairs_view(self.variables@),
        }
    }

    /// Each number handed out came with a step of its own; every step and every variable
    /// binding refers to numbers handed out.
    pub open spec fn wf_in(&self, decls: Seq<(String, usize)>) -> bool {
        &&& self.n_values + self.n_blocks + self.n_vars <= self.insts@.len()
        &&& forall|k: int|
            0 <= k < self.insts@.len() ==> inst_ok(
                #[trigger] self.insts@[k],
                self.n_values as nat,
                self.n_blocks as nat,
                self.n_vars as nat,
                decls,
            )
        &&& forall|k: int| 0 <= k < self.variables@.len() ==> (#[trigger] self.variables@[k]).1 < self.n_vars
    }

    /// Counts only grow.
    pub open spec fn grows_to(&self, other: &FunctionBuilder) -> bool {
        &&& self.n_values <= other.n_values
        &&& self.n_blocks <= other.n_blocks
        &&& self.n_vars <= other.n_vars
    }

    pub fn new() -> (r: FunctionBuilder)
        ensures
            forall|d: Seq<(String, usize)>| r.wf_in(d),
            r.n_values == 0 && r.n_blocks == 0 && r.n_vars == 0,
            r.view() == st_new(),
    {
        let r = FunctionBuilder { insts: Vec::new(), n_values: 0, n_blocks: 0, n_vars: 0, variables: Vec::new() };
        assert(r.view().insts =~= Seq::<InstView>::empty());
        assert(r.view().vars =~= Seq::<(Seq<char>, nat)>::empty());
        r
    }

    /// Adds a step with the counts unchanged.
    fn push_step(&mut self, i: Inst, Ghost(d): Ghost<Seq<(String, usize)>>)
        requires
            old(self).wf_in(d),
            inst_ok(i, old(self).n_values as nat, old(self).n_blocks as nat, old(self).n_vars as nat, d),
            old(self).n_values + old(self).n_blocks + old(self).n_vars < old(self).insts@.len() + 1,
        ensures
            final(self).insts@ == old(self).insts@.push(i),
            final(self).n_values == old(self).n_values,
            final(self).n_blocks == old(self).n_blocks,
            final(self).n_vars == old(self).n_vars,
            final(self).variables == old(self).variables,
            final(self).view() == st_emit(old(self).view(), i.view()),
            forall|k: int|
                0 <= k < final(self).insts@.len() ==> inst_ok(
                    #[trigger] final(self).insts@[k],
                    final(self).n_values as nat,
                    final(self).n_blocks as nat,
                    final(self).n_vars as nat,
                    d,
                ),
    {
        proof {
            lemma_insts_push(self.insts@, i);
        }
        self.insts.push(i);
        assert forall|k: int| 0 <= k < self.insts@.len() implies inst_ok(
            #[trigger] self.insts@[k],
            self.n_values as nat,
            self.n_blocks as nat,
            self.n_vars as nat,
            d,
        ) by {
            if k < old(self).insts@.len() {
                assert(self.insts@[k] == old(self).insts@[k]);
            }
        }
    }

    /// Adds a step that yields nothing.
    fn emit(&mut self, i: Inst, Ghost(d): Ghost<Seq<(String, usize)>>)
        requires
            old(self).wf_in(d),
            inst_ok(i, old(self).n_values as nat, old(self).n_blocks as nat, old(self).n_vars as nat, d),
        ensures
            final(self).wf_in(d),
            old(self).grows_to(final(self)),
            final(self).n_values == old(self).n_values,
            final(self).n_blocks == old(self).n_blocks,
            final(self).variables == old(self).variables,
            final(self).view() == st_emit(old(self).view(), i.view()),
    {
        self.push_step(i, Ghost(d));
    }

    /// Adds a step that yields a value, and returns its number.
    fn value(&mut self, i: Inst, Ghost(d): Ghost<Seq<(String, usize)>>) -> (r: usize)
        requires
            old(self).wf_in(d),
            inst_ok(i, old(self).n_values as nat, old(self).n_blocks as nat, old(self).n_vars as nat, d),
        ensures
            final(self).wf_in(d),
            old(self).grows_to(final(self)),
            r == old(self).n_values,
            final(self).n_values == r + 1,
            final(self).n_blocks == old(self).n_blocks,
            final(self).variables == old(self).variables,
            final(self).view() == st_value(old(self).view(), i.view()),
    {
        self.push_step(i, Ghost(d));
        proof {
            assert(self.insts@.len() == self.insts.len());
        }
        let r = self.n_values;
        self.n_values = self.n_values + 1;
        proof {
            assert forall|k: int| 0 <= k < self.insts@.len() implies inst_ok(
                #[trigger] self.insts@[k],
                self.n_values as nat,
                self.n_blocks as nat,
                self.n_vars as nat,
                d,
            ) by {
                lemma_inst_ok_grows(self.insts@[k], r as nat, self.n_blocks as nat, self.n_vars as nat,
                    self.n_values as nat, self.n_blocks as nat, self.n_vars as nat, d);
            }
        }
        r
    }

    /// Creates a block and returns its number.
    fn create_block(&mut self, Ghost(d): Ghost<Seq<(String, usize)>>) -> (r: usize)
        requires
            old(self).wf_in(d),
        ensures
            final(self).wf_in(d),
            old(self).grows_to(final(self)),
            r == old(self).n_blocks,
            final(self).n_blocks == r + 1,
            final(self).n_values == old(self).n_values,
            final(self).variables == old(self).variables,
            final(self).view() == st_block(old(self).view()),
    {
        self.push_step(Inst::CreateBlock, Ghost(d));
        proof {
            assert(self.insts@.len() == self.insts.len());
        }
        let r = self.n_blocks;
        self.n_blocks = self.n_blocks + 1;
        proof {
            assert forall|k: int| 0 <= k < self.insts@.len() implies inst_ok(
                #[trigger] self.insts@[k],
                self.n_values as nat,
                self.n_blocks as nat,
                self.n_vars as nat,
                d,
            ) by {
                lemma_inst_ok_grows(self.insts@[k], self.n_values as nat, r as nat, self.n_vars as nat,
                    self.n_values as nat, self.n_blocks as nat, self.n_vars as nat, d);
            }
        }
        r
    }

    /// Declares a fresh variable for `name` and returns its number.
    fn new_var(&mut self, name: &String, Ghost(d): Ghost<Seq<(String, usize)>>) -> (r: usize)
        requires
            old(self).wf_in(d),
        ensures
            final(self).wf_in(d),
            old(self).grows_to(final(self)),
            r == old(self).n_vars,
            final(self).n_vars == r + 1,
            final(self).n_values == old(self).n_values,
            final(self).n_blocks == old(self).n_blocks,
            final(self).variables@ == old(self).variables@.push((*name, r)),
            final(self).view() == st_var(old(self).view(), name@),
    {
        self.push_step(Inst::DeclareVar, Ghost(d));
        proof {
            assert(self.insts@.len() == self.insts.len());
        }
        let r = self.n_vars;
        self.n_vars = self.n_vars + 1;
        let key = name.clone();
        proof {
            lemma_pairs_push(self.variables@, key, r);
        }
        self.variables.push((key, r));
        proof {
            assert forall|k: int| 0 <= k < self.insts@.len() implies inst_ok(
                #[trigger] self.insts@[k],
                self.n_values as nat,
                self.n_blocks as nat,
                self.n_vars as nat,
                d,
            ) by {
                lemma_inst_ok_grows(self.insts@[k], self.n_values as nat, self.n_blocks as nat, r as nat,
                    self.n_values as nat, self.n_blocks as nat, self.n_vars as nat, d);
            }
            assert forall|k: int| 0 <= k < self.variables@.len() implies (#[trigger] self.variables@[k]).1 < self.n_vars by {
                if k < old(self).variables@.len() {
                    assert(self.variables@[k] == old(self).variables@[k]);
                }
            }
        }
        r
    }
}

/// A vector of one value number.
fn one(v: usize) -> (r: Vec<usize>)
    ensures
        r@ == seq![v],
{
    let mut r: Vec<usize> = Vec::new();
    r.push(v);
    assert(r@ =~= seq![v]);
    r
}

/// The functions of `a` are kept in `b`, and each one added is well-formed for the
/// declarations of `b`, which are those of `a`.
pub open spec fn extends(a: Compiler, b: Compiler) -> bool {
    &&& a.fn_decls == b.fn_decls
    &&& a.functions@.len() <= b.functions@.len()
    &&& forall|k: int| 0 <= k < a.functions@.len() ==> b.functions@[k] == a.functions@[k]
    &&& forall|k: int|
        a.functions@.len() <= k < b.functions@.len() ==> (#[trigger] b.functions@[k]).wf_in(b.fn_decls@)
}

proof fn lemma_extends_trans(a: Compiler, b: Compiler, c: Compiler)
    requires
        extends(a, b),
        extends(b, c),
    ensures
        extends(a, c),
{
    assert forall|k: int| a.functions@.len() <= k < c.functions@.len() implies (#[trigger] c.functions@[k]).wf_in(c.fn_decls@) by {
        if k < b.functions@.len() {
            assert(c.functions@[k] == b.functions@[k]);
        }
    }
}

proof fn lemma_extends_push(a: Compiler, b: Compiler, c: Compiler)
    requires
        extends(a, b),
        c.fn_decls == b.fn_decls,
        c.functions@.len() == b.functions@.len() + 1,
        forall|k: int| 0 <= k < b.functions@.len() ==> c.functions@[k] == b.functions@[k],
        c.functions@[b.functions@.len() as int].wf_in(c.fn_decls@),
    ensures
        extends(a, c),
{
    assert forall|k: int| a.functions@.len() <= k < c.functions@.len() implies (#[trigger] c.functions@[k]).wf_in(c.fn_decls@) by {
        if k < b.functions@.len() {
            assert(c.functions@[k] == b.functions@[k]);
        }
    }
}

/// Every function built is well-formed for the declarations.
pub open spec fn all_wf(c: Compiler) -> bool {
    forall|k: int| 0 <= k < c.functions@.len() ==> (#[trigger] c.functions@[k]).wf_in(c.fn_decls@)
}

/// The compiler: the functions declared so far, with their parameter counts, and the
/// functions built so far.
pub struct Compiler {
    pub fn_decls: Vec<(String, usize)>,
    pub functions: Vec<Function>,
}

impl Compiler {
    pub fn new() -> (r: Compiler)
        ensures
            r.fn_decls@.len() == 0,
            r.functions@.len() == 0,
    {
        Compiler { fn_decls: Vec::new(), functions: Vec::new() }
    }

    /// Declares the functions that the nodes define, in order.
    fn declare_all(&mut self, ts: &Vec<Node>) -> (r: Result<(), CompileError>)
        ensures
            match decls_seq(nodes_view(ts@), 0, Seq::empty()) {
                Some(d) => r is Ok && decls_view(final(self).fn_decls@) == decls_view(old(self).fn_decls@) + d,
                None => r == Err::<(), CompileError>(CompileError::Unsupported),
            },
            final(self).functions == old(self).functions,
        decreases ts,
    {
        let ghost before = decls_view(self.fn_decls@);
        let ghost tv = nodes_view(ts@);
        let ghost mut acc: Seq<(Seq<char>, nat)> = Seq::empty();
        proof {
            lemma_nodes_view(ts@);
            assert(decls_view(self.fn_decls@) =~= before + acc);
        }
        let mut i: usize = 0;
        while i < ts.len()
            invariant
                tv == nodes_view(ts@),
                tv.len() == ts@.len(),
                forall|j: int| 0 <= j < ts@.len() ==> #[trigger] tv[j] == ts@[j].view(),
                i <= ts@.len(),
                decls_view(self.fn_decls@) == before + acc,
                decls_seq(tv, i as int, acc) == decls_seq(tv, 0, Seq::empty()),
                before == decls_view(old(self).fn_decls@),
                self.functions == old(self).functions,
            decreases ts@.len() - i,
        {
            proof {
                assert(decreases_to!(*ts => ts@));
                assert(decreases_to!(ts@ => ts@[i as int]));
            }
            match self.declare_functions(&ts[i]) {
                Ok(()) => {},
                Err(e) => return Err(e),
            }
            proof {
                let d = decls(tv[i as int])->Some_0;
                assert(before + acc + d =~= before + (acc + d));
                acc = acc + d;
            }
            i = i + 1;
        }
        Ok(())
    }

    /// Declares every named function that the tree defines, each with its parameter count.
    pub fn declare_functions(&mut self, node: &Node) -> (r: Result<(), CompileError>)
        ensures
            match decls(node.view()) {
                Some(d) => r is Ok && decls_view(final(self).fn_decls@) == decls_view(old(self).fn_decls@) + d,
                None => r == Err::<(), CompileError>(CompileError::Unsupported),
            },
            final(self).functions == old(self).functions,
        decreases node,
    {
        let ghost before = decls_view(self.fn_decls@);
        match node {
            Node::Nada | Node::Number(_) | Node::VarRef(_) => {
                assert(decls_view(self.fn_decls@) =~= before + Seq::empty());
                Ok(())
            },
            Node::Define(_, _, e) | Node::Assign(_, e) => self.declare_functions(e),
            Node::Expr { lhs: a, rhs: b, .. } | Node::While { condition: a, inner: b } | Node::Loop {
                iterable: a,
                inner: b,
                ..
            } => {
                match self.declare_functions(a) {
                    Ok(()) => {},
                    Err(e) => return Err(e),
                }
                let r = self.declare_functions(b);
                proof {
                    if decls(a.view()) is Some && decls(b.view()) is Some {
                        assert(before + decls(a.view())->Some_0 + decls(b.view())->Some_0 =~= before
                            + (decls(a.view())->Some_0 + decls(b.view())->Some_0));
                    }
                }
                r
            },
            Node::IfElse { condition, if_block, else_block } => {
                match self.declare_functions(condition) {
                    Ok(()) => {},
                    Err(e) => return Err(e),
                }
                match self.declare_functions(if_block) {
                    Ok(()) => {},
                    Err(e) => return Err(e),
                }
                let r = self.declare_functions(else_block);
                proof {
                    if decls(condition.view()) is Some && decls(if_block.view()) is Some && decls(
                        else_block.view(),
                    ) is Some {
                        let (x, y, z) = (
                            decls(condition.view())->Some_0,
                            decls(if_block.view())->Some_0,
                            decls(else_block.view())->Some_0,
                        );
                        assert(before + x + y + z =~= before + (x + (y + z)));
                    }
                }
                r
            },
            Node::Statements(ts) => {
                proof {
                    lemma_nodes_view(ts@);
                }
                assert(node.view() == Term::Statements(nodes_view(ts@)));
                self.declare_all(ts)
            },
            Node::FnCall(k, ts) => {
                proof {
                    lemma_nodes_view(ts@);
                }
                assert(node.view() == Term::FnCall(k@, nodes_view(ts@)));
                self.declare_all(ts)
            },
            Node::FnDef(name, params, body) => {
                match name {
                    Some(k) => {
                        match self.declare_functions(body) {
                            Ok(()) => {},
                            Err(e) => return Err(e),
                        }
                        let ghost mid = self.fn_decls@;
                        self.fn_decls.push((k.clone(), params.len()));
                        proof {
                            assert(decls_view(self.fn_decls@) =~= decls_view(mid).push((k@, params@.len())));
                            assert(params@.map_values(|s: String| s@).len() == params@.len());
                        }
                        Ok(())
                    },
                    None => Err(CompileError::Unsupported),
                }
            },
            _ => Err(CompileError::Unsupported),
        }
    }

    /// Declares the functions that a block of function definitions (or a single one)
    /// defines, and builds each definition of its top level, blocks inside it included.
    pub fn translate_top_level(&mut self, node: &Node) -> (r: Result<(), CompileError>)
        ensures
            match decls(node.view()) {
                None => r == Err::<(), CompileError>(CompileError::Unsupported),
                Some(dd) => match top_spec(node.view(), fns_view(old(self).functions@), pairs_view(old(self).fn_decls@) + dd) {
                    Ok(fs) => r is Ok && fns_view(final(self).functions@) == fs,
                    Err(e) => r is Err && r->Err_0.view() == e,
                },
            },
            decls(node.view()) is Some ==> pairs_view(final(self).fn_decls@) == pairs_view(old(self).fn_decls@) + decls(node.view())->Some_0,
            r is Ok && old(self).functions@.len() == 0 ==> all_wf(*final(self)),
    {
        match self.declare_functions(node) {
            Ok(()) => {},
            Err(e) => return Err(e),
        }
        proof {
            lemma_decls_pairs(self.fn_decls@);
            lemma_decls_pairs(old(self).fn_decls@);
        }
        let ghost start = *self;
        let r = self.translate_tree(node);
        proof {
            if r is Ok && old(self).functions@.len() == 0 {
                assert forall|k: int| 0 <= k < self.functions@.len() implies (#[trigger] self.functions@[k]).wf_in(self.fn_decls@) by {}
            }
        }
        r
    }

    /// Builds each function definition of a tree of blocks, in order.
    fn translate_tree(&mut self, node: &Node) -> (r: Result<(), CompileError>)
        ensures
            match top_spec(node.view(), fns_view(old(self).functions@), pairs_view(old(self).fn_decls@)) {
                Ok(fs) => r is Ok && fns_view(final(self).functions@) == fs,
                Err(e) => r is Err && r->Err_0.view() == e,
            },
            final(self).fn_decls == old(self).fn_decls,
            extends(*old(self), *final(self)),
        decreases node,
    {
        match node {
            Node::Statements(ts) => {
                let ghost tv = nodes_view(ts@);
                let ghost dv = pairs_view(self.fn_decls@);
                let ghost target = top_seq(tv, 0, fns_view(self.functions@), dv);
                proof {
                    lemma_nodes_view(ts@);
                }
                let mut i: usize = 0;
                while i < ts.len()
                    invariant
                        *node == Node::Statements(*ts),
                        i <= ts@.len(),
                        tv == nodes_view(ts@),
                        tv.len() == ts@.len(),
                        forall|j: int| 0 <= j < ts@.len() ==> #[trigger] tv[j] == ts@[j].view(),
                        dv == pairs_view(self.fn_decls@),
                        self.fn_decls == old(self).fn_decls,
                        extends(*old(self), *self),
                        top_seq(tv, i as int, fns_view(self.functions@), dv) == target,
                        target == top_seq(tv, 0, fns_view(old(self).functions@), dv),
                    decreases ts@.len() - i,
                {
                    proof {
                        assert(decreases_to!(*node => node->Statements_0));
                        assert(decreases_to!(*ts => ts@));
                        assert(decreases_to!(ts@ => ts@[i as int]));
                    }
                    let ghost before = *self;
                    match self.translate_tree(&ts[i]) {
                        Ok(()) => {
                            proof {
                                lemma_extends_trans(*old(self), before, *self);
                            }
                        },
                        Err(e) => {
                            assert(top_seq(tv, i as int, fns_view(before.functions@), dv) == Err::<Seq<FunctionView>, CompileFault>(e.view()));
                            proof {
                                lemma_extends_trans(*old(self), before, *self);
                            }
                            return Err(e);
                        },
                    }
                    i = i + 1;
                }
                Ok(())
            },
            Node::FnDef(name, params, body) => self.translate_fn(name, params, body),
            _ => Err(CompileError::Unsupported),
        }
    }


    /// Builds the function `name`, declared before, from its parameters and body; a function
    /// defined inside the body is built too, and stands for 0 where it is defined.
    pub fn translate_fn(&mut self, name: &Option<String>, params: &Vec<String>, body: &Node) -> (r: Result<(), CompileError>)
        ensures
            (r is Err && r->Err_0 is Unsupported) <==> (name is None || !supported(body.view())),
            final(self).fn_decls == old(self).fn_decls,
            r is Ok ==> final(self).functions@.len() > old(self).functions@.len(),
            extends(*old(self), *final(self)),
            match build_spec(name_view(*name), names_view(params@), body.view(), fns_view(old(self).functions@), pairs_view(old(self).fn_decls@)) {
                Ok(fs) => r is Ok && fns_view(final(self).functions@) == fs,
                Err(e) => r is Err && r->Err_0.view() == e && final(self).functions@ == old(self).functions@,
            },
        decreases body, 3nat,
    {
        let ghost d = self.fn_decls@;
        let k = match name {
            Some(k) => k,
            None => return Err(CompileError::Unsupported),
        };
        if !check_supported(body) {
            return Err(CompileError::Unsupported);
        }
        let id = match find_name(&self.fn_decls, k) {
            Some(i) => i,
            None => return Err(CompileError::UnboundName(k.clone())),
        };
        let mut b = FunctionBuilder::new();
        assert(b.wf_in(d));
        let entry = b.create_block(Ghost(d));
        b.emit(Inst::SwitchToBlock(entry), Ghost(d));
        let ghost pv = names_view(params@);
        let ghost target = bind_params_spec(pv, 0, b.view());
        let mut i: usize = 0;
        while i < params.len()
            invariant
                b.wf_in(d),
                d == self.fn_decls@,
                entry == 0,
                entry < b.n_blocks,
                i <= params@.len(),
                pv == names_view(params@),
                pv.len() == params@.len(),
                bind_params_spec(pv, i as int, b.view()) == target,
                target == bind_params_spec(pv, 0, st_emit(st_block(st_new()), InstView::SwitchToBlock(0))),
            decreases params@.len() - i,
        {
            let p = b.value(Inst::AppendBlockParam(entry), Ghost(d));
            let var = b.new_var(&params[i], Ghost(d));
            b.emit(Inst::DefVar(var, p), Ghost(d));
            i = i + 1;
        }
        let saved = self.functions.len();
        let ghost before = *self;
        let ghost bpre = b.view();
        assert(bpre == bind_params_spec(pv, 0, st_emit(st_block(st_new()), InstView::SwitchToBlock(0))));
        let v = match self.lower(&mut b, body) {
            Ok(v) => v,
            Err(e) => {
                assert(lower_spec(body.view(), bpre, fns_view(old(self).functions@), pairs_view(old(self).fn_decls@)) == Err::<(BState, Seq<FunctionView>, nat), CompileFault>(e.view()));
                self.functions.truncate(saved);
                assert(self.functions@ =~= old(self).functions@);
                return Err(e);
            },
        };
        b.emit(Inst::Return(v), Ghost(d));
        b.emit(Inst::SealBlock(entry), Ghost(d));
        let f = Function {
            name: k.clone(),
            id,
            params: params.len(),
            insts: b.insts,
            n_values: b.n_values,
            n_blocks: b.n_blocks,
            n_vars: b.n_vars,
        };
        assert(f.wf_in(self.fn_decls@));
        let ghost mid = *self;
        self.functions.push(f);
        proof {
            lemma_extends_push(*old(self), mid, *self);
            assert(fns_view(self.functions@) =~= fns_view(mid.functions@).push(f.view()));
        }
        Ok(())
    }

    /// Adds the steps that compute the value of `node` to `b`; returns that value's number.
    #[verifier::rlimit(100)]
    fn lower(&mut self, b: &mut FunctionBuilder, node: &Node) -> (r: Result<usize, CompileError>)
        requires
            old(b).wf_in(old(self).fn_decls@),
            supported(node.view()),
        ensures
            final(b).wf_in(final(self).fn_decls@),
            old(b).grows_to(final(b)),
            r is Ok ==> r->Ok_0 < final(b).n_values,
            !(r is Err && r->Err_0 is Unsupported),
            final(self).fn_decls == old(self).fn_decls,
            extends(*old(self), *final(self)),
            match lower_spec(node.view(), old(b).view(), fns_view(old(self).functions@), pairs_view(old(self).fn_decls@)) {
                Ok((st, fs, v)) => r is Ok && r->Ok_0 as nat == v && final(b).view() == st
                    && fns_view(final(self).functions@) == fs,
                Err(e) => r is Err && r->Err_0.view() == e,
            },
        decreases node, 2nat,
    {
        let ghost d = self.fn_decls@;
        let ghost dv = pairs_view(self.fn_decls@);
        match node {
            Node::Nada => Ok(b.value(Inst::Iconst(0), Ghost(d))),
            Node::Number(n) => Ok(b.value(Inst::Iconst(n.floor()), Ghost(d))),
            Node::VarRef(x) => match find_name(&b.variables, x) {
                Some(i) => {
                    let var = b.variables[i].1;
                    Ok(b.value(Inst::UseVar(var), Ghost(d)))
                },
                None => Err(CompileError::UnboundName(x.clone())),
            },
            Node::Define(_, x, e) => {
                let var = b.new_var(x, Ghost(d));
                let v = match self.lower(b, e) {
                    Ok(v) => v,
                    Err(e) => return Err(e),
                };
                b.emit(Inst::DefVar(var, v), Ghost(d));
                Ok(v)
            },
            Node::Assign(x, e) => {
                let var = match find_name(&b.variables, x) {
                    Some(i) => b.variables[i].1,
                    None => return Err(CompileError::UnboundName(x.clone())),
                };
                let v = match self.lower(b, e) {
                    Ok(v) => v,
                    Err(e) => return Err(e),
                };
                b.emit(Inst::DefVar(var, v), Ghost(d));
                Ok(v)
            },
            Node::Expr { op, lhs, rhs } => {
                let x = match self.lower(b, lhs) {
                    Ok(v) => v,
                    Err(e) => return Err(e),
                };
                let y = match self.lower(b, rhs) {
                    Ok(v) => v,
                    Err(e) => return Err(e),
                };
                match op {
                    Op::Add => Ok(b.value(Inst::Binary(BinOp::Iadd, x, y), Ghost(d))),
                    Op::Sub => Ok(b.value(Inst::Binary(BinOp::Isub, x, y), Ghost(d))),
                    Op::Mul => Ok(b.value(Inst::Binary(BinOp::Imul, x, y), Ghost(d))),
                    Op::Div => Err(CompileError::Unsupported),
                    _ => {
                        let cc = match op {
                            Op::Eq => IntCC::Equal,
                            Op::Neq => IntCC::NotEqual,
                            Op::Gt => IntCC::SignedGreaterThan,
                            Op::Ge => IntCC::SignedGreaterThanOrEqual,
                            Op::Lt => IntCC::SignedLessThan,
                            _ => IntCC::SignedLessThanOrEqual,
                        };
                        let flag = b.value(Inst::Icmp(cc, x, y), Ghost(d));
                        Ok(b.value(Inst::Uextend(flag), Ghost(d)))
                    },
                }
            },
            Node::Statements(_) => self.lower_block(b, node),
            Node::IfElse { .. } => self.lower_if(b, node),
            Node::While { .. } => self.lower_while(b, node),
            Node::FnCall(_, _) => self.lower_call(b, node),
            Node::FnDef(name, params, body) => {
                match self.translate_fn(name, params, body) {
                    Ok(()) => {},
                    Err(e) => return Err(e),
                }
                Ok(b.value(Inst::Iconst(0), Ghost(d)))
            },
            _ => Err(CompileError::Unsupported),
        }
    }
    /// `lower` for a Statements node.
    fn lower_block(&mut self, b: &mut FunctionBuilder, node: &Node) -> (r: Result<usize, CompileError>)
        requires
            old(b).wf_in(old(self).fn_decls@),
            supported(node.view()),
            node is Statements,
        ensures
            final(b).wf_in(final(self).fn_decls@),
            old(b).grows_to(final(b)),
            r is Ok ==> r->Ok_0 < final(b).n_values,
            !(r is Err && r->Err_0 is Unsupported),
            final(self).fn_decls == old(self).fn_decls,
            extends(*old(self), *final(self)),
            match lower_spec(node.view(), old(b).view(), fns_view(old(self).functions@), pairs_view(old(self).fn_decls@)) {
                Ok((st, fs, v)) => r is Ok && r->Ok_0 as nat == v && final(b).view() == st
                    && fns_view(final(self).functions@) == fs,
                Err(e) => r is Err && r->Err_0.view() == e,
            },
        decreases node, 1nat,
    {
        let ghost d = self.fn_decls@;
        let ghost dv = pairs_view(self.fn_decls@);
        match node {
                Node::Statements(ts) => {
                    let saved = b.variables.len();
                    let ghost st0 = b.view();
                    let mut v = b.value(Inst::Iconst(0), Ghost(d));
                    let ghost tv = nodes_view(ts@);
                    let ghost target = lower_stmts(tv, 0, b.view(), fns_view(self.functions@), v as nat, dv);
                    proof {
                        lemma_nodes_view(ts@);
                        assert(node.view() == Term::Statements(nodes_view(ts@)));
                        lemma_supported_from(nodes_view(ts@), 0);
                        assert forall|j: int| 0 <= j < ts@.len() implies supported(#[trigger] ts@[j].view()) by {
                            assert(nodes_view(ts@)[j] == ts@[j].view());
                        }
                    }
                    let mut i: usize = 0;
                    while i < ts.len()
                        invariant
                            *node == Node::Statements(*ts),
                            b.wf_in(d),
                            d == self.fn_decls@,
                            old(b).grows_to(b),
                            extends(*old(self), *self),
                            v < b.n_values,
                            i <= ts@.len(),
                            forall|j: int| 0 <= j < ts@.len() ==> supported(#[trigger] ts@[j].view()),
                            self.fn_decls == old(self).fn_decls,
                            dv == pairs_view(self.fn_decls@),
                            tv == nodes_view(ts@),
                            tv.len() == ts@.len(),
                            forall|j: int| 0 <= j < ts@.len() ==> #[trigger] tv[j] == ts@[j].view(),
                            lower_stmts(tv, i as int, b.view(), fns_view(self.functions@), v as nat, dv) == target,
                            target == lower_stmts(tv, 0, st_value(st0, InstView::Iconst(0)), fns_view(old(self).functions@), st0.nv, dv),
                            st0 == old(b).view(),
                            saved == st0.vars.len(),
                        decreases ts@.len() - i,
                    {
                        proof {
                            assert(decreases_to!(*node => node->Statements_0));
                            assert(decreases_to!(*ts => ts@));
                            assert(decreases_to!(ts@ => ts@[i as int]));
                        }
                        v = match self.lower(b, &ts[i]) {
                            Ok(v) => v,
                            Err(e) => return Err(e),
                        };
                        i = i + 1;
                    }
                    let ghost before = b.variables@;
                    b.variables.truncate(saved);
                    proof {
                        assert forall|k: int| 0 <= k < b.variables@.len() implies (#[trigger] b.variables@[k]).1 < b.n_vars by {
                            assert(b.variables@[k] == before[k]);
                        }
                        assert(pairs_view(b.variables@) =~= trunc_vars(pairs_view(before), saved as nat));
                    }
                    Ok(v)
                },
            _ => Err(CompileError::Unsupported),
        }
    }

    /// `lower` for a IfElse node.
    fn lower_if(&mut self, b: &mut FunctionBuilder, node: &Node) -> (r: Result<usize, CompileError>)
        requires
            old(b).wf_in(old(self).fn_decls@),
            supported(node.view()),
            node is IfElse,
        ensures
            final(b).wf_in(final(self).fn_decls@),
            old(b).grows_to(final(b)),
            r is Ok ==> r->Ok_0 < final(b).n_values,
            !(r is Err && r->Err_0 is Unsupported),
            final(self).fn_decls == old(self).fn_decls,
            extends(*old(self), *final(self)),
            match lower_spec(node.view(), old(b).view(), fns_view(old(self).functions@), pairs_view(old(self).fn_decls@)) {
                Ok((st, fs, v)) => r is Ok && r->Ok_0 as nat == v && final(b).view() == st
                    && fns_view(final(self).functions@) == fs,
                Err(e) => r is Err && r->Err_0.view() == e,
            },
        decreases node, 1nat,
    {
        let ghost d = self.fn_decls@;
        let ghost dv = pairs_view(self.fn_decls@);
        match node {
                Node::IfElse { condition, if_block, else_block } => {
                    let c = match self.lower(b, condition) {
                        Ok(v) => v,
                        Err(e) => return Err(e),
                    };
                    let then_b = b.create_block(Ghost(d));
                    let else_b = b.create_block(Ghost(d));
                    let join = b.create_block(Ghost(d));
                    let result = b.value(Inst::AppendBlockParam(join), Ghost(d));
                    b.emit(Inst::Brif(c, then_b, else_b, Vec::new()), Ghost(d));
                    b.emit(Inst::SwitchToBlock(then_b), Ghost(d));
                    b.emit(Inst::SealBlock(then_b), Ghost(d));
                    let tv = match self.lower(b, if_block) {
                        Ok(v) => v,
                        Err(e) => return Err(e),
                    };
                    b.emit(Inst::Jump(join, one(tv)), Ghost(d));
                    b.emit(Inst::SwitchToBlock(else_b), Ghost(d));
                    b.emit(Inst::SealBlock(else_b), Ghost(d));
                    let ev = match self.lower(b, else_block) {
                        Ok(v) => v,
                        Err(e) => return Err(e),
                    };
                    b.emit(Inst::Jump(join, one(ev)), Ghost(d));
                    b.emit(Inst::SwitchToBlock(join), Ghost(d));
                    b.emit(Inst::SealBlock(join), Ghost(d));
                    Ok(result)
                },
            _ => Err(CompileError::Unsupported),
        }
    }

    /// `lower` for a While node.
    fn lower_while(&mut self, b: &mut FunctionBuilder, node: &Node) -> (r: Result<usize, CompileError>)
        requires
            old(b).wf_in(old(self).fn_decls@),
            supported(node.view()),
            node is While,
        ensures
            final(b).wf_in(final(self).fn_decls@),
            old(b).grows_to(final(b)),
            r is Ok ==> r->Ok_0 < final(b).n_values,
            !(r is Err && r->Err_0 is Unsupported),
            final(self).fn_decls == old(self).fn_decls,
            extends(*old(self), *final(self)),
            match lower_spec(node.view(), old(b).view(), fns_view(old(self).functions@), pairs_view(old(self).fn_decls@)) {
                Ok((st, fs, v)) => r is Ok && r->Ok_0 as nat == v && final(b).view() == st
                    && fns_view(final(self).functions@) == fs,
                Err(e) => r is Err && r->Err_0.view() == e,
            },
        decreases node, 1nat,
    {
        let ghost d = self.fn_decls@;
        let ghost dv = pairs_view(self.fn_decls@);
        match node {
                Node::While { condition, inner } => {
                    let cond_b = b.create_block(Ghost(d));
                    let running = b.value(Inst::AppendBlockParam(cond_b), Ghost(d));
                    let body_b = b.create_block(Ghost(d));
                    let exit_b = b.create_block(Ghost(d));
                    let result = b.value(Inst::AppendBlockParam(exit_b), Ghost(d));
                    let zero = b.value(Inst::Iconst(0), Ghost(d));
                    b.emit(Inst::Jump(cond_b, one(zero)), Ghost(d));
                    b.emit(Inst::SwitchToBlock(cond_b), Ghost(d));
                    let c = match self.lower(b, condition) {
                        Ok(v) => v,
                        Err(e) => return Err(e),
                    };
                    b.emit(Inst::Brif(c, body_b, exit_b, one(running)), Ghost(d));
                    b.emit(Inst::SwitchToBlock(body_b), Ghost(d));
                    b.emit(Inst::SealBlock(body_b), Ghost(d));
                    let bv = match self.lower(b, inner) {
                        Ok(v) => v,
                        Err(e) => return Err(e),
                    };
                    b.emit(Inst::Jump(cond_b, one(bv)), Ghost(d));
                    b.emit(Inst::SealBlock(cond_b), Ghost(d));
                    b.emit(Inst::SwitchToBlock(exit_b), Ghost(d));
                    b.emit(Inst::SealBlock(exit_b), Ghost(d));
                    Ok(result)
                },
            _ => Err(CompileError::Unsupported),
        }
    }

    /// `lower` for a FnCall node.
    fn lower_call(&mut self, b: &mut FunctionBuilder, node: &Node) -> (r: Result<usize, CompileError>)
        requires
            old(b).wf_in(old(self).fn_decls@),
            supported(node.view()),
            node is FnCall,
        ensures
            final(b).wf_in(final(self).fn_decls@),
            old(b).grows_to(final(b)),
            r is Ok ==> r->Ok_0 < final(b).n_values,
            !(r is Err && r->Err_0 is Unsupported),
            final(self).fn_decls == old(self).fn_decls,
            extends(*old(self), *final(self)),
            match lower_spec(node.view(), old(b).view(), fns_view(old(self).functions@), pairs_view(old(self).fn_decls@)) {
                Ok((st, fs, v)) => r is Ok && r->Ok_0 as nat == v && final(b).view() == st
                    && fns_view(final(self).functions@) == fs,
                Err(e) => r is Err && r->Err_0.view() == e,
            },
        decreases node, 1nat,
    {
        let ghost d = self.fn_decls@;
        let ghost dv = pairs_view(self.fn_decls@);
        match node {
                Node::FnCall(f, args) => {
                    let id = match find_name(&self.fn_decls, f) {
                        Some(i) => i,
                        None => return Err(CompileError::UnboundName(f.clone())),
                    };
                    if self.fn_decls[id].1 != args.len() {
                        return Err(CompileError::ArityError);
                    }
                    proof {
                        lemma_nodes_view(args@);
                        assert(node.view() == Term::FnCall(f@, nodes_view(args@)));
                        lemma_supported_from(nodes_view(args@), 0);
                        assert forall|j: int| 0 <= j < args@.len() implies supported(#[trigger] args@[j].view()) by {
                            assert(nodes_view(args@)[j] == args@[j].view());
                        }
                    }
                    let mut vals: Vec<usize> = Vec::new();
                    let ghost arity = self.fn_decls@[id as int].1;
                    let ghost av = nodes_view(args@);
                    let ghost target = lower_args(av, 0, b.view(), fns_view(self.functions@), vals@, dv);
                    assert(vals@ =~= Seq::<usize>::empty());
                    let mut i: usize = 0;
                    while i < args.len()
                        invariant
                            *node == Node::FnCall(*f, *args),
                            id < self.fn_decls@.len(),
                            arity == self.fn_decls@[id as int].1,
                            arity == args@.len(),
                            vals@.len() == i,
                            all_below(vals@, b.n_values as nat),
                            b.wf_in(d),
                            d == self.fn_decls@,
                            old(b).grows_to(b),
                            extends(*old(self), *self),
                            i <= args@.len(),
                            forall|j: int| 0 <= j < args@.len() ==> supported(#[trigger] args@[j].view()),
                            self.fn_decls == old(self).fn_decls,
                            dv == pairs_view(self.fn_decls@),
                            av == nodes_view(args@),
                            av.len() == args@.len(),
                            forall|j: int| 0 <= j < args@.len() ==> #[trigger] av[j] == args@[j].view(),
lower_args(av, i as int, b.view(), fns_view(self.functions@), vals@, dv) == target,
                            node.view() == Term::FnCall(f@, av),
                            id as int == last_key(dv, f@),
                            dv[id as int].1 == args@.len(),
                            old(b).view() == old(b).view(),
                            target == lower_args(av, 0, old(b).view(), fns_view(old(self).functions@), Seq::empty(), dv),
                        decreases args@.len() - i,
                    {
                        proof {
                            assert(decreases_to!(*node => node->FnCall_1));
                            assert(decreases_to!(*args => args@));
                            assert(decreases_to!(args@ => args@[i as int]));
                        }
                        let ghost (bv0, fv0) = (b.view(), fns_view(self.functions@));
                        match self.lower(b, &args[i]) {
                            Ok(v) => {
                                vals.push(v);
                            },
                            Err(e) => {
                                assert(av[i as int] == args@[i as int].view());
                                assert(lower_args(av, i as int, bv0, fv0, vals@, dv) == Err::<(BState, Seq<FunctionView>, Seq<usize>), CompileFault>(e.view()));
                                assert(target == Err::<(BState, Seq<FunctionView>, Seq<usize>), CompileFault>(e.view()));
                                return Err(e);
                            },
                        }
                        i = i + 1;
                    }
                    Ok(b.value(Inst::Call(id, vals), Ghost(d)))
                },
            _ => Err(CompileError::Unsupported),
        }
    }

}

pub open spec fn main_name() -> Seq<char> {
    seq!['m', 'a', 'i', 'n']
}

/// A program as the body of its `main` function.
pub open spec fn main_term(t: Term) -> Term {
    Term::FnDef(Some(main_name()), Seq::empty(), Box::new(t))
}

/// Whether the program's top level defines a function named `main`.
pub open spec fn defines_main(t: Term) -> bool {
    match t {
        Term::Statements(ts) => exists|i: int|
            0 <= i < ts.len() && (#[trigger] ts[i] is FnDef) && ts[i]->FnDef_0 == Some(main_name()),
        _ => false,
    }
}

fn find_main(ast: &Node, main: &String) -> (r: bool)
    requires
        main@ == main_name(),
    ensures
        r == defines_main(ast.view()),
{
    match ast {
        Node::Statements(ts) => {
            proof {
                lemma_nodes_view(ts@);
            }
            let mut i: usize = 0;
            while i < ts.len()
                invariant
                    ast.view() == Term::Statements(nodes_view(ts@)),
                    main@ == main_name(),
                    i <= ts@.len(),
                    nodes_view(ts@).len() == ts@.len(),
                    forall|j: int| 0 <= j < ts@.len() ==> #[trigger] nodes_view(ts@)[j] == ts@[j].view(),
                    forall|j: int| 0 <= j < i ==> !((#[trigger] nodes_view(ts@)[j]) is FnDef
                        && nodes_view(ts@)[j]->FnDef_0 == Some(main_name())),
                decreases ts@.len() - i,
            {
                match &ts[i] {
                    Node::FnDef(Some(k), _, _) => {
                        if *k == *main {
                            assert(nodes_view(ts@)[i as int] is FnDef);
                            return true;
                        }
                    },
                    _ => {},
                }
                i = i + 1;
            }
            false
        },
        _ => false,
    }
}

/// Compiles a program. When its top level defines `main`, each top-level function is
/// built and `main` is the entry; otherwise its statements become the body of `main`,
/// which returns their value.
pub fn compile_program(ast: Node) -> (r: Result<Compiler, CompileError>)
    ensures
        !defines_main(ast.view()) ==> ((r is Err && r->Err_0 is Unsupported) <==> (decls(
            main_term(ast.view()),
        ) is None || !supported(ast.view()))),
        r is Ok ==> r->Ok_0.functions@.len() > 0 && all_wf(r->Ok_0),
        !defines_main(ast.view()) ==> match decls(main_term(ast.view())) {
            None => r is Err && r->Err_0 is Unsupported,
            Some(dd) => match build_spec(Some(main_name()), Seq::empty(), ast.view(), Seq::empty(), dd) {
                Ok(fs) => r is Ok && fns_view(r->Ok_0.functions@) == fs && pairs_view(r->Ok_0.fn_decls@) == dd,
                Err(e) => r is Err && r->Err_0.view() == e,
            },
        },
        defines_main(ast.view()) ==> match decls(ast.view()) {
            None => r is Err && r->Err_0 is Unsupported,
            Some(dd) => match top_spec(ast.view(), Seq::empty(), dd) {
                Ok(fs) => fs.len() > 0 ==> r is Ok && fns_view(r->Ok_0.functions@) == fs && pairs_view(
                    r->Ok_0.fn_decls@,
                ) == dd,
                Err(e) => r is Err && r->Err_0.view() == e,
            },
        },
{
    let main = string_of(vec!['m', 'a', 'i', 'n']);
    proof {
        assert(main@ =~= main_name());
    }
    if find_main(&ast, &main) {
        let mut c = Compiler::new();
        proof {
            assert(pairs_view(c.fn_decls@) =~= Seq::<(Seq<char>, nat)>::empty());
            assert(fns_view(c.functions@) =~= Seq::<FunctionView>::empty());
            if decls(ast.view()) is Some {
                assert(Seq::<(Seq<char>, nat)>::empty() + decls(ast.view())->Some_0 =~= decls(ast.view())->Some_0);
            }
        }
        return match c.translate_top_level(&ast) {
            Ok(()) => {
                if c.functions.len() == 0 {
                    return Err(CompileError::UnboundName(main));
                }
                Ok(c)
            },
            Err(e) => Err(e),
        };
    }
    let params: Vec<String> = Vec::new();
    let start = Node::FnDef(Some(main), params, Box::new(ast));
    proof {
        assert(names_view(params@) =~= Seq::<Seq<char>>::empty());
        assert(start.view() == main_term(ast.view()));
    }
    let mut c = Compiler::new();
    match c.declare_functions(&start) {
        Ok(()) => {},
        Err(e) => return Err(e),
    }
    proof {
        lemma_decls_pairs(c.fn_decls@);
        assert(decls_view(Seq::<(String, usize)>::empty()) =~= Seq::<(Seq<char>, nat)>::empty());
        assert(Seq::<(Seq<char>, nat)>::empty() + decls(main_term(ast.view()))->Some_0 =~= decls(main_term(ast.view()))->Some_0);
        assert(fns_view(c.functions@) =~= Seq::<FunctionView>::empty());
    }
    match &start {
        Node::FnDef(name, params, body) => match c.translate_fn(name, params, body) {
            Ok(()) => Ok(c),
            Err(e) => Err(e),
        },
        _ => Err(CompileError::Unsupported),
    }
}

} // verus!
