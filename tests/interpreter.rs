use alpha::ast::{Mut, Node, Op};
use alpha::eval::{Eval, EvalError, Scope};
use alpha::num::{Arith, Num};
use alpha::parser::AlphaParser;

fn num(n: i64) -> Node {
    Node::Number(Num::from_int(n))
}

fn nums(ns: &[i64]) -> Node {
    Node::List(ns.iter().map(|n| num(*n)).collect())
}

fn name(s: &str) -> String {
    s.to_string()
}

fn run(src: &str) -> Result<Node, EvalError> {
    let ast = AlphaParser::parse_source(src).expect("parses");
    Eval::new().run(&ast)
}

fn expr(op: Op, l: Node, r: Node) -> Node {
    Node::Expr { op, lhs: Box::new(l), rhs: Box::new(r) }
}

fn eval_in_fresh_scope(node: &Node) -> Result<Node, EvalError> {
    let mut scope = Scope { vars: Vec::new(), frame: 0, parent: Vec::new() };
    Eval::new().eval(node, &mut scope, 1_000_000)
}

#[test]
fn arithmetic_precedence_result() {
    assert_eq!(run("2 + 3 * 4;"), Ok(num(14)));
}

#[test]
fn list_scaling_program() {
    assert_eq!(run("let x = [1,2,3]; 2 * x;"), Ok(nums(&[2, 4, 6])));
}

#[test]
fn square_function_program() {
    assert_eq!(run("fn f(x) x*x end f(6)"), Ok(num(36)));
}

#[test]
fn while_sum_program() {
    let src = "let mut s = 0; let mut i = 0; while i < 5 do s = s + i; i = i + 1 end; s";
    assert_eq!(run(src), Ok(num(10)));
}

#[test]
fn main_sum_program_interpreted() {
    let src = "fn main() let mut s = 0; let mut i = 0; while i < 10 do s = s + i; i = i + 1 end; s end main()";
    assert_eq!(run(src), Ok(num(45)));
}

#[test]
fn operators_on_numbers() {
    assert_eq!(eval_in_fresh_scope(&expr(Op::Add, num(7), num(5))), Ok(num(12)));
    assert_eq!(eval_in_fresh_scope(&expr(Op::Sub, num(7), num(5))), Ok(num(2)));
    assert_eq!(eval_in_fresh_scope(&expr(Op::Mul, num(7), num(5))), Ok(num(35)));
    assert_eq!(eval_in_fresh_scope(&expr(Op::Div, num(10), num(5))), Ok(num(2)));
    assert_eq!(eval_in_fresh_scope(&expr(Op::Lt, num(7), num(5))), Ok(Node::Bool(false)));
    assert_eq!(eval_in_fresh_scope(&expr(Op::Le, num(5), num(5))), Ok(Node::Bool(true)));
    assert_eq!(eval_in_fresh_scope(&expr(Op::Gt, num(7), num(5))), Ok(Node::Bool(true)));
    assert_eq!(eval_in_fresh_scope(&expr(Op::Ge, num(4), num(5))), Ok(Node::Bool(false)));
    assert_eq!(eval_in_fresh_scope(&expr(Op::Eq, num(5), num(5))), Ok(Node::Bool(true)));
    assert_eq!(eval_in_fresh_scope(&expr(Op::Neq, num(5), num(5))), Ok(Node::Bool(false)));
}

#[test]
fn division_is_exact() {
    let r = run("7 / 2").unwrap();
    match r {
        Node::Number(n) => {
            assert_eq!(n.numerator(), 7);
            assert_eq!(n.denominator(), 2);
        }
        other => panic!("not a number: {:?}", other),
    }
    assert_eq!(run("4 / 6 * 3"), Ok(num(2)));
}

#[test]
fn division_by_zero_is_reported() {
    assert_eq!(run("1 / 0"), Err(EvalError::DivisionByZero));
}

#[test]
fn overflow_is_reported() {
    assert_eq!(run("9223372036854775807 + 1"), Err(EvalError::Overflow));
}

#[test]
fn number_arithmetic_reduces() {
    let a = Num::from_int(1);
    let b = Num::from_int(3);
    let third = match a.div(b) {
        Arith::Value(n) => n,
        _ => panic!("division failed"),
    };
    assert_eq!(third.numerator(), 1);
    assert_eq!(third.denominator(), 3);
    match third.add(third) {
        Arith::Value(n) => {
            assert_eq!(n.numerator(), 2);
            assert_eq!(n.denominator(), 3);
        }
        _ => panic!("addition failed"),
    }
    match Num::from_int(-7).div(Num::from_int(2)) {
        Arith::Value(n) => assert_eq!(n.floor(), -4),
        _ => panic!("division failed"),
    }
}

#[test]
fn inner_block_shadows_then_restores() {
    let inner = Node::Statements(vec![
        Node::Define(Mut::Immutable, name("x"), Box::new(num(2))),
        Node::VarRef(name("x")),
    ]);
    let program = Node::Statements(vec![
        Node::Define(Mut::Immutable, name("x"), Box::new(num(1))),
        Node::Define(Mut::Immutable, name("y"), Box::new(inner)),
        Node::List(vec![Node::VarRef(name("y")), Node::VarRef(name("x"))]),
    ]);
    assert_eq!(eval_in_fresh_scope(&program), Ok(nums(&[2, 1])));
}

#[test]
fn assign_in_inner_block_updates_outer() {
    assert_eq!(run("let mut x = 1; if 1 < 2 then x = 5 end; x"), Ok(num(5)));
}

#[test]
fn closures_capture_by_value() {
    let src = "let make = fn(n) fn(x) x + n end end; let add3 = make(3); add3(4)";
    assert_eq!(run(src), Ok(num(7)));
}

#[test]
fn recursion_through_own_name() {
    let src = "let fact = fn f(n) if n <= 1 then 1 else n * f(n-1) end end; fact(5)";
    assert_eq!(run(src), Ok(num(120)));
}

#[test]
fn loop_over_half_open_range() {
    assert_eq!(run("for i in [0,5) do i end"), Ok(nums(&[0, 1, 2, 3, 4])));
}

#[test]
fn loop_over_left_open_range() {
    assert_eq!(run("for i in (0,5] do i end"), Ok(nums(&[1, 2, 3, 4, 5])));
}

#[test]
fn loop_over_list_and_range_with_names() {
    assert_eq!(run("for x in [3, 4] do x * x end"), Ok(nums(&[9, 16])));
    assert_eq!(run("let n = 3; for i in (0,n] do i end"), Ok(nums(&[1, 2, 3])));
    assert_eq!(run("let n = 3; [1,n]"), Ok(nums(&[1, 3])));
}

#[test]
fn loop_drops_nada_values() {
    assert_eq!(run("for i in [0,3) do let y = i end"), Ok(nums(&[])));
}

#[test]
fn list_arithmetic() {
    assert_eq!(run("2 * [1,2,3]"), Ok(nums(&[2, 4, 6])));
    assert_eq!(run("[1,2,3] + [4]"), Ok(nums(&[1, 2, 3, 4])));
    assert_eq!(run("[10,20] / 2"), Ok(nums(&[5, 10])));
    assert_eq!(run("2 * [1, [2, 3]]"), Ok(Node::List(vec![num(2), nums(&[4, 6])])));
}

#[test]
fn unbound_name_is_reported() {
    assert_eq!(run("let x = 1; y + x"), Err(EvalError::UnboundName(name("y"))));
    assert_eq!(run("z = 3"), Err(EvalError::UnboundName(name("z"))));
}

#[test]
fn shape_mismatch_is_type_error() {
    assert_eq!(run("[1] * 2"), Err(EvalError::TypeError));
    assert_eq!(run("if 1 then 2 end"), Err(EvalError::TypeError));
    assert_eq!(run("for i in 3 do i end"), Err(EvalError::TypeError));
}

#[test]
fn call_arity_is_checked() {
    assert_eq!(run("fn f(a, b) a end f(1)"), Err(EvalError::ArityError));
}

#[test]
fn printf_collects_its_arguments() {
    let ast = AlphaParser::parse_source("printf(1, 2 + 3); 7").unwrap();
    let mut e = Eval::new();
    assert_eq!(e.run(&ast), Ok(num(7)));
    assert_eq!(e.printed, vec![vec![num(1), num(5)]]);
}

#[test]
fn fuel_bounds_evaluation() {
    let ast = AlphaParser::parse_source("while 1 < 2 do 1 end").unwrap();
    let mut scope = Scope { vars: Vec::new(), frame: 0, parent: Vec::new() };
    assert_eq!(Eval::new().eval(&ast, &mut scope, 50), Err(EvalError::OutOfFuel));
}

#[test]
fn empty_program_is_nada() {
    assert_eq!(run(""), Ok(Node::Nada));
}

#[test]
fn scope_lookup_and_combined_view() {
    let mut scope = Scope { vars: Vec::new(), frame: 0, parent: vec![(name("a"), num(1))] };
    scope.define(&name("a"), num(2));
    scope.define(&name("b"), num(3));
    assert_eq!(scope.get(&name("a")), Some(&num(2)));
    assert_eq!(scope.get(&name("c")), None);
    let all = scope.combined();
    assert_eq!(all.len(), 3);
    assert!(scope.assign(&name("b"), num(4)));
    assert!(!scope.assign(&name("c"), num(4)));
    assert_eq!(scope.get(&name("b")), Some(&num(4)));
}

#[test]
fn top_level_definitions_stay_in_the_given_scope() {
    let ast = AlphaParser::parse_source("let mut x = 1; if 1 < 2 then x = 2 end").unwrap();
    let mut scope = Scope { vars: Vec::new(), frame: 0, parent: Vec::new() };
    assert!(Eval::new().eval(&ast, &mut scope, 1_000_000).is_ok());
    assert_eq!(scope.get(&name("x")), Some(&num(2)));
    let ast = AlphaParser::parse_source("let mut s = 0; let mut i = 0; while i < 5 do s = s + i; i = i + 1 end; s").unwrap();
    let mut scope = Scope { vars: Vec::new(), frame: 0, parent: Vec::new() };
    assert_eq!(Eval::new().eval(&ast, &mut scope, 1_000_000), Ok(num(10)));
    assert_eq!(scope.get(&name("s")), Some(&num(10)));
    assert_eq!(scope.get(&name("i")), Some(&num(5)));
}
