use alpha::ast::{Bound, Mut, Node, Op};
use alpha::num::Num;
use alpha::parser::{AlphaParser, ParseError};

fn num(n: i64) -> Node {
    Node::Number(Num::from_int(n))
}

fn expr(op: Op, l: Node, r: Node) -> Node {
    Node::Expr { op, lhs: Box::new(l), rhs: Box::new(r) }
}

fn neg(n: Node) -> Node {
    expr(Op::Mul, num(-1), n)
}

fn single(src: &str) -> Node {
    match AlphaParser::parse_source(src).expect("parses") {
        Node::Statements(mut v) => {
            assert_eq!(v.len(), 1);
            v.remove(0)
        }
        other => panic!("not a block: {:?}", other),
    }
}

#[test]
fn precedence_example() {
    let expected = expr(
        Op::Add,
        expr(Op::Div, neg(expr(Op::Add, num(1), num(2))), neg(num(2))),
        expr(Op::Mul, num(1), num(2)),
    );
    assert_eq!(single("-(1+2)/-2+1*2"), expected);
}

#[test]
fn left_and_right_associativity() {
    assert_eq!(single("1 - 2 - 3"), expr(Op::Sub, expr(Op::Sub, num(1), num(2)), num(3)));
    assert_eq!(single("8 / 4 / 2"), expr(Op::Div, expr(Op::Div, num(8), num(4)), num(2)));
    assert_eq!(single("1 == 2 != 3"), expr(Op::Eq, num(1), expr(Op::Neq, num(2), num(3))));
}

#[test]
fn comparisons_bind_tighter_than_arithmetic() {
    let v = Node::VarRef("i".to_string());
    assert_eq!(single("i < 5"), expr(Op::Lt, v, num(5)));
    assert_eq!(single("1 + 2 < 3"), expr(Op::Add, num(1), expr(Op::Lt, num(2), num(3))));
}

#[test]
fn declarations_and_assignments() {
    assert_eq!(single("let x = 1"), Node::Define(Mut::Immutable, "x".to_string(), Box::new(num(1))));
    assert_eq!(single("let mut x = 1"), Node::Define(Mut::Mutable, "x".to_string(), Box::new(num(1))));
    assert_eq!(single("x = 1"), Node::Assign("x".to_string(), Box::new(num(1))));
}

#[test]
fn ranges_and_lists() {
    let range = Node::Range {
        from: Box::new(num(0)),
        to: Box::new(Node::VarRef("n".to_string())),
        lower: Bound::Exclusive,
        upper: Bound::Inclusive,
    };
    assert_eq!(single("(0,n]"), range);
    assert_eq!(single("[0,5]"), Node::List(vec![num(0), num(5)]));
    assert_eq!(single("[]"), Node::List(vec![]));
}

#[test]
fn strings_are_nul_terminated() {
    assert_eq!(single("\"hi\\n\""), Node::String("hi\n\0".to_string()));
}

#[test]
fn function_definitions_and_calls() {
    let def = single("fn add(a, b) a + b end");
    let body = Node::Statements(vec![expr(
        Op::Add,
        Node::VarRef("a".to_string()),
        Node::VarRef("b".to_string()),
    )]);
    assert_eq!(
        def,
        Node::FnDef(Some("add".to_string()), vec!["a".to_string(), "b".to_string()], Box::new(body))
    );
    assert_eq!(single("f()"), Node::FnCall("f".to_string(), vec![]));
}

#[test]
fn if_without_else_is_nada() {
    match single("if 1 < 2 then 3 end") {
        Node::IfElse { else_block, .. } => assert_eq!(*else_block, Node::Nada),
        other => panic!("not a conditional: {:?}", other),
    }
}

#[test]
fn syntax_errors_name_the_offset() {
    assert_eq!(AlphaParser::parse_source("let = 3"), Err(ParseError::Syntax { at: 4 }));
    assert_eq!(AlphaParser::parse_source("1 + $"), Err(ParseError::Syntax { at: 4 }));
    assert_eq!(AlphaParser::parse_source("(1 + 2"), Err(ParseError::Syntax { at: 6 }));
}

#[test]
fn oversized_literal_is_lexical_error() {
    assert_eq!(AlphaParser::parse_source("99999999999999999999"), Err(ParseError::Lexical { at: 0 }));
}

#[test]
fn reserved_operators_are_rejected() {
    assert_eq!(AlphaParser::parse_source("2 ^ 3"), Err(ParseError::Reserved { at: 2 }));
    assert_eq!(AlphaParser::parse_source("3!"), Err(ParseError::Reserved { at: 1 }));
}

#[test]
fn number_or_var_reads_endpoints() {
    assert_eq!(AlphaParser::number_or_var("42"), Ok(num(42)));
    assert_eq!(AlphaParser::number_or_var("n1"), Ok(Node::VarRef("n1".to_string())));
    assert_eq!(AlphaParser::number_or_var("4x"), Err(ParseError::Lexical { at: 0 }));
    assert_eq!(AlphaParser::number_or_var("5"), Ok(num(5)));
    assert_eq!(AlphaParser::number_or_var("n"), Ok(Node::VarRef("n".to_string())));
}
