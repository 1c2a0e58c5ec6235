use std::collections::HashMap;

use alpha::comp::{compile_program, BinOp, CompileError, Compiler, Inst, IntCC};
use alpha::eval::Eval;
use alpha::num::Num;
use alpha::ast::Node;
use alpha::parser::AlphaParser;
use alpha::trans::Translator;

/// Runs the built steps of a function directly: variables as mutable cells, blocks as labels.
fn run_fn(c: &Compiler, id: usize, args: &[i64], depth: usize) -> i64 {
    assert!(depth < 200, "recursion too deep");
    let f = c.functions.iter().rev().find(|f| f.id == id).expect("function is built");
    let mut n_values = 0usize;
    let mut n_blocks = 0usize;
    let mut n_vars = 0usize;
    let mut current: Option<usize> = None;
    let mut bodies: HashMap<usize, Vec<(usize, &Inst)>> = HashMap::new();
    let mut params: HashMap<usize, Vec<usize>> = HashMap::new();
    let mut var_of: Vec<usize> = Vec::new();
    for inst in &f.insts {
        match inst {
            Inst::CreateBlock => n_blocks += 1,
            Inst::DeclareVar => {
                var_of.push(n_vars);
                n_vars += 1;
            }
            Inst::SealBlock(_) => {}
            Inst::AppendBlockParam(b) => {
                params.entry(*b).or_default().push(n_values);
                n_values += 1;
            }
            Inst::SwitchToBlock(b) => current = Some(*b),
            other => {
                let yields = matches!(
                    other,
                    Inst::Iconst(_) | Inst::Binary(..) | Inst::Icmp(..) | Inst::Uextend(_) | Inst::UseVar(_) | Inst::Call(..)
                );
                bodies.entry(current.expect("inside a block")).or_default().push((n_values, other));
                if yields {
                    n_values += 1;
                }
            }
        }
    }
    assert!(n_blocks > 0);
    let mut values: HashMap<usize, i64> = HashMap::new();
    let mut vars: HashMap<usize, i64> = HashMap::new();
    let entry_params = params.get(&0).cloned().unwrap_or_default();
    assert_eq!(entry_params.len(), args.len());
    for (p, a) in entry_params.iter().zip(args) {
        values.insert(*p, *a);
    }
    let mut block = 0usize;
    loop {
        let mut next: Option<(usize, Vec<i64>)> = None;
        for (num, inst) in bodies.get(&block).expect("block has steps") {
            let v = |k: &usize| *values.get(k).expect("value defined");
            match inst {
                Inst::Iconst(n) => {
                    values.insert(*num, *n);
                }
                Inst::Binary(op, x, y) => {
                    let r = match op {
                        BinOp::Iadd => v(x).wrapping_add(v(y)),
                        BinOp::Isub => v(x).wrapping_sub(v(y)),
                        BinOp::Imul => v(x).wrapping_mul(v(y)),
                    };
                    values.insert(*num, r);
                }
                Inst::Icmp(cc, x, y) => {
                    let (a, b) = (v(x), v(y));
                    let r = match cc {
                        IntCC::Equal => a == b,
                        IntCC::NotEqual => a != b,
                        IntCC::SignedGreaterThan => a > b,
                        IntCC::SignedGreaterThanOrEqual => a >= b,
                        IntCC::SignedLessThan => a < b,
                        IntCC::SignedLessThanOrEqual => a <= b,
                    };
                    values.insert(*num, r as i64);
                }
                Inst::Uextend(x) => {
                    let r = v(x);
                    values.insert(*num, r);
                }
                Inst::UseVar(x) => {
                    let r = *vars.get(x).unwrap_or(&0);
                    values.insert(*num, r);
                }
                Inst::DefVar(x, y) => {
                    let r = v(y);
                    vars.insert(*x, r);
                }
                Inst::Call(g, a) => {
                    let argv: Vec<i64> = a.iter().map(|k| v(k)).collect();
                    let r = run_fn(c, *g, &argv, depth + 1);
                    values.insert(*num, r);
                }
                Inst::Brif(cond, t, e, a) => {
                    if v(cond) != 0 {
                        next = Some((*t, vec![]));
                    } else {
                        next = Some((*e, a.iter().map(|k| v(k)).collect()));
                    }
                    break;
                }
                Inst::Jump(t, a) => {
                    next = Some((*t, a.iter().map(|k| v(k)).collect()));
                    break;
                }
                Inst::Return(x) => return v(x),
                _ => unreachable!(),
            }
        }
        let (b, a) = next.expect("block ends in a branch");
        let ps = params.get(&b).cloned().unwrap_or_default();
        assert_eq!(ps.len(), a.len());
        for (p, x) in ps.iter().zip(a) {
            values.insert(*p, x);
        }
        block = b;
    }
}

fn run_compiled(src: &str) -> i64 {
    let ast = AlphaParser::parse_source(src).expect("parses");
    let c = compile_program(ast).expect("compiles");
    let main = c.fn_decls.iter().rposition(|(n, _)| n == "main").expect("main is declared");
    run_fn(&c, main, &[], 0)
}

fn interpreted(src: &str) -> Node {
    let ast = AlphaParser::parse_source(src).expect("parses");
    Eval::new().run(&ast).expect("runs")
}

#[test]
fn main_with_conditional_exits_seven() {
    assert_eq!(run_compiled("fn main() if 3 < 5 then 7 else 9 end end"), 7);
}

#[test]
fn compiled_loop_matches_interpreter() {
    let src = "fn main() let mut s = 0; let mut i = 0; while i < 10 do s = s + i; i = i + 1 end; s end";
    assert_eq!(run_compiled(src), 45);
    assert_eq!(interpreted(&format!("{} main()", src)), Node::Number(Num::from_int(45)));
}

#[test]
fn top_level_statements_become_main() {
    assert_eq!(run_compiled("let x = 6; x * 7"), 42);
    assert_eq!(run_compiled("let mut s = 0; let mut i = 0; while i < 5 do s = s + i; i = i + 1 end; s"), 10);
}

#[test]
fn compiled_recursion_and_calls() {
    let src = "fn fact(n) if n <= 1 then 1 else n * fact(n - 1) end end fn main() fact(5) end";
    assert_eq!(run_compiled(src), 120);
    assert_eq!(run_compiled("fn sub(a, b) a - b end fn main() sub(10, 3) end"), 7);
}

#[test]
fn compiled_comparisons_are_zero_or_one() {
    assert_eq!(run_compiled("2 == 2"), 1);
    assert_eq!(run_compiled("2 != 2"), 0);
    assert_eq!(run_compiled("3 >= 4"), 0);
    assert_eq!(run_compiled("3 > 2"), 1);
}

#[test]
fn list_literal_is_unsupported() {
    let ast = AlphaParser::parse_source("[1, 2]").unwrap();
    assert_eq!(compile_program(ast).err(), Some(CompileError::Unsupported));
    let ast = AlphaParser::parse_source("4 / 2").unwrap();
    assert_eq!(compile_program(ast).err(), Some(CompileError::Unsupported));
    let ast = AlphaParser::parse_source("for i in [0,3) do i end").unwrap();
    assert_eq!(compile_program(ast).err(), Some(CompileError::Unsupported));
}

#[test]
fn compiled_unbound_name_is_reported() {
    let ast = AlphaParser::parse_source("y + 1").unwrap();
    assert_eq!(compile_program(ast).err(), Some(CompileError::UnboundName("y".to_string())));
    let ast = AlphaParser::parse_source("g(1)").unwrap();
    assert_eq!(compile_program(ast).err(), Some(CompileError::UnboundName("g".to_string())));
}

#[test]
fn compiled_arity_is_checked() {
    let ast = AlphaParser::parse_source("fn f(a) a end f(1, 2)").unwrap();
    assert_eq!(compile_program(ast).err(), Some(CompileError::ArityError));
}

#[test]
fn declarations_carry_parameter_counts() {
    let ast = AlphaParser::parse_source("fn f(a, b) fn g() 1 end a end").unwrap();
    let mut c = Compiler::new();
    assert_eq!(c.declare_functions(&ast), Ok(()));
    assert_eq!(c.fn_decls, vec![("g".to_string(), 0), ("f".to_string(), 2)]);
    assert!(alpha::comp::check_supported(&ast));
}

#[test]
fn translator_builds_top_level_functions() {
    let ast = AlphaParser::parse_source("fn one() 1 end fn two() 2 end").unwrap();
    let fs = Translator::translate(&ast).expect("translates");
    assert_eq!(fs.len(), 2);
    assert_eq!(fs[0].name, "one");
    assert!(matches!(fs[1].insts.last(), Some(Inst::SealBlock(_))));
    let ast = AlphaParser::parse_source("1 + 2").unwrap();
    assert!(Translator::translate(&ast).is_err());
}

#[test]
fn translator_flattens_nested_blocks() {
    let one = AlphaParser::parse_source("fn one() 1 end").unwrap();
    let two = AlphaParser::parse_source("fn two() 2 end").unwrap();
    let ast = Node::Statements(vec![one, Node::Statements(vec![two])]);
    let fs = Translator::translate(&ast).expect("translates");
    let names: Vec<&str> = fs.iter().map(|f| f.name.as_str()).collect();
    assert_eq!(names, vec!["one", "two"]);
}

#[test]
fn definitions_inside_call_arguments_are_declared() {
    let ast = AlphaParser::parse_source("g(fn f() 1 end)").unwrap();
    let mut c = Compiler::new();
    assert_eq!(c.declare_functions(&ast), Ok(()));
    assert_eq!(c.fn_decls, vec![("f".to_string(), 0)]);
}

#[test]
fn comparisons_are_widened_by_a_step_of_their_own() {
    let ast = AlphaParser::parse_source("1 < 2").unwrap();
    let c = compile_program(ast).expect("compiles");
    let insts = &c.functions[0].insts;
    let k = insts.iter().position(|i| matches!(i, Inst::Icmp(IntCC::SignedLessThan, _, _))).expect("a comparison");
    assert!(matches!(insts[k + 1], Inst::Uextend(_)));
}

#[test]
fn compiled_blocks_scope_definitions_like_the_interpreter() {
    let src = "let x = 1; if 1 < 2 then let x = 2; x = 3 end; x";
    assert_eq!(run_compiled(src), 1);
    assert_eq!(interpreted(src), Node::Number(Num::from_int(1)));
    let src = "let mut x = 1; if 1 < 2 then x = 3 end; x";
    assert_eq!(run_compiled(src), 3);
    assert_eq!(interpreted(src), Node::Number(Num::from_int(3)));
}
