use lib::ast::BinaryOp;
use lib::hir::{HExpr, HProgram, HStmt};
use lib::lexer::Lexer;
use lib::lower::lower_program;
use lib::parser::Parser;

fn lower_source(source: &str) -> HProgram {
    let tokens = Lexer::new(source).tokenize().expect("lex failed");
    let program = Parser::new(tokens).parse_program().expect("parse failed");
    lower_program(&program)
}

fn temp(n: usize) -> Box<HExpr> {
    Box::new(HExpr::Identifier(format!("__match_scrutinee_{}", n)))
}

fn print_int(i: i64) -> HStmt {
    HStmt::Expr(HExpr::Call { callee: "print".to_string(), args: vec![HExpr::IntLiteral(i)] })
}

#[test]
fn match_temporaries_are_numbered_across_functions_in_order() {
    let hir = lower_source(
        "fn f() { match 1 { _ => { print(1) } } }\nfn main() { match 2 { _ => { print(2) } }\nmatch 3 { _ => { print(3) } } }",
    );
    let names: Vec<String> = hir
        .functions
        .iter()
        .flat_map(|f| f.body.iter())
        .filter_map(|s| match s {
            HStmt::VariableDecl { name, .. } => Some(name.clone()),
            _ => None,
        })
        .collect();
    assert_eq!(names, vec!["__match_scrutinee_1", "__match_scrutinee_2", "__match_scrutinee_3"]);
}

#[test]
fn arms_become_a_nested_chain_and_arms_after_a_wildcard_are_dropped() {
    let hir = lower_source("fn main() { match 5 { 1 => { print(1) } 2 => { print(2) } _ => { print(0) } 3 => { print(3) } } }");
    let body = &hir.functions[0].body;
    assert_eq!(body.len(), 2);
    assert_eq!(body[0], HStmt::VariableDecl { name: "__match_scrutinee_1".to_string(), value: HExpr::IntLiteral(5), is_mutable: false });
    let test = |v: i64| HExpr::Binary { left: temp(1), op: BinaryOp::Eq, right: Box::new(HExpr::IntLiteral(v)) };
    let expected = HStmt::If {
        condition: test(1),
        then_branch: vec![print_int(1)],
        else_branch: Some(vec![HStmt::If {
            condition: test(2),
            then_branch: vec![print_int(2)],
            else_branch: Some(vec![print_int(0)]),
        }]),
    };
    assert_eq!(body[1], expected);
}

#[test]
fn a_chain_without_wildcard_ends_without_else() {
    let hir = lower_source("fn main() { match true { true => { print(1) } } }");
    let expected = HStmt::If {
        condition: HExpr::Binary { left: temp(1), op: BinaryOp::Eq, right: Box::new(HExpr::BoolLiteral(true)) },
        then_branch: vec![print_int(1)],
        else_branch: None,
    };
    assert_eq!(hir.functions[0].body[1], expected);
}

#[test]
fn nested_blocks_are_lowered_in_place() {
    let hir = lower_source("fn main() { while true { if false { match 1 { _ => { print(1) } } } else { print(2) } } }");
    let HStmt::While { body, .. } = &hir.functions[0].body[0] else {
        panic!("expected While");
    };
    let HStmt::If { then_branch, else_branch, .. } = &body[0] else {
        panic!("expected If");
    };
    assert_eq!(then_branch.len(), 2);
    assert_eq!(then_branch[1], print_int(1));
    assert_eq!(else_branch.as_ref().unwrap(), &vec![print_int(2)]);
}

#[test]
fn a_binding_without_a_declared_field_binds_nothing() {
    let hir = lower_source("enum E { A(x: Int) }\nfn main() { match E::A(x: 1) { E::A(p, q) => { print(1) } } }");
    let HStmt::If { then_branch, .. } = &hir.functions[0].body[1] else {
        panic!("expected If");
    };
    assert_eq!(then_branch.len(), 2);
    assert!(matches!(&then_branch[0], HStmt::VariableDecl { name, .. } if name == "p"));
    assert_eq!(then_branch[1], print_int(1));
}

#[test]
fn a_block_without_match_lowers_statement_for_statement() {
    let source = "fn main() { x := 1\nmut y := 2\ny = x + y\nif y > 2 { print(y) }\nwhile false { print(0) }\nreturn }";
    let tokens = Lexer::new(source).tokenize().expect("lex failed");
    let program = Parser::new(tokens).parse_program().expect("parse failed");
    let hir = lower_program(&program);
    assert_eq!(hir.functions[0].body.len(), program.functions[0].body.len());
    assert_eq!(hir.functions[0].body[5], HStmt::Return(None));
}
