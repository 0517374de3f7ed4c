use lib::ast;
use lib::hir::{HExpr, HProgram, HStmt};
use lib::lexer::Lexer;
use lib::lower::lower_program;
use lib::parser::Parser;

fn lower_source(source: &str) -> HProgram {
    let tokens = Lexer::new(source).tokenize().expect("lex failed");
    let program = Parser::new(tokens).parse_program().expect("parse failed");
    lower_program(&program)
}

#[test]
fn lowers_wildcard_only_match_to_its_body() {
    let hir = lower_source("fn main() { x := 5\nmatch x { _ => { print(1) } } }");
    // temp decl + the wildcard's body inlined directly (no If wrapper)
    assert_eq!(hir.functions[0].body.len(), 3);
    assert!(matches!(hir.functions[0].body[0], HStmt::VariableDecl { .. }));
    assert!(matches!(hir.functions[0].body[1], HStmt::VariableDecl { .. }));
    assert_eq!(hir.functions[0].body[2], HStmt::Expr(HExpr::Call {
        callee: "print".to_string(), args: vec![HExpr::IntLiteral(1)],
    }));
}

#[test]
fn lowers_int_literal_pattern_to_equality_test() {
    let hir = lower_source("fn main() { x := 5\nmatch x { 1 => { print(1) } _ => { print(2) } } }");
    let HStmt::If { condition, .. } = &hir.functions[0].body[2] else {
        panic!("expected If as second statement");
    };
    assert_eq!(
        *condition,
        HExpr::Binary {
            left: Box::new(HExpr::Identifier("__match_scrutinee_1".to_string())),
            op: ast::BinaryOp::Eq,
            right: Box::new(HExpr::IntLiteral(1)),
        }
    );
}

#[test]
fn lowers_enum_pattern_to_is_variant_and_binds_field() {
    let source = r#"
        enum Status { Pending, Failed(reason: String) }
        fn main() {
            s := Status::Pending
            match s {
                Status::Failed(reason) => { print(reason) }
                _ => { print("ok") }
            }
        }
    "#;
    let hir = lower_source(source);
    let HStmt::If { condition, then_branch, .. } = &hir.functions[0].body[2] else {
        panic!("expected If as second statement");
    };
    assert_eq!(
        *condition,
        HExpr::IsVariant {
            scrutinee: Box::new(HExpr::Identifier("__match_scrutinee_1".to_string())),
            enum_name: "Status".to_string(),
            variant: "Failed".to_string(),
        }
    );
    assert_eq!(
        then_branch[0],
        HStmt::VariableDecl {
            name: "reason".to_string(),
            value: HExpr::VariantField {
                scrutinee: Box::new(HExpr::Identifier("__match_scrutinee_1".to_string())),
                enum_name: "Status".to_string(),
                variant: "Failed".to_string(),
                field: "reason".to_string(),
            },
            is_mutable: false,
        }
    );
}

#[test]
fn leaves_try_as_passthrough_node() {
    let hir = lower_source("fn f() -> Int { x := doThing()?\nreturn x }\nfn main() {}");
    let HStmt::VariableDecl { value, .. } = &hir.functions[0].body[0] else {
        panic!("expected VariableDecl");
    };
    assert!(matches!(value, HExpr::Try(_)));
}
