use lib::ast::{BinaryOp, Expr, Program, Stmt};
use lib::lexer::Lexer;
use lib::parser::{ParseError, Parser};
use lib::typecheck::{TypeChecker, TypeError};

fn parse(source: &str) -> Result<Program, ParseError> {
    let tokens = Lexer::new(source).tokenize().expect("lex failed");
    Parser::new(tokens).parse_program()
}

fn body(source: &str) -> Vec<Stmt> {
    let mut program = parse(source).expect("parse failed");
    program.functions.remove(0).body
}

fn ident(name: &str) -> Box<Expr> {
    Box::new(Expr::Identifier(name.to_string()))
}

fn num(i: i64) -> Box<Expr> {
    Box::new(Expr::IntLiteral(i))
}

#[test]
fn an_index_reads_on_into_a_larger_expression() {
    let stmts = body("fn main() { x := a[1] + 2 }");
    assert_eq!(
        stmts[0],
        Stmt::VariableDecl {
            name: "x".to_string(),
            value: Expr::Binary {
                left: Box::new(Expr::Index { array: ident("a"), index: num(1) }),
                op: BinaryOp::Add,
                right: num(2),
            },
            is_mutable: false,
        }
    );
}

#[test]
fn a_statement_starting_with_an_index_is_an_expression_unless_assigned() {
    let stmts = body("fn main() { a[0] = 5\na[1] + 3 }");
    assert_eq!(stmts[0], Stmt::IndexAssign { name: "a".to_string(), index: Expr::IntLiteral(0), value: Expr::IntLiteral(5) });
    assert_eq!(
        stmts[1],
        Stmt::Expr(Expr::Binary {
            left: Box::new(Expr::Index { array: ident("a"), index: num(1) }),
            op: BinaryOp::Add,
            right: num(3),
        })
    );
}

#[test]
fn only_a_named_array_element_can_be_assigned() {
    match parse("fn main() { a[0][1] = 2 }").unwrap_err() {
        ParseError::UnexpectedToken { expected, .. } => assert_eq!(expected, "index assignment target"),
        other => panic!("expected UnexpectedToken, got {other:?}"),
    }
}

#[test]
fn postfix_operators_chain_in_any_order() {
    let stmts = body("fn main() { x := p.items[0].name }");
    let expected = Expr::FieldAccess {
        object: Box::new(Expr::Index {
            array: Box::new(Expr::FieldAccess { object: ident("p"), field: "items".to_string() }),
            index: num(0),
        }),
        field: "name".to_string(),
    };
    assert_eq!(stmts[0], Stmt::VariableDecl { name: "x".to_string(), value: expected, is_mutable: false });
}

#[test]
fn a_missing_bracket_or_parenthesis_is_refused() {
    assert!(parse("fn main() { x := a[1 }").is_err());
    assert!(parse("fn main() { x := (1 + 2 }").is_err());
    assert!(parse("fn main() { f(1, 2 }").is_err());
    assert!(parse("fn main() { x := [1, 2 }").is_err());
}

#[test]
fn imports_and_declarations_may_come_in_any_order() {
    let program = parse("import a\nfn main() {}\nimport b\nexport struct S { n: Int }").unwrap();
    assert_eq!(program.imports, vec!["a".to_string(), "b".to_string()]);
    assert_eq!(program.functions.len(), 1);
    assert!(program.structs[0].is_exported);
}

#[test]
fn a_module_header_names_the_module() {
    let program = parse("module geometry\nfn main() {}").unwrap();
    assert_eq!(program.module_name, Some("geometry".to_string()));
    assert_eq!(parse("fn main() {}").unwrap().module_name, None);
    assert!(parse("module\nfn main() {}").is_err());
}

#[test]
fn a_default_checker_starts_empty() {
    let program = parse("fn main() { print(1) }").unwrap();
    assert_eq!(TypeChecker::default().check_program(&program), Ok(()));
}

#[test]
fn a_missing_main_is_reported_once_alongside_other_errors() {
    let program = parse("fn helper() { x := y }").unwrap();
    let errors = TypeChecker::new().check_program(&program).unwrap_err();
    assert_eq!(errors.iter().filter(|e| **e == TypeError::NoMainFunction).count(), 1);
    assert!(errors.contains(&TypeError::UndefinedVariable("y".to_string())));
}

#[test]
fn declaration_errors_come_first_in_declaration_order_then_a_missing_main() {
    let program = parse(
        "fn f(a: Missing1) -> Missing2 { x := y }\nstruct S { a: Missing3, b: Int, c: Missing4 }\nenum E { A(x: Missing5) }",
    )
    .unwrap();
    let errors = TypeChecker::new().check_program(&program).unwrap_err();
    let undefined = |n: &str| TypeError::UndefinedType(n.to_string());
    assert_eq!(
        errors[..6].to_vec(),
        vec![
            undefined("Missing3"),
            undefined("Missing4"),
            undefined("Missing5"),
            undefined("Missing1"),
            undefined("Missing2"),
            TypeError::NoMainFunction,
        ]
    );
    assert!(errors.contains(&TypeError::UndefinedVariable("y".to_string())));
}

#[test]
fn body_errors_follow_in_statement_order_with_their_messages() {
    let program = parse(
        "fn main() { x := 1\nx = 2\ny := z\nif 1 { print(x) }\nreturn 5 }",
    )
    .unwrap();
    let errors = TypeChecker::new().check_program(&program).unwrap_err();
    assert_eq!(
        errors,
        vec![
            TypeError::ImmutableAssignment("x".to_string()),
            TypeError::UndefinedVariable("z".to_string()),
            TypeError::Mismatch {
                expected: "Bool".to_string(),
                found: "Int".to_string(),
                context: "condition".to_string(),
            },
            TypeError::Mismatch {
                expected: "Unit".to_string(),
                found: "Int".to_string(),
                context: "return statement".to_string(),
            },
        ]
    );
}

#[test]
fn struct_literal_errors_name_fields_in_order() {
    let program = parse(
        "struct P { a: Int, b: Int, c: Int }\nfn main() { p := P { b: true, b: 1, d: 2 } }",
    )
    .unwrap();
    let errors = TypeChecker::new().check_program(&program).unwrap_err();
    let field = |k: &str, f: &str| match k {
        "missing" => TypeError::MissingField { struct_name: "P".to_string(), field: f.to_string() },
        _ => TypeError::UnknownField { struct_name: "P".to_string(), field: f.to_string() },
    };
    assert_eq!(
        errors,
        vec![
            TypeError::Mismatch {
                expected: "Int".to_string(),
                found: "Bool".to_string(),
                context: "field `b` of `P`".to_string(),
            },
            TypeError::DuplicateField("b".to_string()),
            field("unknown", "d"),
            field("missing", "a"),
            field("missing", "c"),
        ]
    );
}
