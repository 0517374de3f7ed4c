use lib::ast::{BinaryOp, EnumVariant, Expr, Param, Pattern, Program, Stmt};
use lib::lexer::Lexer;
use lib::parser::{ParseError, Parser};
use lib::token::TokenKind;

fn parse(source: &str) -> Result<Program, ParseError> {
    let tokens = Lexer::new(source).tokenize().expect("lex failed");
    Parser::new(tokens).parse_program()
}

#[test]
fn parses_hello_world() {
    let source = r#"
        fn main() {
            name := "World"
            print("Hello, " + name)
        }
    "#;

    let program = parse(source).expect("parse failed");
    let func = &program.functions[0];
    assert_eq!(func.name, "main");
    assert_eq!(func.params.len(), 0);
    assert_eq!(func.return_type, None);

    assert_eq!(
        func.body[0],
        Stmt::VariableDecl {
            name: "name".to_string(),
            value: Expr::StringLiteral("World".to_string()),
            is_mutable: false,
        }
    );
}

#[test]
fn parses_empty_function() {
    let program = parse("fn main() {}").unwrap();
    assert_eq!(program.functions[0].body.len(), 0);
}

#[test]
fn reports_missing_closing_brace() {
    let err = parse("fn main() {").unwrap_err();
    match err {
        ParseError::UnexpectedToken { expected, found, .. } => {
            assert_eq!(expected, "expression");
            assert_eq!(found, TokenKind::Eof);
        }
        other => panic!("expected UnexpectedToken, got {other:?}"),
    }
}

#[test]
fn reports_missing_fn_keyword() {
    let err = parse("main() {}").unwrap_err();
    match err {
        ParseError::UnexpectedToken { expected, .. } => assert_eq!(expected, "fn"),
        other => panic!("expected UnexpectedToken, got {other:?}"),
    }
}

#[test]
fn parses_arithmetic_with_correct_precedence() {
    let program = parse("fn main() { x := 2 + 3 * 4 }").unwrap();
    let Stmt::VariableDecl { value, .. } = &program.functions[0].body[0] else {
        panic!("expected VariableDecl");
    };

    assert_eq!(
        *value,
        Expr::Binary {
            left: Box::new(Expr::IntLiteral(2)),
            op: BinaryOp::Add,
            right: Box::new(Expr::Binary {
                left: Box::new(Expr::IntLiteral(3)),
                op: BinaryOp::Mul,
                right: Box::new(Expr::IntLiteral(4)),
            }),
        }
    );
}

#[test]
fn parses_if_else() {
    let source = r#"
        fn main() {
            if 1 < 2 {
                print("yes")
            } else {
                print("no")
            }
        }
    "#;
    let program = parse(source).unwrap();
    let Stmt::If { condition, then_branch, else_branch } = &program.functions[0].body[0] else {
        panic!("expected If statement");
    };

    assert_eq!(
        *condition,
        Expr::Binary {
            left: Box::new(Expr::IntLiteral(1)),
            op: BinaryOp::Lt,
            right: Box::new(Expr::IntLiteral(2)),
        }
    );
    assert_eq!(then_branch.len(), 1);
    assert!(else_branch.is_some());
    assert_eq!(else_branch.as_ref().unwrap().len(), 1);
}

#[test]
fn parses_if_without_else() {
    let program = parse(r#"fn main() { if true { print("hi") } }"#).unwrap();
    let Stmt::If { else_branch, .. } = &program.functions[0].body[0] else {
        panic!("expected If statement");
    };
    assert!(else_branch.is_none());
}

#[test]
fn parses_while_loop() {
    let source = r#"
        fn main() {
            while 1 < 2 {
                print("looping")
            }
        }
    "#;
    let program = parse(source).unwrap();
    let Stmt::While { condition, body } = &program.functions[0].body[0] else {
        panic!("expected While statement");
    };
    assert_eq!(
        *condition,
        Expr::Binary {
            left: Box::new(Expr::IntLiteral(1)),
            op: BinaryOp::Lt,
            right: Box::new(Expr::IntLiteral(2)),
        }
    );
    assert_eq!(body.len(), 1);
}

#[test]
fn parses_grouping_overrides_precedence() {
    let program = parse("fn main() { x := (2 + 3) * 4 }").unwrap();
    let Stmt::VariableDecl { value, .. } = &program.functions[0].body[0] else {
        panic!("expected VariableDecl");
    };

    assert_eq!(
        *value,
        Expr::Binary {
            left: Box::new(Expr::Binary {
                left: Box::new(Expr::IntLiteral(2)),
                op: BinaryOp::Add,
                right: Box::new(Expr::IntLiteral(3)),
            }),
            op: BinaryOp::Mul,
            right: Box::new(Expr::IntLiteral(4)),
        }
    );
}

#[test]
fn reports_unclosed_grouping() {
    let err = parse("fn main() { x := (2 + 3 }").unwrap_err();
    match err {
        ParseError::UnexpectedToken { expected, .. } => assert_eq!(expected, ")"),
        other => panic!("expected UnexpectedToken, got {other:?}"),
    }
}

#[test]
fn parses_mut_declaration() {
    let program = parse("fn main() { mut x := 5 }").unwrap();
    assert_eq!(
        program.functions[0].body[0],
        Stmt::VariableDecl {
            name: "x".to_string(),
            value: Expr::IntLiteral(5),
            is_mutable: true,
        }
    );
}

#[test]
fn parses_reassignment() {
    let program = parse("fn main() { mut x := 5\nx = 6 }").unwrap();
    assert_eq!(
        program.functions[0].body[1],
        Stmt::Assign {
            name: "x".to_string(),
            value: Expr::IntLiteral(6),
        }
    );
}

#[test]
fn parses_function_with_params_and_return_type() {
    let program = parse("fn add(a: Int, b: Int) -> Int { return a + b }").unwrap();
    let func = &program.functions[0];

    assert_eq!(func.name, "add");
    assert_eq!(
        func.params,
        vec![
            Param { name: "a".to_string(), ty: "Int".to_string() },
            Param { name: "b".to_string(), ty: "Int".to_string() },
        ]
    );
    assert_eq!(func.return_type, Some("Int".to_string()));
    assert_eq!(
        func.body[0],
        Stmt::Return(Some(Expr::Binary {
            left: Box::new(Expr::Identifier("a".to_string())),
            op: BinaryOp::Add,
            right: Box::new(Expr::Identifier("b".to_string())),
        }))
    );
}

#[test]
fn parses_function_with_no_params() {
    let program = parse("fn greet() -> Int { return 1 }").unwrap();
    assert_eq!(program.functions[0].params.len(), 0);
}

#[test]
fn parses_bare_return() {
    let program = parse("fn f() { return }").unwrap();
    assert_eq!(program.functions[0].body[0], Stmt::Return(None));
}

#[test]
fn parses_call_with_multiple_args() {
    let program = parse("fn main() { x := add(1, 2) }").unwrap();
    let Stmt::VariableDecl { value, .. } = &program.functions[0].body[0] else {
        panic!("expected VariableDecl");
    };
    assert_eq!(
        *value,
        Expr::Call {
            callee: "add".to_string(),
            args: vec![Expr::IntLiteral(1), Expr::IntLiteral(2)],
        }
    );
}

#[test]
fn parses_struct_decl() {
    let program = parse("struct Point { x: Int, y: Int }\nfn main() {}").unwrap();
    assert_eq!(program.structs.len(), 1);
    assert_eq!(program.structs[0].name, "Point");
    assert_eq!(
        program.structs[0].fields,
        vec![
            Param { name: "x".to_string(), ty: "Int".to_string() },
            Param { name: "y".to_string(), ty: "Int".to_string() },
        ]
    );
}

#[test]
fn parses_struct_literal() {
    let program = parse("fn main() { p := Point { x: 1, y: 2 } }").unwrap();
    let Stmt::VariableDecl { value, .. } = &program.functions[0].body[0] else {
        panic!("expected VariableDecl");
    };
    assert_eq!(
        *value,
        Expr::StructLiteral {
            name: "Point".to_string(),
            fields: vec![
                ("x".to_string(), Expr::IntLiteral(1)),
                ("y".to_string(), Expr::IntLiteral(2)),
            ],
        }
    );
}

#[test]
fn parses_field_access() {
    let program = parse("fn main() { print(p.x) }").unwrap();
    let Stmt::Expr(Expr::Call { args, .. }) = &program.functions[0].body[0] else {
        panic!("expected call expression statement");
    };
    assert_eq!(
        args[0],
        Expr::FieldAccess {
            object: Box::new(Expr::Identifier("p".to_string())),
            field: "x".to_string(),
        }
    );
}

#[test]
fn parses_chained_field_access() {
    let program = parse("fn main() { print(a.b.c) }").unwrap();
    let Stmt::Expr(Expr::Call { args, .. }) = &program.functions[0].body[0] else {
        panic!("expected call expression statement");
    };
    assert_eq!(
        args[0],
        Expr::FieldAccess {
            object: Box::new(Expr::FieldAccess {
                object: Box::new(Expr::Identifier("a".to_string())),
                field: "b".to_string(),
            }),
            field: "c".to_string(),
        }
    );
}

#[test]
fn if_condition_does_not_misparse_as_struct_literal() {
    // `if x { ... }`: the `{` must open the if-block, not a
    // struct literal `x { ... }`.
    let program = parse(r#"fn main() { if x { print("hi") } }"#).unwrap();
    let Stmt::If { condition, then_branch, .. } = &program.functions[0].body[0] else {
        panic!("expected If statement");
    };
    assert_eq!(*condition, Expr::Identifier("x".to_string()));
    assert_eq!(then_branch.len(), 1);
}

#[test]
fn struct_literal_allowed_inside_call_args_within_if_condition() {
    // Inside f(...), we're in an unambiguous bracketed context
    // even though we're syntactically inside an if condition.
    let program =
        parse(r#"fn main() { if f(Point { x: 1, y: 2 }) { print("hi") } }"#).unwrap();
    let Stmt::If { condition, .. } = &program.functions[0].body[0] else {
        panic!("expected If statement");
    };
    assert_eq!(
        *condition,
        Expr::Call {
            callee: "f".to_string(),
            args: vec![Expr::StructLiteral {
                name: "Point".to_string(),
                fields: vec![
                    ("x".to_string(), Expr::IntLiteral(1)),
                    ("y".to_string(), Expr::IntLiteral(2)),
                ],
            }],
        }
    );
}

#[test]
fn parses_enum_decl_with_unit_and_data_variants() {
    let program =
        parse("enum Status { Pending, Failed(reason: String) }\nfn main() {}").unwrap();
    assert_eq!(program.enums.len(), 1);
    let e = &program.enums[0];
    assert_eq!(e.name, "Status");
    assert_eq!(e.variants[0], EnumVariant { name: "Pending".to_string(), fields: vec![] });
    assert_eq!(
        e.variants[1],
        EnumVariant {
            name: "Failed".to_string(),
            fields: vec![Param { name: "reason".to_string(), ty: "String".to_string() }],
        }
    );
}

#[test]
fn parses_unit_variant_construction() {
    let program = parse("fn main() { s := Status::Pending }").unwrap();
    let Stmt::VariableDecl { value, .. } = &program.functions[0].body[0] else {
        panic!("expected VariableDecl");
    };
    assert_eq!(
        *value,
        Expr::EnumLiteral {
            enum_name: "Status".to_string(),
            variant: "Pending".to_string(),
            fields: vec![],
        }
    );
}

#[test]
fn parses_data_variant_construction() {
    let program = parse(r#"fn main() { s := Status::Failed(reason: "oops") }"#).unwrap();
    let Stmt::VariableDecl { value, .. } = &program.functions[0].body[0] else {
        panic!("expected VariableDecl");
    };
    assert_eq!(
        *value,
        Expr::EnumLiteral {
            enum_name: "Status".to_string(),
            variant: "Failed".to_string(),
            fields: vec![("reason".to_string(), Expr::StringLiteral("oops".to_string()))],
        }
    );
}

#[test]
fn parses_match_with_enum_and_wildcard() {
    let source = r#"
        fn main() {
            match s {
                Status::Pending => { print("p") }
                Status::Failed(reason) => { print(reason) }
                _ => { print("other") }
            }
        }
    "#;
    let program = parse(source).unwrap();
    let Stmt::Match { scrutinee, arms } = &program.functions[0].body[0] else {
        panic!("expected Match statement");
    };
    assert_eq!(*scrutinee, Expr::Identifier("s".to_string()));
    assert_eq!(arms.len(), 3);
    assert_eq!(
        arms[0].pattern,
        Pattern::EnumVariant {
            enum_name: "Status".to_string(),
            variant: "Pending".to_string(),
            bindings: vec![],
        }
    );
    assert_eq!(
        arms[1].pattern,
        Pattern::EnumVariant {
            enum_name: "Status".to_string(),
            variant: "Failed".to_string(),
            bindings: vec!["reason".to_string()],
        }
    );
    assert_eq!(arms[2].pattern, Pattern::Wildcard);
}

#[test]
fn parses_match_with_literal_patterns() {
    let source = r#"
        fn main() {
            match x {
                5 => { print("five") }
                _ => { print("other") }
            }
        }
    "#;
    let program = parse(source).unwrap();
    let Stmt::Match { arms, .. } = &program.functions[0].body[0] else {
        panic!("expected Match statement");
    };
    assert_eq!(arms[0].pattern, Pattern::IntLiteral(5));
}

#[test]
fn parses_array_literal_and_indexing() {
    let program = parse("fn main() { a := [1, 2, 3]\nx := a[0] }").unwrap();
    assert_eq!(
        program.functions[0].body[0],
        Stmt::VariableDecl {
            name: "a".to_string(),
            value: Expr::ArrayLiteral(vec![
                Expr::IntLiteral(1), Expr::IntLiteral(2), Expr::IntLiteral(3)
            ]),
            is_mutable: false,
        }
    );
    assert_eq!(
        program.functions[0].body[1],
        Stmt::VariableDecl {
            name: "x".to_string(),
            value: Expr::Index {
                array: Box::new(Expr::Identifier("a".to_string())),
                index: Box::new(Expr::IntLiteral(0)),
            },
            is_mutable: false,
        }
    );
}

#[test]
fn parses_index_assignment() {
    let program = parse("fn main() { mut a := [1, 2]\na[0] = 9 }").unwrap();
    assert_eq!(
        program.functions[0].body[1],
        Stmt::IndexAssign {
            name: "a".to_string(),
            index: Expr::IntLiteral(0),
            value: Expr::IntLiteral(9),
        }
    );
}
