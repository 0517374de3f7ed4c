use lib::ast::{BinaryOp, Expr, Stmt};
use lib::interpreter::Interpreter;
use lib::lexer::Lexer;
use lib::lower::{lower_program, lowering_fits};
use lib::parser::Parser;
use lib::token::TokenKind;
use lib::typecheck::{TypeChecker, TypeError};

fn parse(source: &str) -> lib::ast::Program {
    let tokens = Lexer::new(source).tokenize().expect("lex failed");
    Parser::new(tokens).parse_program().expect("parse failed")
}

fn first_value(source: &str) -> Expr {
    let program = parse(source);
    match &program.functions[0].body[0] {
        Stmt::VariableDecl { value, .. } => value.clone_expr(),
        other => panic!("expected a declaration, found {:?}", other),
    }
}

trait CloneExpr {
    fn clone_expr(&self) -> Expr;
}

impl CloneExpr for Expr {
    fn clone_expr(&self) -> Expr {
        match self {
            Expr::IntLiteral(i) => Expr::IntLiteral(*i),
            Expr::Identifier(n) => Expr::Identifier(n.clone()),
            Expr::Binary { left, op, right } => {
                Expr::Binary { left: Box::new(left.clone_expr()), op: *op, right: Box::new(right.clone_expr()) }
            }
            other => panic!("unexpected expression {:?}", other),
        }
    }
}

fn lit(i: i64) -> Box<Expr> {
    Box::new(Expr::IntLiteral(i))
}

#[test]
fn token_streams_end_in_exactly_one_eof_with_ordered_spans() {
    let tokens = Lexer::new("fn main() {\n  x := 1 + 2 // sum\n  print(\"a b\")\n}").tokenize().unwrap();
    assert_eq!(tokens.last().unwrap().kind, TokenKind::Eof);
    assert_eq!(tokens.iter().filter(|t| t.kind == TokenKind::Eof).count(), 1);
    for pair in tokens.windows(2) {
        assert!(pair[0].span.end <= pair[1].span.start);
    }
    let empty = Lexer::new("").tokenize().unwrap();
    assert_eq!(empty.len(), 1);
    assert_eq!(empty[0].kind, TokenKind::Eof);
}

#[test]
fn integer_literals_beyond_i64_are_refused() {
    assert!(Lexer::new("x := 99999999999999999999").try_tokenize().is_none());
    let tokens = Lexer::new("x := 9223372036854775807").try_tokenize().unwrap().unwrap();
    assert_eq!(tokens[2].kind, TokenKind::IntLiteral(i64::MAX));
    assert!(Lexer::new("x := 9223372036854775808").try_tokenize().is_none());
}

#[test]
fn binary_operators_associate_to_the_left() {
    let e = first_value("fn main() { x := 10 - 2 - 3 }");
    assert_eq!(
        e,
        Expr::Binary {
            left: Box::new(Expr::Binary { left: lit(10), op: BinaryOp::Sub, right: lit(2) }),
            op: BinaryOp::Sub,
            right: lit(3),
        }
    );
}

#[test]
fn factors_bind_tighter_than_terms_and_comparisons_than_equality() {
    let e = first_value("fn main() { x := 1 + 2 * 3 }");
    assert_eq!(
        e,
        Expr::Binary {
            left: lit(1),
            op: BinaryOp::Add,
            right: Box::new(Expr::Binary { left: lit(2), op: BinaryOp::Mul, right: lit(3) }),
        }
    );
    let e = first_value("fn main() { x := 1 < 2 == 3 > 4 }");
    assert_eq!(
        e,
        Expr::Binary {
            left: Box::new(Expr::Binary { left: lit(1), op: BinaryOp::Lt, right: lit(2) }),
            op: BinaryOp::Eq,
            right: Box::new(Expr::Binary { left: lit(3), op: BinaryOp::Gt, right: lit(4) }),
        }
    );
}

#[test]
fn a_brace_after_an_if_head_opens_the_block() {
    let program = parse("fn main() { if ready { print(1) } }");
    let Stmt::If { condition, then_branch, else_branch } = &program.functions[0].body[0] else {
        panic!("expected an if statement");
    };
    assert_eq!(*condition, Expr::Identifier("ready".to_string()));
    assert_eq!(then_branch.len(), 1);
    assert!(else_branch.is_none());
}

#[test]
fn enum_declarations_accept_a_trailing_comma() {
    let program = parse("enum E { A, B(x: Int), }\nfn main() {}");
    assert_eq!(program.enums[0].variants.len(), 2);
    assert_eq!(program.enums[0].variants[1].fields[0].ty, "Int");
}

#[test]
fn a_program_without_main_is_refused_and_one_with_main_is_not_for_lack_of_it() {
    let errors = TypeChecker::new().check_program(&parse("fn helper() {}")).unwrap_err();
    assert!(errors.contains(&TypeError::NoMainFunction));
    let errors = TypeChecker::new().check_program(&parse("fn main() { x := y }")).unwrap_err();
    assert!(!errors.contains(&TypeError::NoMainFunction));
    assert_eq!(errors, vec![TypeError::UndefinedVariable("y".to_string())]);
}

#[test]
fn struct_fields_are_resolved_before_the_program_enums_are_known() {
    let errors = TypeChecker::new().check_program(&parse("enum E { A }\nstruct S { e: E }\nfn main() {}")).unwrap_err();
    assert_eq!(errors, vec![TypeError::UndefinedType("E".to_string())]);
    assert_eq!(TypeChecker::new().check_program(&parse("enum E { A(s: S) }\nstruct S { n: Int }\nfn main() {}")), Ok(()));
}

#[test]
fn output_printed_earlier_stays_in_front() {
    let first = lower_program(&parse("fn main() { print(\"a\") }"));
    let second = lower_program(&parse("fn main() { print(\"b\")\nprint(1 / 0) }"));
    let mut interp = Interpreter::new(Vec::<String>::new());
    interp.run(&first).unwrap();
    assert!(interp.run(&second).is_err());
    assert_eq!(interp.into_sink(), vec!["a".to_string(), "b".to_string()]);
}

#[test]
fn ordinary_programs_fit_the_lowering_counter() {
    let program = parse("fn main() { x := 1\nmatch x { 1 => { print(1) } _ => { print(2) } } }");
    assert!(lowering_fits(&program));
    let hir = lower_program(&program);
    assert_eq!(hir.functions.len(), 1);
}

