use lib::interpreter::{Interpreter, RuntimeError};
use lib::lexer::Lexer;
use lib::loader::{load_program, LoadError};
use lib::lower::lower_program;
use lib::parser::Parser;
use lib::typecheck::{TypeChecker, TypeError};
use std::collections::HashMap;

fn run(source: &str) -> Result<Vec<String>, RuntimeError> {
    let tokens = Lexer::new(source).tokenize().expect("lex failed");
    let program = lower_program(&Parser::new(tokens).parse_program().expect("parse failed"));
    let mut interp = Interpreter::new(Vec::<String>::new());
    interp.run(&program)?;
    Ok(interp.into_sink())
}

fn check(source: &str) -> Vec<TypeError> {
    let tokens = Lexer::new(source).tokenize().expect("lex failed");
    let program = Parser::new(tokens).parse_program().expect("parse failed");
    TypeChecker::new().check_program(&program).unwrap_err()
}

fn s(text: &str) -> String {
    text.to_string()
}

#[test]
fn runtime_errors_for_names_and_calls() {
    assert_eq!(run("fn main() { print(y) }"), Err(RuntimeError::UndefinedVariable(s("y"))));
    assert_eq!(run("fn main() { foo() }"), Err(RuntimeError::UndefinedFunction(s("foo"))));
    assert_eq!(
        run("fn f(a: Int) {}\nfn main() { f() }"),
        Err(RuntimeError::WrongArgCount { callee: s("f"), expected: 1, found: 0 })
    );
    assert_eq!(run("fn f() {}"), Err(RuntimeError::NoMainFunction));
}

#[test]
fn runtime_errors_for_values() {
    assert_eq!(
        run("fn main() { x := 1 + true }"),
        Err(RuntimeError::TypeError(s("cannot apply `+` to Int and Bool")))
    );
    assert_eq!(run("fn main() { x := 1 / 0 }"), Err(RuntimeError::DivisionByZero));
    assert_eq!(run("fn main() { a := [1]\nprint(a[5]) }"), Err(RuntimeError::IndexOutOfBounds(5)));
    assert_eq!(run("fn main() { a := [1]\nprint(a[0 - 1]) }"), Err(RuntimeError::IndexOutOfBounds(-1)));
}

#[test]
fn runtime_errors_for_variables() {
    assert_eq!(run("fn main() { x := 1\nx := 2 }"), Err(RuntimeError::AlreadyDeclared(s("x"))));
    assert_eq!(run("fn main() { x := 1\nx = 2 }"), Err(RuntimeError::ImmutableAssignment(s("x"))));
}

#[test]
fn runtime_errors_for_structs_and_enums() {
    assert_eq!(
        run("struct P { x: Int }\nfn main() { p := P { y: 1 } }"),
        Err(RuntimeError::StructError(s("struct `P` has no field `y`")))
    );
    assert_eq!(
        run("enum E { A }\nfn main() { e := E::B }"),
        Err(RuntimeError::EnumError(s("enum `E` has no variant `B`")))
    );
    assert!(matches!(
        run("enum E { A }\nfn f() -> E { x := E::A?\nreturn x }\nfn main() { f() }"),
        Err(RuntimeError::NotResultShaped(_))
    ));
}

#[test]
fn wrapping_arithmetic_at_the_edges_of_int() {
    assert_eq!(run("fn main() { print(9223372036854775807 + 1) }").unwrap(), vec![s("-9223372036854775808")]);
    assert_eq!(run("fn main() { print(7 / 2)\nprint((0 - 7) / 2) }").unwrap(), vec![s("3"), s("-3")]);
}

#[test]
fn type_errors_for_undefined_names() {
    assert_eq!(check("fn f(a: Foo) {}\nfn main() {}"), vec![TypeError::UndefinedType(s("Foo"))]);
    assert_eq!(check("fn main() { foo() }"), vec![TypeError::UndefinedFunction(s("foo"))]);
    assert_eq!(check("fn main() { p := Q { } }"), vec![TypeError::UndefinedStruct(s("Q"))]);
    assert_eq!(check("fn main() { e := E::A }"), vec![TypeError::UndefinedEnum(s("E"))]);
    assert_eq!(
        check("enum E { A }\nfn main() { e := E::B }"),
        vec![TypeError::UndefinedVariant { enum_name: s("E"), variant: s("B") }]
    );
}

#[test]
fn type_errors_for_variables() {
    assert_eq!(check("fn main() { x := 1\nx := 2 }"), vec![TypeError::AlreadyDeclared(s("x"))]);
    assert_eq!(check("fn main() { x := 1\nx = 2 }"), vec![TypeError::ImmutableAssignment(s("x"))]);
    assert!(matches!(check("fn main() { x := [] }")[0], TypeError::CannotInferType(_)));
    assert_eq!(check("fn main() { x := 1\nprint(x.y) }"), vec![TypeError::NotAStruct(s("Int"))]);
}

#[test]
fn type_errors_for_struct_literals() {
    let decl = "struct P { x: Int, y: Int }\n";
    assert_eq!(
        check(&format!("{decl}fn main() {{ p := P {{ x: 1, z: 2 }} }}")),
        vec![
            TypeError::UnknownField { struct_name: s("P"), field: s("z") },
            TypeError::MissingField { struct_name: s("P"), field: s("y") },
        ]
    );
    assert_eq!(
        check(&format!("{decl}fn main() {{ p := P {{ x: 1, x: 2, y: 3 }} }}")),
        vec![TypeError::DuplicateField(s("x"))]
    );
}

#[test]
fn type_errors_for_calls_matches_and_try() {
    assert_eq!(
        check("fn f(a: Int) {}\nfn main() { f(1, 2) }"),
        vec![TypeError::WrongArgCount { callee: s("f"), expected: 1, found: 2 }]
    );
    assert!(matches!(check("fn main() { x := 1\nmatch x { 1 => { } } }")[0], TypeError::NonExhaustiveMatch(_)));
    assert!(matches!(check("fn main() { x := 1? }")[0], TypeError::NotResultShaped(_)));
    assert!(matches!(check("fn main() { if 1 { } }")[0], TypeError::Mismatch { .. }));
}

fn sources(pairs: &[(&str, &str)]) -> HashMap<String, String> {
    pairs.iter().map(|(k, v)| (k.to_string(), v.to_string())).collect()
}

#[test]
fn load_errors_for_missing_and_malformed_modules() {
    let err = load_program("main", &sources(&[("main", "import gone\nfn main() {}")])).unwrap_err();
    assert_eq!(err, LoadError::Io(s("module `gone` not found")));
    let err = load_program("main", &sources(&[("main", "fn main() { @ }")])).unwrap_err();
    assert!(matches!(err, LoadError::Lex(_)));
    let err = load_program("main", &sources(&[("main", "fn main( {")])).unwrap_err();
    assert!(matches!(err, LoadError::Parse(_)));
}
