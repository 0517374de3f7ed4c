use lib::lexer::Lexer;
use lib::parser::Parser;
use lib::typecheck::{TypeChecker, TypeError};

fn check(source: &str) -> Result<(), Vec<TypeError>> {
    let tokens = Lexer::new(source).tokenize().expect("lex failed");
    let program = Parser::new(tokens).parse_program().expect("parse failed");
    TypeChecker::new().check_program(&program)
}

#[test]
fn passes_valid_program() {
    let source = r#"
        struct Point { x: Int, y: Int }
        fn add(a: Int, b: Int) -> Int { return a + b }
        fn main() {
            p := Point { x: 1, y: 2 }
            print(p.x)
            print(add(1, 2))
        }
    "#;
    assert_eq!(check(source), Ok(()));
}

#[test]
fn catches_binary_type_mismatch() {
    let err = check("fn main() { x := 5 + true }").unwrap_err();
    assert!(matches!(err[0], TypeError::Mismatch { .. }));
}

#[test]
fn catches_undefined_variable() {
    let err = check("fn main() { print(missing) }").unwrap_err();
    assert_eq!(err[0], TypeError::UndefinedVariable("missing".to_string()));
}

#[test]
fn catches_wrong_arg_count() {
    let source = "fn add(a: Int, b: Int) -> Int { return a + b }\nfn main() { add(1) }";
    let err = check(source).unwrap_err();
    assert!(err.iter().any(|e| matches!(e, TypeError::WrongArgCount { .. })));
}

#[test]
fn catches_return_type_mismatch() {
    let err = check("fn f() -> Int { return true }\nfn main() {}").unwrap_err();
    assert!(err.iter().any(|e| matches!(e, TypeError::Mismatch { .. })));
}

#[test]
fn catches_struct_field_type_mismatch() {
    let source = "struct P { x: Int }\nfn main() { p := P { x: true } }";
    let err = check(source).unwrap_err();
    assert!(err.iter().any(|e| matches!(e, TypeError::Mismatch { .. })));
}

#[test]
fn catches_missing_struct_field() {
    let source = "struct P { x: Int, y: Int }\nfn main() { p := P { x: 1 } }";
    let err = check(source).unwrap_err();
    assert!(err.iter().any(|e| matches!(e, TypeError::MissingField { .. })));
}

#[test]
fn catches_non_bool_condition() {
    let err = check("fn main() { if 5 { print(\"no\") } }").unwrap_err();
    assert!(err.iter().any(|e| matches!(e, TypeError::Mismatch { .. })));
}

#[test]
fn catches_missing_main() {
    let err = check("fn notMain() {}").unwrap_err();
    assert!(err.contains(&TypeError::NoMainFunction));
}

#[test]
fn catches_undefined_type_in_param() {
    let err = check("fn f(x: Ghost) {}\nfn main() {}").unwrap_err();
    assert!(err.iter().any(|e| matches!(e, TypeError::UndefinedType(_))));
}

#[test]
fn passes_valid_enum_construction() {
    let source = r#"
        enum Status { Pending, Failed(reason: String) }
        fn main() {
            a := Status::Pending
            b := Status::Failed(reason: "x")
        }
    "#;
    assert_eq!(check(source), Ok(()));
}

#[test]
fn catches_undefined_variant() {
    let source = "enum Status { Pending }\nfn main() { s := Status::Ghost }";
    let err = check(source).unwrap_err();
    assert!(err.iter().any(|e| matches!(e, TypeError::UndefinedVariant { .. })));
}

#[test]
fn catches_variant_field_type_mismatch() {
    let source =
        "enum Status { Failed(reason: String) }\nfn main() { s := Status::Failed(reason: 5) }";
    let err = check(source).unwrap_err();
    assert!(err.iter().any(|e| matches!(e, TypeError::Mismatch { .. })));
}

#[test]
fn passes_exhaustive_enum_match() {
    let source = r#"
        enum Status { Pending, Done }
        fn main() {
            s := Status::Pending
            match s {
                Status::Pending => { print("p") }
                Status::Done => { print("d") }
            }
        }
    "#;
    assert_eq!(check(source), Ok(()));
}

#[test]
fn catches_non_exhaustive_enum_match() {
    let source = r#"
        enum Status { Pending, Done }
        fn main() {
            s := Status::Pending
            match s {
                Status::Pending => { print("p") }
            }
        }
    "#;
    let err = check(source).unwrap_err();
    assert!(err.iter().any(|e| matches!(e, TypeError::NonExhaustiveMatch(_))));
}

#[test]
fn wildcard_satisfies_exhaustiveness() {
    let source = r#"
        enum Status { Pending, Done }
        fn main() {
            s := Status::Pending
            match s {
                Status::Pending => { print("p") }
                _ => { print("other") }
            }
        }
    "#;
    assert_eq!(check(source), Ok(()));
}

#[test]
fn catches_int_match_without_wildcard() {
    let source = "fn main() { x := 5\nmatch x { 1 => { print(\"one\") } } }";
    let err = check(source).unwrap_err();
    assert!(err.iter().any(|e| matches!(e, TypeError::NonExhaustiveMatch(_))));
}

#[test]
fn binds_enum_field_type_correctly() {
    let source = r#"
        enum Status { Failed(reason: String) }
        fn main() {
            s := Status::Failed(reason: "x")
            match s {
                Status::Failed(reason) => { print(reason) }
            }
        }
    "#;
    assert_eq!(check(source), Ok(()));
}

#[test]
fn catches_pattern_type_mismatch() {
    let source = "fn main() { x := 5\nmatch x { true => { print(\"t\") } _ => { print(\"o\") } } }";
    let err = check(source).unwrap_err();
    assert!(err.iter().any(|e| matches!(e, TypeError::Mismatch { .. })));
}

#[test]
fn passes_valid_array_usage() {
    let source = r#"
        fn main() {
            mut a := [1, 2, 3]
            a[0] = 9
            x := a[0]
            print(len(a))
            b := push(a, 4)
        }
    "#;
    assert_eq!(check(source), Ok(()));
}

#[test]
fn catches_array_element_type_mismatch() {
    let err = check("fn main() { a := [1, true] }").unwrap_err();
    assert!(err.iter().any(|e| matches!(e, TypeError::Mismatch { .. })));
}

#[test]
fn catches_non_int_index() {
    let err = check("fn main() { a := [1, 2]\nx := a[\"k\"] }").unwrap_err();
    assert!(err.iter().any(|e| matches!(e, TypeError::Mismatch { .. })));
}

#[test]
fn catches_index_assign_type_mismatch() {
    let err = check("fn main() { mut a := [1, 2]\na[0] = true }").unwrap_err();
    assert!(err.iter().any(|e| matches!(e, TypeError::Mismatch { .. })));
}

#[test]
fn catches_push_type_mismatch() {
    let err = check("fn main() { a := [1, 2]\nb := push(a, true) }").unwrap_err();
    assert!(err.iter().any(|e| matches!(e, TypeError::Mismatch { .. })));
}

#[test]
fn passes_valid_try_usage() {
    let source = r#"
        enum IntResult { Ok(value: Int), Err(error: String) }
        fn make() -> IntResult { return IntResult::Ok(value: 1) }
        fn compute() -> IntResult {
            x := make()?
            return IntResult::Ok(value: x)
        }
        fn main() {}
    "#;
    assert_eq!(check(source), Ok(()));
}

#[test]
fn catches_try_on_non_enum() {
    let source = "fn f() -> Int { x := 5?\nreturn x }\nfn main() {}";
    let err = check(source).unwrap_err();
    assert!(err.iter().any(|e| matches!(e, TypeError::NotResultShaped(_))));
}

#[test]
fn catches_try_return_type_mismatch() {
    let source = r#"
        enum IntResult { Ok(value: Int), Err(error: String) }
        fn make() -> IntResult { return IntResult::Ok(value: 1) }
        fn compute() -> Int {
            x := make()?
            return x
        }
        fn main() {}
    "#;
    let err = check(source).unwrap_err();
    assert!(err.iter().any(|e| matches!(e, TypeError::Mismatch { .. })));
}

#[test]
fn try_on_enum_without_err_variant_is_rejected() {
    let source = r#"
        enum Maybe { Ok(value: Int), Nothing }
        fn get() -> Maybe { return Maybe::Nothing }
        fn use_it() -> Maybe {
            x := get()?
            return Maybe::Ok(value: x)
        }
        fn main() {}
    "#;
    let err = check(source).unwrap_err();
    assert_eq!(
        err[0],
        TypeError::NotResultShaped(
            "enum `Maybe` is not Ok/Err-shaped (need Ok(value: T), Err(error: E))".to_string()
        )
    );
}
