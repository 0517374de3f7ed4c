use lib::interpreter::{Interpreter, RuntimeError};
use lib::lexer::Lexer;
use lib::lower::lower_program;
use lib::parser::Parser;

fn run_and_capture(source: &str) -> Result<Vec<String>, RuntimeError> {
    let tokens = Lexer::new(source).tokenize().expect("lex failed");
    let ast_program = Parser::new(tokens).parse_program().expect("parse failed");
    let program = lower_program(&ast_program);

    let mut interp = Interpreter::new(Vec::<String>::new());
    interp.run(&program)?;

    Ok(interp.into_sink())
}

#[test]
fn runs_hello_world() {
    let source = r#"
        fn main() {
            name := "World"
            print("Hello, " + name)
        }
    "#;
    assert_eq!(run_and_capture(source).unwrap(), vec!["Hello, World".to_string()]);
}

#[test]
fn runs_arithmetic() {
    assert_eq!(run_and_capture("fn main() { x := 2 + 3 * 4\nprint(x) }").unwrap(), vec!["14".to_string()]);
}

#[test]
fn runs_grouping_overrides_precedence() {
    assert_eq!(run_and_capture("fn main() { x := (2 + 3) * 4\nprint(x) }").unwrap(), vec!["20".to_string()]);
}

#[test]
fn runs_if_true_branch() {
    let source = r#"fn main() { if 1 < 2 { print("yes") } else { print("no") } }"#;
    assert_eq!(run_and_capture(source).unwrap(), vec!["yes".to_string()]);
}

#[test]
fn runs_if_false_branch() {
    let source = r#"fn main() { if 5 == 6 { print("yes") } else { print("no") } }"#;
    assert_eq!(run_and_capture(source).unwrap(), vec!["no".to_string()]);
}

#[test]
fn runs_if_with_no_else_and_false_condition() {
    let source = r#"
        fn main() {
            if false {
                print("unreachable")
            }
            print("after")
        }
    "#;
    assert_eq!(run_and_capture(source).unwrap(), vec!["after".to_string()]);
}

#[test]
fn runs_while_loop_with_mut_and_assignment() {
    let source = r#"
        fn main() {
            mut counter := 0
            while counter < 3 {
                print(counter)
                counter = counter + 1
            }
        }
    "#;
    assert_eq!(
        run_and_capture(source).unwrap(),
        vec!["0".to_string(), "1".to_string(), "2".to_string()]
    );
}

#[test]
fn while_loop_never_runs_if_condition_starts_false() {
    let source = r#"
        fn main() {
            while false {
                print("nope")
            }
            print("done")
        }
    "#;
    assert_eq!(run_and_capture(source).unwrap(), vec!["done".to_string()]);
}

#[test]
fn reports_division_by_zero() {
    assert_eq!(run_and_capture("fn main() { x := 5 / 0 }").unwrap_err(), RuntimeError::DivisionByZero);
}

#[test]
fn reports_type_error_on_bad_addition() {
    match run_and_capture("fn main() { x := 5 + true }").unwrap_err() {
        RuntimeError::TypeError(_) => {}
        other => panic!("expected TypeError, got {other:?}"),
    }
}

#[test]
fn reports_undefined_variable() {
    let err = run_and_capture(r#"fn main() { print(missing) }"#).unwrap_err();
    assert_eq!(err, RuntimeError::UndefinedVariable("missing".to_string()));
}

#[test]
fn reports_missing_main() {
    let err = run_and_capture(r#"fn notMain() {}"#).unwrap_err();
    assert_eq!(err, RuntimeError::NoMainFunction);
}

#[test]
fn calls_user_function_with_params_and_return_value() {
    let source = r#"
        fn add(a: Int, b: Int) -> Int {
            return a + b
        }
        fn main() {
            result := add(2, 3)
            print(result)
        }
    "#;
    assert_eq!(run_and_capture(source).unwrap(), vec!["5".to_string()]);
}

#[test]
fn supports_recursion() {
    let source = r#"
        fn fib(n: Int) -> Int {
            if n < 2 { return n }
            return fib(n - 1) + fib(n - 2)
        }
        fn main() { print(fib(10)) }
    "#;
    assert_eq!(run_and_capture(source).unwrap(), vec!["55".to_string()]);
}

#[test]
fn constructs_struct_and_accesses_fields() {
    let source = r#"
        struct Point { x: Int, y: Int }
        fn main() {
            p := Point { x: 3, y: 4 }
            print(p.x)
            print(p.y)
        }
    "#;
    assert_eq!(run_and_capture(source).unwrap(), vec!["3".to_string(), "4".to_string()]);
}

#[test]
fn matches_enum_variant_and_binds_data() {
    let source = r#"
        enum Status { Pending, Failed(reason: String) }
        fn main() {
            s := Status::Failed(reason: "timeout")
            match s {
                Status::Pending => { print("pending") }
                Status::Failed(reason) => { print(reason) }
            }
        }
    "#;
    assert_eq!(run_and_capture(source).unwrap(), vec!["timeout".to_string()]);
}

#[test]
fn matches_wildcard_fallback() {
    let source = r#"
        enum Status { Pending, Done }
        fn main() {
            s := Status::Pending
            match s { Status::Done => { print("done") } _ => { print("other") } }
        }
    "#;
    assert_eq!(run_and_capture(source).unwrap(), vec!["other".to_string()]);
}

#[test]
fn indexes_array() {
    assert_eq!(run_and_capture("fn main() { a := [10, 20, 30]\nprint(a[1]) }").unwrap(), vec!["20".to_string()]);
}

#[test]
fn len_and_push_builtins() {
    let source = r#"
        fn main() {
            a := [1, 2, 3]
            print(len(a))
            b := push(a, 4)
            print(len(b))
        }
    "#;
    assert_eq!(run_and_capture(source).unwrap(), vec!["3".to_string(), "4".to_string()]);
}

#[test]
fn try_propagates_err_early() {
    let source = r#"
        enum IntResult { Ok(value: Int), Err(error: String) }
        fn fail() -> IntResult { return IntResult::Err(error: "boom") }
        fn compute() -> IntResult {
            x := fail()?
            return IntResult::Ok(value: x + 1)
        }
        fn main() {
            r := compute()
            match r {
                IntResult::Ok(v) => { print(v) }
                IntResult::Err(e) => { print(e) }
            }
        }
    "#;
    assert_eq!(run_and_capture(source).unwrap(), vec!["boom".to_string()]);
}

struct Collect(Vec<String>);

impl lib::interpreter::LineWriter for Collect {
    fn write_line(&mut self, line: &str) {
        self.0.push(line.to_string());
    }
}

#[test]
fn stream_sink_hands_lines_on_in_order() {
    let source = "fn main() { print(1)\nprint(\"two\") }";
    let tokens = Lexer::new(source).tokenize().expect("lex failed");
    let program = lower_program(&Parser::new(tokens).parse_program().expect("parse failed"));
    let mut interp = Interpreter::new(lib::interpreter::StreamSink::new(Collect(Vec::new())));
    assert_eq!(interp.run(&program), Ok(()));
    let written = interp.into_sink().into_writer().0;
    assert_eq!(written, vec!["1".to_string(), "two".to_string()]);
}

#[test]
fn vec_sink_keeps_lines_it_already_held() {
    let source = "fn main() { print(3) }";
    let tokens = Lexer::new(source).tokenize().expect("lex failed");
    let program = lower_program(&Parser::new(tokens).parse_program().expect("parse failed"));
    let mut interp = Interpreter::new(vec!["before".to_string()]);
    assert_eq!(interp.run(&program), Ok(()));
    assert_eq!(interp.into_sink(), vec!["before".to_string(), "3".to_string()]);
}
