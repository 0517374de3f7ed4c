use lib::lexer::{LexError, Lexer};
use lib::parser::{ParseError, Parser};
use lib::span::Span;
use lib::token::TokenKind;
use lib::value::{copy_value, values_equal, Value};

fn s(text: &str) -> String {
    text.to_string()
}

#[test]
fn displays_scalars() {
    assert_eq!(Value::Int(-42).display(), "-42");
    assert_eq!(Value::Int(i64::MIN).display(), "-9223372036854775808");
    assert_eq!(Value::Bool(true).display(), "true");
    assert_eq!(Value::Bool(false).display(), "false");
    assert_eq!(Value::Unit.display(), "");
    assert_eq!(Value::String(s("hi there")).display(), "hi there");
}

#[test]
fn displays_compound_values_with_fields_sorted_by_name() {
    let point = Value::Struct { name: s("P"), fields: vec![(s("y"), Value::Int(2)), (s("x"), Value::Int(1))] };
    assert_eq!(point.display(), "P { x: 1, y: 2 }");
    let array = Value::Array(vec![Value::Int(1), Value::String(s("a")), Value::Bool(false)]);
    assert_eq!(array.display(), "[1, a, false]");
    assert_eq!(Value::Array(vec![]).display(), "[]");
    let unit_variant = Value::Enum { enum_name: s("E"), variant: s("V"), fields: vec![] };
    assert_eq!(unit_variant.display(), "E::V");
    let data_variant = Value::Enum {
        enum_name: s("R"),
        variant: s("Ok"),
        fields: vec![(s("value"), Value::Int(3)), (s("note"), Value::String(s("n")))],
    };
    assert_eq!(data_variant.display(), "R::Ok(note: n, value: 3)");
}

#[test]
fn labels_value_types() {
    assert_eq!(Value::String(s("x")).type_label(), "String");
    assert_eq!(Value::Int(1).type_label(), "Int");
    assert_eq!(Value::Bool(true).type_label(), "Bool");
    assert_eq!(Value::Unit.type_label(), "Unit");
    assert_eq!(Value::Array(vec![]).type_label(), "Array");
    assert_eq!(Value::Struct { name: s("Point"), fields: vec![] }.type_label(), "Point");
    assert_eq!(Value::Enum { enum_name: s("Shape"), variant: s("C"), fields: vec![] }.type_label(), "Shape");
}

#[test]
fn compares_and_copies_values() {
    let a = Value::Struct { name: s("P"), fields: vec![(s("x"), Value::Array(vec![Value::Int(1)]))] };
    let b = copy_value(&a);
    assert_eq!(a, b);
    assert!(values_equal(&a, &b));
    let c = Value::Struct { name: s("P"), fields: vec![(s("x"), Value::Array(vec![Value::Int(2)]))] };
    assert!(!values_equal(&a, &c));
    assert!(!values_equal(&Value::Int(1), &Value::Bool(true)));
    let ok = Value::Enum { enum_name: s("R"), variant: s("Ok"), fields: vec![] };
    let err = Value::Enum { enum_name: s("R"), variant: s("Err"), fields: vec![] };
    assert!(!values_equal(&ok, &err));
}

#[test]
fn lex_errors_read_as_their_debug_form() {
    let e = Lexer::new("x := \"open").tokenize().unwrap_err();
    assert_eq!(e.debug_text(), format!("{:?}", e));
    assert_eq!(e.debug_text(), "UnterminatedString { line: 1, column: 6 }");
    let e = LexError::UnrecognizedChar { ch: '\'', line: 3, column: 7 };
    assert_eq!(e.debug_text(), format!("{:?}", e));
    let e = LexError::UnrecognizedChar { ch: '\n', line: 1, column: 1 };
    assert_eq!(e.debug_text(), format!("{:?}", e));
}

#[test]
fn token_kinds_and_spans_read_as_their_debug_form() {
    let kinds = vec![
        TokenKind::Identifier(s("name")),
        TokenKind::StringLiteral(s("say \"hi\"\tnow\\")),
        TokenKind::IntLiteral(-5),
        TokenKind::ColonColon,
        TokenKind::FatArrow,
        TokenKind::Eof,
    ];
    for k in &kinds {
        assert_eq!(k.debug_text(), format!("{:?}", k));
    }
    let span = Span::new(3, 9, 2, 4);
    assert_eq!(span.debug_text(), format!("{:?}", span));
    assert_eq!(span.debug_text(), "Span { start: 3, end: 9, line: 2, column: 4 }");
}

#[test]
fn parse_errors_read_as_their_debug_form() {
    let tokens = Lexer::new("fn main( {").tokenize().unwrap();
    let e = Parser::new(tokens).parse_program().unwrap_err();
    assert_eq!(e.debug_text(), format!("{:?}", e));
    let e = ParseError::UnexpectedEof { expected: s("}") };
    assert_eq!(e.debug_text(), format!("{:?}", e));
}
