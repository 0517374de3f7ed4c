use lib::lexer::{LexError, Lexer};
use lib::token::TokenKind;

fn kinds(source: &str) -> Vec<TokenKind> {
    Lexer::new(source)
        .tokenize()
        .unwrap()
        .into_iter()
        .map(|t| t.kind)
        .collect()
}

#[test]
fn tokenizes_hello_world() {
    let source = r#"
        fn main() {
            name := "World"
            print("Hello, " + name)
        }
    "#;

    let kinds = kinds(source);

    assert_eq!(
        kinds,
        vec![
            TokenKind::Fn,
            TokenKind::Identifier("main".into()),
            TokenKind::LParen,
            TokenKind::RParen,
            TokenKind::LBrace,
            TokenKind::Identifier("name".into()),
            TokenKind::ColonEq,
            TokenKind::StringLiteral("World".into()),
            TokenKind::Identifier("print".into()),
            TokenKind::LParen,
            TokenKind::StringLiteral("Hello, ".into()),
            TokenKind::Plus,
            TokenKind::Identifier("name".into()),
            TokenKind::RParen,
            TokenKind::RBrace,
            TokenKind::Eof,
        ]
    );
}

#[test]
fn skips_line_comments() {
    let kinds = kinds("fn // a comment\nmain");
    assert_eq!(
        kinds,
        vec![
            TokenKind::Fn,
            TokenKind::Identifier("main".into()),
            TokenKind::Eof
        ]
    );
}

#[test]
fn reports_unterminated_string() {
    let err = Lexer::new(r#""unterminated"#).tokenize().unwrap_err();
    assert_eq!(err, LexError::UnterminatedString { line: 1, column: 1 });
}

#[test]
fn reports_unrecognized_char() {
    let err = Lexer::new("fn main() { @ }").tokenize().unwrap_err();
    assert_eq!(
        err,
        LexError::UnrecognizedChar {
            ch: '@',
            line: 1,
            column: 13
        }
    );
}

#[test]
fn tracks_spans_correctly() {
    let tokens = Lexer::new("fn").tokenize().unwrap();
    assert_eq!(tokens[0].span.start, 0);
    assert_eq!(tokens[0].span.end, 2);
    assert_eq!(tokens[0].span.line, 1);
    assert_eq!(tokens[0].span.column, 1);
}

#[test]
fn tokenizes_numbers_and_new_operators() {
    let kinds = kinds("5 - 2 * 3 / 1 == 4 != 5 < 6 > 1 <= 2 >= 3 if else true false");
    assert_eq!(
        kinds,
        vec![
            TokenKind::IntLiteral(5),
            TokenKind::Minus,
            TokenKind::IntLiteral(2),
            TokenKind::Star,
            TokenKind::IntLiteral(3),
            TokenKind::Slash,
            TokenKind::IntLiteral(1),
            TokenKind::EqEq,
            TokenKind::IntLiteral(4),
            TokenKind::NotEq,
            TokenKind::IntLiteral(5),
            TokenKind::Lt,
            TokenKind::IntLiteral(6),
            TokenKind::Gt,
            TokenKind::IntLiteral(1),
            TokenKind::LtEq,
            TokenKind::IntLiteral(2),
            TokenKind::GtEq,
            TokenKind::IntLiteral(3),
            TokenKind::If,
            TokenKind::Else,
            TokenKind::True,
            TokenKind::False,
            TokenKind::Eof,
        ]
    );
}

#[test]
fn tokenizes_while_keyword() {
    let kinds = kinds("while true {}");
    assert_eq!(
        kinds,
        vec![
            TokenKind::While,
            TokenKind::True,
            TokenKind::LBrace,
            TokenKind::RBrace,
            TokenKind::Eof,
        ]
    );
}

#[test]
fn tokenizes_mut_and_assignment() {
    let kinds = kinds("mut x := 1\nx = 2");
    assert_eq!(
        kinds,
        vec![
            TokenKind::Mut,
            TokenKind::Identifier("x".into()),
            TokenKind::ColonEq,
            TokenKind::IntLiteral(1),
            TokenKind::Identifier("x".into()),
            TokenKind::Eq,
            TokenKind::IntLiteral(2),
            TokenKind::Eof,
        ]
    );
}

#[test]
fn tokenizes_function_signature() {
    let kinds = kinds("fn add(a: Int, b: Int) -> Int { return a }");
    assert_eq!(
        kinds,
        vec![
            TokenKind::Fn,
            TokenKind::Identifier("add".into()),
            TokenKind::LParen,
            TokenKind::Identifier("a".into()),
            TokenKind::Colon,
            TokenKind::Identifier("Int".into()),
            TokenKind::Comma,
            TokenKind::Identifier("b".into()),
            TokenKind::Colon,
            TokenKind::Identifier("Int".into()),
            TokenKind::RParen,
            TokenKind::Arrow,
            TokenKind::Identifier("Int".into()),
            TokenKind::LBrace,
            TokenKind::Return,
            TokenKind::Identifier("a".into()),
            TokenKind::RBrace,
            TokenKind::Eof,
        ]
    );
}

#[test]
fn tokenizes_struct_and_field_access() {
    let kinds = kinds("struct Point { x: Int } p.x");
    assert_eq!(
        kinds,
        vec![
            TokenKind::Struct,
            TokenKind::Identifier("Point".into()),
            TokenKind::LBrace,
            TokenKind::Identifier("x".into()),
            TokenKind::Colon,
            TokenKind::Identifier("Int".into()),
            TokenKind::RBrace,
            TokenKind::Identifier("p".into()),
            TokenKind::Dot,
            TokenKind::Identifier("x".into()),
            TokenKind::Eof,
        ]
    );
}

#[test]
fn tokenizes_enum_and_double_colon() {
    let kinds = kinds("enum Status { Pending } Status::Pending");
    assert_eq!(
        kinds,
        vec![
            TokenKind::Enum,
            TokenKind::Identifier("Status".into()),
            TokenKind::LBrace,
            TokenKind::Identifier("Pending".into()),
            TokenKind::RBrace,
            TokenKind::Identifier("Status".into()),
            TokenKind::ColonColon,
            TokenKind::Identifier("Pending".into()),
            TokenKind::Eof,
        ]
    );
}

#[test]
fn tokenizes_match_and_fat_arrow() {
    let kinds = kinds("match x { _ => {} }");
    assert_eq!(
        kinds,
        vec![
            TokenKind::Match,
            TokenKind::Identifier("x".into()),
            TokenKind::LBrace,
            TokenKind::Identifier("_".into()),
            TokenKind::FatArrow,
            TokenKind::LBrace,
            TokenKind::RBrace,
            TokenKind::RBrace,
            TokenKind::Eof,
        ]
    );
}

#[test]
fn tokenizes_brackets() {
    let kinds = kinds("[1, 2]");
    assert_eq!(
        kinds,
        vec![
            TokenKind::LBracket,
            TokenKind::IntLiteral(1),
            TokenKind::Comma,
            TokenKind::IntLiteral(2),
            TokenKind::RBracket,
            TokenKind::Eof,
        ]
    );
}
