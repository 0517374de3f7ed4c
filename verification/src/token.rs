//! Token kinds produced by the lexer.
use vstd::prelude::*;
use crate::span::Span;
use crate::text::{concat, i64_to_string, int_text, str_debug, str_debug_text, string_of};

verus! {

#[derive(Debug, Clone, PartialEq, Eq)]
pub enum TokenKind {
    // Keywords
    Fn,
    If,
    Else,
    While,
    Mut,
    Return,
    Struct,
    Enum,
    Match,
    Module,
    Import,
    Export,
    True,
    False,
    // Literals
    Identifier(String),
    StringLiteral(String),
    IntLiteral(i64),
    // Punctuation
    LParen,
    RParen,
    LBrace,
    RBrace,
    LBracket,
    RBracket,
    Comma,
    Dot,
    Colon,
    ColonColon,
    ColonEq,
    Eq,
    EqEq,
    NotEq,
    Plus,
    Minus,
    Star,
    Slash,
    Lt,
    Gt,
    LtEq,
    GtEq,
    Arrow,
    FatArrow,
    Question,
    Eof,
}

/// A token kind with the text of its payload taken by its characters.
pub enum SpecTokenKind {
    /// Any kind that carries no payload.
    Plain(TokenKind),
    Identifier(Seq<char>),
    StringLiteral(Seq<char>),
    IntLiteral(int),
}

impl View for TokenKind {
    type V = SpecTokenKind;

    open spec fn view(&self) -> SpecTokenKind {
        match self {
            TokenKind::Identifier(s) => SpecTokenKind::Identifier(s@),
            TokenKind::StringLiteral(s) => SpecTokenKind::StringLiteral(s@),
            TokenKind::IntLiteral(i) => SpecTokenKind::IntLiteral(*i as int),
            _ => SpecTokenKind::Plain(*self),
        }
    }
}

/// Two kinds are the same token: same variant, same payload text or value.
pub fn same_kind(a: &TokenKind, b: &TokenKind) -> (r: bool)
    ensures
        r == (a@ == b@),
{
    match (a, b) {
        (TokenKind::Identifier(x), TokenKind::Identifier(y)) => *x == *y,
        (TokenKind::StringLiteral(x), TokenKind::StringLiteral(y)) => *x == *y,
        (TokenKind::IntLiteral(x), TokenKind::IntLiteral(y)) => *x == *y,
        (TokenKind::Identifier(_), _) => false,
        (TokenKind::StringLiteral(_), _) => false,
        (TokenKind::IntLiteral(_), _) => false,
        (_, TokenKind::Identifier(_)) => false,
        (_, TokenKind::StringLiteral(_)) => false,
        (_, TokenKind::IntLiteral(_)) => false,
        _ => plain_index(a) == plain_index(b),
    }
}

/// Position of a payload-free kind in the declaration order.
pub open spec fn spec_plain_index(k: TokenKind) -> int {
    match k {
        TokenKind::Fn => 0,
        TokenKind::If => 1,
        TokenKind::Else => 2,
        TokenKind::While => 3,
        TokenKind::Mut => 4,
        TokenKind::Return => 5,
        TokenKind::Struct => 6,
        TokenKind::Enum => 7,
        TokenKind::Match => 8,
        TokenKind::Module => 9,
        TokenKind::Import => 10,
        TokenKind::Export => 11,
        TokenKind::True => 12,
        TokenKind::False => 13,
        TokenKind::LParen => 14,
        TokenKind::RParen => 15,
        TokenKind::LBrace => 16,
        TokenKind::RBrace => 17,
        TokenKind::LBracket => 18,
        TokenKind::RBracket => 19,
        TokenKind::Comma => 20,
        TokenKind::Dot => 21,
        TokenKind::Colon => 22,
        TokenKind::ColonColon => 23,
        TokenKind::ColonEq => 24,
        TokenKind::Eq => 25,
        TokenKind::EqEq => 26,
        TokenKind::NotEq => 27,
        TokenKind::Plus => 28,
        TokenKind::Minus => 29,
        TokenKind::Star => 30,
        TokenKind::Slash => 31,
        TokenKind::Lt => 32,
        TokenKind::Gt => 33,
        TokenKind::LtEq => 34,
        TokenKind::GtEq => 35,
        TokenKind::Arrow => 36,
        TokenKind::FatArrow => 37,
        TokenKind::Question => 38,
        TokenKind::Eof => 39,
        _ => -1,
    }
}


fn plain_index(k: &TokenKind) -> (r: i8)
    ensures
        r == spec_plain_index(*k),
{
    match k {
        TokenKind::Fn => 0,
        TokenKind::If => 1,
        TokenKind::Else => 2,
        TokenKind::While => 3,
        TokenKind::Mut => 4,
        TokenKind::Return => 5,
        TokenKind::Struct => 6,
        TokenKind::Enum => 7,
        TokenKind::Match => 8,
        TokenKind::Module => 9,
        TokenKind::Import => 10,
        TokenKind::Export => 11,
        TokenKind::True => 12,
        TokenKind::False => 13,
        TokenKind::LParen => 14,
        TokenKind::RParen => 15,
        TokenKind::LBrace => 16,
        TokenKind::RBrace => 17,
        TokenKind::LBracket => 18,
        TokenKind::RBracket => 19,
        TokenKind::Comma => 20,
        TokenKind::Dot => 21,
        TokenKind::Colon => 22,
        TokenKind::ColonColon => 23,
        TokenKind::ColonEq => 24,
        TokenKind::Eq => 25,
        TokenKind::EqEq => 26,
        TokenKind::NotEq => 27,
        TokenKind::Plus => 28,
        TokenKind::Minus => 29,
        TokenKind::Star => 30,
        TokenKind::Slash => 31,
        TokenKind::Lt => 32,
        TokenKind::Gt => 33,
        TokenKind::LtEq => 34,
        TokenKind::GtEq => 35,
        TokenKind::Arrow => 36,
        TokenKind::FatArrow => 37,
        TokenKind::Question => 38,
        TokenKind::Eof => 39,
        _ => -1,
    }
}

#[derive(Debug, Clone, PartialEq, Eq)]
pub struct Token {
    pub kind: TokenKind,
    pub span: Span,
}

impl Token {
    pub fn new(kind: TokenKind, span: Span) -> (r: Self)
        ensures
            r.kind == kind,
            r.span == span,
    {
        Token { kind, span }
    }
}

/// The text `{:?}` gives for a token kind: the variant's name, with its
/// payload in brackets.
pub open spec fn kind_debug(k: TokenKind) -> Seq<char> {
    match k {
        TokenKind::Identifier(s) => "Identifier("@ + str_debug(s@) + ")"@,
        TokenKind::StringLiteral(s) => "StringLiteral("@ + str_debug(s@) + ")"@,
        TokenKind::IntLiteral(i) => "IntLiteral("@ + int_text(i as int) + ")"@,
        TokenKind::Fn => "Fn"@,
        TokenKind::If => "If"@,
        TokenKind::Else => "Else"@,
        TokenKind::While => "While"@,
        TokenKind::Mut => "Mut"@,
        TokenKind::Return => "Return"@,
        TokenKind::Struct => "Struct"@,
        TokenKind::Enum => "Enum"@,
        TokenKind::Match => "Match"@,
        TokenKind::Module => "Module"@,
        TokenKind::Import => "Import"@,
        TokenKind::Export => "Export"@,
        TokenKind::True => "True"@,
        TokenKind::False => "False"@,
        TokenKind::LParen => "LParen"@,
        TokenKind::RParen => "RParen"@,
        TokenKind::LBrace => "LBrace"@,
        TokenKind::RBrace => "RBrace"@,
        TokenKind::LBracket => "LBracket"@,
        TokenKind::RBracket => "RBracket"@,
        TokenKind::Comma => "Comma"@,
        TokenKind::Dot => "Dot"@,
        TokenKind::Colon => "Colon"@,
        TokenKind::ColonColon => "ColonColon"@,
        TokenKind::ColonEq => "ColonEq"@,
        TokenKind::Eq => "Eq"@,
        TokenKind::EqEq => "EqEq"@,
        TokenKind::NotEq => "NotEq"@,
        TokenKind::Plus => "Plus"@,
        TokenKind::Minus => "Minus"@,
        TokenKind::Star => "Star"@,
        TokenKind::Slash => "Slash"@,
        TokenKind::Lt => "Lt"@,
        TokenKind::Gt => "Gt"@,
        TokenKind::LtEq => "LtEq"@,
        TokenKind::GtEq => "GtEq"@,
        TokenKind::Arrow => "Arrow"@,
        TokenKind::FatArrow => "FatArrow"@,
        TokenKind::Question => "Question"@,
        TokenKind::Eof => "Eof"@,
    }
}

impl TokenKind {
    /// The kind as `{:?}` writes it.
    pub fn debug_text(&self) -> (r: String)
        ensures
            r@ == kind_debug(*self),
    {
        match self {
            TokenKind::Identifier(s) => {
                let t = concat(&string_of("Identifier("), str_debug_text(s.as_str()).as_str());
                concat(&t, ")")
            },
            TokenKind::StringLiteral(s) => {
                let t = concat(&string_of("StringLiteral("), str_debug_text(s.as_str()).as_str());
                concat(&t, ")")
            },
            TokenKind::IntLiteral(i) => {
                let t = concat(&string_of("IntLiteral("), i64_to_string(*i).as_str());
                concat(&t, ")")
            },
            TokenKind::Fn => string_of("Fn"),
            TokenKind::If => string_of("If"),
            TokenKind::Else => string_of("Else"),
            TokenKind::While => string_of("While"),
            TokenKind::Mut => string_of("Mut"),
            TokenKind::Return => string_of("Return"),
            TokenKind::Struct => string_of("Struct"),
            TokenKind::Enum => string_of("Enum"),
            TokenKind::Match => string_of("Match"),
            TokenKind::Module => string_of("Module"),
            TokenKind::Import => string_of("Import"),
            TokenKind::Export => string_of("Export"),
            TokenKind::True => string_of("True"),
            TokenKind::False => string_of("False"),
            TokenKind::LParen => string_of("LParen"),
            TokenKind::RParen => string_of("RParen"),
            TokenKind::LBrace => string_of("LBrace"),
            TokenKind::RBrace => string_of("RBrace"),
            TokenKind::LBracket => string_of("LBracket"),
            TokenKind::RBracket => string_of("RBracket"),
            TokenKind::Comma => string_of("Comma"),
            TokenKind::Dot => string_of("Dot"),
            TokenKind::Colon => string_of("Colon"),
            TokenKind::ColonColon => string_of("ColonColon"),
            TokenKind::ColonEq => string_of("ColonEq"),
            TokenKind::Eq => string_of("Eq"),
            TokenKind::EqEq => string_of("EqEq"),
            TokenKind::NotEq => string_of("NotEq"),
            TokenKind::Plus => string_of("Plus"),
            TokenKind::Minus => string_of("Minus"),
            TokenKind::Star => string_of("Star"),
            TokenKind::Slash => string_of("Slash"),
            TokenKind::Lt => string_of("Lt"),
            TokenKind::Gt => string_of("Gt"),
            TokenKind::LtEq => string_of("LtEq"),
            TokenKind::GtEq => string_of("GtEq"),
            TokenKind::Arrow => string_of("Arrow"),
            TokenKind::FatArrow => string_of("FatArrow"),
            TokenKind::Question => string_of("Question"),
            TokenKind::Eof => string_of("Eof"),
        }
    }
}

} // verus!
