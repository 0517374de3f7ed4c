//! Turns source text into tokens.
//!
//! The lexical grammar is stated by `spec_lex_from`: from a position, skip
//! whitespace and `//` line comments, then read one token by maximal munch
//! (identifier or keyword, decimal integer, double-quoted string, or
//! punctuation), and continue; at the end of input an `Eof` token is added.
use vstd::prelude::*;
use crate::span::Span;
use crate::text::{char_debug, char_debug_text, concat, decimal_digits, string_of, usize_to_string, ascii_digit, char_is_alphabetic, char_is_alphanumeric, char_is_whitespace, digit_value, is_ascii_digit, string_is, unicode_alphabetic, unicode_alphanumeric, unicode_whitespace};
use crate::token::{SpecTokenKind, Token, TokenKind};

verus! {

#[derive(Debug, Clone, PartialEq, Eq)]
pub enum LexError {
    UnterminatedString { line: usize, column: usize },
    UnrecognizedChar { ch: char, line: usize, column: usize },
}

/// A lexical error with its position as mathematical integers.
pub enum SpecLexError {
    UnterminatedString { line: int, column: int },
    UnrecognizedChar { ch: char, line: int, column: int },
}

impl View for LexError {
    type V = SpecLexError;

    open spec fn view(&self) -> SpecLexError {
        match self {
            LexError::UnterminatedString { line, column } => SpecLexError::UnterminatedString {
                line: *line as int,
                column: *column as int,
            },
            LexError::UnrecognizedChar { ch, line, column } => SpecLexError::UnrecognizedChar {
                ch: *ch,
                line: *line as int,
                column: *column as int,
            },
        }
    }
}

/// A token as the grammar describes it.
pub struct SpecToken {
    pub kind: SpecTokenKind,
    pub start: int,
    pub end: int,
    pub line: int,
    pub column: int,
}

pub open spec fn token_view(t: Token) -> SpecToken {
    SpecToken {
        kind: t.kind@,
        start: t.span.start as int,
        end: t.span.end as int,
        line: t.span.line as int,
        column: t.span.column as int,
    }
}

pub open spec fn tokens_view(ts: Seq<Token>) -> Seq<SpecToken> {
    ts.map_values(|t: Token| token_view(t))
}

/// Outcome of lexing: the tokens, the first error met, or an integer
/// literal too large for `i64` (on which lexing cannot proceed).
pub enum LexResult {
    Tokens(Seq<SpecToken>),
    Error(SpecLexError),
    Overflow,
}

/// 1-based line of position `i`: one more than the newlines before it.
pub open spec fn line_at(s: Seq<char>, i: int) -> int
    decreases i,
{
    if i <= 0 {
        1
    } else {
        line_at(s, i - 1) + if s[i - 1] == '\n' { 1int } else { 0int }
    }
}

/// 1-based column of position `i`: one more than the characters since the
/// last newline before it.
pub open spec fn column_at(s: Seq<char>, i: int) -> int
    decreases i,
{
    if i <= 0 {
        1
    } else if s[i - 1] == '\n' {
        1
    } else {
        column_at(s, i - 1) + 1
    }
}

pub open spec fn is_ident_start(c: char) -> bool {
    unicode_alphabetic(c) || c == '_'
}

pub open spec fn is_ident_char(c: char) -> bool {
    unicode_alphanumeric(c) || c == '_'
}

/// First position at or after `i` that is not whitespace nor inside a
/// `//` comment (which runs up to, not including, the next newline).
pub open spec fn skip_trivia(s: Seq<char>, i: int, in_comment: bool) -> int
    decreases s.len() - i, (if in_comment { 1int } else { 0int }),
{
    if i < 0 || i >= s.len() {
        i
    } else if in_comment {
        if s[i] == '\n' {
            skip_trivia(s, i, false)
        } else {
            skip_trivia(s, i + 1, true)
        }
    } else if unicode_whitespace(s[i]) {
        skip_trivia(s, i + 1, false)
    } else if s[i] == '/' && i + 1 < s.len() && s[i + 1] == '/' {
        skip_trivia(s, i + 2, true)
    } else {
        i
    }
}

/// End of the run of identifier characters starting at `i`.
pub open spec fn ident_end(s: Seq<char>, i: int) -> int
    decreases s.len() - i,
{
    if 0 <= i < s.len() && is_ident_char(s[i]) {
        ident_end(s, i + 1)
    } else {
        i
    }
}

/// End of the run of ASCII digits starting at `i`.
pub open spec fn digits_end(s: Seq<char>, i: int) -> int
    decreases s.len() - i,
{
    if 0 <= i < s.len() && is_ascii_digit(s[i]) {
        digits_end(s, i + 1)
    } else {
        i
    }
}

/// Position of the first `"` at or after `i`, if any.
pub open spec fn string_close(s: Seq<char>, i: int) -> Option<int>
    decreases s.len() - i,
{
    if i < 0 || i >= s.len() {
        None
    } else if s[i] == '"' {
        Some(i)
    } else {
        string_close(s, i + 1)
    }
}

/// Decimal value of the digits `s[a..b]`.
pub open spec fn digits_value(s: Seq<char>, a: int, b: int) -> int
    decreases b - a,
{
    if b <= a {
        0
    } else {
        digits_value(s, a, b - 1) * 10 + digit_value(s[b - 1])
    }
}

/// The keyword spelled by `w`, if it is one.
pub open spec fn keyword_kind(w: Seq<char>) -> Option<TokenKind> {
    if w == "fn"@ {
        Some(TokenKind::Fn)
    } else if w == "if"@ {
        Some(TokenKind::If)
    } else if w == "else"@ {
        Some(TokenKind::Else)
    } else if w == "while"@ {
        Some(TokenKind::While)
    } else if w == "mut"@ {
        Some(TokenKind::Mut)
    } else if w == "return"@ {
        Some(TokenKind::Return)
    } else if w == "struct"@ {
        Some(TokenKind::Struct)
    } else if w == "true"@ {
        Some(TokenKind::True)
    } else if w == "false"@ {
        Some(TokenKind::False)
    } else if w == "enum"@ {
        Some(TokenKind::Enum)
    } else if w == "match"@ {
        Some(TokenKind::Match)
    } else if w == "module"@ {
        Some(TokenKind::Module)
    } else if w == "import"@ {
        Some(TokenKind::Import)
    } else if w == "export"@ {
        Some(TokenKind::Export)
    } else {
        None
    }
}

/// A word's token: its keyword, or an identifier with its text.
pub open spec fn word_kind(w: Seq<char>) -> SpecTokenKind {
    match keyword_kind(w) {
        Some(k) => SpecTokenKind::Plain(k),
        None => SpecTokenKind::Identifier(w),
    }
}

/// Punctuation starting at `i` (longest match) and the position after it.
pub open spec fn punct(s: Seq<char>, i: int) -> Option<(TokenKind, int)> {
    let c = s[i];
    let next_is = |d: char| i + 1 < s.len() && s[i + 1] == d;
    if c == '(' {
        Some((TokenKind::LParen, i + 1))
    } else if c == ')' {
        Some((TokenKind::RParen, i + 1))
    } else if c == '{' {
        Some((TokenKind::LBrace, i + 1))
    } else if c == '}' {
        Some((TokenKind::RBrace, i + 1))
    } else if c == ',' {
        Some((TokenKind::Comma, i + 1))
    } else if c == '.' {
        Some((TokenKind::Dot, i + 1))
    } else if c == '+' {
        Some((TokenKind::Plus, i + 1))
    } else if c == '-' {
        if next_is('>') {
            Some((TokenKind::Arrow, i + 2))
        } else {
            Some((TokenKind::Minus, i + 1))
        }
    } else if c == '*' {
        Some((TokenKind::Star, i + 1))
    } else if c == '/' {
        Some((TokenKind::Slash, i + 1))
    } else if c == '<' {
        if next_is('=') {
            Some((TokenKind::LtEq, i + 2))
        } else {
            Some((TokenKind::Lt, i + 1))
        }
    } else if c == '>' {
        if next_is('=') {
            Some((TokenKind::GtEq, i + 2))
        } else {
            Some((TokenKind::Gt, i + 1))
        }
    } else if c == '=' {
        if next_is('>') {
            Some((TokenKind::FatArrow, i + 2))
        } else if next_is('=') {
            Some((TokenKind::EqEq, i + 2))
        } else {
            Some((TokenKind::Eq, i + 1))
        }
    } else if c == '!' {
        if next_is('=') {
            Some((TokenKind::NotEq, i + 2))
        } else {
            None
        }
    } else if c == ':' {
        if next_is('=') {
            Some((TokenKind::ColonEq, i + 2))
        } else if next_is(':') {
            Some((TokenKind::ColonColon, i + 2))
        } else {
            Some((TokenKind::Colon, i + 1))
        }
    } else if c == '[' {
        Some((TokenKind::LBracket, i + 1))
    } else if c == ']' {
        Some((TokenKind::RBracket, i + 1))
    } else if c == '?' {
        Some((TokenKind::Question, i + 1))
    } else {
        None
    }
}

/// Reading one token at `p`: its kind and end, an error, or an overflow.
pub enum SpecStep {
    Token(SpecTokenKind, int),
    Error(SpecLexError),
    Overflow,
}

pub open spec fn step_at(s: Seq<char>, p: int) -> SpecStep {
    let c = s[p];
    if is_ident_start(c) {
        let e = ident_end(s, p + 1);
        SpecStep::Token(word_kind(s.subrange(p, e)), e)
    } else if is_ascii_digit(c) {
        let e = digits_end(s, p + 1);
        let v = digits_value(s, p, e);
        if v > i64::MAX {
            SpecStep::Overflow
        } else {
            SpecStep::Token(SpecTokenKind::IntLiteral(v), e)
        }
    } else if c == '"' {
        match string_close(s, p + 1) {
            None => SpecStep::Error(
                SpecLexError::UnterminatedString { line: line_at(s, p), column: column_at(s, p) },
            ),
            Some(q) => SpecStep::Token(SpecTokenKind::StringLiteral(s.subrange(p + 1, q)), q + 1),
        }
    } else {
        match punct(s, p) {
            Some((k, e)) => SpecStep::Token(SpecTokenKind::Plain(k), e),
            None => SpecStep::Error(
                SpecLexError::UnrecognizedChar { ch: c, line: line_at(s, p), column: column_at(s, p) },
            ),
        }
    }
}

pub open spec fn step_end(st: SpecStep) -> int {
    match st {
        SpecStep::Token(_, e) => e,
        _ => 0,
    }
}

/// `prefix` followed by whatever lexing the rest gives.
pub open spec fn glue(prefix: Seq<SpecToken>, rest: LexResult) -> LexResult {
    match rest {
        LexResult::Tokens(ts) => LexResult::Tokens(prefix + ts),
        other => other,
    }
}

/// Lexing from position `i` to the end of `s`.
pub open spec fn spec_lex_from(s: Seq<char>, i: int) -> LexResult
    decreases s.len() - i,
{
    if i < 0 {
        LexResult::Tokens(Seq::empty())
    } else {
        let p = skip_trivia(s, i, false);
        if p >= s.len() {
            LexResult::Tokens(
                seq![
                    SpecToken {
                        kind: SpecTokenKind::Plain(TokenKind::Eof),
                        start: p,
                        end: p,
                        line: line_at(s, p),
                        column: column_at(s, p),
                    },
                ],
            )
        } else {
            match step_at(s, p) {
                SpecStep::Token(k, e) => {
                    proof {
                        lemma_skip_trivia_bounds(s, i, false);
                        lemma_step_progress(s, p);
                    }
                    glue(
                        seq![
                            SpecToken {
                                kind: k,
                                start: p,
                                end: e,
                                line: line_at(s, p),
                                column: column_at(s, p),
                            },
                        ],
                        spec_lex_from(s, e),
                    )
                },
                SpecStep::Error(err) => LexResult::Error(err),
                SpecStep::Overflow => LexResult::Overflow,
            }
        }
    }
}

/// Lexing a whole source text.
pub open spec fn spec_lex(s: Seq<char>) -> LexResult {
    spec_lex_from(s, 0)
}

// ---- lemmas about the grammar ----

pub proof fn lemma_skip_trivia_bounds(s: Seq<char>, i: int, in_comment: bool)
    requires
        0 <= i,
    ensures
        i <= skip_trivia(s, i, in_comment),
        i <= s.len() ==> skip_trivia(s, i, in_comment) <= s.len(),
    decreases s.len() - i, (if in_comment { 1int } else { 0int }),
{
    if i < s.len() {
        if in_comment {
            if s[i] == '\n' {
                lemma_skip_trivia_bounds(s, i, false);
            } else {
                lemma_skip_trivia_bounds(s, i + 1, true);
            }
        } else if unicode_whitespace(s[i]) {
            lemma_skip_trivia_bounds(s, i + 1, false);
        } else if s[i] == '/' && i + 1 < s.len() && s[i + 1] == '/' {
            lemma_skip_trivia_bounds(s, i + 2, true);
        }
    }
}

pub proof fn lemma_ident_end_bounds(s: Seq<char>, i: int)
    requires
        0 <= i <= s.len(),
    ensures
        i <= ident_end(s, i) <= s.len(),
    decreases s.len() - i,
{
    if i < s.len() && is_ident_char(s[i]) {
        lemma_ident_end_bounds(s, i + 1);
    }
}

pub proof fn lemma_digits_end_bounds(s: Seq<char>, i: int)
    requires
        0 <= i <= s.len(),
    ensures
        i <= digits_end(s, i) <= s.len(),
    decreases s.len() - i,
{
    if i < s.len() && is_ascii_digit(s[i]) {
        lemma_digits_end_bounds(s, i + 1);
    }
}

pub proof fn lemma_string_close_bounds(s: Seq<char>, i: int)
    requires
        0 <= i,
    ensures
        string_close(s, i) matches Some(q) ==> i <= q < s.len() && s[q] == '"',
    decreases s.len() - i,
{
    if 0 <= i < s.len() && s[i] != '"' {
        lemma_string_close_bounds(s, i + 1);
    }
}

/// Reading a token always moves forward, and stays within the text.
pub proof fn lemma_step_progress(s: Seq<char>, p: int)
    requires
        0 <= p < s.len(),
    ensures
        step_at(s, p) is Token ==> p < step_end(step_at(s, p)) <= s.len(),
{
    let c = s[p];
    if is_ident_start(c) {
        lemma_ident_end_bounds(s, p + 1);
    } else if is_ascii_digit(c) {
        lemma_digits_end_bounds(s, p + 1);
    } else if c == '"' {
        lemma_string_close_bounds(s, p + 1);
    }
}

pub proof fn lemma_line_column_bounds(s: Seq<char>, i: int)
    requires
        0 <= i,
    ensures
        1 <= line_at(s, i) <= i + 1,
        1 <= column_at(s, i) <= i + 1,
    decreases i,
{
    if i > 0 {
        lemma_line_column_bounds(s, i - 1);
    }
}

pub proof fn lemma_digits_value_mono(s: Seq<char>, a: int, b: int, c: int)
    requires
        a <= b <= c,
        forall|k: int| a <= k < c ==> #[trigger] is_ascii_digit(s[k]),
    ensures
        0 <= digits_value(s, a, b) <= digits_value(s, a, c),
    decreases c - a,
{
    if c > b {
        lemma_digits_value_mono(s, a, b, c - 1);
        assert(is_ascii_digit(s[c - 1]));
    } else if b > a {
        lemma_digits_value_mono(s, a, b - 1, b - 1);
        assert(is_ascii_digit(s[b - 1]));
    }
}

pub proof fn lemma_digits_run(s: Seq<char>, a: int, i: int)
    requires
        0 <= a <= i <= s.len(),
        forall|k: int| a <= k < i ==> #[trigger] is_ascii_digit(s[k]),
    ensures
        forall|k: int| a <= k < digits_end(s, i) ==> #[trigger] is_ascii_digit(s[k]),
    decreases s.len() - i,
{
    if i < s.len() && is_ascii_digit(s[i]) {
        lemma_digits_run(s, a, i + 1);
    }
}

pub proof fn lemma_glue_assoc(a: Seq<SpecToken>, b: Seq<SpecToken>, r: LexResult)
    ensures
        glue(a, glue(b, r)) == glue(a + b, r),
{
    match r {
        LexResult::Tokens(ts) => {
            assert(a + (b + ts) =~= (a + b) + ts);
        },
        _ => {},
    }
}

/// Lexing that succeeds gives a non-empty token list whose last token, and
/// no other, is `Eof`; each token lies in the text at or after the end of
/// the one before it.
pub proof fn lemma_lex_tokens_shape(s: Seq<char>, i: int)
    requires
        0 <= i,
    ensures
        spec_lex_from(s, i) matches LexResult::Tokens(ts) ==> {
            &&& ts.len() > 0
            &&& ts.last().kind == SpecTokenKind::Plain(TokenKind::Eof)
            &&& forall|j: int| 0 <= j < ts.len() - 1 ==> (#[trigger] ts[j]).kind != SpecTokenKind::Plain(TokenKind::Eof)
            &&& forall|j: int| 0 <= j < ts.len() ==> i <= (#[trigger] ts[j]).start <= ts[j].end
            &&& forall|j: int| 0 <= j < ts.len() - 1 ==> (#[trigger] ts[j]).end <= ts[j + 1].start
        },
    decreases s.len() - i,
{
    let p = skip_trivia(s, i, false);
    lemma_skip_trivia_bounds(s, i, false);
    if p < s.len() {
        match step_at(s, p) {
            SpecStep::Token(k, e) => {
                lemma_step_progress(s, p);
                lemma_lex_tokens_shape(s, e);
                match spec_lex_from(s, e) {
                    LexResult::Tokens(rest) => {
                        let head = SpecToken {
                            kind: k,
                            start: p,
                            end: e,
                            line: line_at(s, p),
                            column: column_at(s, p),
                        };
                        let ts = seq![head] + rest;
                        assert(spec_lex_from(s, i) == LexResult::Tokens(ts));
                        assert(k != SpecTokenKind::Plain(TokenKind::Eof));
                        assert forall|j: int| 0 <= j < ts.len() - 1 implies (#[trigger] ts[j]).kind
                            != SpecTokenKind::Plain(TokenKind::Eof) by {
                            if j > 0 {
                                assert(ts[j] == rest[j - 1]);
                            }
                        }
                        assert forall|j: int| 0 <= j < ts.len() implies i <= (#[trigger] ts[j]).start
                            <= ts[j].end by {
                            if j > 0 {
                                assert(ts[j] == rest[j - 1]);
                            }
                        }
                        assert forall|j: int| 0 <= j < ts.len() - 1 implies (#[trigger] ts[j]).end
                            <= ts[j + 1].start by {
                            assert(ts[j + 1] == rest[j]);
                            if j > 0 {
                                assert(ts[j] == rest[j - 1]);
                            }
                        }
                    },
                    _ => {},
                }
            },
            _ => {},
        }
    }
}

// ---- the lexer ----

pub struct Lexer {
    chars: Vec<char>,
    pos: usize,
    line: usize,
    column: usize,
}

impl Lexer {
    /// The characters being lexed.
    pub closed spec fn input(&self) -> Seq<char> {
        self.chars@
    }

    /// How far lexing has read.
    pub closed spec fn position(&self) -> int {
        self.pos as int
    }

    /// The position lies in the text and the line and column agree with it.
    pub closed spec fn wf(&self) -> bool {
        &&& self.pos <= self.chars@.len()
        &&& self.chars@.len() < usize::MAX
        &&& self.line == line_at(self.chars@, self.pos as int)
        &&& self.column == column_at(self.chars@, self.pos as int)
    }

    pub fn new(source: &str) -> (r: Self)
        requires
            source@.len() < usize::MAX,
        ensures
            r.wf(),
            r.input() == source@,
            r.position() == 0,
    {
        let mut chars: Vec<char> = Vec::new();
        for c in it: source.chars()
            invariant
                chars@ == it.seq().take(it.index() as int),
                it.seq() == source@,
        {
            chars.push(c);
        }
        Lexer { chars, pos: 0, line: 1, column: 1 }
    }

    /// Lexes the whole remaining input: the tokens, ending in `Eof`, exactly
    /// as `spec_lex_from` describes them, or the first lexical error. An
    /// integer literal too large for `i64` is outside what this accepts.
    pub fn tokenize(self) -> (r: Result<Vec<Token>, LexError>)
        requires
            self.wf(),
            !(spec_lex_from(self.input(), self.position()) is Overflow),
        ensures
            match r {
                Ok(tokens) => spec_lex_from(self.input(), self.position()) == LexResult::Tokens(
                    tokens_view(tokens@),
                ),
                Err(e) => spec_lex_from(self.input(), self.position()) == LexResult::Error(e@),
            },
    {
        match self.try_tokenize() {
            Some(r) => r,
            None => {
                proof {
                    assert(false);
                }
                Ok(Vec::new())
            },
        }
    }

    /// Like `tokenize`, for any input: `None` when an integer literal does
    /// not fit in `i64`.
    pub fn try_tokenize(self) -> (r: Option<Result<Vec<Token>, LexError>>)
        requires
            self.wf(),
        ensures
            match r {
                None => spec_lex_from(self.input(), self.position()) is Overflow,
                Some(Ok(tokens)) => spec_lex_from(self.input(), self.position()) == LexResult::Tokens(
                    tokens_view(tokens@),
                ),
                Some(Err(e)) => spec_lex_from(self.input(), self.position()) == LexResult::Error(e@),
            },
    {
        let mut lx = self;
        let ghost s = lx.chars@;
        let ghost start = lx.pos as int;
        let mut tokens: Vec<Token> = Vec::new();
        proof {
            assert(tokens_view(tokens@) =~= Seq::<SpecToken>::empty());
            assert(glue(Seq::empty(), spec_lex_from(s, start)) == spec_lex_from(s, start)) by {
                match spec_lex_from(s, start) {
                    LexResult::Tokens(ts) => {
                        assert(Seq::<SpecToken>::empty() + ts =~= ts);
                    },
                    _ => {},
                }
            }
        }
        loop
            invariant
                lx.wf(),
                lx.chars@ == s,
                start <= lx.pos,
                spec_lex_from(s, start) == glue(tokens_view(tokens@), spec_lex_from(s, lx.pos as int)),
                s == self.input(),
                start == self.position(),
                start >= 0,
            decreases s.len() - lx.pos,
        {
            let ghost before = lx.pos as int;
            lx.skip_whitespace_and_comments();
            let start_pos = lx.pos;
            let start_line = lx.line;
            let start_col = lx.column;
            let ghost p = start_pos as int;
            proof {
                lemma_skip_trivia_bounds(s, before, false);
                lemma_line_column_bounds(s, p);
            }
            let peeked = lx.peek();
            match peeked {
                None => {
                    let tok = Token::new(
                        TokenKind::Eof,
                        Span::new(start_pos, start_pos, start_line, start_col),
                    );
                    let ghost prev = tokens@;
                    tokens.push(tok);
                    proof {
                        assert(tokens@ == prev.push(tok));
                        assert(tokens_view(tokens@) =~= tokens_view(prev) + seq![token_view(tok)]);
                        assert(spec_lex_from(s, before) == LexResult::Tokens(seq![token_view(tok)]));
                    }
                    return Some(Ok(tokens));
                },
                Some(ch) => {
                    proof {
                        lemma_step_progress(s, p);
                    }
                    let kind;
                    if char_is_alphabetic(ch) || ch == '_' {
                        kind = lx.lex_identifier_or_keyword();
                    } else if ascii_digit(ch) {
                        proof {
                            lemma_digits_end_bounds(s, p + 1);
                        }
                        if !lx.literal_fits() {
                            proof {
                                assert(spec_lex_from(s, before) is Overflow);
                            }
                            return None;
                        }
                        kind = lx.lex_number();
                    } else if ch == '"' {
                        match lx.lex_string() {
                            Ok(k) => {
                                kind = k;
                            },
                            Err(e) => {
                                proof {
                                    assert(spec_lex_from(s, before) == LexResult::Error(e@));
                                }
                                return Some(Err(e));
                            },
                        }
                    } else {
                        match lx.lex_punctuation() {
                            Ok(k) => {
                                kind = k;
                            },
                            Err(e) => {
                                proof {
                                    assert(spec_lex_from(s, before) == LexResult::Error(e@));
                                }
                                return Some(Err(e));
                            },
                        }
                    }
                    let end_pos = lx.pos;
                    let tok = Token::new(kind, Span::new(start_pos, end_pos, start_line, start_col));
                    let ghost prev_tokens = tokens@;
                    tokens.push(tok);
                    proof {
                        assert(tokens@ == prev_tokens.push(tok));
                        assert(tokens_view(tokens@) =~= tokens_view(prev_tokens) + seq![token_view(tok)]);
                        lemma_glue_assoc(tokens_view(prev_tokens), seq![token_view(tok)], spec_lex_from(s, end_pos as int));
                    }
                },
            }
        }
    }

    fn peek(&self) -> (r: Option<char>)
        requires
            self.wf(),
        ensures
            r == (if self.pos < self.chars@.len() { Some(self.chars@[self.pos as int]) } else { None }),
    {
        if self.pos < self.chars.len() {
            Some(self.chars[self.pos])
        } else {
            None
        }
    }

    fn peek_at(&self, offset: usize) -> (r: Option<char>)
        requires
            self.wf(),
            self.pos + offset <= usize::MAX,
        ensures
            r == (if self.pos + offset < self.chars@.len() {
                Some(self.chars@[self.pos + offset])
            } else {
                None
            }),
    {
        let i = self.pos + offset;
        if i < self.chars.len() {
            Some(self.chars[i])
        } else {
            None
        }
    }

    fn advance(&mut self) -> (r: Option<char>)
        requires
            old(self).wf(),
        ensures
            final(self).wf(),
            final(self).chars@ == old(self).chars@,
            old(self).pos < old(self).chars@.len() ==> final(self).pos == old(self).pos + 1 && r
                == Some(old(self).chars@[old(self).pos as int]),
            old(self).pos >= old(self).chars@.len() ==> final(self).pos == old(self).pos && r
                is None,
    {
        let ch = match self.peek() {
            Some(c) => c,
            None => {
                return None;
            },
        };
        proof {
            lemma_line_column_bounds(self.chars@, self.pos as int);
        }
        self.pos = self.pos + 1;
        if ch == '\n' {
            self.line = self.line + 1;
            self.column = 1;
        } else {
            self.column = self.column + 1;
        }
        Some(ch)
    }

    fn skip_whitespace_and_comments(&mut self)
        requires
            old(self).wf(),
        ensures
            final(self).wf(),
            final(self).chars@ == old(self).chars@,
            final(self).pos == skip_trivia(old(self).chars@, old(self).pos as int, false),
    {
        let ghost s = self.chars@;
        let ghost target = skip_trivia(s, self.pos as int, false);
        loop
            invariant
                self.wf(),
                self.chars@ == s,
                s == old(self).chars@,
                target == skip_trivia(old(self).chars@, old(self).pos as int, false),
                skip_trivia(s, self.pos as int, false) == target,
            decreases s.len() - self.pos,
        {
            match self.peek() {
                Some(c) => {
                    if char_is_whitespace(c) {
                        self.advance();
                    } else if c == '/' && is_char(self.peek_at(1), '/') {
                        let ghost outer = self.pos as int;
                        self.advance();
                        self.advance();
                        loop
                            invariant
                                self.wf(),
                                self.chars@ == s,
                                skip_trivia(s, self.pos as int, true) == target,
                                self.pos > outer,
                            ensures
                                self.wf(),
                                self.chars@ == s,
                                skip_trivia(s, self.pos as int, false) == target,
                                self.pos > outer,
                            decreases s.len() - self.pos,
                        {
                            match self.peek() {
                                Some(c2) => {
                                    if c2 == '\n' {
                                        break;
                                    }
                                    self.advance();
                                },
                                None => {
                                    break;
                                },
                            }
                        }
                    } else {
                        return;
                    }
                },
                None => {
                    return;
                },
            }
        }
    }

    fn lex_identifier_or_keyword(&mut self) -> (r: TokenKind)
        requires
            old(self).wf(),
            old(self).pos < old(self).chars@.len(),
            is_ident_start(old(self).chars@[old(self).pos as int]),
        ensures
            final(self).wf(),
            final(self).chars@ == old(self).chars@,
            final(self).pos == ident_end(old(self).chars@, old(self).pos + 1),
            r@ == word_kind(old(self).chars@.subrange(old(self).pos as int, final(self).pos as int)),
    {
        let ghost s = self.chars@;
        let start = self.pos;
        let mut ident = String::new();
        loop
            invariant
                self.wf(),
                self.chars@ == s,
                s == old(self).chars@,
                start == old(self).pos,
                start <= self.pos,
                start < s.len(),
                is_ident_start(s[start as int]),
                ident@ == s.subrange(start as int, self.pos as int),
                self.pos > start ==> ident_end(s, self.pos as int) == ident_end(s, start + 1),
            ensures
                self.wf(),
                self.chars@ == s,
                ident@ == s.subrange(start as int, self.pos as int),
                self.pos == ident_end(s, start + 1),
            decreases s.len() - self.pos,
        {
            match self.peek() {
                Some(c) => {
                    if char_is_alphanumeric(c) || c == '_' {
                        ident.push(c);
                        self.advance();
                        proof {
                            assert(ident@ =~= s.subrange(start as int, self.pos as int));
                        }
                    } else {
                        break;
                    }
                },
                None => {
                    break;
                },
            }
        }
        keyword_or_identifier(ident)
    }

    /// Whether the digit run at the current position names a value that
    /// fits in `i64`.
    fn literal_fits(&self) -> (r: bool)
        requires
            self.wf(),
            self.pos < self.chars@.len(),
            is_ascii_digit(self.chars@[self.pos as int]),
        ensures
            r == (digits_value(self.chars@, self.pos as int, digits_end(self.chars@, self.pos + 1))
                <= i64::MAX),
    {
        let ghost s = self.chars@;
        let start = self.pos;
        let ghost end = digits_end(s, start + 1);
        proof {
            lemma_digits_end_bounds(s, start + 1);
            lemma_digits_run(s, start as int, start + 1);
        }
        let mut k: usize = start;
        let mut value: u64 = 0;
        while k < self.chars.len() && ascii_digit(self.chars[k])
            invariant
                s == self.chars@,
                start == self.pos,
                start <= k <= end,
                start < end <= s.len(),
                end == digits_end(s, start + 1),
                digits_end(s, k as int) == end,
                forall|j: int| start <= j < end ==> #[trigger] is_ascii_digit(s[j]),
                value == digits_value(s, start as int, k as int),
                value <= i64::MAX,
            decreases s.len() - k,
        {
            proof {
                lemma_digits_end_bounds(s, k + 1);
            }
            let d = (self.chars[k] as u32 - '0' as u32) as u64;
            proof {
                assert(d == digit_value(s[k as int]));
                assert(digits_value(s, start as int, k + 1) == value * 10 + d);
            }
            if value > 922337203685477580u64 || (value == 922337203685477580u64 && d > 7) {
                proof {
                    lemma_digits_value_mono(s, start as int, k + 1, end);
                    assert(value * 10 + d > i64::MAX) by (nonlinear_arith)
                        requires
                            value > 922337203685477580u64 || (value == 922337203685477580u64 && d > 7),
                    ;
                }
                return false;
            }
            proof {
                assert(value * 10 + d <= i64::MAX) by (nonlinear_arith)
                    requires
                        value <= 922337203685477580u64,
                        value < 922337203685477580u64 || d <= 7,
                        d <= 9,
                ;
            }
            value = value * 10 + d;
            k = k + 1;
        }
        true
    }

    fn lex_number(&mut self) -> (r: TokenKind)
        requires
            old(self).wf(),
            old(self).pos < old(self).chars@.len(),
            is_ascii_digit(old(self).chars@[old(self).pos as int]),
            digits_value(
                old(self).chars@,
                old(self).pos as int,
                digits_end(old(self).chars@, old(self).pos + 1),
            ) <= i64::MAX,
        ensures
            final(self).wf(),
            final(self).chars@ == old(self).chars@,
            final(self).pos == digits_end(old(self).chars@, old(self).pos + 1),
            r@ == SpecTokenKind::IntLiteral(
                digits_value(old(self).chars@, old(self).pos as int, final(self).pos as int),
            ),
    {
        let ghost s = self.chars@;
        let start = self.pos;
        let ghost end = digits_end(s, start + 1);
        proof {
            lemma_digits_end_bounds(s, start + 1);
            lemma_digits_run(s, start as int, start + 1);
        }
        let mut value: i64 = 0;
        loop
            invariant
                self.wf(),
                self.chars@ == s,
                s == old(self).chars@,
                start == old(self).pos,
                start <= self.pos <= end,
                end == digits_end(s, start + 1),
                start < end <= s.len(),
                forall|k: int| start <= k < end ==> #[trigger] is_ascii_digit(s[k]),
                digits_value(s, start as int, end) <= i64::MAX,
                value == digits_value(s, start as int, self.pos as int),
                self.pos > start ==> digits_end(s, self.pos as int) == end,
            ensures
                self.wf(),
                self.chars@ == s,
                self.pos == end,
                value == digits_value(s, start as int, self.pos as int),
            decreases s.len() - self.pos,
        {
            match self.peek() {
                Some(c) => {
                    if ascii_digit(c) {
                        proof {
                            assert(self.pos < end) by {
                                if self.pos >= end {
                                    assert(digits_end(s, self.pos as int) == digits_end(s, self.pos + 1));
                                    lemma_digits_end_bounds(s, self.pos + 1);
                                }
                            }
                            lemma_digits_value_mono(s, start as int, self.pos + 1, end);
                        }
                        let d = (c as u32 - '0' as u32) as i64;
                        value = value * 10 + d;
                        self.advance();
                    } else {
                        break;
                    }
                },
                None => {
                    break;
                },
            }
        }
        TokenKind::IntLiteral(value)
    }

    fn lex_string(&mut self) -> (r: Result<TokenKind, LexError>)
        requires
            old(self).wf(),
            old(self).pos < old(self).chars@.len(),
            old(self).chars@[old(self).pos as int] == '"',
        ensures
            final(self).wf(),
            final(self).chars@ == old(self).chars@,
            match string_close(old(self).chars@, old(self).pos + 1) {
                None => (r matches Err(e) && e@ == SpecLexError::UnterminatedString {
                    line: line_at(old(self).chars@, old(self).pos as int),
                    column: column_at(old(self).chars@, old(self).pos as int),
                }),
                Some(q) => final(self).pos == q + 1 && (r matches Ok(k) && k@
                    == SpecTokenKind::StringLiteral(old(self).chars@.subrange(old(self).pos + 1, q))),
            },
    {
        let ghost s = self.chars@;
        let start_line = self.line;
        let start_col = self.column;
        let start = self.pos;
        self.advance();
        let mut value = String::new();
        loop
            invariant
                self.wf(),
                self.chars@ == s,
                s == old(self).chars@,
                start == old(self).pos,
                start < self.pos,
                value@ == s.subrange(start + 1, self.pos as int),
                string_close(s, self.pos as int) == string_close(s, start + 1),
                start_line == line_at(s, start as int),
                start_col == column_at(s, start as int),
            ensures
                self.wf(),
                self.chars@ == s,
                value@ == s.subrange(start + 1, self.pos as int),
                self.pos < s.len(),
                s[self.pos as int] == '"',
                string_close(s, start + 1) == Some(self.pos as int),
            decreases s.len() - self.pos,
        {
            match self.peek() {
                None => {
                    return Err(LexError::UnterminatedString { line: start_line, column: start_col });
                },
                Some(c) => {
                    if c == '"' {
                        break;
                    }
                    value.push(c);
                    self.advance();
                    proof {
                        assert(value@ =~= s.subrange(start + 1, self.pos as int));
                    }
                },
            }
        }
        self.advance();
        Ok(TokenKind::StringLiteral(value))
    }

    fn lex_punctuation(&mut self) -> (r: Result<TokenKind, LexError>)
        requires
            old(self).wf(),
            old(self).pos < old(self).chars@.len(),
        ensures
            final(self).wf(),
            final(self).chars@ == old(self).chars@,
            match punct(old(self).chars@, old(self).pos as int) {
                Some((k, e)) => r == Ok::<TokenKind, LexError>(k) && final(self).pos == e,
                None => (r matches Err(err) && err@ == SpecLexError::UnrecognizedChar {
                    ch: old(self).chars@[old(self).pos as int],
                    line: line_at(old(self).chars@, old(self).pos as int),
                    column: column_at(old(self).chars@, old(self).pos as int),
                }),
            },
    {
        let line = self.line;
        let column = self.column;
        let ch = match self.advance() {
            Some(c) => c,
            None => {
                return Err(LexError::UnrecognizedChar { ch: ' ', line, column });
            },
        };
        let next = self.peek();
        if ch == '(' {
            Ok(TokenKind::LParen)
        } else if ch == ')' {
            Ok(TokenKind::RParen)
        } else if ch == '{' {
            Ok(TokenKind::LBrace)
        } else if ch == '}' {
            Ok(TokenKind::RBrace)
        } else if ch == ',' {
            Ok(TokenKind::Comma)
        } else if ch == '.' {
            Ok(TokenKind::Dot)
        } else if ch == '+' {
            Ok(TokenKind::Plus)
        } else if ch == '-' {
            if is_char(next, '>') {
                self.advance();
                Ok(TokenKind::Arrow)
            } else {
                Ok(TokenKind::Minus)
            }
        } else if ch == '*' {
            Ok(TokenKind::Star)
        } else if ch == '/' {
            Ok(TokenKind::Slash)
        } else if ch == '<' {
            if is_char(next, '=') {
                self.advance();
                Ok(TokenKind::LtEq)
            } else {
                Ok(TokenKind::Lt)
            }
        } else if ch == '>' {
            if is_char(next, '=') {
                self.advance();
                Ok(TokenKind::GtEq)
            } else {
                Ok(TokenKind::Gt)
            }
        } else if ch == '=' {
            if is_char(next, '>') {
                self.advance();
                Ok(TokenKind::FatArrow)
            } else if is_char(next, '=') {
                self.advance();
                Ok(TokenKind::EqEq)
            } else {
                Ok(TokenKind::Eq)
            }
        } else if ch == '!' {
            if is_char(next, '=') {
                self.advance();
                Ok(TokenKind::NotEq)
            } else {
                Err(LexError::UnrecognizedChar { ch, line, column })
            }
        } else if ch == ':' {
            if is_char(next, '=') {
                self.advance();
                Ok(TokenKind::ColonEq)
            } else if is_char(next, ':') {
                self.advance();
                Ok(TokenKind::ColonColon)
            } else {
                Ok(TokenKind::Colon)
            }
        } else if ch == '[' {
            Ok(TokenKind::LBracket)
        } else if ch == ']' {
            Ok(TokenKind::RBracket)
        } else if ch == '?' {
            Ok(TokenKind::Question)
        } else {
            Err(LexError::UnrecognizedChar { ch, line, column })
        }
    }
}

/// Whether `o` holds exactly the character `c`.
fn is_char(o: Option<char>, c: char) -> (r: bool)
    ensures
        r == (o == Some(c)),
{
    match o {
        Some(d) => d == c,
        None => false,
    }
}

/// The keyword spelled by `ident`, or an identifier token carrying it.
fn keyword_or_identifier(ident: String) -> (r: TokenKind)
    ensures
        r@ == word_kind(ident@),
{
    if string_is(&ident, "fn") {
        TokenKind::Fn
    } else if string_is(&ident, "if") {
        TokenKind::If
    } else if string_is(&ident, "else") {
        TokenKind::Else
    } else if string_is(&ident, "while") {
        TokenKind::While
    } else if string_is(&ident, "mut") {
        TokenKind::Mut
    } else if string_is(&ident, "return") {
        TokenKind::Return
    } else if string_is(&ident, "struct") {
        TokenKind::Struct
    } else if string_is(&ident, "true") {
        TokenKind::True
    } else if string_is(&ident, "false") {
        TokenKind::False
    } else if string_is(&ident, "enum") {
        TokenKind::Enum
    } else if string_is(&ident, "match") {
        TokenKind::Match
    } else if string_is(&ident, "module") {
        TokenKind::Module
    } else if string_is(&ident, "import") {
        TokenKind::Import
    } else if string_is(&ident, "export") {
        TokenKind::Export
    } else {
        TokenKind::Identifier(ident)
    }
}

/// The text `{:?}` gives for a lexical error.
pub open spec fn lex_error_debug(e: LexError) -> Seq<char> {
    match e {
        LexError::UnterminatedString { line, column } => "UnterminatedString { line: "@
            + decimal_digits(line as nat) + ", column: "@ + decimal_digits(column as nat) + " }"@,
        LexError::UnrecognizedChar { ch, line, column } => "UnrecognizedChar { ch: "@ + char_debug(ch)
            + ", line: "@ + decimal_digits(line as nat) + ", column: "@ + decimal_digits(column as nat)
            + " }"@,
    }
}

impl LexError {
    /// The error as `{:?}` writes it.
    pub fn debug_text(&self) -> (r: String)
        ensures
            r@ == lex_error_debug(*self),
    {
        match self {
            LexError::UnterminatedString { line, column } => {
                let t = concat(&string_of("UnterminatedString { line: "), usize_to_string(*line).as_str());
                let t = concat(&t, ", column: ");
                let t = concat(&t, usize_to_string(*column).as_str());
                concat(&t, " }")
            },
            LexError::UnrecognizedChar { ch, line, column } => {
                let t = concat(&string_of("UnrecognizedChar { ch: "), char_debug_text(*ch).as_str());
                let t = concat(&t, ", line: ");
                let t = concat(&t, usize_to_string(*line).as_str());
                let t = concat(&t, ", column: ");
                let t = concat(&t, usize_to_string(*column).as_str());
                concat(&t, " }")
            },
        }
    }
}

} // verus!
