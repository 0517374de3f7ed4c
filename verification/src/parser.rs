//! Recursive-descent parser from tokens to the syntax tree.
//!
//! Expression precedence, lowest to highest: equality (`==` `!=`),
//! comparison (`<` `>` `<=` `>=`), term (`+` `-`), factor (`*` `/`),
//! postfix (`.field`, `[index]`, `?`), primary. Binary operators associate
//! to the left.
use vstd::prelude::*;
use crate::ast::{
    BinaryOp, EnumDecl, EnumVariant, Expr, FunctionDecl, MatchArm, Param, Pattern, Program, Stmt,
    StructDecl,
};
use crate::grammar::{
    arm_at, arms_at, arms_tail, block_at, block_tail, comparison_at, comparison_op, comparison_tail, decl_start,
    enum_decl_at, equality_op, expr_at, expr_tail, factor_at, factor_op, factor_tail, field_at, fields_at, fields_tail,
    fn_decl_at, items_tail, lemma_arms_tail_acc, lemma_block_tail_acc, lemma_comparison_tail_acc, lemma_expr_starts,
    lemma_expr_tail_acc, lemma_factor_tail_acc, lemma_fields_tail_acc, lemma_items_tail_acc, lemma_list_tail_acc,
    lemma_names_tail_acc, lemma_params_tail_acc, lemma_postfix_tail_acc, lemma_term_tail_acc, lemma_variants_tail_acc,
    list_at, list_tail, names_at, names_tail, param_at, params_at, params_tail, pattern_at, postfix_at, postfix_tail,
    primary_at, program_at, stmt_at, struct_decl_at, term_at, term_op, term_tail, variant_at, variants_at, variants_tail,
    within,
};
use crate::span::{span_debug, Span};
use crate::text::{concat, str_debug, str_debug_text, string_of};
use crate::token::{kind_debug, same_kind, Token, TokenKind};

verus! {

#[derive(Debug, Clone, PartialEq, Eq)]
pub enum ParseError {
    UnexpectedToken { expected: String, found: TokenKind, span: Span },
    UnexpectedEof { expected: String },
}

/// A token sequence the parser can walk: non-empty and ending in `Eof`.
pub open spec fn well_terminated(ts: Seq<Token>) -> bool {
    ts.len() > 0 && ts.last().kind is Eof
}

/// An error is an `UnexpectedToken` that reports one of the tokens: its
/// kind and its span.
pub open spec fn points_at_token<T>(r: Result<T, ParseError>, toks: Seq<Token>) -> bool {
    r is Err ==> (r->Err_0 matches ParseError::UnexpectedToken { found, span, .. } && exists|i: int|
        0 <= i < toks.len() && (#[trigger] toks[i]).span == span && toks[i].kind == found)
}

/// A copy of a token kind.
pub fn copy_kind(k: &TokenKind) -> (r: TokenKind)
    ensures
        r == *k,
{
    match k {
        TokenKind::Identifier(s) => TokenKind::Identifier(s.clone()),
        TokenKind::StringLiteral(s) => TokenKind::StringLiteral(s.clone()),
        TokenKind::IntLiteral(i) => TokenKind::IntLiteral(*i),
        TokenKind::Fn => TokenKind::Fn,
        TokenKind::If => TokenKind::If,
        TokenKind::Else => TokenKind::Else,
        TokenKind::While => TokenKind::While,
        TokenKind::Mut => TokenKind::Mut,
        TokenKind::Return => TokenKind::Return,
        TokenKind::Struct => TokenKind::Struct,
        TokenKind::Enum => TokenKind::Enum,
        TokenKind::Match => TokenKind::Match,
        TokenKind::Module => TokenKind::Module,
        TokenKind::Import => TokenKind::Import,
        TokenKind::Export => TokenKind::Export,
        TokenKind::True => TokenKind::True,
        TokenKind::False => TokenKind::False,
        TokenKind::LParen => TokenKind::LParen,
        TokenKind::RParen => TokenKind::RParen,
        TokenKind::LBrace => TokenKind::LBrace,
        TokenKind::RBrace => TokenKind::RBrace,
        TokenKind::LBracket => TokenKind::LBracket,
        TokenKind::RBracket => TokenKind::RBracket,
        TokenKind::Comma => TokenKind::Comma,
        TokenKind::Dot => TokenKind::Dot,
        TokenKind::Colon => TokenKind::Colon,
        TokenKind::ColonColon => TokenKind::ColonColon,
        TokenKind::ColonEq => TokenKind::ColonEq,
        TokenKind::Eq => TokenKind::Eq,
        TokenKind::EqEq => TokenKind::EqEq,
        TokenKind::NotEq => TokenKind::NotEq,
        TokenKind::Plus => TokenKind::Plus,
        TokenKind::Minus => TokenKind::Minus,
        TokenKind::Star => TokenKind::Star,
        TokenKind::Slash => TokenKind::Slash,
        TokenKind::Lt => TokenKind::Lt,
        TokenKind::Gt => TokenKind::Gt,
        TokenKind::LtEq => TokenKind::LtEq,
        TokenKind::GtEq => TokenKind::GtEq,
        TokenKind::Arrow => TokenKind::Arrow,
        TokenKind::FatArrow => TokenKind::FatArrow,
        TokenKind::Question => TokenKind::Question,
        TokenKind::Eof => TokenKind::Eof,
    }
}

pub struct Parser {
    tokens: Vec<Token>,
    pos: usize,
    /// Struct literals (`Name { ... }`) are ambiguous with an if/while
    /// block opening right after a bare identifier condition: they are
    /// disallowed directly inside if/while/match heads, and allowed again
    /// inside any bracketed context (parens, call args, brackets, literal
    /// field values) where they are unambiguous.
    allow_struct_literal: bool,
}

impl Parser {
    /// The tokens being parsed.
    pub closed spec fn tokens(&self) -> Seq<Token> {
        self.tokens@
    }

    /// Index of the next token to read.
    pub closed spec fn position(&self) -> int {
        self.pos as int
    }

    /// The tokens end in `Eof` and the position lies on one of them.
    pub closed spec fn wf(&self) -> bool {
        &&& well_terminated(self.tokens@)
        &&& self.pos < self.tokens@.len()
    }

    /// The current token.
    pub closed spec fn current(&self) -> Token {
        self.tokens@[self.pos as int]
    }

    /// `Name { ... }` is read as a struct literal where an expression
    /// starts.
    pub closed spec fn reads_struct_literals(&self) -> bool {
        self.allow_struct_literal
    }

    closed spec fn moved_on(old_p: Parser, new_p: Parser) -> bool {
        &&& new_p.wf()
        &&& new_p.tokens@ == old_p.tokens@
        &&& old_p.pos <= new_p.pos
    }

    pub fn new(tokens: Vec<Token>) -> (r: Self)
        ensures
            r.tokens() == tokens@,
            r.position() == 0,
            r.wf() == well_terminated(tokens@),
            r.reads_struct_literals(),
    {
        Parser { tokens, pos: 0, allow_struct_literal: true }
    }

    /// Parses a whole file: an optional `module Name` header, then `import`
    /// lines and (optionally `export`ed) struct, enum and fn declarations up
    /// to `Eof`. It succeeds exactly when the tokens derive a program in the
    /// grammar, and then gives that program.
    pub fn parse_program(self) -> (r: Result<Program, ParseError>)
        requires
            self.wf(),
            self.reads_struct_literals(),
        ensures
            r matches Ok(p) ==> program_at(self.tokens(), self.position(), p),
            forall|p: Program| #[trigger] program_at(self.tokens(), self.position(), p) ==> r is Ok,
            r matches Ok(p) ==> (p.module_name is Some <==> self.current().kind is Module),
            points_at_token(r, self.tokens()),
    {
        let mut p = self;
        let ghost toks = p.tokens@;
        let ghost s0 = p.pos as int;
        let mut module_name: Option<String> = None;
        let mut imports: Vec<String> = Vec::new();
        let mut structs: Vec<StructDecl> = Vec::new();
        let mut enums: Vec<EnumDecl> = Vec::new();
        let mut functions: Vec<FunctionDecl> = Vec::new();
        if p.check(&TokenKind::Module) {
            p.advance();
            match p.expect_identifier() {
                Ok(name) => {
                    module_name = Some(name);
                },
                Err(e) => {
                    return Err(e);
                },
            }
        }
        let ghost h = p.pos as int;
        proof {
            assert(imports@ == Seq::<String>::empty());
            assert(structs@ == Seq::<StructDecl>::empty());
            assert(enums@ == Seq::<EnumDecl>::empty());
            assert(functions@ == Seq::<FunctionDecl>::empty());
            assert forall|q: Program| #[trigger] program_at(toks, s0, q) implies exists|
                f: (int, Seq<String>, Seq<StructDecl>, Seq<EnumDecl>, Seq<FunctionDecl>),
            | #[trigger] items_tail(toks, h, f.0, imports@, structs@, enums@, functions@, f.1, f.2, f.3, f.4) by {
                let e = choose|e: int|
                    #![trigger toks[e]]
                    toks[e].kind is Eof && if toks[s0].kind is Module {
                        &&& toks[s0 + 1].kind matches TokenKind::Identifier(n)
                        &&& q.module_name == Some(n)
                        &&& items_tail(
                            toks,
                            s0 + 2,
                            e,
                            Seq::empty(),
                            Seq::empty(),
                            Seq::empty(),
                            Seq::empty(),
                            q.imports@,
                            q.structs@,
                            q.enums@,
                            q.functions@,
                        )
                    } else {
                        &&& q.module_name is None
                        &&& items_tail(
                            toks,
                            s0,
                            e,
                            Seq::empty(),
                            Seq::empty(),
                            Seq::empty(),
                            Seq::empty(),
                            q.imports@,
                            q.structs@,
                            q.enums@,
                            q.functions@,
                        )
                    };
                let f = (e, q.imports@, q.structs@, q.enums@, q.functions@);
                assert(items_tail(toks, h, f.0, imports@, structs@, enums@, functions@, f.1, f.2, f.3, f.4));
            }
        }
        while !p.check(&TokenKind::Eof)
            invariant
                p.wf(),
                p.tokens@ == toks,
                toks == self.tokens(),
                s0 == self.pos,
                self.pos <= p.pos,
                h <= p.pos,
                p.allow_struct_literal,
                match module_name {
                    Some(n) => toks[s0].kind is Module && toks[s0 + 1].kind == TokenKind::Identifier(n) && h == s0 + 2,
                    None => !(toks[s0].kind is Module) && h == s0,
                },
                forall|e: int, a: Seq<String>, b: Seq<StructDecl>, c: Seq<EnumDecl>, d: Seq<FunctionDecl>|
                    #[trigger] items_tail(toks, p.pos as int, e, imports@, structs@, enums@, functions@, a, b, c, d)
                        ==> items_tail(toks, h, e, Seq::empty(), Seq::empty(), Seq::empty(), Seq::empty(), a, b, c, d),
                forall|q: Program|
                    #[trigger] program_at(toks, s0, q) ==> exists|
                        f: (int, Seq<String>, Seq<StructDecl>, Seq<EnumDecl>, Seq<FunctionDecl>),
                    | #[trigger] items_tail(toks, p.pos as int, f.0, imports@, structs@, enums@, functions@, f.1, f.2, f.3, f.4),
            decreases toks.len() - p.pos,
        {
            let ghost k = p.pos as int;
            let ghost im0 = imports@;
            let ghost st0 = structs@;
            let ghost en0 = enums@;
            let ghost fs0 = functions@;
            if p.check(&TokenKind::Import) {
                p.advance();
                match p.expect_identifier() {
                    Ok(name) => {
                        imports.push(name);
                        proof {
                            let here = p.pos as int;
                            assert(imports@ == im0.push(name));
                            assert forall|e: int, a: Seq<String>, b: Seq<StructDecl>, c: Seq<EnumDecl>, d: Seq<FunctionDecl>|
                                #[trigger] items_tail(toks, here, e, imports@, structs@, enums@, functions@, a, b, c, d) implies items_tail(
                                toks,
                                h,
                                e,
                                Seq::empty(),
                                Seq::empty(),
                                Seq::empty(),
                                Seq::empty(),
                                a,
                                b,
                                c,
                                d,
                            ) by {
                                assert(items_tail(toks, k, e, im0, st0, en0, fs0, a, b, c, d));
                            }
                            assert forall|q: Program| #[trigger] program_at(toks, s0, q) implies exists|
                                f: (int, Seq<String>, Seq<StructDecl>, Seq<EnumDecl>, Seq<FunctionDecl>),
                            | #[trigger] items_tail(toks, here, f.0, imports@, structs@, enums@, functions@, f.1, f.2, f.3, f.4) by {
                                let f = choose|f: (int, Seq<String>, Seq<StructDecl>, Seq<EnumDecl>, Seq<FunctionDecl>)|
                                    #[trigger] items_tail(toks, k, f.0, im0, st0, en0, fs0, f.1, f.2, f.3, f.4);
                                assert(items_tail(toks, here, f.0, imports@, structs@, enums@, functions@, f.1, f.2, f.3, f.4));
                            }
                        }
                    },
                    Err(e) => {
                        return Err(e);
                    },
                }
            } else {
                let mut is_exported = false;
                if p.check(&TokenKind::Export) {
                    p.advance();
                    is_exported = true;
                }
                proof {
                    assert(p.pos == decl_start(toks, k));
                    assert((toks[k].kind is Export) == is_exported);
                }
                if p.check(&TokenKind::Struct) {
                    match p.parse_struct_decl(is_exported) {
                        Ok(d) => {
                            structs.push(d);
                            proof {
                                let here = p.pos as int;
                                assert(structs@ == st0.push(d));
                                assert forall|e: int, a: Seq<String>, b: Seq<StructDecl>, c: Seq<EnumDecl>, dd: Seq<FunctionDecl>|
                                    #[trigger] items_tail(toks, here, e, imports@, structs@, enums@, functions@, a, b, c, dd) implies items_tail(
                                    toks,
                                    h,
                                    e,
                                    Seq::empty(),
                                    Seq::empty(),
                                    Seq::empty(),
                                    Seq::empty(),
                                    a,
                                    b,
                                    c,
                                    dd,
                                ) by {
                                    let w = (here, d);
                                    assert(within(k, e, w.0));
                                    assert(items_tail(toks, k, e, im0, st0, en0, fs0, a, b, c, dd));
                                }
                                assert forall|q: Program| #[trigger] program_at(toks, s0, q) implies exists|
                                    f: (int, Seq<String>, Seq<StructDecl>, Seq<EnumDecl>, Seq<FunctionDecl>),
                                | #[trigger] items_tail(toks, here, f.0, imports@, structs@, enums@, functions@, f.1, f.2, f.3, f.4) by {
                                    let f = choose|f: (int, Seq<String>, Seq<StructDecl>, Seq<EnumDecl>, Seq<FunctionDecl>)|
                                        #[trigger] items_tail(toks, k, f.0, im0, st0, en0, fs0, f.1, f.2, f.3, f.4);
                                    let w = choose|w: (int, StructDecl)|
                                        #[trigger] within(k, f.0, w.0) && struct_decl_at(toks, decl_start(toks, k), w.0, w.1)
                                            && w.1.is_exported == (toks[k].kind is Export) && items_tail(
                                            toks,
                                            w.0,
                                            f.0,
                                            im0,
                                            st0.push(w.1),
                                            en0,
                                            fs0,
                                            f.1,
                                            f.2,
                                            f.3,
                                            f.4,
                                        );
                                    lemma_items_tail_acc(toks, w.0, f.0, im0, st0.push(w.1), en0, fs0, f.1, f.2, f.3, f.4, imports@, structs@, enums@, functions@);
                                    let g = choose|g: (Seq<String>, Seq<StructDecl>, Seq<EnumDecl>, Seq<FunctionDecl>)|
                                        #[trigger] items_tail(toks, w.0, f.0, imports@, structs@, enums@, functions@, g.0, g.1, g.2, g.3);
                                    let f2 = (f.0, g.0, g.1, g.2, g.3);
                                    assert(items_tail(toks, here, f2.0, imports@, structs@, enums@, functions@, f2.1, f2.2, f2.3, f2.4));
                                }
                            }
                        },
                        Err(e) => {
                            return Err(e);
                        },
                    }
                } else if p.check(&TokenKind::Enum) {
                    match p.parse_enum_decl(is_exported) {
                        Ok(d) => {
                            enums.push(d);
                            proof {
                                let here = p.pos as int;
                                assert(enums@ == en0.push(d));
                                assert forall|e: int, a: Seq<String>, b: Seq<StructDecl>, c: Seq<EnumDecl>, dd: Seq<FunctionDecl>|
                                    #[trigger] items_tail(toks, here, e, imports@, structs@, enums@, functions@, a, b, c, dd) implies items_tail(
                                    toks,
                                    h,
                                    e,
                                    Seq::empty(),
                                    Seq::empty(),
                                    Seq::empty(),
                                    Seq::empty(),
                                    a,
                                    b,
                                    c,
                                    dd,
                                ) by {
                                    let w = (here, d);
                                    assert(within(k, e, w.0));
                                    assert(items_tail(toks, k, e, im0, st0, en0, fs0, a, b, c, dd));
                                }
                                assert forall|q: Program| #[trigger] program_at(toks, s0, q) implies exists|
                                    f: (int, Seq<String>, Seq<StructDecl>, Seq<EnumDecl>, Seq<FunctionDecl>),
                                | #[trigger] items_tail(toks, here, f.0, imports@, structs@, enums@, functions@, f.1, f.2, f.3, f.4) by {
                                    let f = choose|f: (int, Seq<String>, Seq<StructDecl>, Seq<EnumDecl>, Seq<FunctionDecl>)|
                                        #[trigger] items_tail(toks, k, f.0, im0, st0, en0, fs0, f.1, f.2, f.3, f.4);
                                    let w = choose|w: (int, EnumDecl)|
                                        #[trigger] within(k, f.0, w.0) && enum_decl_at(toks, decl_start(toks, k), w.0, w.1)
                                            && w.1.is_exported == (toks[k].kind is Export) && items_tail(
                                            toks,
                                            w.0,
                                            f.0,
                                            im0,
                                            st0,
                                            en0.push(w.1),
                                            fs0,
                                            f.1,
                                            f.2,
                                            f.3,
                                            f.4,
                                        );
                                    lemma_items_tail_acc(toks, w.0, f.0, im0, st0, en0.push(w.1), fs0, f.1, f.2, f.3, f.4, imports@, structs@, enums@, functions@);
                                    let g = choose|g: (Seq<String>, Seq<StructDecl>, Seq<EnumDecl>, Seq<FunctionDecl>)|
                                        #[trigger] items_tail(toks, w.0, f.0, imports@, structs@, enums@, functions@, g.0, g.1, g.2, g.3);
                                    let f2 = (f.0, g.0, g.1, g.2, g.3);
                                    assert(items_tail(toks, here, f2.0, imports@, structs@, enums@, functions@, f2.1, f2.2, f2.3, f2.4));
                                }
                            }
                        },
                        Err(e) => {
                            return Err(e);
                        },
                    }
                } else {
                    match p.parse_function_decl(is_exported) {
                        Ok(d) => {
                            functions.push(d);
                            proof {
                                let here = p.pos as int;
                                assert(functions@ == fs0.push(d));
                                assert forall|e: int, a: Seq<String>, b: Seq<StructDecl>, c: Seq<EnumDecl>, dd: Seq<FunctionDecl>|
                                    #[trigger] items_tail(toks, here, e, imports@, structs@, enums@, functions@, a, b, c, dd) implies items_tail(
                                    toks,
                                    h,
                                    e,
                                    Seq::empty(),
                                    Seq::empty(),
                                    Seq::empty(),
                                    Seq::empty(),
                                    a,
                                    b,
                                    c,
                                    dd,
                                ) by {
                                    let w = (here, d);
                                    assert(within(k, e, w.0));
                                    assert(items_tail(toks, k, e, im0, st0, en0, fs0, a, b, c, dd));
                                }
                                assert forall|q: Program| #[trigger] program_at(toks, s0, q) implies exists|
                                    f: (int, Seq<String>, Seq<StructDecl>, Seq<EnumDecl>, Seq<FunctionDecl>),
                                | #[trigger] items_tail(toks, here, f.0, imports@, structs@, enums@, functions@, f.1, f.2, f.3, f.4) by {
                                    let f = choose|f: (int, Seq<String>, Seq<StructDecl>, Seq<EnumDecl>, Seq<FunctionDecl>)|
                                        #[trigger] items_tail(toks, k, f.0, im0, st0, en0, fs0, f.1, f.2, f.3, f.4);
                                    let w = choose|w: (int, FunctionDecl)|
                                        #[trigger] within(k, f.0, w.0) && fn_decl_at(toks, decl_start(toks, k), w.0, w.1)
                                            && w.1.is_exported == (toks[k].kind is Export) && items_tail(
                                            toks,
                                            w.0,
                                            f.0,
                                            im0,
                                            st0,
                                            en0,
                                            fs0.push(w.1),
                                            f.1,
                                            f.2,
                                            f.3,
                                            f.4,
                                        );
                                    lemma_items_tail_acc(toks, w.0, f.0, im0, st0, en0, fs0.push(w.1), f.1, f.2, f.3, f.4, imports@, structs@, enums@, functions@);
                                    let g = choose|g: (Seq<String>, Seq<StructDecl>, Seq<EnumDecl>, Seq<FunctionDecl>)|
                                        #[trigger] items_tail(toks, w.0, f.0, imports@, structs@, enums@, functions@, g.0, g.1, g.2, g.3);
                                    let f2 = (f.0, g.0, g.1, g.2, g.3);
                                    assert(items_tail(toks, here, f2.0, imports@, structs@, enums@, functions@, f2.1, f2.2, f2.3, f2.4));
                                }
                            }
                        },
                        Err(e) => {
                            return Err(e);
                        },
                    }
                }
            }
        }
        let prog = Program { module_name, imports, structs, enums, functions };
        proof {
            let e = p.pos as int;
            assert(toks[e].kind is Eof);
            assert(items_tail(toks, e, e, prog.imports@, prog.structs@, prog.enums@, prog.functions@, prog.imports@, prog.structs@, prog.enums@, prog.functions@));
            assert(program_at(toks, s0, prog));
        }
        Ok(prog)
    }

    fn parse_struct_decl(&mut self, is_exported: bool) -> (r: Result<StructDecl, ParseError>)
        requires
            old(self).wf(),
        ensures
            Self::moved_on(*old(self), *final(self)),
            points_at_token(r, old(self).tokens@),
            r is Ok ==> final(self).pos > old(self).pos,
            r is Ok ==> final(self).allow_struct_literal == old(self).allow_struct_literal,
            r matches Ok(d) ==> d.is_exported == is_exported,
            r matches Ok(d) ==> struct_decl_at(old(self).tokens@, old(self).pos as int, final(self).pos as int, d),
            forall|j: int, d: StructDecl|
                #[trigger] struct_decl_at(old(self).tokens@, old(self).pos as int, j, d) ==> r is Ok && final(self).pos == j,
    {
        let ghost toks = self.tokens@;
        self.expect(&TokenKind::Struct, "struct")?;
        let name = self.expect_identifier()?;
        self.expect(&TokenKind::LBrace, "{")?;
        let fields = self.parse_field_list(false)?;
        let ghost close = self.pos as int;
        self.expect(&TokenKind::RBrace, "}")?;
        proof {
            assert(params_at(toks, old(self).pos + 3, close, fields@));
        }
        Ok(StructDecl { name, fields, is_exported })
    }

    /// Comma-separated `name: Type` pairs, possibly none, up to (not
    /// including) the closing `)` (when `paren`) or `}`.
    fn parse_field_list(&mut self, paren: bool) -> (r: Result<Vec<Param>, ParseError>)
        requires
            old(self).wf(),
        ensures
            Self::moved_on(*old(self), *final(self)),
            points_at_token(r, old(self).tokens@),
            final(self).allow_struct_literal == old(self).allow_struct_literal,
            r matches Ok(fs) ==> params_at(old(self).tokens@, old(self).pos as int, final(self).pos as int, fs@),
            forall|j: int, ps: Seq<Param>|
                #[trigger] params_at(old(self).tokens@, old(self).pos as int, j, ps) && (if paren {
                    old(self).tokens@[j].kind is RParen
                } else {
                    old(self).tokens@[j].kind is RBrace
                }) ==> r is Ok && final(self).pos == j,
    {
        let ghost toks = self.tokens@;
        let ghost start = self.pos as int;
        let mut fields: Vec<Param> = Vec::new();
        let close = if paren { TokenKind::RParen } else { TokenKind::RBrace };
        if self.check(&close) {
            return Ok(fields);
        }
        let first = self.parse_param()?;
        fields.push(first);
        proof {
            assert(fields@ == seq![first]);
        }
        while self.check(&TokenKind::Comma)
            invariant
                Self::moved_on(*old(self), *self),
                self.allow_struct_literal == old(self).allow_struct_literal,
                toks == old(self).tokens@,
                start == old(self).pos,
                forall|j: int, ps: Seq<Param>|
                    #[trigger] params_tail(toks, self.pos as int, j, fields@, ps) ==> params_tail(
                        toks,
                        start + 3,
                        j,
                        seq![first],
                        ps,
                    ),
                param_at(toks, start, start + 3, first),
                forall|j: int, ps: Seq<Param>|
                    #[trigger] params_at(toks, start, j, ps) && (if paren {
                        toks[j].kind is RParen
                    } else {
                        toks[j].kind is RBrace
                    }) ==> exists|ps2: Seq<Param>| #[trigger] params_tail(toks, self.pos as int, j, fields@, ps2),
            decreases self.tokens@.len() - self.pos,
        {
            let ghost k = self.pos as int;
            let ghost prev = fields@;
            self.advance();
            let f = self.parse_param()?;
            fields.push(f);
            proof {
                let here = self.pos as int;
                assert(fields@ == prev.push(f));
                assert forall|j: int, ps: Seq<Param>| #[trigger] params_tail(toks, here, j, fields@, ps) implies params_tail(
                    toks,
                    start + 3,
                    j,
                    seq![first],
                    ps,
                ) by {
                    assert(param_at(toks, k + 1, k + 4, f));
                    assert(params_tail(toks, k, j, prev, ps));
                }
                assert forall|j: int, ps: Seq<Param>| #[trigger] params_at(toks, start, j, ps) && (if paren {
                    toks[j].kind is RParen
                } else {
                    toks[j].kind is RBrace
                }) implies exists|ps2: Seq<Param>| #[trigger] params_tail(toks, here, j, fields@, ps2) by {
                    let ps1 = choose|ps1: Seq<Param>| #[trigger] params_tail(toks, k, j, prev, ps1);
                    let pp = choose|pp: Param| #[trigger] param_at(toks, k + 1, k + 4, pp) && params_tail(toks, k + 4, j, prev.push(pp), ps1);
                    lemma_params_tail_acc(toks, k + 4, j, prev.push(pp), ps1, fields@);
                }
            }
        }
        proof {
            let here = self.pos as int;
            assert(params_tail(toks, here, here, fields@, fields@));
            assert(params_at(toks, start, here, fields@));
            assert forall|j: int, ps: Seq<Param>| #[trigger] params_at(toks, start, j, ps) && (if paren {
                toks[j].kind is RParen
            } else {
                toks[j].kind is RBrace
            }) implies here == j by {
                let ps2 = choose|ps2: Seq<Param>| #[trigger] params_tail(toks, here, j, fields@, ps2);
            }
        }
        Ok(fields)
    }

    fn parse_enum_decl(&mut self, is_exported: bool) -> (r: Result<EnumDecl, ParseError>)
        requires
            old(self).wf(),
        ensures
            Self::moved_on(*old(self), *final(self)),
            points_at_token(r, old(self).tokens@),
            r is Ok ==> final(self).pos > old(self).pos,
            r is Ok ==> final(self).allow_struct_literal == old(self).allow_struct_literal,
            r matches Ok(d) ==> d.is_exported == is_exported,
            r matches Ok(d) ==> enum_decl_at(old(self).tokens@, old(self).pos as int, final(self).pos as int, d),
            forall|j: int, d: EnumDecl|
                #[trigger] enum_decl_at(old(self).tokens@, old(self).pos as int, j, d) ==> r is Ok && final(self).pos == j,
    {
        let ghost toks = self.tokens@;
        self.expect(&TokenKind::Enum, "enum")?;
        let name = self.expect_identifier()?;
        self.expect(&TokenKind::LBrace, "{")?;
        let ghost s3 = self.pos as int;
        let mut variants: Vec<EnumVariant> = Vec::new();
        if !self.check(&TokenKind::RBrace) {
            let first = self.parse_enum_variant()?;
            variants.push(first);
            let ghost mid = self.pos as int;
            let ghost mut tail_pos = self.pos as int;
            let mut done = false;
            proof {
                assert(variants@ == seq![first]);
                assert forall|j: int, d: EnumDecl| #[trigger] enum_decl_at(toks, old(self).pos as int, j, d) implies exists|
                    vs2: Seq<EnumVariant>,
                | #[trigger] variants_tail(toks, mid, j - 1, variants@, vs2) by {
                    let w = choose|w: (int, EnumVariant)|
                        #[trigger] within(s3, j - 1, w.0) && variant_at(toks, s3, w.0, w.1) && variants_tail(
                            toks,
                            w.0,
                            j - 1,
                            seq![w.1],
                            d.variants@,
                        );
                    lemma_variants_tail_acc(toks, w.0, j - 1, seq![w.1], d.variants@, variants@);
                }
            }
            while !done && self.check(&TokenKind::Comma)
                invariant
                    Self::moved_on(*old(self), *self),
                    self.allow_struct_literal == old(self).allow_struct_literal,
                    toks == old(self).tokens@,
                    s3 == old(self).pos + 3,
                    mid > s3,
                    variant_at(toks, s3, mid, first),
                    tail_pos >= mid,
                    done ==> tail_pos + 1 == self.pos && toks[tail_pos].kind is Comma && toks[self.pos as int].kind is RBrace,
                    !done ==> tail_pos == self.pos,
                    forall|j: int, vs: Seq<EnumVariant>|
                        #[trigger] variants_tail(toks, tail_pos, j, variants@, vs) ==> variants_tail(
                            toks,
                            mid,
                            j,
                            seq![first],
                            vs,
                        ),
                    forall|j: int, d: EnumDecl|
                        #[trigger] enum_decl_at(toks, old(self).pos as int, j, d) ==> exists|vs2: Seq<EnumVariant>|
                            #[trigger] variants_tail(toks, tail_pos, j - 1, variants@, vs2),
                decreases self.tokens@.len() - self.pos, if done { 0int } else { 1int },
            {
                let ghost k = self.pos as int;
                let ghost prev = variants@;
                self.advance();
                if self.check(&TokenKind::RBrace) {
                    done = true;
                    proof {
                        tail_pos = k;
                    }
                } else {
                    let v = self.parse_enum_variant()?;
                    variants.push(v);
                    proof {
                        let here = self.pos as int;
                        tail_pos = here;
                        assert(variants@ == prev.push(v));
                        assert forall|j: int, vs: Seq<EnumVariant>| #[trigger] variants_tail(toks, here, j, variants@, vs) implies variants_tail(
                            toks,
                            mid,
                            j,
                            seq![first],
                            vs,
                        ) by {
                            let w = (here, v);
                            assert(within(k + 1, j, w.0));
                            assert(variants_tail(toks, k, j, prev, vs));
                        }
                        assert forall|j: int, d: EnumDecl| #[trigger] enum_decl_at(toks, old(self).pos as int, j, d) implies exists|
                            vs2: Seq<EnumVariant>,
                        | #[trigger] variants_tail(toks, here, j - 1, variants@, vs2) by {
                            let vs1 = choose|vs1: Seq<EnumVariant>| #[trigger] variants_tail(toks, k, j - 1, prev, vs1);
                            let w = choose|w: (int, EnumVariant)|
                                #[trigger] within(k + 1, j - 1, w.0) && variant_at(toks, k + 1, w.0, w.1) && variants_tail(
                                    toks,
                                    w.0,
                                    j - 1,
                                    prev.push(w.1),
                                    vs1,
                                );
                            lemma_variants_tail_acc(toks, w.0, j - 1, prev.push(w.1), vs1, variants@);
                        }
                    }
                }
            }
            proof {
                assert(variants_tail(toks, tail_pos, self.pos as int, variants@, variants@));
                let w = (mid, first);
                assert(within(s3, self.pos as int, w.0));
                assert(variants_at(toks, s3, self.pos as int, variants@));
                assert forall|j: int, d: EnumDecl| #[trigger] enum_decl_at(toks, old(self).pos as int, j, d) implies j - 1
                    == self.pos by {
                    let vs2 = choose|vs2: Seq<EnumVariant>| #[trigger] variants_tail(toks, tail_pos, j - 1, variants@, vs2);
                }
            }
        }
        let ghost close = self.pos as int;
        self.expect(&TokenKind::RBrace, "}")?;
        let d = EnumDecl { name, variants, is_exported };
        proof {
            assert(variants_at(toks, s3, close, d.variants@));
            assert(enum_decl_at(toks, old(self).pos as int, close + 1, d));
        }
        Ok(d)
    }

    fn parse_enum_variant(&mut self) -> (r: Result<EnumVariant, ParseError>)
        requires
            old(self).wf(),
        ensures
            Self::moved_on(*old(self), *final(self)),
            points_at_token(r, old(self).tokens@),
            r is Ok ==> final(self).pos > old(self).pos,
            final(self).allow_struct_literal == old(self).allow_struct_literal,
            r matches Ok(v) ==> variant_at(old(self).tokens@, old(self).pos as int, final(self).pos as int, v),
            forall|j: int, v: EnumVariant|
                #[trigger] variant_at(old(self).tokens@, old(self).pos as int, j, v) ==> r is Ok && final(self).pos == j,
    {
        let ghost toks = self.tokens@;
        let name = self.expect_identifier()?;
        let fields = if self.check(&TokenKind::LParen) {
            self.advance();
            let fields = self.parse_field_list(true)?;
            let ghost close = self.pos as int;
            self.expect(&TokenKind::RParen, ")")?;
            proof {
                assert(params_at(toks, old(self).pos + 2, close, fields@));
            }
            fields
        } else {
            Vec::new()
        };
        Ok(EnumVariant { name, fields })
    }

    #[verifier::rlimit(40)]
    fn parse_function_decl(&mut self, is_exported: bool) -> (r: Result<FunctionDecl, ParseError>)
        requires
            old(self).wf(),
            old(self).allow_struct_literal,
        ensures
            Self::moved_on(*old(self), *final(self)),
            points_at_token(r, old(self).tokens@),
            r is Ok ==> final(self).pos > old(self).pos,
            r is Ok ==> final(self).allow_struct_literal == old(self).allow_struct_literal,
            r matches Ok(d) ==> d.is_exported == is_exported,
            r matches Ok(d) ==> fn_decl_at(old(self).tokens@, old(self).pos as int, final(self).pos as int, d),
            forall|j: int, d: FunctionDecl|
                #[trigger] fn_decl_at(old(self).tokens@, old(self).pos as int, j, d) ==> r is Ok && final(self).pos == j,
    {
        let ghost toks = self.tokens@;
        self.expect(&TokenKind::Fn, "fn")?;
        let name = self.expect_identifier()?;
        self.expect(&TokenKind::LParen, "(")?;
        let params = self.parse_params()?;
        let ghost k = self.pos as int;
        proof {
            assert forall|j: int, d: FunctionDecl| #[trigger] fn_decl_at(toks, old(self).pos as int, j, d) implies (toks[k].kind is RParen
                && params_at(toks, old(self).pos + 3, k, d.params@)) by {
                let kk = choose|kk: int|
                    old(self).pos + 3 <= kk && params_at(toks, old(self).pos + 3, kk, d.params@) && (#[trigger] toks[kk]).kind
                        is RParen && if toks[kk + 1].kind is Arrow {
                        &&& d.return_type matches Some(t)
                        &&& toks[kk + 2].kind == TokenKind::Identifier(t)
                        &&& toks[kk + 3].kind is LBrace
                        &&& kk + 4 <= j - 1
                        &&& block_at(toks, kk + 4, j - 1, d.body@)
                    } else {
                        &&& d.return_type is None
                        &&& toks[kk + 1].kind is LBrace
                        &&& kk + 2 <= j - 1
                        &&& block_at(toks, kk + 2, j - 1, d.body@)
                    };
            }
        }
        self.expect(&TokenKind::RParen, ")")?;
        let return_type = if self.check(&TokenKind::Arrow) {
            self.advance();
            Some(self.expect_identifier()?)
        } else {
            None
        };
        self.expect(&TokenKind::LBrace, "{")?;
        let body = self.parse_block_stmts()?;
        let ghost close = self.pos as int;
        self.expect(&TokenKind::RBrace, "}")?;
        let d = FunctionDecl { name, params, return_type, body, is_exported };
        proof {
            assert(params_at(toks, old(self).pos + 3, k, d.params@));
            assert(fn_decl_at(toks, old(self).pos as int, close + 1, d));
        }
        Ok(d)
    }

    fn parse_params(&mut self) -> (r: Result<Vec<Param>, ParseError>)
        requires
            old(self).wf(),
        ensures
            Self::moved_on(*old(self), *final(self)),
            points_at_token(r, old(self).tokens@),
            final(self).allow_struct_literal == old(self).allow_struct_literal,
            r matches Ok(ps) ==> params_at(old(self).tokens@, old(self).pos as int, final(self).pos as int, ps@),
            forall|j: int, ps: Seq<Param>|
                #[trigger] params_at(old(self).tokens@, old(self).pos as int, j, ps) && old(self).tokens@[j].kind is RParen
                    ==> r is Ok && final(self).pos == j,
    {
        self.parse_field_list(true)
    }

    fn parse_param(&mut self) -> (r: Result<Param, ParseError>)
        requires
            old(self).wf(),
        ensures
            Self::moved_on(*old(self), *final(self)),
            points_at_token(r, old(self).tokens@),
            r is Ok ==> final(self).pos > old(self).pos,
            final(self).allow_struct_literal == old(self).allow_struct_literal,
            r matches Ok(p) ==> param_at(old(self).tokens@, old(self).pos as int, final(self).pos as int, p),
            forall|p: Param|
                #[trigger] param_at(old(self).tokens@, old(self).pos as int, old(self).pos + 3, p) ==> r is Ok
                    && final(self).pos == old(self).pos + 3,
    {
        let name = self.expect_identifier()?;
        self.expect(&TokenKind::Colon, ":")?;
        let ty = self.expect_identifier()?;
        Ok(Param { name, ty })
    }

    /// Parses statements until (but not consuming) the next `}`.
    fn parse_block_stmts(&mut self) -> (r: Result<Vec<Stmt>, ParseError>)
        requires
            old(self).wf(),
            old(self).allow_struct_literal,
        ensures
            Self::moved_on(*old(self), *final(self)),
            points_at_token(r, old(self).tokens@),
            r is Ok ==> final(self).current().kind is RBrace,
            r is Ok ==> final(self).allow_struct_literal == old(self).allow_struct_literal,
            r matches Ok(ss) ==> block_at(old(self).tokens@, old(self).pos as int, final(self).pos as int, ss@),
            forall|j: int, ss: Seq<Stmt>|
                #[trigger] block_at(old(self).tokens@, old(self).pos as int, j, ss) ==> r is Ok && final(self).pos == j,
        decreases old(self).tokens@.len() - old(self).pos, 30int,
    {
        let ghost toks = self.tokens@;
        let ghost start = self.pos as int;
        let mut stmts: Vec<Stmt> = Vec::new();
        proof {
            assert(stmts@ == Seq::<Stmt>::empty());
            assert forall|j: int, ss: Seq<Stmt>| #[trigger] block_at(toks, start, j, ss) implies exists|ss2: Seq<Stmt>|
                #[trigger] block_tail(toks, self.pos as int, j, stmts@, ss2) by {
                assert(block_tail(toks, self.pos as int, j, stmts@, ss));
            }
        }
        while !self.check(&TokenKind::RBrace)
            invariant
                Self::moved_on(*old(self), *self),
                self.allow_struct_literal == old(self).allow_struct_literal,
                self.allow_struct_literal,
                toks == old(self).tokens@,
                start == old(self).pos,
                forall|j: int, ss: Seq<Stmt>|
                    #[trigger] block_tail(toks, self.pos as int, j, stmts@, ss) ==> block_at(toks, start, j, ss),
                forall|j: int, ss: Seq<Stmt>|
                    #[trigger] block_at(toks, start, j, ss) ==> exists|ss2: Seq<Stmt>|
                        #[trigger] block_tail(toks, self.pos as int, j, stmts@, ss2),
            decreases self.tokens@.len() - self.pos,
        {
            let ghost k = self.pos as int;
            let ghost prev = stmts@;
            let ghost before = *self;
            let stmt = match self.parse_stmt() {
                Ok(v) => v,
                Err(err) => {
                    proof {
                        assert(before.tokens@ == toks);
                        assert forall|j: int, ss: Seq<Stmt>| #[trigger] block_at(toks, start, j, ss) implies false by {
                            let ss1 = choose|ss1: Seq<Stmt>| #[trigger] block_tail(toks, k, j, prev, ss1);
                            let w = choose|w: (int, Stmt)|
                                #[trigger] within(k, j, w.0) && stmt_at(toks, k, w.0, w.1) && block_tail(toks, w.0, j, prev.push(w.1), ss1);
                            assert(stmt_at(before.tokens@, before.pos as int, w.0, w.1));
                        }
                    }
                    return Err(err);
                },
            };
            stmts.push(stmt);
            proof {
                let here = self.pos as int;
                assert(stmts@ == prev.push(stmt));
                assert forall|j: int, ss: Seq<Stmt>| #[trigger] block_tail(toks, here, j, stmts@, ss) implies block_at(
                    toks,
                    start,
                    j,
                    ss,
                ) by {
                    let w = (here, stmt);
                    assert(within(k, j, w.0));
                    assert(block_tail(toks, k, j, prev, ss));
                }
                assert forall|j: int, ss: Seq<Stmt>| #[trigger] block_at(toks, start, j, ss) implies exists|ss2: Seq<Stmt>|
                    #[trigger] block_tail(toks, here, j, stmts@, ss2) by {
                    let ss1 = choose|ss1: Seq<Stmt>| #[trigger] block_tail(toks, k, j, prev, ss1);
                    let w = choose|w: (int, Stmt)|
                        #[trigger] within(k, j, w.0) && stmt_at(toks, k, w.0, w.1) && block_tail(toks, w.0, j, prev.push(w.1), ss1);
                    lemma_block_tail_acc(toks, w.0, j, prev.push(w.1), ss1, stmts@);
                }
            }
        }
        proof {
            let here = self.pos as int;
            assert(block_tail(toks, here, here, stmts@, stmts@));
            assert forall|j: int, ss: Seq<Stmt>| #[trigger] block_at(toks, start, j, ss) implies here == j by {
                let ss2 = choose|ss2: Seq<Stmt>| #[trigger] block_tail(toks, here, j, stmts@, ss2);
            }
        }
        Ok(stmts)
    }

    fn parse_stmt(&mut self) -> (r: Result<Stmt, ParseError>)
        requires
            old(self).wf(),
            old(self).allow_struct_literal,
        ensures
            Self::moved_on(*old(self), *final(self)),
            points_at_token(r, old(self).tokens@),
            r is Ok ==> final(self).pos > old(self).pos,
            r is Ok ==> final(self).allow_struct_literal == old(self).allow_struct_literal,
            r matches Ok(s) ==> stmt_at(old(self).tokens@, old(self).pos as int, final(self).pos as int, s),
            forall|j: int, s: Stmt|
                #[trigger] stmt_at(old(self).tokens@, old(self).pos as int, j, s) ==> r is Ok && final(self).pos == j,
        decreases old(self).tokens@.len() - old(self).pos, 29int,
    {
        let ghost toks = self.tokens@;
        let ghost start = self.pos as int;
        if self.check(&TokenKind::If) {
            return self.parse_if_stmt();
        }
        if self.check(&TokenKind::While) {
            return self.parse_while_stmt();
        }
        if self.check(&TokenKind::Match) {
            return self.parse_match_stmt();
        }
        if self.check(&TokenKind::Mut) {
            return self.parse_mut_decl();
        }
        if self.check(&TokenKind::Return) {
            return self.parse_return_stmt();
        }
        if matches!(self.peek_kind(), TokenKind::Identifier(_)) {
            let next = self.peek_at_kind(1);
            if next == 1 {
                let name = self.expect_identifier()?;
                self.expect(&TokenKind::ColonEq, ":=")?;
                let value = self.parse_expr()?;
                return Ok(Stmt::VariableDecl { name, value, is_mutable: false });
            } else if next == 2 {
                let name = self.expect_identifier()?;
                self.expect(&TokenKind::Eq, "=")?;
                let value = self.parse_expr()?;
                return Ok(Stmt::Assign { name, value });
            } else if next == 3 {
                return self.parse_index_stmt();
            }
        }
        let expr = self.parse_expr()?;
        Ok(Stmt::Expr(expr))
    }

    /// A statement that starts `name [`: an index assignment when the
    /// closing `]` is followed by `=`, else an expression statement, read
    /// on from `name[index]`.
    fn parse_index_stmt(&mut self) -> (r: Result<Stmt, ParseError>)
        requires
            old(self).wf(),
            old(self).allow_struct_literal,
            old(self).current().kind is Identifier,
            old(self).tokens@[old(self).pos + 1].kind is LBracket,
        ensures
            Self::moved_on(*old(self), *final(self)),
            points_at_token(r, old(self).tokens@),
            r is Ok ==> final(self).pos > old(self).pos,
            r is Ok ==> final(self).allow_struct_literal == old(self).allow_struct_literal,
            r matches Ok(s) ==> stmt_at(old(self).tokens@, old(self).pos as int, final(self).pos as int, s),
            forall|j: int, s: Stmt|
                #[trigger] stmt_at(old(self).tokens@, old(self).pos as int, j, s) ==> r is Ok && final(self).pos == j,
        decreases old(self).tokens@.len() - old(self).pos, 28int,
    {
        let ghost toks = self.tokens@;
        let ghost start = self.pos as int;
        let name = self.expect_identifier()?;
        self.advance();
        let ghost n = name;
        let ghost idx_start = start + 2;
        proof {
            assert forall|j: int, s: Stmt| #[trigger] stmt_at(toks, start, j, s) implies exists|w: (int, Expr)|
                #[trigger] within(idx_start, j - 1, w.0) && expr_at(toks, idx_start, w.0, true, w.1) && toks[w.0].kind
                    is RBracket && ((s is IndexAssign && toks[w.0 + 1].kind is Eq) || (s is Expr && from_postfix(
                    toks,
                    w.0 + 1,
                    j,
                    Expr::Index { array: Box::new(Expr::Identifier(n)), index: Box::new(w.1) },
                    s->Expr_0,
                ) && !(toks[j].kind is Eq))) by {
                if s is IndexAssign {
                    let q = choose|q: int|
                        start + 2 < q && q + 2 < j && expr_at(toks, start + 2, q, true, s->IndexAssign_index) && (
                        #[trigger] toks[q]).kind is RBracket && toks[q + 1].kind is Eq && expr_at(
                            toks,
                            q + 2,
                            j,
                            true,
                            s->IndexAssign_value,
                        );
                    let w = (q, s->IndexAssign_index);
                    assert(within(idx_start, j - 1, w.0));
                } else {
                    lemma_index_expr(toks, start, j, n, s->Expr_0);
                }
            }
        }
        let prev = self.allow_struct_literal;
        self.allow_struct_literal = true;
        let index = self.parse_expr()?;
        self.allow_struct_literal = prev;
        let ghost q = self.pos as int;
        self.expect(&TokenKind::RBracket, "]")?;
        if self.check(&TokenKind::Eq) {
            self.advance();
            proof {
                assert forall|j: int, s: Stmt| #[trigger] stmt_at(toks, start, j, s) implies s is IndexAssign && expr_at(
                    toks,
                    q + 2,
                    j,
                    true,
                    s->IndexAssign_value,
                ) by {
                    let w = choose|w: (int, Expr)|
                        #[trigger] within(idx_start, j - 1, w.0) && expr_at(toks, idx_start, w.0, true, w.1) && toks[w.0].kind
                            is RBracket && ((s is IndexAssign && toks[w.0 + 1].kind is Eq) || (s is Expr && from_postfix(
                            toks,
                            w.0 + 1,
                            j,
                            Expr::Index { array: Box::new(Expr::Identifier(n)), index: Box::new(w.1) },
                            s->Expr_0,
                        ) && !(toks[j].kind is Eq)));
                    if s is Expr {
                        lemma_from_postfix_at_eq(
                            toks,
                            w.0 + 1,
                            j,
                            Expr::Index { array: Box::new(Expr::Identifier(n)), index: Box::new(w.1) },
                            s->Expr_0,
                        );
                    } else {
                        let q2 = choose|q2: int|
                            start + 2 < q2 && q2 + 2 < j && expr_at(toks, start + 2, q2, true, s->IndexAssign_index) && (
                            #[trigger] toks[q2]).kind is RBracket && toks[q2 + 1].kind is Eq && expr_at(
                                toks,
                                q2 + 2,
                                j,
                                true,
                                s->IndexAssign_value,
                            );
                    }
                }
            }
            let value = self.parse_expr()?;
            let s = Stmt::IndexAssign { name, index, value };
            proof {
                assert(toks[q].kind is RBracket);
                assert(stmt_at(toks, start, self.pos as int, s));
            }
            return Ok(s);
        }
        let ghost p0 = self.pos as int;
        let x0 = Expr::Index { array: Box::new(Expr::Identifier(name)), index: Box::new(index) };
        proof {
            assert forall|j: int, s: Stmt| #[trigger] stmt_at(toks, start, j, s) implies s is Expr && !(toks[j].kind is Eq)
                && exists|e2: Expr| #[trigger] from_postfix(toks, p0, j, x0, e2) by {
                let w = choose|w: (int, Expr)|
                    #[trigger] within(idx_start, j - 1, w.0) && expr_at(toks, idx_start, w.0, true, w.1) && toks[w.0].kind
                        is RBracket && ((s is IndexAssign && toks[w.0 + 1].kind is Eq) || (s is Expr && from_postfix(
                        toks,
                        w.0 + 1,
                        j,
                        Expr::Index { array: Box::new(Expr::Identifier(n)), index: Box::new(w.1) },
                        s->Expr_0,
                    ) && !(toks[j].kind is Eq)));
                lemma_from_postfix_acc(
                    toks,
                    w.0 + 1,
                    j,
                    Expr::Index { array: Box::new(Expr::Identifier(n)), index: Box::new(w.1) },
                    s->Expr_0,
                    x0,
                );
            }
        }
        let x1 = self.parse_postfix_rest(x0)?;
        let ghost p1 = self.pos as int;
        proof {
            assert forall|j: int, s: Stmt| #[trigger] stmt_at(toks, start, j, s) implies s is Expr && !(toks[j].kind is Eq)
                && exists|e2: Expr| #[trigger] from_factor(toks, p1, j, x1, e2) by {
                let e1 = choose|e1: Expr| #[trigger] from_postfix(toks, p0, j, x0, e1);
                let w = choose|w: (int, Expr)|
                    #[trigger] within(p0 - 1, j, w.0) && postfix_tail(toks, p0, w.0, true, x0, w.1) && from_factor(toks, w.0, j, w.1, e1);
                lemma_from_factor_acc(toks, w.0, j, w.1, e1, x1);
            }
        }
        let x2 = self.parse_factor_rest(x1)?;
        let ghost p2 = self.pos as int;
        proof {
            assert forall|j: int, s: Stmt| #[trigger] stmt_at(toks, start, j, s) implies s is Expr && !(toks[j].kind is Eq)
                && exists|e2: Expr| #[trigger] from_term(toks, p2, j, x2, e2) by {
                let e1 = choose|e1: Expr| #[trigger] from_factor(toks, p1, j, x1, e1);
                let w = choose|w: (int, Expr)|
                    #[trigger] within(p1 - 1, j, w.0) && factor_tail(toks, p1, w.0, true, x1, w.1) && from_term(toks, w.0, j, w.1, e1);
                lemma_from_term_acc(toks, w.0, j, w.1, e1, x2);
            }
        }
        let x3 = self.parse_term_rest(x2)?;
        let ghost p3 = self.pos as int;
        proof {
            assert forall|j: int, s: Stmt| #[trigger] stmt_at(toks, start, j, s) implies s is Expr && !(toks[j].kind is Eq)
                && exists|e2: Expr| #[trigger] from_comparison(toks, p3, j, x3, e2) by {
                let e1 = choose|e1: Expr| #[trigger] from_term(toks, p2, j, x2, e1);
                let w = choose|w: (int, Expr)|
                    #[trigger] within(p2 - 1, j, w.0) && term_tail(toks, p2, w.0, true, x2, w.1) && from_comparison(toks, w.0, j, w.1, e1);
                lemma_from_comparison_acc(toks, w.0, j, w.1, e1, x3);
            }
        }
        let x4 = self.parse_comparison_rest(x3)?;
        let ghost p4 = self.pos as int;
        proof {
            assert forall|j: int, s: Stmt| #[trigger] stmt_at(toks, start, j, s) implies s is Expr && !(toks[j].kind is Eq)
                && exists|e2: Expr| #[trigger] expr_tail(toks, p4, j, true, x4, e2) by {
                let e1 = choose|e1: Expr| #[trigger] from_comparison(toks, p3, j, x3, e1);
                let w = choose|w: (int, Expr)|
                    #[trigger] within(p3 - 1, j, w.0) && comparison_tail(toks, p3, w.0, true, x3, w.1) && expr_tail(toks, w.0, j, true, w.1, e1);
                lemma_expr_tail_acc(toks, w.0, j, true, w.1, e1, x4);
            }
        }
        let x5 = self.parse_equality_rest(x4)?;
        if self.check(&TokenKind::Eq) {
            self.advance();
            let _value = self.parse_expr()?;
            return Err(self.unexpected("index assignment target"));
        }
        let s = Stmt::Expr(x5);
        proof {
            let p5 = self.pos as int;
            let w0 = (q, index);
            assert(within(start + 2, p1 - 1, w0.0));
            assert(primary_at(toks, start, start + 1, true, Expr::Identifier(name)));
            assert(postfix_tail(toks, start + 1, p1, true, Expr::Identifier(name), x1));
            let v1 = (start + 1, Expr::Identifier(name));
            assert(within(start, p1, v1.0));
            assert(postfix_at(toks, start, p1, true, x1));
            let v2 = (p1, x1);
            assert(within(start, p2, v2.0));
            assert(factor_at(toks, start, p2, true, x2));
            let v3 = (p2, x2);
            assert(within(start, p3, v3.0));
            assert(term_at(toks, start, p3, true, x3));
            let v4 = (p3, x3);
            assert(within(start, p4, v4.0));
            assert(comparison_at(toks, start, p4, true, x4));
            let v5 = (p4, x4);
            assert(within(start, p5, v5.0));
            assert(expr_at(toks, start, p5, true, x5));
            assert(stmt_at(toks, start, p5, s));
        }
        Ok(s)
    }

    fn parse_mut_decl(&mut self) -> (r: Result<Stmt, ParseError>)
        requires
            old(self).wf(),
            old(self).allow_struct_literal,
            old(self).current().kind is Mut,
        ensures
            Self::moved_on(*old(self), *final(self)),
            points_at_token(r, old(self).tokens@),
            r is Ok ==> final(self).pos > old(self).pos,
            r is Ok ==> final(self).allow_struct_literal == old(self).allow_struct_literal,
            r matches Ok(s) ==> stmt_at(old(self).tokens@, old(self).pos as int, final(self).pos as int, s),
            forall|j: int, s: Stmt|
                #[trigger] stmt_at(old(self).tokens@, old(self).pos as int, j, s) ==> r is Ok && final(self).pos == j,
        decreases old(self).tokens@.len() - old(self).pos, 27int,
    {
        self.expect(&TokenKind::Mut, "mut")?;
        let name = self.expect_identifier()?;
        self.expect(&TokenKind::ColonEq, ":=")?;
        let value = self.parse_expr()?;
        Ok(Stmt::VariableDecl { name, value, is_mutable: true })
    }

    fn parse_return_stmt(&mut self) -> (r: Result<Stmt, ParseError>)
        requires
            old(self).wf(),
            old(self).allow_struct_literal,
            old(self).current().kind is Return,
        ensures
            Self::moved_on(*old(self), *final(self)),
            points_at_token(r, old(self).tokens@),
            r is Ok ==> final(self).pos > old(self).pos,
            r is Ok ==> final(self).allow_struct_literal == old(self).allow_struct_literal,
            r matches Ok(s) ==> stmt_at(old(self).tokens@, old(self).pos as int, final(self).pos as int, s),
            forall|j: int, s: Stmt|
                #[trigger] stmt_at(old(self).tokens@, old(self).pos as int, j, s) ==> r is Ok && final(self).pos == j,
        decreases old(self).tokens@.len() - old(self).pos, 27int,
    {
        self.expect(&TokenKind::Return, "return")?;
        // A bare `return` (no expression) is only valid right before
        // the closing brace of its block.
        if self.check(&TokenKind::RBrace) {
            Ok(Stmt::Return(None))
        } else {
            let value = self.parse_expr()?;
            Ok(Stmt::Return(Some(value)))
        }
    }

    #[verifier::spinoff_prover]
    #[verifier::rlimit(60)]
    fn parse_if_stmt(&mut self) -> (r: Result<Stmt, ParseError>)
        requires
            old(self).wf(),
            old(self).allow_struct_literal,
            old(self).current().kind is If,
        ensures
            Self::moved_on(*old(self), *final(self)),
            points_at_token(r, old(self).tokens@),
            r is Ok ==> final(self).pos > old(self).pos,
            r is Ok ==> final(self).allow_struct_literal == old(self).allow_struct_literal,
            r matches Ok(s) ==> stmt_at(old(self).tokens@, old(self).pos as int, final(self).pos as int, s),
            forall|j: int, s: Stmt|
                #[trigger] stmt_at(old(self).tokens@, old(self).pos as int, j, s) ==> r is Ok && final(self).pos == j,
        decreases old(self).tokens@.len() - old(self).pos, 27int,
    {
        let ghost toks = self.tokens@;
        let ghost start = self.pos as int;
        self.expect(&TokenKind::If, "if")?;
        let ghost b_cond = *self;
        let condition = match self.parse_condition() {
            Ok(v) => v,
            Err(err) => {
                proof {
                    assert(b_cond.tokens@ == toks && b_cond.pos == start + 1);
                    assert forall|j: int, s: Stmt| #[trigger] stmt_at(toks, start, j, s) implies false by {
                        let (k, m) = choose|k: int, m: int| #![trigger toks[k], toks[m]] start + 1 < k < m < j && expr_at(toks, start + 1, k, false, s->If_condition) && toks[k].kind is LBrace
                                && block_at(toks, k + 1, m, s->If_then_branch@) && toks[m].kind is RBrace && if toks[m + 1].kind is Else {
                                &&& s->If_else_branch matches Some(b)
                                &&& toks[m + 2].kind is LBrace
                                &&& m + 3 <= j - 1
                                &&& block_at(toks, m + 3, j - 1, b@)
                                &&& toks[j - 1].kind is RBrace
                            } else {
                                s->If_else_branch is None && j == m + 1
                            };
                        assert(expr_at(b_cond.tokens@, b_cond.pos as int, k, false, s->If_condition));
                    }
                }
                return Err(err);
            },
        };
        let ghost k0 = self.pos as int;
        proof {
            assert(b_cond.tokens@ == toks && b_cond.pos == start + 1);
            assert forall|j: int, s: Stmt| #[trigger] stmt_at(toks, start, j, s) implies exists|m: int|
                #![trigger toks[m]] start + 1 < k0 < m < j && expr_at(toks, start + 1, k0, false, s->If_condition) && toks[k0].kind is LBrace
                        && block_at(toks, k0 + 1, m, s->If_then_branch@) && toks[m].kind is RBrace && if toks[m + 1].kind is Else {
                        &&& s->If_else_branch matches Some(b)
                        &&& toks[m + 2].kind is LBrace
                        &&& m + 3 <= j - 1
                        &&& block_at(toks, m + 3, j - 1, b@)
                        &&& toks[j - 1].kind is RBrace
                    } else {
                        s->If_else_branch is None && j == m + 1
                    } by {
                let (k, m) = choose|k: int, m: int| #![trigger toks[k], toks[m]] start + 1 < k < m < j && expr_at(toks, start + 1, k, false, s->If_condition) && toks[k].kind is LBrace
                        && block_at(toks, k + 1, m, s->If_then_branch@) && toks[m].kind is RBrace && if toks[m + 1].kind is Else {
                        &&& s->If_else_branch matches Some(b)
                        &&& toks[m + 2].kind is LBrace
                        &&& m + 3 <= j - 1
                        &&& block_at(toks, m + 3, j - 1, b@)
                        &&& toks[j - 1].kind is RBrace
                    } else {
                        s->If_else_branch is None && j == m + 1
                    };
                assert(expr_at(b_cond.tokens@, b_cond.pos as int, k, false, s->If_condition));
                assert(toks[m] == toks[m]);
            }
        }
        self.expect(&TokenKind::LBrace, "{")?;
        let ghost b_then = *self;
        let then_branch = match self.parse_block_stmts() {
            Ok(v) => v,
            Err(err) => {
                proof {
                    assert(b_then.tokens@ == toks && b_then.pos == k0 + 1);
                    assert forall|j: int, s: Stmt| #[trigger] stmt_at(toks, start, j, s) implies false by {
                        let m = choose|m: int| #![trigger toks[m]] start + 1 < k0 < m < j && expr_at(toks, start + 1, k0, false, s->If_condition) && toks[k0].kind is LBrace
                                && block_at(toks, k0 + 1, m, s->If_then_branch@) && toks[m].kind is RBrace && if toks[m + 1].kind is Else {
                                &&& s->If_else_branch matches Some(b)
                                &&& toks[m + 2].kind is LBrace
                                &&& m + 3 <= j - 1
                                &&& block_at(toks, m + 3, j - 1, b@)
                                &&& toks[j - 1].kind is RBrace
                            } else {
                                s->If_else_branch is None && j == m + 1
                            };
                        assert(block_at(b_then.tokens@, b_then.pos as int, m, s->If_then_branch@));
                    }
                }
                return Err(err);
            },
        };
        let ghost m0 = self.pos as int;
        proof {
            assert(b_then.tokens@ == toks && b_then.pos == k0 + 1);
            assert forall|j: int, s: Stmt| #[trigger] stmt_at(toks, start, j, s) implies start + 1 < k0 < m0 < j && expr_at(toks, start + 1, k0, false, s->If_condition) && toks[k0].kind is LBrace
                    && block_at(toks, k0 + 1, m0, s->If_then_branch@) && toks[m0].kind is RBrace && if toks[m0 + 1].kind is Else {
                    &&& s->If_else_branch matches Some(b)
                    &&& toks[m0 + 2].kind is LBrace
                    &&& m0 + 3 <= j - 1
                    &&& block_at(toks, m0 + 3, j - 1, b@)
                    &&& toks[j - 1].kind is RBrace
                } else {
                    s->If_else_branch is None && j == m0 + 1
                } by {
                let m = choose|m: int| #![trigger toks[m]] start + 1 < k0 < m < j && expr_at(toks, start + 1, k0, false, s->If_condition) && toks[k0].kind is LBrace
                        && block_at(toks, k0 + 1, m, s->If_then_branch@) && toks[m].kind is RBrace && if toks[m + 1].kind is Else {
                        &&& s->If_else_branch matches Some(b)
                        &&& toks[m + 2].kind is LBrace
                        &&& m + 3 <= j - 1
                        &&& block_at(toks, m + 3, j - 1, b@)
                        &&& toks[j - 1].kind is RBrace
                    } else {
                        s->If_else_branch is None && j == m + 1
                    };
                assert(block_at(b_then.tokens@, b_then.pos as int, m, s->If_then_branch@));
            }
        }
        self.expect(&TokenKind::RBrace, "}")?;
        let else_branch = if self.check(&TokenKind::Else) {
            self.advance();
            self.expect(&TokenKind::LBrace, "{")?;
            let ghost b_else = *self;
            let stmts = match self.parse_block_stmts() {
                Ok(v) => v,
                Err(err) => {
                    proof {
                        assert(b_else.tokens@ == toks && b_else.pos == m0 + 3);
                        assert forall|j: int, s: Stmt| #[trigger] stmt_at(toks, start, j, s) implies false by {
                            let b = s->If_else_branch->Some_0;
                            assert(block_at(b_else.tokens@, b_else.pos as int, j - 1, b@));
                        }
                    }
                    return Err(err);
                },
            };
            proof {
                assert(b_else.tokens@ == toks && b_else.pos == m0 + 3);
                assert forall|j: int, s: Stmt| #[trigger] stmt_at(toks, start, j, s) implies self.pos == j - 1 by {
                    let b = s->If_else_branch->Some_0;
                    assert(block_at(b_else.tokens@, b_else.pos as int, j - 1, b@));
                }
            }
            self.expect(&TokenKind::RBrace, "}")?;
            Some(stmts)
        } else {
            None
        };
        let s = Stmt::If { condition, then_branch, else_branch };
        proof {
            assert(expr_at(toks, start + 1, k0, false, condition));
            assert(block_at(toks, k0 + 1, m0, then_branch@));
            assert(stmt_at(toks, start, self.pos as int, s));
        }
        Ok(s)
    }

    fn parse_while_stmt(&mut self) -> (r: Result<Stmt, ParseError>)
        requires
            old(self).wf(),
            old(self).allow_struct_literal,
            old(self).current().kind is While,
        ensures
            Self::moved_on(*old(self), *final(self)),
            points_at_token(r, old(self).tokens@),
            r is Ok ==> final(self).pos > old(self).pos,
            r is Ok ==> final(self).allow_struct_literal == old(self).allow_struct_literal,
            r matches Ok(s) ==> stmt_at(old(self).tokens@, old(self).pos as int, final(self).pos as int, s),
            forall|j: int, s: Stmt|
                #[trigger] stmt_at(old(self).tokens@, old(self).pos as int, j, s) ==> r is Ok && final(self).pos == j,
        decreases old(self).tokens@.len() - old(self).pos, 27int,
    {
        let ghost toks = self.tokens@;
        let ghost start = self.pos as int;
        self.expect(&TokenKind::While, "while")?;
        let ghost b_cond = *self;
        let condition = match self.parse_condition() {
            Ok(v) => v,
            Err(err) => {
                proof {
                    assert(b_cond.tokens@ == toks && b_cond.pos == start + 1);
                    assert forall|j: int, s: Stmt| #[trigger] stmt_at(toks, start, j, s) implies false by {
                        let k = choose|k: int| start + 1 < k < j - 1 && expr_at(toks, start + 1, k, false, s->While_condition) && (#[trigger] toks[k]).kind
                                is LBrace && block_at(toks, k + 1, j - 1, s->While_body@);
                        assert(expr_at(b_cond.tokens@, b_cond.pos as int, k, false, s->While_condition));
                    }
                }
                return Err(err);
            },
        };
        let ghost k0 = self.pos as int;
        proof {
            assert(b_cond.tokens@ == toks && b_cond.pos == start + 1);
            assert forall|j: int, s: Stmt| #[trigger] stmt_at(toks, start, j, s) implies start + 1 < k0 < j - 1 && expr_at(toks, start + 1, k0, false, s->While_condition) && toks[k0].kind
                    is LBrace && block_at(toks, k0 + 1, j - 1, s->While_body@) by {
                let k = choose|k: int| start + 1 < k < j - 1 && expr_at(toks, start + 1, k, false, s->While_condition) && (#[trigger] toks[k]).kind
                        is LBrace && block_at(toks, k + 1, j - 1, s->While_body@);
                assert(expr_at(b_cond.tokens@, b_cond.pos as int, k, false, s->While_condition));
            }
        }
        self.expect(&TokenKind::LBrace, "{")?;
        let ghost b_body = *self;
        let body = match self.parse_block_stmts() {
            Ok(v) => v,
            Err(err) => {
                proof {
                    assert(b_body.tokens@ == toks && b_body.pos == k0 + 1);
                    assert forall|j: int, s: Stmt| #[trigger] stmt_at(toks, start, j, s) implies false by {
                        assert(block_at(b_body.tokens@, b_body.pos as int, j - 1, s->While_body@));
                    }
                }
                return Err(err);
            },
        };
        proof {
            assert(b_body.tokens@ == toks && b_body.pos == k0 + 1);
            assert forall|j: int, s: Stmt| #[trigger] stmt_at(toks, start, j, s) implies self.pos == j - 1 by {
                assert(block_at(b_body.tokens@, b_body.pos as int, j - 1, s->While_body@));
            }
        }
        self.expect(&TokenKind::RBrace, "}")?;
        let s = Stmt::While { condition, body };
        proof {
            assert(expr_at(toks, start + 1, k0, false, condition));
            assert(stmt_at(toks, start, self.pos as int, s));
        }
        Ok(s)
    }

    fn parse_match_stmt(&mut self) -> (r: Result<Stmt, ParseError>)
        requires
            old(self).wf(),
            old(self).allow_struct_literal,
            old(self).current().kind is Match,
        ensures
            Self::moved_on(*old(self), *final(self)),
            points_at_token(r, old(self).tokens@),
            r is Ok ==> final(self).pos > old(self).pos,
            r is Ok ==> final(self).allow_struct_literal == old(self).allow_struct_literal,
            r matches Ok(s) ==> stmt_at(old(self).tokens@, old(self).pos as int, final(self).pos as int, s),
            forall|j: int, s: Stmt|
                #[trigger] stmt_at(old(self).tokens@, old(self).pos as int, j, s) ==> r is Ok && final(self).pos == j,
        decreases old(self).tokens@.len() - old(self).pos, 27int,
    {
        let ghost toks = self.tokens@;
        let ghost start = self.pos as int;
        self.expect(&TokenKind::Match, "match")?;
        // same struct-literal ambiguity rule as if/while
        let ghost b_cond = *self;
        let scrutinee = match self.parse_condition() {
            Ok(v) => v,
            Err(err) => {
                proof {
                    assert(b_cond.tokens@ == toks && b_cond.pos == start + 1);
                    assert forall|j: int, s: Stmt| #[trigger] stmt_at(toks, start, j, s) implies false by {
                        let k = choose|k: int| start + 1 < k < j - 1 && expr_at(toks, start + 1, k, false, s->Match_scrutinee) && (#[trigger] toks[k]).kind
                                is LBrace && arms_at(toks, k + 1, j - 1, s->Match_arms@);
                        assert(expr_at(b_cond.tokens@, b_cond.pos as int, k, false, s->Match_scrutinee));
                    }
                }
                return Err(err);
            },
        };
        let ghost k0 = self.pos as int;
        proof {
            assert(b_cond.tokens@ == toks && b_cond.pos == start + 1);
            assert forall|j: int, s: Stmt| #[trigger] stmt_at(toks, start, j, s) implies start + 1 < k0 < j - 1 && expr_at(toks, start + 1, k0, false, s->Match_scrutinee) && toks[k0].kind
                    is LBrace && arms_at(toks, k0 + 1, j - 1, s->Match_arms@) by {
                let k = choose|k: int| start + 1 < k < j - 1 && expr_at(toks, start + 1, k, false, s->Match_scrutinee) && (#[trigger] toks[k]).kind
                        is LBrace && arms_at(toks, k + 1, j - 1, s->Match_arms@);
                assert(expr_at(b_cond.tokens@, b_cond.pos as int, k, false, s->Match_scrutinee));
            }
        }
        self.expect(&TokenKind::LBrace, "{")?;
        let ghost after_brace = self.pos as int;
        let mut arms: Vec<MatchArm> = Vec::new();
        proof {
            assert(arms@ == Seq::<MatchArm>::empty());
            assert forall|j: int, s: Stmt| #[trigger] stmt_at(toks, start, j, s) implies exists|a2: Seq<MatchArm>|
                #[trigger] arms_tail(toks, after_brace, j - 1, arms@, a2) by {
                assert(arms_tail(toks, after_brace, j - 1, arms@, s->Match_arms@));
            }
        }
        while !self.check(&TokenKind::RBrace)
            invariant
                Self::moved_on(*old(self), *self),
                self.pos >= after_brace,
                after_brace > old(self).pos,
                self.allow_struct_literal == old(self).allow_struct_literal,
                self.allow_struct_literal,
                toks == old(self).tokens@,
                start == old(self).pos,
                forall|j: int, a: Seq<MatchArm>|
                    #[trigger] arms_tail(toks, self.pos as int, j, arms@, a) ==> arms_at(toks, after_brace, j, a),
                forall|j: int, s: Stmt|
                    #[trigger] stmt_at(toks, start, j, s) ==> exists|a2: Seq<MatchArm>|
                        #[trigger] arms_tail(toks, self.pos as int, j - 1, arms@, a2),
            decreases self.tokens@.len() - self.pos,
        {
            let ghost j0 = self.pos as int;
            let ghost prev = arms@;
            let ghost b_arm = *self;
            let arm = match self.parse_match_arm() {
                Ok(v) => v,
                Err(err) => {
                    proof {
                        assert(b_arm.tokens@ == toks);
                        assert forall|j: int, s: Stmt| #[trigger] stmt_at(toks, start, j, s) implies false by {
                            let a1 = choose|a1: Seq<MatchArm>| #[trigger] arms_tail(toks, j0, j - 1, prev, a1);
                            let w = choose|w: (int, MatchArm)|
                                #[trigger] within(j0, j - 1, w.0) && arm_at(toks, j0, w.0, w.1) && arms_tail(
                                    toks,
                                    w.0,
                                    j - 1,
                                    prev.push(w.1),
                                    a1,
                                );
                            assert(arm_at(b_arm.tokens@, b_arm.pos as int, w.0, w.1));
                        }
                    }
                    return Err(err);
                },
            };
            arms.push(arm);
            proof {
                let here = self.pos as int;
                assert(arms@ == prev.push(arm));
                assert forall|j: int, a: Seq<MatchArm>| #[trigger] arms_tail(toks, here, j, arms@, a) implies arms_at(
                    toks,
                    after_brace,
                    j,
                    a,
                ) by {
                    let w = (here, arm);
                    assert(within(j0, j, w.0));
                    assert(arms_tail(toks, j0, j, prev, a));
                }
                assert forall|j: int, s: Stmt| #[trigger] stmt_at(toks, start, j, s) implies exists|a2: Seq<MatchArm>|
                    #[trigger] arms_tail(toks, here, j - 1, arms@, a2) by {
                    let a1 = choose|a1: Seq<MatchArm>| #[trigger] arms_tail(toks, j0, j - 1, prev, a1);
                    let w = choose|w: (int, MatchArm)|
                        #[trigger] within(j0, j - 1, w.0) && arm_at(toks, j0, w.0, w.1) && arms_tail(
                            toks,
                            w.0,
                            j - 1,
                            prev.push(w.1),
                            a1,
                        );
                    assert(arm_at(b_arm.tokens@, b_arm.pos as int, w.0, w.1));
                    lemma_arms_tail_acc(toks, w.0, j - 1, prev.push(w.1), a1, arms@);
                }
            }
        }
        let ghost close = self.pos as int;
        self.expect(&TokenKind::RBrace, "}")?;
        let s = Stmt::Match { scrutinee, arms };
        proof {
            assert(arms_tail(toks, close, close, s->Match_arms@, s->Match_arms@));
            assert(expr_at(toks, start + 1, k0, false, scrutinee));
            assert(arms_at(toks, k0 + 1, close, s->Match_arms@));
            assert(stmt_at(toks, start, self.pos as int, s));
            assert forall|j: int, s2: Stmt| #[trigger] stmt_at(toks, start, j, s2) implies close == j - 1 by {
                let a2 = choose|a2: Seq<MatchArm>| #[trigger] arms_tail(toks, close, j - 1, s->Match_arms@, a2);
            }
        }
        Ok(s)
    }

    fn parse_match_arm(&mut self) -> (r: Result<MatchArm, ParseError>)
        requires
            old(self).wf(),
            old(self).allow_struct_literal,
        ensures
            Self::moved_on(*old(self), *final(self)),
            points_at_token(r, old(self).tokens@),
            r is Ok ==> final(self).pos > old(self).pos,
            r is Ok ==> final(self).allow_struct_literal == old(self).allow_struct_literal,
            r matches Ok(a) ==> arm_at(old(self).tokens@, old(self).pos as int, final(self).pos as int, a),
            forall|j: int, a: MatchArm|
                #[trigger] arm_at(old(self).tokens@, old(self).pos as int, j, a) ==> r is Ok && final(self).pos == j,
        decreases old(self).tokens@.len() - old(self).pos, 26int,
    {
        let ghost toks = self.tokens@;
        let ghost start = self.pos as int;
        let ghost b_pat = *self;
        let pattern = match self.parse_pattern() {
            Ok(v) => v,
            Err(err) => {
                proof {
                    assert(b_pat.tokens@ == toks);
                    assert forall|j: int, a: MatchArm| #[trigger] arm_at(toks, start, j, a) implies false by {
                        let k = choose|k: int| toks[j - 1].kind is RBrace && start < k < j - 2 && pattern_at(toks, start, k, a.pattern) && (#[trigger] toks[k]).kind
                                is FatArrow && toks[k + 1].kind is LBrace && block_at(toks, k + 2, j - 1, a.body@);
                        assert(pattern_at(b_pat.tokens@, b_pat.pos as int, k, a.pattern));
                    }
                }
                return Err(err);
            },
        };
        let ghost k0 = self.pos as int;
        proof {
            assert(b_pat.tokens@ == toks);
            assert forall|j: int, a: MatchArm| #[trigger] arm_at(toks, start, j, a) implies toks[j - 1].kind is RBrace && start < k0 < j - 2 && pattern_at(toks, start, k0, a.pattern) && toks[k0].kind
                    is FatArrow && toks[k0 + 1].kind is LBrace && block_at(toks, k0 + 2, j - 1, a.body@) by {
                let k = choose|k: int| toks[j - 1].kind is RBrace && start < k < j - 2 && pattern_at(toks, start, k, a.pattern) && (#[trigger] toks[k]).kind
                        is FatArrow && toks[k + 1].kind is LBrace && block_at(toks, k + 2, j - 1, a.body@);
                assert(pattern_at(b_pat.tokens@, b_pat.pos as int, k, a.pattern));
            }
        }
        self.expect(&TokenKind::FatArrow, "=>")?;
        self.expect(&TokenKind::LBrace, "{")?;
        let ghost b_body = *self;
        let body = match self.parse_block_stmts() {
            Ok(v) => v,
            Err(err) => {
                proof {
                    assert(b_body.tokens@ == toks && b_body.pos == k0 + 2);
                    assert forall|j: int, a: MatchArm| #[trigger] arm_at(toks, start, j, a) implies false by {
                        assert(block_at(b_body.tokens@, b_body.pos as int, j - 1, a.body@));
                    }
                }
                return Err(err);
            },
        };
        proof {
            assert(b_body.tokens@ == toks && b_body.pos == k0 + 2);
            assert forall|j: int, a: MatchArm| #[trigger] arm_at(toks, start, j, a) implies self.pos == j - 1 by {
                assert(block_at(b_body.tokens@, b_body.pos as int, j - 1, a.body@));
            }
        }
        self.expect(&TokenKind::RBrace, "}")?;
        let a = MatchArm { pattern, body };
        proof {
            assert(pattern_at(toks, start, k0, a.pattern));
            assert(arm_at(toks, start, self.pos as int, a));
        }
        Ok(a)
    }

    fn parse_pattern(&mut self) -> (r: Result<Pattern, ParseError>)
        requires
            old(self).wf(),
        ensures
            Self::moved_on(*old(self), *final(self)),
            points_at_token(r, old(self).tokens@),
            r is Ok ==> final(self).pos > old(self).pos,
            final(self).allow_struct_literal == old(self).allow_struct_literal,
            r matches Ok(p) ==> pattern_at(old(self).tokens@, old(self).pos as int, final(self).pos as int, p),
            forall|j: int, p: Pattern|
                #[trigger] pattern_at(old(self).tokens@, old(self).pos as int, j, p) ==> r is Ok && final(self).pos == j,
    {
        let ghost toks = self.tokens@;
        let ghost start = self.pos as int;
        let kind = copy_kind(self.peek_kind());
        match kind {
            TokenKind::IntLiteral(v) => {
                self.advance();
                Ok(Pattern::IntLiteral(v))
            },
            TokenKind::StringLiteral(v) => {
                self.advance();
                Ok(Pattern::StringLiteral(v))
            },
            TokenKind::True => {
                self.advance();
                Ok(Pattern::BoolLiteral(true))
            },
            TokenKind::False => {
                self.advance();
                Ok(Pattern::BoolLiteral(false))
            },
            TokenKind::Identifier(enum_name) => {
                self.advance();
                if crate::text::string_is(&enum_name, "_") {
                    return Ok(Pattern::Wildcard);
                }
                self.expect(&TokenKind::ColonColon, "::")?;
                let variant = self.expect_identifier()?;
                let mut bindings: Vec<String> = Vec::new();
                if self.check(&TokenKind::LParen) {
                    self.advance();
                    if !self.check(&TokenKind::RParen) {
                        let first = self.expect_identifier()?;
                        bindings.push(first);
                        proof {
                            assert(bindings@ == seq![first]);
                            assert forall|j: int, p: Pattern| #[trigger] pattern_at(toks, start, j, p) implies exists|
                                b2: Seq<String>,
                            | #[trigger] names_tail(toks, start + 5, j - 1, bindings@, b2) by {
                                lemma_names_tail_acc(toks, start + 5, j - 1, seq![first], p->EnumVariant_bindings@, bindings@);
                            }
                        }
                        while self.check(&TokenKind::Comma)
                            invariant
                                Self::moved_on(*old(self), *self),
                                self.allow_struct_literal == old(self).allow_struct_literal,
                                toks == old(self).tokens@,
                                start == old(self).pos,
                                self.pos >= start + 5,
                                toks[start + 4].kind == TokenKind::Identifier(first),
                                forall|j: int, b: Seq<String>|
                                    #[trigger] names_tail(toks, self.pos as int, j, bindings@, b) ==> names_tail(
                                        toks,
                                        start + 5,
                                        j,
                                        seq![first],
                                        b,
                                    ),
                                forall|j: int, p: Pattern|
                                    #[trigger] pattern_at(toks, start, j, p) ==> exists|b2: Seq<String>|
                                        #[trigger] names_tail(toks, self.pos as int, j - 1, bindings@, b2),
                            decreases self.tokens@.len() - self.pos,
                        {
                            let ghost k = self.pos as int;
                            let ghost prev = bindings@;
                            self.advance();
                            let n = self.expect_identifier()?;
                            bindings.push(n);
                            proof {
                                let here = self.pos as int;
                                assert(bindings@ == prev.push(n));
                                assert forall|j: int, b: Seq<String>| #[trigger] names_tail(toks, here, j, bindings@, b) implies names_tail(
                                    toks,
                                    start + 5,
                                    j,
                                    seq![first],
                                    b,
                                ) by {
                                    assert(names_tail(toks, k, j, prev, b));
                                }
                                assert forall|j: int, p: Pattern| #[trigger] pattern_at(toks, start, j, p) implies exists|
                                    b2: Seq<String>,
                                | #[trigger] names_tail(toks, here, j - 1, bindings@, b2) by {
                                    let b1 = choose|b1: Seq<String>| #[trigger] names_tail(toks, k, j - 1, prev, b1);
                                    assert(names_tail(toks, here, j - 1, bindings@, b1));
                                }
                            }
                        }
                        proof {
                            let here = self.pos as int;
                            assert(names_tail(toks, here, here, bindings@, bindings@));
                            assert(names_at(toks, start + 4, here, bindings@));
                            assert forall|j: int, p: Pattern| #[trigger] pattern_at(toks, start, j, p) implies here == j - 1 by {
                                let b2 = choose|b2: Seq<String>| #[trigger] names_tail(toks, here, j - 1, bindings@, b2);
                            }
                        }
                    }
                    self.expect(&TokenKind::RParen, ")")?;
                }
                Ok(Pattern::EnumVariant { enum_name, variant, bindings })
            },
            _ => Err(self.unexpected("pattern")),
        }
    }

    /// Parses an expression with struct literals disallowed at the top
    /// level, for use as an if/while/match head.
    fn parse_condition(&mut self) -> (r: Result<Expr, ParseError>)
        requires
            old(self).wf(),
        ensures
            Self::moved_on(*old(self), *final(self)),
            points_at_token(r, old(self).tokens@),
            r is Ok ==> final(self).pos > old(self).pos,
            final(self).allow_struct_literal == old(self).allow_struct_literal,
            r matches Ok(e) ==> expr_at(old(self).tokens@, old(self).pos as int, final(self).pos as int, false, e),
            forall|j: int, e: Expr|
                #[trigger] expr_at(old(self).tokens@, old(self).pos as int, j, false, e) ==> r is Ok && final(self).pos
                    == j,
        decreases old(self).tokens@.len() - old(self).pos, 12int,
    {
        let ghost toks = self.tokens@;
        let ghost start = self.pos as int;
        let prev = self.allow_struct_literal;
        self.allow_struct_literal = false;
        let ghost inside = *self;
        let condition = self.parse_expr();
        self.allow_struct_literal = prev;
        proof {
            assert forall|j: int, e: Expr| #[trigger] expr_at(toks, start, j, false, e) implies condition is Ok && self.pos
                == j by {
                assert(expr_at(inside.tokens@, inside.pos as int, j, inside.allow_struct_literal, e));
            }
        }
        condition
    }

    // --- expression parsing, lowest to highest precedence ---

    fn parse_expr(&mut self) -> (r: Result<Expr, ParseError>)
        requires
            old(self).wf(),
        ensures
            Self::moved_on(*old(self), *final(self)),
            points_at_token(r, old(self).tokens@),
            r is Ok ==> final(self).pos > old(self).pos,
            r is Ok ==> final(self).allow_struct_literal == old(self).allow_struct_literal,
            r matches Ok(e) ==> expr_at(
                old(self).tokens@,
                old(self).pos as int,
                final(self).pos as int,
                old(self).allow_struct_literal,
                e,
            ),
            forall|j: int, e: Expr|
                #[trigger] expr_at(old(self).tokens@, old(self).pos as int, j, old(self).allow_struct_literal, e) ==> r is Ok
                    && final(self).pos == j,
        decreases old(self).tokens@.len() - old(self).pos, 11int,
    {
        self.parse_equality()
    }

    fn parse_equality(&mut self) -> (r: Result<Expr, ParseError>)
        requires
            old(self).wf(),
        ensures
            Self::moved_on(*old(self), *final(self)),
            points_at_token(r, old(self).tokens@),
            r is Ok ==> final(self).pos > old(self).pos,
            r is Ok ==> final(self).allow_struct_literal == old(self).allow_struct_literal,
            r matches Ok(e) ==> expr_at(
                old(self).tokens@,
                old(self).pos as int,
                final(self).pos as int,
                old(self).allow_struct_literal,
                e,
            ),
            forall|j: int, e: Expr|
                #[trigger] expr_at(old(self).tokens@, old(self).pos as int, j, old(self).allow_struct_literal, e) ==> r is Ok
                    && final(self).pos == j,
        decreases old(self).tokens@.len() - old(self).pos, 10int,
    {
        let ghost toks = self.tokens@;
        let ghost start = self.pos as int;
        let ghost allow = self.allow_struct_literal;
        let first = match self.parse_comparison() {
            Ok(f) => f,
            Err(err) => {
                proof {
                    assert forall|j: int, e: Expr| #[trigger] expr_at(toks, start, j, allow, e) implies false by {
                        let w = choose|w: (int, Expr)|
                            #[trigger] within(start, j, w.0) && comparison_at(toks, start, w.0, allow, w.1) && expr_tail(
                                toks,
                                w.0,
                                j,
                                allow,
                                w.1,
                                e,
                            );
                    }
                }
                return Err(err);
            },
        };
        let ghost mid = self.pos as int;
        proof {
            assert forall|j: int, e: Expr| #[trigger] expr_at(toks, start, j, allow, e) implies exists|e2: Expr|
                #[trigger] expr_tail(toks, mid, j, allow, first, e2) by {
                let w = choose|w: (int, Expr)|
                    #[trigger] within(start, j, w.0) && comparison_at(toks, start, w.0, allow, w.1) && expr_tail(
                        toks,
                        w.0,
                        j,
                        allow,
                        w.1,
                        e,
                    );
                lemma_expr_tail_acc(toks, w.0, j, allow, w.1, e, first);
            }
        }
        let r = self.parse_equality_rest(first);
        proof {
            if r is Ok {
                let e = r->Ok_0;
                let w = (mid, first);
                assert(within(start, self.pos as int, w.0));
                assert(expr_at(toks, start, self.pos as int, allow, e));
            }
            assert forall|j: int, e: Expr| #[trigger] expr_at(toks, start, j, allow, e) implies r is Ok && self.pos == j by {
                let e2 = choose|e2: Expr| #[trigger] expr_tail(toks, mid, j, allow, first, e2);
            }
        }
        r
    }

    /// Continues a chain of this level's operators after `acc`, for as
    /// long as one follows.
    fn parse_equality_rest(&mut self, acc: Expr) -> (r: Result<Expr, ParseError>)
        requires
            old(self).wf(),
        ensures
            Self::moved_on(*old(self), *final(self)),
            points_at_token(r, old(self).tokens@),
            r is Ok ==> final(self).allow_struct_literal == old(self).allow_struct_literal,
            r matches Ok(e) ==> expr_tail(
                old(self).tokens@,
                old(self).pos as int,
                final(self).pos as int,
                old(self).allow_struct_literal,
                acc,
                e,
            ),
            forall|j: int, e: Expr|
                #[trigger] expr_tail(old(self).tokens@, old(self).pos as int, j, old(self).allow_struct_literal, acc, e)
                    ==> r is Ok && final(self).pos == j,
        decreases old(self).tokens@.len() - old(self).pos, 2int,
    {
        let ghost toks = self.tokens@;
        let ghost start = self.pos as int;
        let ghost allow = self.allow_struct_literal;
        let mut left = acc;
        loop
            invariant
                Self::moved_on(*old(self), *self),
                self.allow_struct_literal == old(self).allow_struct_literal,
                toks == old(self).tokens@,
                start == old(self).pos,
                allow == old(self).allow_struct_literal,
                forall|j: int, e: Expr|
                    #[trigger] expr_tail(toks, self.pos as int, j, allow, left, e) ==> expr_tail(
                        toks,
                        start,
                        j,
                        allow,
                        acc,
                        e,
                    ),
                forall|j: int, e: Expr|
                    #[trigger] expr_tail(toks, start, j, allow, acc, e) ==> exists|e2: Expr|
                        #[trigger] expr_tail(toks, self.pos as int, j, allow, left, e2),
            ensures
                equality_op(self.current().kind) is None,
            decreases self.tokens@.len() - self.pos,
        {
            let op = if self.check(&TokenKind::EqEq) {
                BinaryOp::Eq
            } else if self.check(&TokenKind::NotEq) {
                BinaryOp::NotEq
            } else {
                break;
            };
            let ghost k = self.pos as int;
            let ghost prev = left;
            self.advance();
            let right = match self.parse_comparison() {
                Ok(x) => x,
                Err(err) => {
                    proof {
                        assert(equality_op(toks[k].kind) == Some(op));
                        assert forall|j: int, e: Expr| #[trigger] expr_tail(toks, start, j, allow, acc, e) implies false by {
                            let e1 = choose|e1: Expr| #[trigger] expr_tail(toks, k, j, allow, prev, e1);
                            let w = choose|w: (int, Expr)|
                                #[trigger] within(k + 1, j, w.0) && comparison_at(toks, k + 1, w.0, allow, w.1) && expr_tail(
                                    toks,
                                    w.0,
                                    j,
                                    allow,
                                    Expr::Binary { left: Box::new(prev), op, right: Box::new(w.1) },
                                    e1,
                                );
                        }
                    }
                    return Err(err);
                },
            };
            left = Expr::Binary { left: Box::new(left), op, right: Box::new(right) };
            proof {
                let here = self.pos as int;
                assert(equality_op(toks[k].kind) == Some(op));
                assert forall|j: int, e: Expr| #[trigger] expr_tail(toks, here, j, allow, left, e) implies expr_tail(
                    toks,
                    start,
                    j,
                    allow,
                    acc,
                    e,
                ) by {
                    let w = (here, right);
                    assert(within(k + 1, j, w.0));
                    assert(expr_tail(toks, k, j, allow, prev, e));
                }
                assert forall|j: int, e: Expr| #[trigger] expr_tail(toks, start, j, allow, acc, e) implies exists|e2: Expr|
                    #[trigger] expr_tail(toks, here, j, allow, left, e2) by {
                    let e1 = choose|e1: Expr| #[trigger] expr_tail(toks, k, j, allow, prev, e1);
                    let w = choose|w: (int, Expr)|
                        #[trigger] within(k + 1, j, w.0) && comparison_at(toks, k + 1, w.0, allow, w.1) && expr_tail(
                            toks,
                            w.0,
                            j,
                            allow,
                            Expr::Binary { left: Box::new(prev), op, right: Box::new(w.1) },
                            e1,
                        );
                    lemma_expr_tail_acc(
                        toks,
                        w.0,
                        j,
                        allow,
                        Expr::Binary { left: Box::new(prev), op, right: Box::new(w.1) },
                        e1,
                        left,
                    );
                }
            }
        }
        proof {
            let here = self.pos as int;
            assert(expr_tail(toks, here, here, allow, left, left));
            assert forall|j: int, e: Expr| #[trigger] expr_tail(toks, start, j, allow, acc, e) implies here == j by {
                let e2 = choose|e2: Expr| #[trigger] expr_tail(toks, here, j, allow, left, e2);
            }
        }
        Ok(left)
    }

    fn parse_comparison(&mut self) -> (r: Result<Expr, ParseError>)
        requires
            old(self).wf(),
        ensures
            Self::moved_on(*old(self), *final(self)),
            points_at_token(r, old(self).tokens@),
            r is Ok ==> final(self).pos > old(self).pos,
            r is Ok ==> final(self).allow_struct_literal == old(self).allow_struct_literal,
            r matches Ok(e) ==> comparison_at(
                old(self).tokens@,
                old(self).pos as int,
                final(self).pos as int,
                old(self).allow_struct_literal,
                e,
            ),
            forall|j: int, e: Expr|
                #[trigger] comparison_at(old(self).tokens@, old(self).pos as int, j, old(self).allow_struct_literal, e) ==> r is Ok
                    && final(self).pos == j,
        decreases old(self).tokens@.len() - old(self).pos, 9int,
    {
        let ghost toks = self.tokens@;
        let ghost start = self.pos as int;
        let ghost allow = self.allow_struct_literal;
        let first = match self.parse_term() {
            Ok(f) => f,
            Err(err) => {
                proof {
                    assert forall|j: int, e: Expr| #[trigger] comparison_at(toks, start, j, allow, e) implies false by {
                        let w = choose|w: (int, Expr)|
                            #[trigger] within(start, j, w.0) && term_at(toks, start, w.0, allow, w.1) && comparison_tail(
                                toks,
                                w.0,
                                j,
                                allow,
                                w.1,
                                e,
                            );
                    }
                }
                return Err(err);
            },
        };
        let ghost mid = self.pos as int;
        proof {
            assert forall|j: int, e: Expr| #[trigger] comparison_at(toks, start, j, allow, e) implies exists|e2: Expr|
                #[trigger] comparison_tail(toks, mid, j, allow, first, e2) by {
                let w = choose|w: (int, Expr)|
                    #[trigger] within(start, j, w.0) && term_at(toks, start, w.0, allow, w.1) && comparison_tail(
                        toks,
                        w.0,
                        j,
                        allow,
                        w.1,
                        e,
                    );
                lemma_comparison_tail_acc(toks, w.0, j, allow, w.1, e, first);
            }
        }
        let r = self.parse_comparison_rest(first);
        proof {
            if r is Ok {
                let e = r->Ok_0;
                let w = (mid, first);
                assert(within(start, self.pos as int, w.0));
                assert(comparison_at(toks, start, self.pos as int, allow, e));
            }
            assert forall|j: int, e: Expr| #[trigger] comparison_at(toks, start, j, allow, e) implies r is Ok && self.pos == j by {
                let e2 = choose|e2: Expr| #[trigger] comparison_tail(toks, mid, j, allow, first, e2);
            }
        }
        r
    }

    /// Continues a chain of this level's operators after `acc`, for as
    /// long as one follows.
    fn parse_comparison_rest(&mut self, acc: Expr) -> (r: Result<Expr, ParseError>)
        requires
            old(self).wf(),
        ensures
            Self::moved_on(*old(self), *final(self)),
            points_at_token(r, old(self).tokens@),
            r is Ok ==> final(self).allow_struct_literal == old(self).allow_struct_literal,
            r matches Ok(e) ==> comparison_tail(
                old(self).tokens@,
                old(self).pos as int,
                final(self).pos as int,
                old(self).allow_struct_literal,
                acc,
                e,
            ),
            forall|j: int, e: Expr|
                #[trigger] comparison_tail(old(self).tokens@, old(self).pos as int, j, old(self).allow_struct_literal, acc, e)
                    ==> r is Ok && final(self).pos == j,
        decreases old(self).tokens@.len() - old(self).pos, 2int,
    {
        let ghost toks = self.tokens@;
        let ghost start = self.pos as int;
        let ghost allow = self.allow_struct_literal;
        let mut left = acc;
        loop
            invariant
                Self::moved_on(*old(self), *self),
                self.allow_struct_literal == old(self).allow_struct_literal,
                toks == old(self).tokens@,
                start == old(self).pos,
                allow == old(self).allow_struct_literal,
                forall|j: int, e: Expr|
                    #[trigger] comparison_tail(toks, self.pos as int, j, allow, left, e) ==> comparison_tail(
                        toks,
                        start,
                        j,
                        allow,
                        acc,
                        e,
                    ),
                forall|j: int, e: Expr|
                    #[trigger] comparison_tail(toks, start, j, allow, acc, e) ==> exists|e2: Expr|
                        #[trigger] comparison_tail(toks, self.pos as int, j, allow, left, e2),
            ensures
                comparison_op(self.current().kind) is None,
            decreases self.tokens@.len() - self.pos,
        {
            let op = if self.check(&TokenKind::Lt) {
                BinaryOp::Lt
            } else if self.check(&TokenKind::Gt) {
                BinaryOp::Gt
            } else if self.check(&TokenKind::LtEq) {
                BinaryOp::Le
            } else if self.check(&TokenKind::GtEq) {
                BinaryOp::Ge
            } else {
                break;
            };
            let ghost k = self.pos as int;
            let ghost prev = left;
            self.advance();
            let right = match self.parse_term() {
                Ok(x) => x,
                Err(err) => {
                    proof {
                        assert(comparison_op(toks[k].kind) == Some(op));
                        assert forall|j: int, e: Expr| #[trigger] comparison_tail(toks, start, j, allow, acc, e) implies false by {
                            let e1 = choose|e1: Expr| #[trigger] comparison_tail(toks, k, j, allow, prev, e1);
                            let w = choose|w: (int, Expr)|
                                #[trigger] within(k + 1, j, w.0) && term_at(toks, k + 1, w.0, allow, w.1) && comparison_tail(
                                    toks,
                                    w.0,
                                    j,
                                    allow,
                                    Expr::Binary { left: Box::new(prev), op, right: Box::new(w.1) },
                                    e1,
                                );
                        }
                    }
                    return Err(err);
                },
            };
            left = Expr::Binary { left: Box::new(left), op, right: Box::new(right) };
            proof {
                let here = self.pos as int;
                assert(comparison_op(toks[k].kind) == Some(op));
                assert forall|j: int, e: Expr| #[trigger] comparison_tail(toks, here, j, allow, left, e) implies comparison_tail(
                    toks,
                    start,
                    j,
                    allow,
                    acc,
                    e,
                ) by {
                    let w = (here, right);
                    assert(within(k + 1, j, w.0));
                    assert(comparison_tail(toks, k, j, allow, prev, e));
                }
                assert forall|j: int, e: Expr| #[trigger] comparison_tail(toks, start, j, allow, acc, e) implies exists|e2: Expr|
                    #[trigger] comparison_tail(toks, here, j, allow, left, e2) by {
                    let e1 = choose|e1: Expr| #[trigger] comparison_tail(toks, k, j, allow, prev, e1);
                    let w = choose|w: (int, Expr)|
                        #[trigger] within(k + 1, j, w.0) && term_at(toks, k + 1, w.0, allow, w.1) && comparison_tail(
                            toks,
                            w.0,
                            j,
                            allow,
                            Expr::Binary { left: Box::new(prev), op, right: Box::new(w.1) },
                            e1,
                        );
                    lemma_comparison_tail_acc(
                        toks,
                        w.0,
                        j,
                        allow,
                        Expr::Binary { left: Box::new(prev), op, right: Box::new(w.1) },
                        e1,
                        left,
                    );
                }
            }
        }
        proof {
            let here = self.pos as int;
            assert(comparison_tail(toks, here, here, allow, left, left));
            assert forall|j: int, e: Expr| #[trigger] comparison_tail(toks, start, j, allow, acc, e) implies here == j by {
                let e2 = choose|e2: Expr| #[trigger] comparison_tail(toks, here, j, allow, left, e2);
            }
        }
        Ok(left)
    }

    fn parse_term(&mut self) -> (r: Result<Expr, ParseError>)
        requires
            old(self).wf(),
        ensures
            Self::moved_on(*old(self), *final(self)),
            points_at_token(r, old(self).tokens@),
            r is Ok ==> final(self).pos > old(self).pos,
            r is Ok ==> final(self).allow_struct_literal == old(self).allow_struct_literal,
            r matches Ok(e) ==> term_at(
                old(self).tokens@,
                old(self).pos as int,
                final(self).pos as int,
                old(self).allow_struct_literal,
                e,
            ),
            forall|j: int, e: Expr|
                #[trigger] term_at(old(self).tokens@, old(self).pos as int, j, old(self).allow_struct_literal, e) ==> r is Ok
                    && final(self).pos == j,
        decreases old(self).tokens@.len() - old(self).pos, 8int,
    {
        let ghost toks = self.tokens@;
        let ghost start = self.pos as int;
        let ghost allow = self.allow_struct_literal;
        let first = match self.parse_factor() {
            Ok(f) => f,
            Err(err) => {
                proof {
                    assert forall|j: int, e: Expr| #[trigger] term_at(toks, start, j, allow, e) implies false by {
                        let w = choose|w: (int, Expr)|
                            #[trigger] within(start, j, w.0) && factor_at(toks, start, w.0, allow, w.1) && term_tail(
                                toks,
                                w.0,
                                j,
                                allow,
                                w.1,
                                e,
                            );
                    }
                }
                return Err(err);
            },
        };
        let ghost mid = self.pos as int;
        proof {
            assert forall|j: int, e: Expr| #[trigger] term_at(toks, start, j, allow, e) implies exists|e2: Expr|
                #[trigger] term_tail(toks, mid, j, allow, first, e2) by {
                let w = choose|w: (int, Expr)|
                    #[trigger] within(start, j, w.0) && factor_at(toks, start, w.0, allow, w.1) && term_tail(
                        toks,
                        w.0,
                        j,
                        allow,
                        w.1,
                        e,
                    );
                lemma_term_tail_acc(toks, w.0, j, allow, w.1, e, first);
            }
        }
        let r = self.parse_term_rest(first);
        proof {
            if r is Ok {
                let e = r->Ok_0;
                let w = (mid, first);
                assert(within(start, self.pos as int, w.0));
                assert(term_at(toks, start, self.pos as int, allow, e));
            }
            assert forall|j: int, e: Expr| #[trigger] term_at(toks, start, j, allow, e) implies r is Ok && self.pos == j by {
                let e2 = choose|e2: Expr| #[trigger] term_tail(toks, mid, j, allow, first, e2);
            }
        }
        r
    }

    /// Continues a chain of this level's operators after `acc`, for as
    /// long as one follows.
    fn parse_term_rest(&mut self, acc: Expr) -> (r: Result<Expr, ParseError>)
        requires
            old(self).wf(),
        ensures
            Self::moved_on(*old(self), *final(self)),
            points_at_token(r, old(self).tokens@),
            r is Ok ==> final(self).allow_struct_literal == old(self).allow_struct_literal,
            r matches Ok(e) ==> term_tail(
                old(self).tokens@,
                old(self).pos as int,
                final(self).pos as int,
                old(self).allow_struct_literal,
                acc,
                e,
            ),
            forall|j: int, e: Expr|
                #[trigger] term_tail(old(self).tokens@, old(self).pos as int, j, old(self).allow_struct_literal, acc, e)
                    ==> r is Ok && final(self).pos == j,
        decreases old(self).tokens@.len() - old(self).pos, 2int,
    {
        let ghost toks = self.tokens@;
        let ghost start = self.pos as int;
        let ghost allow = self.allow_struct_literal;
        let mut left = acc;
        loop
            invariant
                Self::moved_on(*old(self), *self),
                self.allow_struct_literal == old(self).allow_struct_literal,
                toks == old(self).tokens@,
                start == old(self).pos,
                allow == old(self).allow_struct_literal,
                forall|j: int, e: Expr|
                    #[trigger] term_tail(toks, self.pos as int, j, allow, left, e) ==> term_tail(
                        toks,
                        start,
                        j,
                        allow,
                        acc,
                        e,
                    ),
                forall|j: int, e: Expr|
                    #[trigger] term_tail(toks, start, j, allow, acc, e) ==> exists|e2: Expr|
                        #[trigger] term_tail(toks, self.pos as int, j, allow, left, e2),
            ensures
                term_op(self.current().kind) is None,
            decreases self.tokens@.len() - self.pos,
        {
            let op = if self.check(&TokenKind::Plus) {
                BinaryOp::Add
            } else if self.check(&TokenKind::Minus) {
                BinaryOp::Sub
            } else {
                break;
            };
            let ghost k = self.pos as int;
            let ghost prev = left;
            self.advance();
            let right = match self.parse_factor() {
                Ok(x) => x,
                Err(err) => {
                    proof {
                        assert(term_op(toks[k].kind) == Some(op));
                        assert forall|j: int, e: Expr| #[trigger] term_tail(toks, start, j, allow, acc, e) implies false by {
                            let e1 = choose|e1: Expr| #[trigger] term_tail(toks, k, j, allow, prev, e1);
                            let w = choose|w: (int, Expr)|
                                #[trigger] within(k + 1, j, w.0) && factor_at(toks, k + 1, w.0, allow, w.1) && term_tail(
                                    toks,
                                    w.0,
                                    j,
                                    allow,
                                    Expr::Binary { left: Box::new(prev), op, right: Box::new(w.1) },
                                    e1,
                                );
                        }
                    }
                    return Err(err);
                },
            };
            left = Expr::Binary { left: Box::new(left), op, right: Box::new(right) };
            proof {
                let here = self.pos as int;
                assert(term_op(toks[k].kind) == Some(op));
                assert forall|j: int, e: Expr| #[trigger] term_tail(toks, here, j, allow, left, e) implies term_tail(
                    toks,
                    start,
                    j,
                    allow,
                    acc,
                    e,
                ) by {
                    let w = (here, right);
                    assert(within(k + 1, j, w.0));
                    assert(term_tail(toks, k, j, allow, prev, e));
                }
                assert forall|j: int, e: Expr| #[trigger] term_tail(toks, start, j, allow, acc, e) implies exists|e2: Expr|
                    #[trigger] term_tail(toks, here, j, allow, left, e2) by {
                    let e1 = choose|e1: Expr| #[trigger] term_tail(toks, k, j, allow, prev, e1);
                    let w = choose|w: (int, Expr)|
                        #[trigger] within(k + 1, j, w.0) && factor_at(toks, k + 1, w.0, allow, w.1) && term_tail(
                            toks,
                            w.0,
                            j,
                            allow,
                            Expr::Binary { left: Box::new(prev), op, right: Box::new(w.1) },
                            e1,
                        );
                    lemma_term_tail_acc(
                        toks,
                        w.0,
                        j,
                        allow,
                        Expr::Binary { left: Box::new(prev), op, right: Box::new(w.1) },
                        e1,
                        left,
                    );
                }
            }
        }
        proof {
            let here = self.pos as int;
            assert(term_tail(toks, here, here, allow, left, left));
            assert forall|j: int, e: Expr| #[trigger] term_tail(toks, start, j, allow, acc, e) implies here == j by {
                let e2 = choose|e2: Expr| #[trigger] term_tail(toks, here, j, allow, left, e2);
            }
        }
        Ok(left)
    }

    fn parse_factor(&mut self) -> (r: Result<Expr, ParseError>)
        requires
            old(self).wf(),
        ensures
            Self::moved_on(*old(self), *final(self)),
            points_at_token(r, old(self).tokens@),
            r is Ok ==> final(self).pos > old(self).pos,
            r is Ok ==> final(self).allow_struct_literal == old(self).allow_struct_literal,
            r matches Ok(e) ==> factor_at(
                old(self).tokens@,
                old(self).pos as int,
                final(self).pos as int,
                old(self).allow_struct_literal,
                e,
            ),
            forall|j: int, e: Expr|
                #[trigger] factor_at(old(self).tokens@, old(self).pos as int, j, old(self).allow_struct_literal, e) ==> r is Ok
                    && final(self).pos == j,
        decreases old(self).tokens@.len() - old(self).pos, 7int,
    {
        let ghost toks = self.tokens@;
        let ghost start = self.pos as int;
        let ghost allow = self.allow_struct_literal;
        let first = match self.parse_postfix() {
            Ok(f) => f,
            Err(err) => {
                proof {
                    assert forall|j: int, e: Expr| #[trigger] factor_at(toks, start, j, allow, e) implies false by {
                        let w = choose|w: (int, Expr)|
                            #[trigger] within(start, j, w.0) && postfix_at(toks, start, w.0, allow, w.1) && factor_tail(
                                toks,
                                w.0,
                                j,
                                allow,
                                w.1,
                                e,
                            );
                    }
                }
                return Err(err);
            },
        };
        let ghost mid = self.pos as int;
        proof {
            assert forall|j: int, e: Expr| #[trigger] factor_at(toks, start, j, allow, e) implies exists|e2: Expr|
                #[trigger] factor_tail(toks, mid, j, allow, first, e2) by {
                let w = choose|w: (int, Expr)|
                    #[trigger] within(start, j, w.0) && postfix_at(toks, start, w.0, allow, w.1) && factor_tail(
                        toks,
                        w.0,
                        j,
                        allow,
                        w.1,
                        e,
                    );
                lemma_factor_tail_acc(toks, w.0, j, allow, w.1, e, first);
            }
        }
        let r = self.parse_factor_rest(first);
        proof {
            if r is Ok {
                let e = r->Ok_0;
                let w = (mid, first);
                assert(within(start, self.pos as int, w.0));
                assert(factor_at(toks, start, self.pos as int, allow, e));
            }
            assert forall|j: int, e: Expr| #[trigger] factor_at(toks, start, j, allow, e) implies r is Ok && self.pos == j by {
                let e2 = choose|e2: Expr| #[trigger] factor_tail(toks, mid, j, allow, first, e2);
            }
        }
        r
    }

    /// Continues a chain of this level's operators after `acc`, for as
    /// long as one follows.
    fn parse_factor_rest(&mut self, acc: Expr) -> (r: Result<Expr, ParseError>)
        requires
            old(self).wf(),
        ensures
            Self::moved_on(*old(self), *final(self)),
            points_at_token(r, old(self).tokens@),
            r is Ok ==> final(self).allow_struct_literal == old(self).allow_struct_literal,
            r matches Ok(e) ==> factor_tail(
                old(self).tokens@,
                old(self).pos as int,
                final(self).pos as int,
                old(self).allow_struct_literal,
                acc,
                e,
            ),
            forall|j: int, e: Expr|
                #[trigger] factor_tail(old(self).tokens@, old(self).pos as int, j, old(self).allow_struct_literal, acc, e)
                    ==> r is Ok && final(self).pos == j,
        decreases old(self).tokens@.len() - old(self).pos, 2int,
    {
        let ghost toks = self.tokens@;
        let ghost start = self.pos as int;
        let ghost allow = self.allow_struct_literal;
        let mut left = acc;
        loop
            invariant
                Self::moved_on(*old(self), *self),
                self.allow_struct_literal == old(self).allow_struct_literal,
                toks == old(self).tokens@,
                start == old(self).pos,
                allow == old(self).allow_struct_literal,
                forall|j: int, e: Expr|
                    #[trigger] factor_tail(toks, self.pos as int, j, allow, left, e) ==> factor_tail(
                        toks,
                        start,
                        j,
                        allow,
                        acc,
                        e,
                    ),
                forall|j: int, e: Expr|
                    #[trigger] factor_tail(toks, start, j, allow, acc, e) ==> exists|e2: Expr|
                        #[trigger] factor_tail(toks, self.pos as int, j, allow, left, e2),
            ensures
                factor_op(self.current().kind) is None,
            decreases self.tokens@.len() - self.pos,
        {
            let op = if self.check(&TokenKind::Star) {
                BinaryOp::Mul
            } else if self.check(&TokenKind::Slash) {
                BinaryOp::Div
            } else {
                break;
            };
            let ghost k = self.pos as int;
            let ghost prev = left;
            self.advance();
            let right = match self.parse_postfix() {
                Ok(x) => x,
                Err(err) => {
                    proof {
                        assert(factor_op(toks[k].kind) == Some(op));
                        assert forall|j: int, e: Expr| #[trigger] factor_tail(toks, start, j, allow, acc, e) implies false by {
                            let e1 = choose|e1: Expr| #[trigger] factor_tail(toks, k, j, allow, prev, e1);
                            let w = choose|w: (int, Expr)|
                                #[trigger] within(k + 1, j, w.0) && postfix_at(toks, k + 1, w.0, allow, w.1) && factor_tail(
                                    toks,
                                    w.0,
                                    j,
                                    allow,
                                    Expr::Binary { left: Box::new(prev), op, right: Box::new(w.1) },
                                    e1,
                                );
                        }
                    }
                    return Err(err);
                },
            };
            left = Expr::Binary { left: Box::new(left), op, right: Box::new(right) };
            proof {
                let here = self.pos as int;
                assert(factor_op(toks[k].kind) == Some(op));
                assert forall|j: int, e: Expr| #[trigger] factor_tail(toks, here, j, allow, left, e) implies factor_tail(
                    toks,
                    start,
                    j,
                    allow,
                    acc,
                    e,
                ) by {
                    let w = (here, right);
                    assert(within(k + 1, j, w.0));
                    assert(factor_tail(toks, k, j, allow, prev, e));
                }
                assert forall|j: int, e: Expr| #[trigger] factor_tail(toks, start, j, allow, acc, e) implies exists|e2: Expr|
                    #[trigger] factor_tail(toks, here, j, allow, left, e2) by {
                    let e1 = choose|e1: Expr| #[trigger] factor_tail(toks, k, j, allow, prev, e1);
                    let w = choose|w: (int, Expr)|
                        #[trigger] within(k + 1, j, w.0) && postfix_at(toks, k + 1, w.0, allow, w.1) && factor_tail(
                            toks,
                            w.0,
                            j,
                            allow,
                            Expr::Binary { left: Box::new(prev), op, right: Box::new(w.1) },
                            e1,
                        );
                    lemma_factor_tail_acc(
                        toks,
                        w.0,
                        j,
                        allow,
                        Expr::Binary { left: Box::new(prev), op, right: Box::new(w.1) },
                        e1,
                        left,
                    );
                }
            }
        }
        proof {
            let here = self.pos as int;
            assert(factor_tail(toks, here, here, allow, left, left));
            assert forall|j: int, e: Expr| #[trigger] factor_tail(toks, start, j, allow, acc, e) implies here == j by {
                let e2 = choose|e2: Expr| #[trigger] factor_tail(toks, here, j, allow, left, e2);
            }
        }
        Ok(left)
    }

    /// A primary expression followed by postfix field access (`.field`),
    /// indexing (`[i]`) and `?`, chainable: `a.b.c` parses as
    /// `FieldAccess(FieldAccess(a, b), c)`.
    fn parse_postfix(&mut self) -> (r: Result<Expr, ParseError>)
        requires
            old(self).wf(),
        ensures
            Self::moved_on(*old(self), *final(self)),
            points_at_token(r, old(self).tokens@),
            r is Ok ==> final(self).pos > old(self).pos,
            r is Ok ==> final(self).allow_struct_literal == old(self).allow_struct_literal,
            r matches Ok(e) ==> postfix_at(
                old(self).tokens@,
                old(self).pos as int,
                final(self).pos as int,
                old(self).allow_struct_literal,
                e,
            ),
            forall|j: int, e: Expr|
                #[trigger] postfix_at(old(self).tokens@, old(self).pos as int, j, old(self).allow_struct_literal, e) ==> r is Ok
                    && final(self).pos == j,
        decreases old(self).tokens@.len() - old(self).pos, 6int,
    {
        let ghost toks = self.tokens@;
        let ghost start = self.pos as int;
        let ghost allow = self.allow_struct_literal;
        let first = match self.parse_primary() {
            Ok(f) => f,
            Err(err) => {
                proof {
                    assert forall|j: int, e: Expr| #[trigger] postfix_at(toks, start, j, allow, e) implies false by {
                        let w = choose|w: (int, Expr)|
                            #[trigger] within(start, j, w.0) && primary_at(toks, start, w.0, allow, w.1) && postfix_tail(
                                toks,
                                w.0,
                                j,
                                allow,
                                w.1,
                                e,
                            );
                    }
                }
                return Err(err);
            },
        };
        let ghost mid = self.pos as int;
        proof {
            assert forall|j: int, e: Expr| #[trigger] postfix_at(toks, start, j, allow, e) implies exists|e2: Expr|
                #[trigger] postfix_tail(toks, mid, j, allow, first, e2) by {
                let w = choose|w: (int, Expr)|
                    #[trigger] within(start, j, w.0) && primary_at(toks, start, w.0, allow, w.1) && postfix_tail(
                        toks,
                        w.0,
                        j,
                        allow,
                        w.1,
                        e,
                    );
                lemma_postfix_tail_acc(toks, w.0, j, allow, w.1, e, first);
            }
        }
        let r = self.parse_postfix_rest(first);
        proof {
            if r is Ok {
                let e = r->Ok_0;
                let w = (mid, first);
                assert(within(start, self.pos as int, w.0));
                assert(postfix_at(toks, start, self.pos as int, allow, e));
            }
            assert forall|j: int, e: Expr| #[trigger] postfix_at(toks, start, j, allow, e) implies r is Ok && self.pos == j by {
                let e2 = choose|e2: Expr| #[trigger] postfix_tail(toks, mid, j, allow, first, e2);
            }
        }
        r
    }

    /// Applies postfix operations to `acc` for as long as one follows.
    fn parse_postfix_rest(&mut self, acc: Expr) -> (r: Result<Expr, ParseError>)
        requires
            old(self).wf(),
        ensures
            Self::moved_on(*old(self), *final(self)),
            points_at_token(r, old(self).tokens@),
            r is Ok ==> final(self).allow_struct_literal == old(self).allow_struct_literal,
            r matches Ok(e) ==> postfix_tail(
                old(self).tokens@,
                old(self).pos as int,
                final(self).pos as int,
                old(self).allow_struct_literal,
                acc,
                e,
            ),
            forall|j: int, e: Expr|
                #[trigger] postfix_tail(old(self).tokens@, old(self).pos as int, j, old(self).allow_struct_literal, acc, e)
                    ==> r is Ok && final(self).pos == j,
        decreases old(self).tokens@.len() - old(self).pos, 2int,
    {
        let ghost toks = self.tokens@;
        let ghost start = self.pos as int;
        let ghost allow = self.allow_struct_literal;
        let mut expr = acc;
        loop
            invariant
                Self::moved_on(*old(self), *self),
                self.allow_struct_literal == old(self).allow_struct_literal,
                toks == old(self).tokens@,
                start == old(self).pos,
                allow == old(self).allow_struct_literal,
                forall|j: int, e: Expr|
                    #[trigger] postfix_tail(toks, self.pos as int, j, allow, expr, e) ==> postfix_tail(
                        toks,
                        start,
                        j,
                        allow,
                        acc,
                        e,
                    ),
                forall|j: int, e: Expr|
                    #[trigger] postfix_tail(toks, start, j, allow, acc, e) ==> exists|e2: Expr|
                        #[trigger] postfix_tail(toks, self.pos as int, j, allow, expr, e2),
            ensures
                !(self.current().kind is Dot || self.current().kind is LBracket || self.current().kind is Question),
            decreases self.tokens@.len() - self.pos,
        {
            let ghost k = self.pos as int;
            let ghost prev = expr;
            if self.check(&TokenKind::Dot) {
                self.advance();
                let field = self.expect_identifier()?;
                expr = Expr::FieldAccess { object: Box::new(expr), field };
                proof {
                    let here = self.pos as int;
                    assert(toks[k + 1].kind == TokenKind::Identifier(field));
                    assert forall|j: int, e: Expr| #[trigger] postfix_tail(toks, here, j, allow, expr, e) implies postfix_tail(
                        toks,
                        start,
                        j,
                        allow,
                        acc,
                        e,
                    ) by {
                        assert(postfix_tail(toks, k, j, allow, prev, e));
                    }
                    assert forall|j: int, e: Expr| #[trigger] postfix_tail(toks, start, j, allow, acc, e) implies exists|e2: Expr|
                        #[trigger] postfix_tail(toks, here, j, allow, expr, e2) by {
                        let e1 = choose|e1: Expr| #[trigger] postfix_tail(toks, k, j, allow, prev, e1);
                        assert(postfix_tail(toks, here, j, allow, expr, e1));
                    }
                }
            } else if self.check(&TokenKind::LBracket) {
                self.advance();
                let prev_allow = self.allow_struct_literal;
                self.allow_struct_literal = true;
                let ghost inside = *self;
                let index = match self.parse_expr() {
                    Ok(x) => x,
                    Err(err) => {
                        proof {
                            assert(inside.tokens@ == toks && inside.pos == k + 1);
                            assert forall|j: int, e: Expr| #[trigger] postfix_tail(toks, start, j, allow, acc, e) implies false by {
                                let e1 = choose|e1: Expr| #[trigger] postfix_tail(toks, k, j, allow, prev, e1);
                                let w = choose|w: (int, Expr)|
                                    #[trigger] within(k + 1, j - 1, w.0) && expr_at(toks, k + 1, w.0, true, w.1)
                                        && toks[w.0].kind is RBracket && postfix_tail(
                                        toks,
                                        w.0 + 1,
                                        j,
                                        allow,
                                        Expr::Index { array: Box::new(prev), index: Box::new(w.1) },
                                        e1,
                                    );
                                assert(expr_at(inside.tokens@, inside.pos as int, w.0, inside.allow_struct_literal, w.1));
                            }
                        }
                        return Err(err);
                    },
                };
                self.allow_struct_literal = prev_allow;
                let ghost close = self.pos as int;
                if let Err(err) = self.expect(&TokenKind::RBracket, "]") {
                    proof {
                        assert forall|j: int, e: Expr| #[trigger] postfix_tail(toks, start, j, allow, acc, e) implies false by {
                            let e1 = choose|e1: Expr| #[trigger] postfix_tail(toks, k, j, allow, prev, e1);
                            let w = choose|w: (int, Expr)|
                                #[trigger] within(k + 1, j - 1, w.0) && expr_at(toks, k + 1, w.0, true, w.1)
                                    && toks[w.0].kind is RBracket && postfix_tail(
                                    toks,
                                    w.0 + 1,
                                    j,
                                    allow,
                                    Expr::Index { array: Box::new(prev), index: Box::new(w.1) },
                                    e1,
                                );
                            assert(w.0 == close);
                        }
                    }
                    return Err(err);
                }
                expr = Expr::Index { array: Box::new(expr), index: Box::new(index) };
                proof {
                    let here = self.pos as int;
                    assert forall|j: int, e: Expr| #[trigger] postfix_tail(toks, here, j, allow, expr, e) implies postfix_tail(
                        toks,
                        start,
                        j,
                        allow,
                        acc,
                        e,
                    ) by {
                        let w = (close, index);
                        assert(within(k + 1, j - 1, w.0));
                        assert(postfix_tail(toks, k, j, allow, prev, e));
                    }
                    assert forall|j: int, e: Expr| #[trigger] postfix_tail(toks, start, j, allow, acc, e) implies exists|e2: Expr|
                        #[trigger] postfix_tail(toks, here, j, allow, expr, e2) by {
                        let e1 = choose|e1: Expr| #[trigger] postfix_tail(toks, k, j, allow, prev, e1);
                        let w = choose|w: (int, Expr)|
                            #[trigger] within(k + 1, j - 1, w.0) && expr_at(toks, k + 1, w.0, true, w.1) && toks[w.0].kind
                                is RBracket && postfix_tail(
                                toks,
                                w.0 + 1,
                                j,
                                allow,
                                Expr::Index { array: Box::new(prev), index: Box::new(w.1) },
                                e1,
                            );
                        lemma_postfix_tail_acc(
                            toks,
                            w.0 + 1,
                            j,
                            allow,
                            Expr::Index { array: Box::new(prev), index: Box::new(w.1) },
                            e1,
                            expr,
                        );
                    }
                }
            } else if self.check(&TokenKind::Question) {
                self.advance();
                expr = Expr::Try(Box::new(expr));
                proof {
                    let here = self.pos as int;
                    assert forall|j: int, e: Expr| #[trigger] postfix_tail(toks, here, j, allow, expr, e) implies postfix_tail(
                        toks,
                        start,
                        j,
                        allow,
                        acc,
                        e,
                    ) by {
                        assert(postfix_tail(toks, k, j, allow, prev, e));
                    }
                    assert forall|j: int, e: Expr| #[trigger] postfix_tail(toks, start, j, allow, acc, e) implies exists|e2: Expr|
                        #[trigger] postfix_tail(toks, here, j, allow, expr, e2) by {
                        let e1 = choose|e1: Expr| #[trigger] postfix_tail(toks, k, j, allow, prev, e1);
                        assert(postfix_tail(toks, here, j, allow, expr, e1));
                    }
                }
            } else {
                break;
            }
        }
        proof {
            let here = self.pos as int;
            assert(postfix_tail(toks, here, here, allow, expr, expr));
            assert forall|j: int, e: Expr| #[trigger] postfix_tail(toks, start, j, allow, acc, e) implies here == j by {
                let e2 = choose|e2: Expr| #[trigger] postfix_tail(toks, here, j, allow, expr, e2);
            }
        }
        Ok(expr)
    }

    #[verifier::spinoff_prover]
    fn parse_primary(&mut self) -> (r: Result<Expr, ParseError>)
        requires
            old(self).wf(),
        ensures
            Self::moved_on(*old(self), *final(self)),
            points_at_token(r, old(self).tokens@),
            r is Ok ==> final(self).pos > old(self).pos,
            r is Ok ==> final(self).allow_struct_literal == old(self).allow_struct_literal,
            r matches Ok(e) ==> primary_at(
                old(self).tokens@,
                old(self).pos as int,
                final(self).pos as int,
                old(self).allow_struct_literal,
                e,
            ),
            forall|j: int, e: Expr|
                #[trigger] primary_at(old(self).tokens@, old(self).pos as int, j, old(self).allow_struct_literal, e)
                    ==> r is Ok && final(self).pos == j,
        decreases old(self).tokens@.len() - old(self).pos, 5int,
    {
        let ghost toks = self.tokens@;
        let ghost start = self.pos as int;
        let ghost allow = self.allow_struct_literal;
        let kind = copy_kind(self.peek_kind());
        match kind {
            TokenKind::LParen => {
                self.advance();
                let prev = self.allow_struct_literal;
                self.allow_struct_literal = true;
                let ghost inside = *self;
                let inner = match self.parse_expr() {
                    Ok(v) => v,
                    Err(err) => {
                        proof {
                            assert(inside.tokens@ == toks && inside.pos == start + 1);
                            assert forall|j: int, e: Expr| #[trigger] primary_at(toks, start, j, allow, e) implies false by {
                                assert(expr_at(toks, start + 1, j - 1, true, e));
                                assert(expr_at(inside.tokens@, inside.pos as int, j - 1, inside.allow_struct_literal, e));
                            }
                        }
                        return Err(err);
                    },
                };
                self.allow_struct_literal = prev;
                let ghost close = self.pos as int;
                proof {
                    assert(inside.tokens@ == toks && inside.pos == start + 1);
                    assert forall|j: int, e: Expr| #[trigger] primary_at(toks, start, j, allow, e) implies close == j - 1 by {
                        assert(expr_at(toks, start + 1, j - 1, true, e));
                        assert(expr_at(inside.tokens@, inside.pos as int, j - 1, inside.allow_struct_literal, e));
                    }
                }
                self.expect(&TokenKind::RParen, ")")?;
                proof {
                    assert(expr_at(toks, start + 1, close, true, inner));
                }
                Ok(inner)
            },
            TokenKind::LBracket => {
                self.advance();
                let prev = self.allow_struct_literal;
                self.allow_struct_literal = true;
                let ghost inside = *self;
                let elements = match self.parse_expr_list(&TokenKind::RBracket) {
                    Ok(v) => v,
                    Err(err) => {
                        proof {
                            assert(inside.tokens@ == toks && inside.pos == start + 1);
                            assert forall|j: int, e: Expr| #[trigger] primary_at(toks, start, j, allow, e) implies false by {
                                let es = e->ArrayLiteral_0;
                                assert(list_at(inside.tokens@, inside.pos as int, j - 1, es@));
                            }
                        }
                        return Err(err);
                    },
                };
                self.allow_struct_literal = prev;
                let ghost close = self.pos as int;
                proof {
                    assert(inside.tokens@ == toks && inside.pos == start + 1);
                    assert forall|j: int, e: Expr| #[trigger] primary_at(toks, start, j, allow, e) implies close == j - 1 by {
                        let es = e->ArrayLiteral_0;
                        assert(list_at(inside.tokens@, inside.pos as int, j - 1, es@));
                    }
                }
                self.expect(&TokenKind::RBracket, "]")?;
                proof {
                    assert(list_at(toks, start + 1, close, elements@));
                }
                Ok(Expr::ArrayLiteral(elements))
            },
            TokenKind::StringLiteral(value) => {
                self.advance();
                Ok(Expr::StringLiteral(value))
            },
            TokenKind::IntLiteral(value) => {
                self.advance();
                Ok(Expr::IntLiteral(value))
            },
            TokenKind::True => {
                self.advance();
                Ok(Expr::BoolLiteral(true))
            },
            TokenKind::False => {
                self.advance();
                Ok(Expr::BoolLiteral(false))
            },
            TokenKind::Identifier(name) => {
                self.advance();
                if self.check(&TokenKind::ColonColon) {
                    self.advance();
                    let variant = self.expect_identifier()?;
                    let fields = if self.check(&TokenKind::LParen) {
                        self.advance();
                        let prev = self.allow_struct_literal;
                        self.allow_struct_literal = true;
                        let ghost inside = *self;
                        let fields = match self.parse_struct_literal_fields() {
                            Ok(v) => v,
                            Err(err) => {
                                proof {
                                    assert(inside.tokens@ == toks && inside.pos == start + 4);
                                    assert forall|j: int, e: Expr| #[trigger] primary_at(toks, start, j, allow, e) implies false by {
                                        let fs = e->EnumLiteral_fields;
                                        assert(fields_at(inside.tokens@, inside.pos as int, j - 1, fs@));
                                    }
                                }
                                return Err(err);
                            },
                        };
                        self.allow_struct_literal = prev;
                        let ghost close = self.pos as int;
                        proof {
                            assert(inside.tokens@ == toks && inside.pos == start + 4);
                            assert forall|j: int, e: Expr| #[trigger] primary_at(toks, start, j, allow, e) implies close == j - 1 by {
                                let fs = e->EnumLiteral_fields;
                                assert(fields_at(inside.tokens@, inside.pos as int, j - 1, fs@));
                            }
                        }
                        self.expect(&TokenKind::RParen, ")")?;
                        proof {
                            assert(fields_at(toks, start + 4, close, fields@));
                        }
                        fields
                    } else {
                        Vec::new()
                    };
                    let e = Expr::EnumLiteral { enum_name: name, variant, fields };
                    proof {
                        assert(primary_at(toks, start, self.pos as int, allow, e));
                    }
                    Ok(e)
                } else if self.check(&TokenKind::LParen) {
                    self.advance();
                    let ghost inside = *self;
                    let args = match self.parse_call_args() {
                        Ok(v) => v,
                        Err(err) => {
                            proof {
                                assert(inside.tokens@ == toks && inside.pos == start + 2);
                                assert forall|j: int, e: Expr| #[trigger] primary_at(toks, start, j, allow, e) implies false by {
                                    let a = e->Call_args;
                                    assert(list_at(inside.tokens@, inside.pos as int, j - 1, a@));
                                }
                            }
                            return Err(err);
                        },
                    };
                    let ghost close = self.pos as int;
                    proof {
                        assert(inside.tokens@ == toks && inside.pos == start + 2);
                        assert forall|j: int, e: Expr| #[trigger] primary_at(toks, start, j, allow, e) implies close == j - 1 by {
                            let a = e->Call_args;
                            assert(list_at(inside.tokens@, inside.pos as int, j - 1, a@));
                        }
                    }
                    self.expect(&TokenKind::RParen, ")")?;
                    proof {
                        assert(list_at(toks, start + 2, close, args@));
                    }
                    Ok(Expr::Call { callee: name, args })
                } else if self.check(&TokenKind::LBrace) && self.allow_struct_literal {
                    self.parse_struct_literal(name)
                } else {
                    Ok(Expr::Identifier(name))
                }
            },
            _ => Err(self.unexpected("expression")),
        }
    }

    /// A struct literal's `{ fields }`, after its name.
    fn parse_struct_literal(&mut self, name: String) -> (r: Result<Expr, ParseError>)
        requires
            old(self).wf(),
            old(self).allow_struct_literal,
            old(self).pos > 0,
            old(self).tokens@[old(self).pos - 1].kind == TokenKind::Identifier(name),
            old(self).current().kind is LBrace,
        ensures
            Self::moved_on(*old(self), *final(self)),
            points_at_token(r, old(self).tokens@),
            r is Ok ==> final(self).pos > old(self).pos,
            r is Ok ==> final(self).allow_struct_literal == old(self).allow_struct_literal,
            r matches Ok(e) ==> primary_at(old(self).tokens@, old(self).pos - 1, final(self).pos as int, true, e),
            forall|j: int, e: Expr|
                #[trigger] primary_at(old(self).tokens@, old(self).pos - 1, j, true, e) ==> r is Ok && final(self).pos
                    == j,
        decreases old(self).tokens@.len() - old(self).pos, 14int,
    {
        let ghost toks = self.tokens@;
        let ghost start = self.pos as int;
        self.expect(&TokenKind::LBrace, "{")?;
        let prev = self.allow_struct_literal;
        self.allow_struct_literal = true;
        let ghost b_fields = *self;
        let fields = match self.parse_struct_literal_fields() {
            Ok(v) => v,
            Err(err) => {
                proof {
                    assert(b_fields.tokens@ == toks);
                    assert forall|j: int, e: Expr| #[trigger] primary_at(toks, start - 1, j, true, e) implies false by {
                        let fs = e->StructLiteral_fields;
                        assert(fields_at(toks, start + 1, j - 1, fs@));
                        assert(fields_at(b_fields.tokens@, b_fields.pos as int, j - 1, fs@));
                    }
                }
                return Err(err);
            },
        };
        self.allow_struct_literal = prev;
        let ghost close = self.pos as int;
        let ghost before = *self;
        if let Err(err) = self.expect(&TokenKind::RBrace, "}") {
            proof {
                assert(before.tokens@ == toks);
                assert forall|j: int, e: Expr| #[trigger] primary_at(toks, start - 1, j, true, e) implies false by {
                    let fs = e->StructLiteral_fields;
                    assert(fields_at(b_fields.tokens@, b_fields.pos as int, j - 1, fs@));
                }
            }
            return Err(err);
        }
        proof {
            assert(fields_at(toks, start + 1, close, fields@));
            assert forall|j: int, e: Expr| #[trigger] primary_at(toks, start - 1, j, true, e) implies self.pos == j by {
                let fs = e->StructLiteral_fields;
                assert(fields_at(b_fields.tokens@, b_fields.pos as int, j - 1, fs@));
            }
        }
        Ok(Expr::StructLiteral { name, fields })
    }

    /// Comma-separated `name: expr` pairs, possibly none, up to a `}` or
    /// `)`.
    fn parse_struct_literal_fields(&mut self) -> (r: Result<Vec<(String, Expr)>, ParseError>)
        requires
            old(self).wf(),
            old(self).allow_struct_literal,
        ensures
            Self::moved_on(*old(self), *final(self)),
            points_at_token(r, old(self).tokens@),
            r is Ok ==> final(self).allow_struct_literal == old(self).allow_struct_literal,
            r matches Ok(xs) ==> fields_at(old(self).tokens@, old(self).pos as int, final(self).pos as int, xs@),
            forall|j: int, xs: Seq<(String, Expr)>|
                #[trigger] fields_at(old(self).tokens@, old(self).pos as int, j, xs) && (old(self).tokens@[j].kind is RBrace || old(self).tokens@[j].kind is RParen) ==> r is Ok
                    && final(self).pos == j,
        decreases old(self).tokens@.len() - old(self).pos, 13int,
    {
        let ghost toks = self.tokens@;
        let ghost start = self.pos as int;
        let mut items: Vec<(String, Expr)> = Vec::new();
        if self.check(&TokenKind::RBrace) || self.check(&TokenKind::RParen) {
            proof {
                assert forall|j: int, xs: Seq<(String, Expr)>| #[trigger] fields_at(toks, start, j, xs) && (toks[j].kind is RBrace || toks[j].kind is RParen) implies j
                    == start by {
                    if !(xs.len() == 0 && start == j) {
                        let w = choose|w: (int, (String, Expr))|
                            #[trigger] within(start, j, w.0) && field_at(toks, start, w.0, w.1) && fields_tail(toks, w.0, j, seq![w.1], xs);
                        assert(field_at(toks, start, w.0, w.1));
                    }
                }
            }
            return Ok(items);
        }
        let ghost before = *self;
        let first = match self.parse_struct_literal_field() {
            Ok(v) => v,
            Err(err) => {
                proof {
                    assert(before.tokens@ == toks);
                    assert forall|j: int, xs: Seq<(String, Expr)>| #[trigger] fields_at(toks, start, j, xs) && (toks[j].kind is RBrace || toks[j].kind is RParen) implies false by {
                        if !(xs.len() == 0 && start == j) {
                            let w = choose|w: (int, (String, Expr))|
                                #[trigger] within(start, j, w.0) && field_at(toks, start, w.0, w.1) && fields_tail(toks, w.0, j, seq![w.1], xs);
                            assert(field_at(before.tokens@, before.pos as int, w.0, w.1));
                        }
                    }
                }
                return Err(err);
            },
        };
        items.push(first);
        let ghost mid = self.pos as int;
        proof {
            assert(items@ == seq![first]);
            assert forall|j: int, xs: Seq<(String, Expr)>| #[trigger] fields_at(toks, start, j, xs) && (toks[j].kind is RBrace || toks[j].kind is RParen) implies exists|
                xs2: Seq<(String, Expr)>,
            | #[trigger] fields_tail(toks, mid, j, items@, xs2) by {
                let w = choose|w: (int, (String, Expr))|
                    #[trigger] within(start, j, w.0) && field_at(toks, start, w.0, w.1) && fields_tail(toks, w.0, j, seq![w.1], xs);
                lemma_fields_tail_acc(toks, w.0, j, seq![w.1], xs, items@);
            }
        }
        while self.check(&TokenKind::Comma)
            invariant
                Self::moved_on(*old(self), *self),
                self.allow_struct_literal == old(self).allow_struct_literal,
                self.allow_struct_literal,
                toks == old(self).tokens@,
                start == old(self).pos,
                mid > start,
                forall|j: int, xs: Seq<(String, Expr)>|
                    #[trigger] fields_tail(toks, self.pos as int, j, items@, xs) ==> fields_tail(
                        toks,
                        mid,
                        j,
                        seq![first],
                        xs,
                    ),
                forall|j: int, xs: Seq<(String, Expr)>|
                    #[trigger] fields_at(toks, start, j, xs) && (toks[j].kind is RBrace || toks[j].kind is RParen) ==> exists|xs2: Seq<(String, Expr)>|
                        #[trigger] fields_tail(toks, self.pos as int, j, items@, xs2),
            decreases self.tokens@.len() - self.pos,
        {
            let ghost k = self.pos as int;
            let ghost prev = items@;
            self.advance();
            let ghost before = *self;
            let x = match self.parse_struct_literal_field() {
                Ok(v) => v,
                Err(err) => {
                    proof {
                        assert(before.tokens@ == toks);
                        assert forall|j: int, xs: Seq<(String, Expr)>| #[trigger] fields_at(toks, start, j, xs) && (toks[j].kind is RBrace || toks[j].kind is RParen) implies false by {
                            let xs1 = choose|xs1: Seq<(String, Expr)>| #[trigger] fields_tail(toks, k, j, prev, xs1);
                            let w = choose|w: (int, (String, Expr))|
                                #[trigger] within(k + 1, j, w.0) && field_at(toks, k + 1, w.0, w.1) && fields_tail(toks, w.0, j, prev.push(w.1), xs1);
                            assert(field_at(before.tokens@, before.pos as int, w.0, w.1));
                        }
                    }
                    return Err(err);
                },
            };
            items.push(x);
            proof {
                let here = self.pos as int;
                assert(items@ == prev.push(x));
                assert forall|j: int, xs: Seq<(String, Expr)>| #[trigger] fields_tail(toks, here, j, items@, xs) implies fields_tail(
                    toks,
                    mid,
                    j,
                    seq![first],
                    xs,
                ) by {
                    let w = (here, x);
                    assert(within(k + 1, j, w.0));
                    assert(fields_tail(toks, k, j, prev, xs));
                }
                assert forall|j: int, xs: Seq<(String, Expr)>| #[trigger] fields_at(toks, start, j, xs) && (toks[j].kind is RBrace || toks[j].kind is RParen) implies exists|
                    xs2: Seq<(String, Expr)>,
                | #[trigger] fields_tail(toks, here, j, items@, xs2) by {
                    let xs1 = choose|xs1: Seq<(String, Expr)>| #[trigger] fields_tail(toks, k, j, prev, xs1);
                    let w = choose|w: (int, (String, Expr))|
                        #[trigger] within(k + 1, j, w.0) && field_at(toks, k + 1, w.0, w.1) && fields_tail(toks, w.0, j, prev.push(w.1), xs1);
                    lemma_fields_tail_acc(toks, w.0, j, prev.push(w.1), xs1, items@);
                }
            }
        }
        proof {
            let here = self.pos as int;
            assert(fields_tail(toks, here, here, items@, items@));
            let w = (mid, first);
            assert(within(start, here, w.0));
            assert(fields_at(toks, start, here, items@));
            assert forall|j: int, xs: Seq<(String, Expr)>| #[trigger] fields_at(toks, start, j, xs) && (toks[j].kind is RBrace || toks[j].kind is RParen) implies here
                == j by {
                let xs2 = choose|xs2: Seq<(String, Expr)>| #[trigger] fields_tail(toks, here, j, items@, xs2);
            }
        }
        Ok(items)
    }

    fn parse_struct_literal_field(&mut self) -> (r: Result<(String, Expr), ParseError>)
        requires
            old(self).wf(),
            old(self).allow_struct_literal,
        ensures
            Self::moved_on(*old(self), *final(self)),
            points_at_token(r, old(self).tokens@),
            r is Ok ==> final(self).pos > old(self).pos,
            r is Ok ==> final(self).allow_struct_literal == old(self).allow_struct_literal,
            r matches Ok(f) ==> field_at(old(self).tokens@, old(self).pos as int, final(self).pos as int, f),
            forall|j: int, f: (String, Expr)|
                #[trigger] field_at(old(self).tokens@, old(self).pos as int, j, f) ==> r is Ok && final(self).pos == j,
        decreases old(self).tokens@.len() - old(self).pos, 12int,
    {
        let ghost toks = self.tokens@;
        let ghost start = self.pos as int;
        let field_name = self.expect_identifier()?;
        self.expect(&TokenKind::Colon, ":")?;
        let ghost before = *self;
        let value = match self.parse_expr() {
            Ok(v) => v,
            Err(err) => {
                proof {
                    assert(before.tokens@ == toks);
                    assert forall|j: int, f: (String, Expr)| #[trigger] field_at(toks, start, j, f) implies false by {
                        assert(expr_at(before.tokens@, before.pos as int, j, before.allow_struct_literal, f.1));
                    }
                }
                return Err(err);
            },
        };
        proof {
            assert forall|j: int, f: (String, Expr)| #[trigger] field_at(toks, start, j, f) implies self.pos == j by {
                assert(expr_at(before.tokens@, before.pos as int, j, before.allow_struct_literal, f.1));
            }
        }
        Ok((field_name, value))
    }

    /// Comma-separated arguments, possibly none, up to the `)`.
    fn parse_call_args(&mut self) -> (r: Result<Vec<Expr>, ParseError>)
        requires
            old(self).wf(),
        ensures
            Self::moved_on(*old(self), *final(self)),
            points_at_token(r, old(self).tokens@),
            r is Ok ==> final(self).allow_struct_literal == old(self).allow_struct_literal,
            r matches Ok(args) ==> list_at(old(self).tokens@, old(self).pos as int, final(self).pos as int, args@),
            forall|j: int, es: Seq<Expr>|
                #[trigger] list_at(old(self).tokens@, old(self).pos as int, j, es) && old(self).tokens@[j].kind is RParen
                    ==> r is Ok && final(self).pos == j,
        decreases old(self).tokens@.len() - old(self).pos, 14int,
    {
        let prev = self.allow_struct_literal;
        self.allow_struct_literal = true;
        let args = self.parse_expr_list(&TokenKind::RParen);
        self.allow_struct_literal = prev;
        args
    }

    /// Comma-separated expressions, possibly none, up to `close`.
    fn parse_expr_list(&mut self, close: &TokenKind) -> (r: Result<Vec<Expr>, ParseError>)
        requires
            old(self).wf(),
            old(self).allow_struct_literal,
            *close is RParen || *close is RBracket,
        ensures
            Self::moved_on(*old(self), *final(self)),
            points_at_token(r, old(self).tokens@),
            r is Ok ==> final(self).allow_struct_literal == old(self).allow_struct_literal,
            r matches Ok(xs) ==> list_at(old(self).tokens@, old(self).pos as int, final(self).pos as int, xs@),
            forall|j: int, xs: Seq<Expr>|
                #[trigger] list_at(old(self).tokens@, old(self).pos as int, j, xs) && old(self).tokens@[j].kind == *close ==> r is Ok
                    && final(self).pos == j,
        decreases old(self).tokens@.len() - old(self).pos, 13int,
    {
        let ghost toks = self.tokens@;
        let ghost start = self.pos as int;
        let mut items: Vec<Expr> = Vec::new();
        if self.check(close) {
            proof {
                assert forall|j: int, xs: Seq<Expr>| #[trigger] list_at(toks, start, j, xs) && toks[j].kind == *close implies j
                    == start by {
                    if !(xs.len() == 0 && start == j) {
                        let w = choose|w: (int, Expr)|
                            #[trigger] within(start, j, w.0) && expr_at(toks, start, w.0, true, w.1) && list_tail(toks, w.0, j, seq![w.1], xs);
                        lemma_expr_starts(toks, start, w.0, true, w.1);
                    }
                }
            }
            return Ok(items);
        }
        let ghost before = *self;
        let first = match self.parse_expr() {
            Ok(v) => v,
            Err(err) => {
                proof {
                    assert(before.tokens@ == toks);
                    assert forall|j: int, xs: Seq<Expr>| #[trigger] list_at(toks, start, j, xs) && toks[j].kind == *close implies false by {
                        if !(xs.len() == 0 && start == j) {
                            let w = choose|w: (int, Expr)|
                                #[trigger] within(start, j, w.0) && expr_at(toks, start, w.0, true, w.1) && list_tail(toks, w.0, j, seq![w.1], xs);
                            assert(expr_at(before.tokens@, before.pos as int, w.0, before.allow_struct_literal, w.1));
                        }
                    }
                }
                return Err(err);
            },
        };
        items.push(first);
        let ghost mid = self.pos as int;
        proof {
            assert(items@ == seq![first]);
            assert forall|j: int, xs: Seq<Expr>| #[trigger] list_at(toks, start, j, xs) && toks[j].kind == *close implies exists|
                xs2: Seq<Expr>,
            | #[trigger] list_tail(toks, mid, j, items@, xs2) by {
                let w = choose|w: (int, Expr)|
                    #[trigger] within(start, j, w.0) && expr_at(toks, start, w.0, true, w.1) && list_tail(toks, w.0, j, seq![w.1], xs);
                lemma_list_tail_acc(toks, w.0, j, seq![w.1], xs, items@);
            }
        }
        while self.check(&TokenKind::Comma)
            invariant
                Self::moved_on(*old(self), *self),
                self.allow_struct_literal == old(self).allow_struct_literal,
                self.allow_struct_literal,
                toks == old(self).tokens@,
                start == old(self).pos,
                mid > start,
                forall|j: int, xs: Seq<Expr>|
                    #[trigger] list_tail(toks, self.pos as int, j, items@, xs) ==> list_tail(
                        toks,
                        mid,
                        j,
                        seq![first],
                        xs,
                    ),
                forall|j: int, xs: Seq<Expr>|
                    #[trigger] list_at(toks, start, j, xs) && toks[j].kind == *close ==> exists|xs2: Seq<Expr>|
                        #[trigger] list_tail(toks, self.pos as int, j, items@, xs2),
            decreases self.tokens@.len() - self.pos,
        {
            let ghost k = self.pos as int;
            let ghost prev = items@;
            self.advance();
            let ghost before = *self;
            let x = match self.parse_expr() {
                Ok(v) => v,
                Err(err) => {
                    proof {
                        assert(before.tokens@ == toks);
                        assert forall|j: int, xs: Seq<Expr>| #[trigger] list_at(toks, start, j, xs) && toks[j].kind == *close implies false by {
                            let xs1 = choose|xs1: Seq<Expr>| #[trigger] list_tail(toks, k, j, prev, xs1);
                            let w = choose|w: (int, Expr)|
                                #[trigger] within(k + 1, j, w.0) && expr_at(toks, k + 1, w.0, true, w.1) && list_tail(toks, w.0, j, prev.push(w.1), xs1);
                            assert(expr_at(before.tokens@, before.pos as int, w.0, before.allow_struct_literal, w.1));
                        }
                    }
                    return Err(err);
                },
            };
            items.push(x);
            proof {
                let here = self.pos as int;
                assert(items@ == prev.push(x));
                assert forall|j: int, xs: Seq<Expr>| #[trigger] list_tail(toks, here, j, items@, xs) implies list_tail(
                    toks,
                    mid,
                    j,
                    seq![first],
                    xs,
                ) by {
                    let w = (here, x);
                    assert(within(k + 1, j, w.0));
                    assert(list_tail(toks, k, j, prev, xs));
                }
                assert forall|j: int, xs: Seq<Expr>| #[trigger] list_at(toks, start, j, xs) && toks[j].kind == *close implies exists|
                    xs2: Seq<Expr>,
                | #[trigger] list_tail(toks, here, j, items@, xs2) by {
                    let xs1 = choose|xs1: Seq<Expr>| #[trigger] list_tail(toks, k, j, prev, xs1);
                    let w = choose|w: (int, Expr)|
                        #[trigger] within(k + 1, j, w.0) && expr_at(toks, k + 1, w.0, true, w.1) && list_tail(toks, w.0, j, prev.push(w.1), xs1);
                    lemma_list_tail_acc(toks, w.0, j, prev.push(w.1), xs1, items@);
                }
            }
        }
        proof {
            let here = self.pos as int;
            assert(list_tail(toks, here, here, items@, items@));
            let w = (mid, first);
            assert(within(start, here, w.0));
            assert(list_at(toks, start, here, items@));
            assert forall|j: int, xs: Seq<Expr>| #[trigger] list_at(toks, start, j, xs) && toks[j].kind == *close implies here
                == j by {
                let xs2 = choose|xs2: Seq<Expr>| #[trigger] list_tail(toks, here, j, items@, xs2);
            }
        }
        Ok(items)
    }

    // --- helpers ---

    fn peek(&self) -> (r: &Token)
        requires
            self.wf(),
        ensures
            *r == self.current(),
    {
        &self.tokens[self.pos]
    }

    fn peek_kind(&self) -> (r: &TokenKind)
        requires
            self.wf(),
        ensures
            *r == self.current().kind,
    {
        &self.tokens[self.pos].kind
    }

    /// What follows an identifier at the current position, for telling
    /// statements apart: 1 for `:=`, 2 for `=`, 3 for `[`, 0 otherwise.
    fn peek_at_kind(&self, offset: usize) -> (r: u8)
        requires
            self.wf(),
        ensures
            r == 1 ==> self.pos + offset < self.tokens@.len() && self.tokens@[self.pos + offset].kind is ColonEq,
            r == 2 ==> self.pos + offset < self.tokens@.len() && self.tokens@[self.pos + offset].kind is Eq,
            r == 3 ==> self.pos + offset < self.tokens@.len() && self.tokens@[self.pos + offset].kind is LBracket,
            r == 0 ==> self.pos + offset >= self.tokens@.len() || !(self.tokens@[self.pos + offset].kind is ColonEq
                || self.tokens@[self.pos + offset].kind is Eq || self.tokens@[self.pos + offset].kind is LBracket),
            r <= 3,
    {
        if offset < self.tokens.len() - self.pos {
            match &self.tokens[self.pos + offset].kind {
                TokenKind::ColonEq => 1,
                TokenKind::Eq => 2,
                TokenKind::LBracket => 3,
                _ => 0,
            }
        } else {
            0
        }
    }

    fn check(&self, kind: &TokenKind) -> (r: bool)
        requires
            self.wf(),
        ensures
            r == (self.current().kind@ == kind@),
    {
        same_kind(self.peek_kind(), kind)
    }

    /// Returns the current token and moves past it, except at the last
    /// token (`Eof`), where the position stays.
    fn advance(&mut self) -> (r: Token)
        requires
            old(self).wf(),
        ensures
            Self::moved_on(*old(self), *final(self)),
            r == old(self).current(),
            final(self).allow_struct_literal == old(self).allow_struct_literal,
            old(self).pos < old(self).tokens@.len() - 1 ==> final(self).pos == old(self).pos + 1,
            old(self).pos == old(self).tokens@.len() - 1 ==> final(self).pos == old(self).pos,
            !(old(self).current().kind is Eof) ==> final(self).pos == old(self).pos + 1,
    {
        let tok = Token { kind: copy_kind(&self.tokens[self.pos].kind), span: self.tokens[self.pos].span };
        if self.pos < self.tokens.len() - 1 {
            self.pos = self.pos + 1;
        }
        tok
    }

    /// The error for an unexpected current token.
    fn unexpected(&self, expected_desc: &str) -> (r: ParseError)
        requires
            self.wf(),
        ensures
            r == (ParseError::UnexpectedToken {
                expected: r->UnexpectedToken_expected,
                found: self.current().kind,
                span: self.current().span,
            }),
            r->UnexpectedToken_expected@ == expected_desc@,
    {
        ParseError::UnexpectedToken {
            expected: string_of(expected_desc),
            found: copy_kind(self.peek_kind()),
            span: self.peek().span,
        }
    }

    /// Consumes the current token if it is `kind`; otherwise reports what
    /// was expected and what was found.
    fn expect(&mut self, kind: &TokenKind, expected_desc: &str) -> (r: Result<Token, ParseError>)
        requires
            old(self).wf(),
            !(*kind is Eof),
        ensures
            Self::moved_on(*old(self), *final(self)),
            points_at_token(r, old(self).tokens@),
            final(self).allow_struct_literal == old(self).allow_struct_literal,
            (r is Ok) == (old(self).current().kind@ == kind@),
            r is Ok ==> final(self).pos == old(self).pos + 1,
            r matches Err(e) ==> e == (ParseError::UnexpectedToken {
                expected: e->UnexpectedToken_expected,
                found: old(self).current().kind,
                span: old(self).current().span,
            }) && e->UnexpectedToken_expected@ == expected_desc@,
    {
        if self.check(kind) {
            Ok(self.advance())
        } else {
            Err(self.unexpected(expected_desc))
        }
    }

    /// Consumes an identifier and returns its name.
    fn expect_identifier(&mut self) -> (r: Result<String, ParseError>)
        requires
            old(self).wf(),
        ensures
            Self::moved_on(*old(self), *final(self)),
            points_at_token(r, old(self).tokens@),
            final(self).allow_struct_literal == old(self).allow_struct_literal,
            (r is Ok) == (old(self).current().kind is Identifier),
            r matches Ok(name) ==> old(self).current().kind == TokenKind::Identifier(name)
                && final(self).pos == old(self).pos + 1,
            r matches Err(e) ==> e == (ParseError::UnexpectedToken {
                expected: e->UnexpectedToken_expected,
                found: old(self).current().kind,
                span: old(self).current().span,
            }),
    {
        let kind = copy_kind(self.peek_kind());
        match kind {
            TokenKind::Identifier(name) => {
                self.advance();
                Ok(name)
            },
            _ => Err(self.unexpected("identifier")),
        }
    }
}

/// After postfix operations on `acc` from `k`, the rest of an
/// expression (factors, terms, comparisons, equalities) reaching `j`
/// gives `e`.
spec fn from_postfix(toks: Seq<Token>, k: int, j: int, acc: Expr, e: Expr) -> bool {
    exists|w: (int, Expr)|
        #[trigger] within(k - 1, j, w.0) && postfix_tail(toks, k, w.0, true, acc, w.1) && from_factor(toks, w.0, j, w.1, e)
}

spec fn from_factor(toks: Seq<Token>, k: int, j: int, acc: Expr, e: Expr) -> bool {
    exists|w: (int, Expr)|
        #[trigger] within(k - 1, j, w.0) && factor_tail(toks, k, w.0, true, acc, w.1) && from_term(toks, w.0, j, w.1, e)
}

spec fn from_term(toks: Seq<Token>, k: int, j: int, acc: Expr, e: Expr) -> bool {
    exists|w: (int, Expr)|
        #[trigger] within(k - 1, j, w.0) && term_tail(toks, k, w.0, true, acc, w.1) && from_comparison(toks, w.0, j, w.1, e)
}

spec fn from_comparison(toks: Seq<Token>, k: int, j: int, acc: Expr, e: Expr) -> bool {
    exists|w: (int, Expr)|
        #[trigger] within(k - 1, j, w.0) && comparison_tail(toks, k, w.0, true, acc, w.1) && expr_tail(toks, w.0, j, true, w.1, e)
}

proof fn lemma_from_comparison_acc(toks: Seq<Token>, k: int, j: int, acc: Expr, e: Expr, acc2: Expr)
    requires
        from_comparison(toks, k, j, acc, e),
    ensures
        exists|e2: Expr| #[trigger] from_comparison(toks, k, j, acc2, e2),
{
    let w = choose|w: (int, Expr)|
        #[trigger] within(k - 1, j, w.0) && comparison_tail(toks, k, w.0, true, acc, w.1) && expr_tail(toks, w.0, j, true, w.1, e);
    lemma_comparison_tail_acc(toks, k, w.0, true, acc, w.1, acc2);
    let x = choose|x: Expr| #[trigger] comparison_tail(toks, k, w.0, true, acc2, x);
    lemma_expr_tail_acc(toks, w.0, j, true, w.1, e, x);
    let e2 = choose|e2: Expr| #[trigger] expr_tail(toks, w.0, j, true, x, e2);
    let v = (w.0, x);
    assert(within(k - 1, j, v.0));
    assert(from_comparison(toks, k, j, acc2, e2));
}

proof fn lemma_from_term_acc(toks: Seq<Token>, k: int, j: int, acc: Expr, e: Expr, acc2: Expr)
    requires
        from_term(toks, k, j, acc, e),
    ensures
        exists|e2: Expr| #[trigger] from_term(toks, k, j, acc2, e2),
{
    let w = choose|w: (int, Expr)|
        #[trigger] within(k - 1, j, w.0) && term_tail(toks, k, w.0, true, acc, w.1) && from_comparison(toks, w.0, j, w.1, e);
    lemma_term_tail_acc(toks, k, w.0, true, acc, w.1, acc2);
    let x = choose|x: Expr| #[trigger] term_tail(toks, k, w.0, true, acc2, x);
    lemma_from_comparison_acc(toks, w.0, j, w.1, e, x);
    let e2 = choose|e2: Expr| #[trigger] from_comparison(toks, w.0, j, x, e2);
    let v = (w.0, x);
    assert(within(k - 1, j, v.0));
    assert(from_term(toks, k, j, acc2, e2));
}

proof fn lemma_from_factor_acc(toks: Seq<Token>, k: int, j: int, acc: Expr, e: Expr, acc2: Expr)
    requires
        from_factor(toks, k, j, acc, e),
    ensures
        exists|e2: Expr| #[trigger] from_factor(toks, k, j, acc2, e2),
{
    let w = choose|w: (int, Expr)|
        #[trigger] within(k - 1, j, w.0) && factor_tail(toks, k, w.0, true, acc, w.1) && from_term(toks, w.0, j, w.1, e);
    lemma_factor_tail_acc(toks, k, w.0, true, acc, w.1, acc2);
    let x = choose|x: Expr| #[trigger] factor_tail(toks, k, w.0, true, acc2, x);
    lemma_from_term_acc(toks, w.0, j, w.1, e, x);
    let e2 = choose|e2: Expr| #[trigger] from_term(toks, w.0, j, x, e2);
    let v = (w.0, x);
    assert(within(k - 1, j, v.0));
    assert(from_factor(toks, k, j, acc2, e2));
}

proof fn lemma_from_postfix_acc(toks: Seq<Token>, k: int, j: int, acc: Expr, e: Expr, acc2: Expr)
    requires
        from_postfix(toks, k, j, acc, e),
    ensures
        exists|e2: Expr| #[trigger] from_postfix(toks, k, j, acc2, e2),
{
    let w = choose|w: (int, Expr)|
        #[trigger] within(k - 1, j, w.0) && postfix_tail(toks, k, w.0, true, acc, w.1) && from_factor(toks, w.0, j, w.1, e);
    lemma_postfix_tail_acc(toks, k, w.0, true, acc, w.1, acc2);
    let x = choose|x: Expr| #[trigger] postfix_tail(toks, k, w.0, true, acc2, x);
    lemma_from_factor_acc(toks, w.0, j, w.1, e, x);
    let e2 = choose|e2: Expr| #[trigger] from_factor(toks, w.0, j, x, e2);
    let v = (w.0, x);
    assert(within(k - 1, j, v.0));
    assert(from_postfix(toks, k, j, acc2, e2));
}

/// Nothing continues an expression at a `=`.
proof fn lemma_from_postfix_at_eq(toks: Seq<Token>, k: int, j: int, acc: Expr, e: Expr)
    requires
        from_postfix(toks, k, j, acc, e),
        toks[k].kind is Eq,
    ensures
        j == k,
{
    let w1 = choose|w: (int, Expr)|
        #[trigger] within(k - 1, j, w.0) && postfix_tail(toks, k, w.0, true, acc, w.1) && from_factor(toks, w.0, j, w.1, e);
    let w2 = choose|w: (int, Expr)|
        #[trigger] within(w1.0 - 1, j, w.0) && factor_tail(toks, w1.0, w.0, true, w1.1, w.1) && from_term(toks, w.0, j, w.1, e);
    let w3 = choose|w: (int, Expr)|
        #[trigger] within(w2.0 - 1, j, w.0) && term_tail(toks, w2.0, w.0, true, w2.1, w.1) && from_comparison(toks, w.0, j, w.1, e);
    let w4 = choose|w: (int, Expr)|
        #[trigger] within(w3.0 - 1, j, w.0) && comparison_tail(toks, w3.0, w.0, true, w3.1, w.1) && expr_tail(toks, w.0, j, true, w.1, e);
}

/// An expression that starts `name [` is `name[index]` followed by the
/// rest of an expression.
proof fn lemma_index_expr(toks: Seq<Token>, i: int, j: int, n: String, e: Expr)
    requires
        expr_at(toks, i, j, true, e),
        toks[i].kind == TokenKind::Identifier(n),
        toks[i + 1].kind is LBracket,
    ensures
        exists|w: (int, Expr)|
            #[trigger] within(i + 2, j - 1, w.0) && expr_at(toks, i + 2, w.0, true, w.1) && toks[w.0].kind is RBracket
                && from_postfix(toks, w.0 + 1, j, Expr::Index { array: Box::new(Expr::Identifier(n)), index: Box::new(w.1) }, e),
{
    let w5 = choose|w: (int, Expr)|
        #[trigger] within(i, j, w.0) && comparison_at(toks, i, w.0, true, w.1) && expr_tail(toks, w.0, j, true, w.1, e);
    let w4 = choose|w: (int, Expr)|
        #[trigger] within(i, w5.0, w.0) && term_at(toks, i, w.0, true, w.1) && comparison_tail(toks, w.0, w5.0, true, w.1, w5.1);
    let w3 = choose|w: (int, Expr)|
        #[trigger] within(i, w4.0, w.0) && factor_at(toks, i, w.0, true, w.1) && term_tail(toks, w.0, w4.0, true, w.1, w4.1);
    let w2 = choose|w: (int, Expr)|
        #[trigger] within(i, w3.0, w.0) && postfix_at(toks, i, w.0, true, w.1) && factor_tail(toks, w.0, w3.0, true, w.1, w3.1);
    let w1 = choose|w: (int, Expr)|
        #[trigger] within(i, w2.0, w.0) && primary_at(toks, i, w.0, true, w.1) && postfix_tail(toks, w.0, w2.0, true, w.1, w2.1);
    assert(w1.0 == i + 1 && w1.1 == Expr::Identifier(n));
    let acc = Expr::Index { array: Box::new(Expr::Identifier(n)), index: Box::new(Expr::IntLiteral(0)) };
    let w = choose|w: (int, Expr)|
        #[trigger] within(i + 2, w2.0 - 1, w.0) && expr_at(toks, i + 2, w.0, true, w.1) && toks[w.0].kind is RBracket
            && postfix_tail(toks, w.0 + 1, w2.0, true, Expr::Index { array: Box::new(Expr::Identifier(n)), index: Box::new(w.1) }, w2.1);
    let x0 = Expr::Index { array: Box::new(Expr::Identifier(n)), index: Box::new(w.1) };
    let v4 = (w5.0, w5.1);
    assert(within(w4.0 - 1, j, v4.0));
    assert(from_comparison(toks, w4.0, j, w4.1, e));
    let v3 = (w4.0, w4.1);
    assert(within(w3.0 - 1, j, v3.0));
    assert(from_term(toks, w3.0, j, w3.1, e));
    let v2 = (w3.0, w3.1);
    assert(within(w2.0 - 1, j, v2.0));
    assert(from_factor(toks, w2.0, j, w2.1, e));
    let v1 = (w2.0, w2.1);
    assert(within(w.0 + 1 - 1, j, v1.0));
    assert(from_postfix(toks, w.0 + 1, j, x0, e));
    assert(within(i + 2, j - 1, w.0));
}

/// The text `{:?}` gives for a parse error.
pub open spec fn parse_error_debug(e: ParseError) -> Seq<char> {
    match e {
        ParseError::UnexpectedToken { expected, found, span } => "UnexpectedToken { expected: "@
            + str_debug(expected@) + ", found: "@ + kind_debug(found) + ", span: "@ + span_debug(span)
            + " }"@,
        ParseError::UnexpectedEof { expected } => "UnexpectedEof { expected: "@ + str_debug(expected@)
            + " }"@,
    }
}

impl ParseError {
    /// The error as `{:?}` writes it.
    pub fn debug_text(&self) -> (r: String)
        ensures
            r@ == parse_error_debug(*self),
    {
        match self {
            ParseError::UnexpectedToken { expected, found, span } => {
                let t = concat(&string_of("UnexpectedToken { expected: "), str_debug_text(expected.as_str()).as_str());
                let t = concat(&t, ", found: ");
                let t = concat(&t, found.debug_text().as_str());
                let t = concat(&t, ", span: ");
                let t = concat(&t, span.debug_text().as_str());
                concat(&t, " }")
            },
            ParseError::UnexpectedEof { expected } => {
                let t = concat(&string_of("UnexpectedEof { expected: "), str_debug_text(expected.as_str()).as_str());
                concat(&t, " }")
            },
        }
    }
}

} // verus!
