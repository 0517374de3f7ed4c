//! The grammar of Kairo source, as relations between token ranges and
//! syntax trees.
//!
//! `x_at(toks, i, j, ..., v)` says that the tokens `toks[i..j]` derive `v`
//! as an `x`. Lists and chains of binary operators are read from left to
//! right by `x_tail(toks, k, j, ..., acc, v)`: the part read so far gave
//! `acc`, and the tokens `toks[k..j]` extend it to `v`. A chain or list
//! goes on as long as the next token continues it, so the relations
//! describe the longest reading, and one that decides between
//! alternatives by the next tokens (an identifier followed by `(` is a
//! call, not a variable). Binary operators of one precedence level
//! associate to the left; the levels, lowest first, are equality,
//! comparison, term, factor, postfix and primary. `allow` says whether
//! `Name { ... }` is read as a struct literal: it is not directly inside
//! the head of an `if`, `while` or `match`, where the `{` opens the block.
use vstd::prelude::*;
use crate::ast::{BinaryOp, EnumDecl, EnumVariant, Expr, FunctionDecl, MatchArm, Param, Pattern, Program, Stmt, StructDecl};
use crate::token::{Token, TokenKind};
use crate::semantics::{sem_binary, SpecError};
use crate::value::SpecValue;

verus! {

/// `lo < m <= hi`: where a part that starts after `lo` may end within a
/// range ending at `hi`.
pub open spec fn within(lo: int, hi: int, m: int) -> bool {
    lo < m <= hi
}

/// The operator a token spells at the equality level.
pub open spec fn equality_op(k: TokenKind) -> Option<BinaryOp> {
    match k {
        TokenKind::EqEq => Some(BinaryOp::Eq),
        TokenKind::NotEq => Some(BinaryOp::NotEq),
        _ => None,
    }
}

/// The operator a token spells at the comparison level.
pub open spec fn comparison_op(k: TokenKind) -> Option<BinaryOp> {
    match k {
        TokenKind::Lt => Some(BinaryOp::Lt),
        TokenKind::Gt => Some(BinaryOp::Gt),
        TokenKind::LtEq => Some(BinaryOp::Le),
        TokenKind::GtEq => Some(BinaryOp::Ge),
        _ => None,
    }
}

/// The operator a token spells at the term level.
pub open spec fn term_op(k: TokenKind) -> Option<BinaryOp> {
    match k {
        TokenKind::Plus => Some(BinaryOp::Add),
        TokenKind::Minus => Some(BinaryOp::Sub),
        _ => None,
    }
}

/// The operator a token spells at the factor level.
pub open spec fn factor_op(k: TokenKind) -> Option<BinaryOp> {
    match k {
        TokenKind::Star => Some(BinaryOp::Mul),
        TokenKind::Slash => Some(BinaryOp::Div),
        _ => None,
    }
}

/// A token an expression can start with.
pub open spec fn starts_expr(k: TokenKind) -> bool {
    k is LParen || k is LBracket || k is IntLiteral || k is StringLiteral || k is True || k is False
        || k is Identifier
}

/// A primary expression: a literal, a variable, a call, a struct, enum
/// or array literal, or a parenthesized expression.
pub open spec fn primary_at(toks: Seq<Token>, i: int, j: int, allow: bool, e: Expr) -> bool
    decreases j - i, 0int,
{
    if 0 <= i < j {
        if toks[i].kind is LParen {
            toks[j - 1].kind is RParen && i + 1 < j - 1 && expr_at(toks, i + 1, j - 1, true, e)
        } else if toks[i].kind is LBracket {
            e matches Expr::ArrayLiteral(es) && toks[j - 1].kind is RBracket && i + 1 <= j - 1 && list_at(
                toks,
                i + 1,
                j - 1,
                es@,
            )
        } else {
            match toks[i].kind {
                TokenKind::IntLiteral(v) => j == i + 1 && e == Expr::IntLiteral(v),
                TokenKind::StringLiteral(v) => j == i + 1 && e == Expr::StringLiteral(v),
                TokenKind::True => j == i + 1 && e == Expr::BoolLiteral(true),
                TokenKind::False => j == i + 1 && e == Expr::BoolLiteral(false),
                TokenKind::Identifier(n) => if toks[i + 1].kind is ColonColon {
                    &&& e matches Expr::EnumLiteral { enum_name, variant, fields }
                    &&& enum_name == n
                    &&& toks[i + 2].kind == TokenKind::Identifier(variant)
                    &&& if toks[i + 3].kind is LParen {
                        toks[j - 1].kind is RParen && i + 4 <= j - 1 && fields_at(toks, i + 4, j - 1, fields@)
                    } else {
                        j == i + 3 && fields@.len() == 0
                    }
                } else if toks[i + 1].kind is LParen {
                    &&& e matches Expr::Call { callee, args }
                    &&& callee == n
                    &&& toks[j - 1].kind is RParen
                    &&& i + 2 <= j - 1
                    &&& list_at(toks, i + 2, j - 1, args@)
                } else if allow && toks[i + 1].kind is LBrace {
                    &&& e matches Expr::StructLiteral { name, fields }
                    &&& name == n
                    &&& toks[j - 1].kind is RBrace
                    &&& i + 2 <= j - 1
                    &&& fields_at(toks, i + 2, j - 1, fields@)
                } else {
                    j == i + 1 && e == Expr::Identifier(n)
                },
                _ => false,
            }
        }
    } else {
        false
    }
}

/// A primary expression followed by `.field`, `[index]` and `?` for as
/// long as they come.
pub open spec fn postfix_at(toks: Seq<Token>, i: int, j: int, allow: bool, e: Expr) -> bool
    decreases j - i, 2int,
{
    exists|w: (int, Expr)|
        #[trigger] within(i, j, w.0) && primary_at(toks, i, w.0, allow, w.1) && postfix_tail(toks, w.0, j, allow, w.1, e)
}

/// The postfix operations of `toks[k..j]` applied to `acc` give `e`.
pub open spec fn postfix_tail(toks: Seq<Token>, k: int, j: int, allow: bool, acc: Expr, e: Expr) -> bool
    decreases j - k, 1int,
{
    if toks[k].kind is Dot {
        k + 2 <= j && (toks[k + 1].kind matches TokenKind::Identifier(f) && postfix_tail(
            toks,
            k + 2,
            j,
            allow,
            Expr::FieldAccess { object: Box::new(acc), field: f },
            e,
        ))
    } else if toks[k].kind is LBracket {
        exists|w: (int, Expr)|
            #[trigger] within(k + 1, j - 1, w.0) && expr_at(toks, k + 1, w.0, true, w.1) && toks[w.0].kind is RBracket
                && postfix_tail(toks, w.0 + 1, j, allow, Expr::Index { array: Box::new(acc), index: Box::new(w.1) }, e)
    } else if toks[k].kind is Question {
        k + 1 <= j && postfix_tail(toks, k + 1, j, allow, Expr::Try(Box::new(acc)), e)
    } else {
        k == j && e == acc
    }
}

/// `*` and `/` over postfix expressions.
pub open spec fn factor_at(toks: Seq<Token>, i: int, j: int, allow: bool, e: Expr) -> bool
    decreases j - i, 4int,
{
    exists|w: (int, Expr)|
        #[trigger] within(i, j, w.0) && postfix_at(toks, i, w.0, allow, w.1) && factor_tail(toks, w.0, j, allow, w.1, e)
}

pub open spec fn factor_tail(toks: Seq<Token>, k: int, j: int, allow: bool, acc: Expr, e: Expr) -> bool
    decreases j - k, 3int,
{
    match factor_op(toks[k].kind) {
        Some(op) => exists|w: (int, Expr)|
            #[trigger] within(k + 1, j, w.0) && postfix_at(toks, k + 1, w.0, allow, w.1) && factor_tail(
                toks,
                w.0,
                j,
                allow,
                Expr::Binary { left: Box::new(acc), op, right: Box::new(w.1) },
                e,
            ),
        None => k == j && e == acc,
    }
}

/// `+` and `-` over factors.
pub open spec fn term_at(toks: Seq<Token>, i: int, j: int, allow: bool, e: Expr) -> bool
    decreases j - i, 6int,
{
    exists|w: (int, Expr)|
        #[trigger] within(i, j, w.0) && factor_at(toks, i, w.0, allow, w.1) && term_tail(toks, w.0, j, allow, w.1, e)
}

pub open spec fn term_tail(toks: Seq<Token>, k: int, j: int, allow: bool, acc: Expr, e: Expr) -> bool
    decreases j - k, 5int,
{
    match term_op(toks[k].kind) {
        Some(op) => exists|w: (int, Expr)|
            #[trigger] within(k + 1, j, w.0) && factor_at(toks, k + 1, w.0, allow, w.1) && term_tail(
                toks,
                w.0,
                j,
                allow,
                Expr::Binary { left: Box::new(acc), op, right: Box::new(w.1) },
                e,
            ),
        None => k == j && e == acc,
    }
}

/// `<` `>` `<=` `>=` over terms.
pub open spec fn comparison_at(toks: Seq<Token>, i: int, j: int, allow: bool, e: Expr) -> bool
    decreases j - i, 8int,
{
    exists|w: (int, Expr)|
        #[trigger] within(i, j, w.0) && term_at(toks, i, w.0, allow, w.1) && comparison_tail(toks, w.0, j, allow, w.1, e)
}

pub open spec fn comparison_tail(toks: Seq<Token>, k: int, j: int, allow: bool, acc: Expr, e: Expr) -> bool
    decreases j - k, 7int,
{
    match comparison_op(toks[k].kind) {
        Some(op) => exists|w: (int, Expr)|
            #[trigger] within(k + 1, j, w.0) && term_at(toks, k + 1, w.0, allow, w.1) && comparison_tail(
                toks,
                w.0,
                j,
                allow,
                Expr::Binary { left: Box::new(acc), op, right: Box::new(w.1) },
                e,
            ),
        None => k == j && e == acc,
    }
}

/// An expression: `==` and `!=` over comparisons.
pub open spec fn expr_at(toks: Seq<Token>, i: int, j: int, allow: bool, e: Expr) -> bool
    decreases j - i, 10int,
{
    exists|w: (int, Expr)|
        #[trigger] within(i, j, w.0) && comparison_at(toks, i, w.0, allow, w.1) && expr_tail(toks, w.0, j, allow, w.1, e)
}

pub open spec fn expr_tail(toks: Seq<Token>, k: int, j: int, allow: bool, acc: Expr, e: Expr) -> bool
    decreases j - k, 9int,
{
    match equality_op(toks[k].kind) {
        Some(op) => exists|w: (int, Expr)|
            #[trigger] within(k + 1, j, w.0) && comparison_at(toks, k + 1, w.0, allow, w.1) && expr_tail(
                toks,
                w.0,
                j,
                allow,
                Expr::Binary { left: Box::new(acc), op, right: Box::new(w.1) },
                e,
            ),
        None => k == j && e == acc,
    }
}

/// Comma-separated expressions, possibly none.
pub open spec fn list_at(toks: Seq<Token>, i: int, j: int, es: Seq<Expr>) -> bool
    decreases j - i, 12int,
{
    (es.len() == 0 && i == j) || exists|w: (int, Expr)|
        #[trigger] within(i, j, w.0) && expr_at(toks, i, w.0, true, w.1) && list_tail(toks, w.0, j, seq![w.1], es)
}

pub open spec fn list_tail(toks: Seq<Token>, k: int, j: int, acc: Seq<Expr>, es: Seq<Expr>) -> bool
    decreases j - k, 11int,
{
    if toks[k].kind is Comma {
        exists|w: (int, Expr)|
            #[trigger] within(k + 1, j, w.0) && expr_at(toks, k + 1, w.0, true, w.1) && list_tail(
                toks,
                w.0,
                j,
                acc.push(w.1),
                es,
            )
    } else {
        k == j && es == acc
    }
}

/// One `name: expr` pair.
pub open spec fn field_at(toks: Seq<Token>, i: int, j: int, f: (String, Expr)) -> bool
    decreases j - i, 11int,
{
    0 <= i && i + 2 < j && toks[i].kind == TokenKind::Identifier(f.0) && toks[i + 1].kind is Colon && expr_at(
        toks,
        i + 2,
        j,
        true,
        f.1,
    )
}

/// Comma-separated `name: expr` pairs, possibly none.
pub open spec fn fields_at(toks: Seq<Token>, i: int, j: int, fs: Seq<(String, Expr)>) -> bool
    decreases j - i, 13int,
{
    (fs.len() == 0 && i == j) || exists|w: (int, (String, Expr))|
        #[trigger] within(i, j, w.0) && field_at(toks, i, w.0, w.1) && fields_tail(toks, w.0, j, seq![w.1], fs)
}

pub open spec fn fields_tail(toks: Seq<Token>, k: int, j: int, acc: Seq<(String, Expr)>, fs: Seq<(String, Expr)>) -> bool
    decreases j - k, 12int,
{
    if toks[k].kind is Comma {
        exists|w: (int, (String, Expr))|
            #[trigger] within(k + 1, j, w.0) && field_at(toks, k + 1, w.0, w.1) && fields_tail(
                toks,
                w.0,
                j,
                acc.push(w.1),
                fs,
            )
    } else {
        k == j && fs == acc
    }
}

/// A match arm's pattern.
pub open spec fn pattern_at(toks: Seq<Token>, i: int, j: int, p: Pattern) -> bool {
    0 <= i < j && match toks[i].kind {
        TokenKind::IntLiteral(v) => j == i + 1 && p == Pattern::IntLiteral(v),
        TokenKind::StringLiteral(v) => j == i + 1 && p == Pattern::StringLiteral(v),
        TokenKind::True => j == i + 1 && p == Pattern::BoolLiteral(true),
        TokenKind::False => j == i + 1 && p == Pattern::BoolLiteral(false),
        TokenKind::Identifier(n) => if n@ == "_"@ {
            j == i + 1 && p == Pattern::Wildcard
        } else {
            &&& toks[i + 1].kind is ColonColon
            &&& p matches Pattern::EnumVariant { enum_name, variant, bindings }
            &&& enum_name == n
            &&& toks[i + 2].kind == TokenKind::Identifier(variant)
            &&& if toks[i + 3].kind is LParen {
                toks[j - 1].kind is RParen && if toks[i + 4].kind is RParen {
                    j == i + 5 && bindings@.len() == 0
                } else {
                    i + 4 < j - 1 && names_at(toks, i + 4, j - 1, bindings@)
                }
            } else {
                j == i + 3 && bindings@.len() == 0
            }
        },
        _ => false,
    }
}

/// Comma-separated identifiers, at least one.
pub open spec fn names_at(toks: Seq<Token>, i: int, j: int, ns: Seq<String>) -> bool {
    toks[i].kind matches TokenKind::Identifier(n) && names_tail(toks, i + 1, j, seq![n], ns)
}

pub open spec fn names_tail(toks: Seq<Token>, k: int, j: int, acc: Seq<String>, ns: Seq<String>) -> bool
    decreases j - k,
{
    if toks[k].kind is Comma {
        k + 2 <= j && (toks[k + 1].kind matches TokenKind::Identifier(n) && names_tail(
            toks,
            k + 2,
            j,
            acc.push(n),
            ns,
        ))
    } else {
        k == j && ns == acc
    }
}

/// A statement.
pub open spec fn stmt_at(toks: Seq<Token>, i: int, j: int, s: Stmt) -> bool
    decreases j - i, 1int,
{
    if 0 <= i < j {
        if toks[i].kind is If {
            &&& s matches Stmt::If { condition, then_branch, else_branch }
            &&& exists|k: int, m: int|
                #![trigger toks[k], toks[m]]
                i + 1 < k < m < j && expr_at(toks, i + 1, k, false, condition) && toks[k].kind is LBrace
                    && block_at(toks, k + 1, m, then_branch@) && toks[m].kind is RBrace && if toks[m
                    + 1].kind is Else {
                    &&& else_branch matches Some(b)
                    &&& toks[m + 2].kind is LBrace
                    &&& m + 3 <= j - 1
                    &&& block_at(toks, m + 3, j - 1, b@)
                    &&& toks[j - 1].kind is RBrace
                } else {
                    else_branch is None && j == m + 1
                }
        } else if toks[i].kind is While {
            &&& s matches Stmt::While { condition, body }
            &&& toks[j - 1].kind is RBrace
            &&& exists|k: int|
                i + 1 < k < j - 1 && expr_at(toks, i + 1, k, false, condition) && (#[trigger] toks[k]).kind
                    is LBrace && block_at(toks, k + 1, j - 1, body@)
        } else if toks[i].kind is Match {
            &&& s matches Stmt::Match { scrutinee, arms }
            &&& toks[j - 1].kind is RBrace
            &&& exists|k: int|
                i + 1 < k < j - 1 && expr_at(toks, i + 1, k, false, scrutinee) && (#[trigger] toks[k]).kind
                    is LBrace && arms_at(toks, k + 1, j - 1, arms@)
        } else if toks[i].kind is Mut {
            &&& s matches Stmt::VariableDecl { name, value, is_mutable }
            &&& is_mutable
            &&& toks[i + 1].kind == TokenKind::Identifier(name)
            &&& toks[i + 2].kind is ColonEq
            &&& i + 3 < j
            &&& expr_at(toks, i + 3, j, true, value)
        } else if toks[i].kind is Return {
            &&& s matches Stmt::Return(v)
            &&& if toks[i + 1].kind is RBrace {
                v is None && j == i + 1
            } else {
                v matches Some(x) && i + 1 < j && expr_at(toks, i + 1, j, true, x)
            }
        } else if toks[i].kind is Identifier && toks[i + 1].kind is ColonEq {
            &&& s matches Stmt::VariableDecl { name, value, is_mutable }
            &&& !is_mutable
            &&& toks[i].kind == TokenKind::Identifier(name)
            &&& i + 2 < j
            &&& expr_at(toks, i + 2, j, true, value)
        } else if toks[i].kind is Identifier && toks[i + 1].kind is Eq {
            &&& s matches Stmt::Assign { name, value }
            &&& toks[i].kind == TokenKind::Identifier(name)
            &&& i + 2 < j
            &&& expr_at(toks, i + 2, j, true, value)
        } else if toks[i].kind is Identifier && toks[i + 1].kind is LBracket {
            ||| {
                &&& s matches Stmt::IndexAssign { name, index, value }
                &&& toks[i].kind == TokenKind::Identifier(name)
                &&& exists|q: int|
                    i + 2 < q && q + 2 < j && expr_at(toks, i + 2, q, true, index) && (#[trigger] toks[q]).kind is RBracket
                        && toks[q + 1].kind is Eq && expr_at(toks, q + 2, j, true, value)
            }
            ||| (s matches Stmt::Expr(e) && expr_at(toks, i, j, true, e) && !(toks[j].kind is Eq))
        } else {
            s matches Stmt::Expr(e) && expr_at(toks, i, j, true, e)
        }
    } else {
        false
    }
}

/// The statements of a block, up to its closing `}`.
pub open spec fn block_at(toks: Seq<Token>, i: int, j: int, ss: Seq<Stmt>) -> bool
    decreases j - i, 4int,
{
    block_tail(toks, i, j, Seq::empty(), ss)
}

pub open spec fn block_tail(toks: Seq<Token>, k: int, j: int, acc: Seq<Stmt>, ss: Seq<Stmt>) -> bool
    decreases j - k, 3int,
{
    if toks[k].kind is RBrace {
        k == j && ss == acc
    } else {
        exists|w: (int, Stmt)|
            #[trigger] within(k, j, w.0) && stmt_at(toks, k, w.0, w.1) && block_tail(toks, w.0, j, acc.push(w.1), ss)
    }
}

/// One arm of a match: `pattern => { statements }`.
pub open spec fn arm_at(toks: Seq<Token>, i: int, j: int, a: MatchArm) -> bool
    decreases j - i, 6int,
{
    toks[j - 1].kind is RBrace && exists|k: int|
        i < k < j - 2 && pattern_at(toks, i, k, a.pattern) && (#[trigger] toks[k]).kind is FatArrow && toks[k
            + 1].kind is LBrace && block_at(toks, k + 2, j - 1, a.body@)
}

/// The arms of a match, up to its closing `}`.
pub open spec fn arms_at(toks: Seq<Token>, i: int, j: int, arms: Seq<MatchArm>) -> bool
    decreases j - i, 8int,
{
    arms_tail(toks, i, j, Seq::empty(), arms)
}

pub open spec fn arms_tail(toks: Seq<Token>, k: int, j: int, acc: Seq<MatchArm>, arms: Seq<MatchArm>) -> bool
    decreases j - k, 7int,
{
    if toks[k].kind is RBrace {
        k == j && arms == acc
    } else {
        exists|w: (int, MatchArm)|
            #[trigger] within(k, j, w.0) && arm_at(toks, k, w.0, w.1) && arms_tail(toks, w.0, j, acc.push(w.1), arms)
    }
}

/// `name: Type`.
pub open spec fn param_at(toks: Seq<Token>, i: int, j: int, p: Param) -> bool {
    j == i + 3 && toks[i].kind == TokenKind::Identifier(p.name) && toks[i + 1].kind is Colon && toks[i + 2].kind
        == TokenKind::Identifier(p.ty)
}

/// Comma-separated `name: Type` pairs, possibly none.
pub open spec fn params_at(toks: Seq<Token>, i: int, j: int, ps: Seq<Param>) -> bool {
    (ps.len() == 0 && i == j) || exists|p: Param| #[trigger] param_at(toks, i, i + 3, p) && params_tail(
        toks,
        i + 3,
        j,
        seq![p],
        ps,
    )
}

pub open spec fn params_tail(toks: Seq<Token>, k: int, j: int, acc: Seq<Param>, ps: Seq<Param>) -> bool
    decreases j - k,
{
    if toks[k].kind is Comma {
        k + 4 <= j && exists|p: Param| #[trigger] param_at(toks, k + 1, k + 4, p) && params_tail(
            toks,
            k + 4,
            j,
            acc.push(p),
            ps,
        )
    } else {
        k == j && ps == acc
    }
}

/// `struct Name { fields }`.
pub open spec fn struct_decl_at(toks: Seq<Token>, i: int, j: int, d: StructDecl) -> bool {
    toks[i].kind is Struct && toks[i + 1].kind == TokenKind::Identifier(d.name) && toks[i + 2].kind is LBrace && i + 3
        <= j - 1 && params_at(toks, i + 3, j - 1, d.fields@) && toks[j - 1].kind is RBrace
}

/// A variant: `Name` or `Name(fields)`.
pub open spec fn variant_at(toks: Seq<Token>, i: int, j: int, v: EnumVariant) -> bool {
    toks[i].kind == TokenKind::Identifier(v.name) && if toks[i + 1].kind is LParen {
        toks[j - 1].kind is RParen && i + 2 <= j - 1 && params_at(toks, i + 2, j - 1, v.fields@)
    } else {
        j == i + 1 && v.fields@.len() == 0
    }
}

/// Comma-separated variants, possibly none, with an optional trailing
/// comma.
pub open spec fn variants_at(toks: Seq<Token>, i: int, j: int, vs: Seq<EnumVariant>) -> bool {
    (vs.len() == 0 && i == j) || exists|w: (int, EnumVariant)|
        #[trigger] within(i, j, w.0) && variant_at(toks, i, w.0, w.1) && variants_tail(toks, w.0, j, seq![w.1], vs)
}

pub open spec fn variants_tail(toks: Seq<Token>, k: int, j: int, acc: Seq<EnumVariant>, vs: Seq<EnumVariant>) -> bool
    decreases j - k,
{
    if toks[k].kind is Comma {
        if toks[k + 1].kind is RBrace {
            j == k + 1 && vs == acc
        } else {
            exists|w: (int, EnumVariant)|
                #[trigger] within(k + 1, j, w.0) && variant_at(toks, k + 1, w.0, w.1) && variants_tail(
                    toks,
                    w.0,
                    j,
                    acc.push(w.1),
                    vs,
                )
        }
    } else {
        k == j && vs == acc
    }
}

/// `enum Name { variants }`.
pub open spec fn enum_decl_at(toks: Seq<Token>, i: int, j: int, d: EnumDecl) -> bool {
    toks[i].kind is Enum && toks[i + 1].kind == TokenKind::Identifier(d.name) && toks[i + 2].kind is LBrace && i + 3
        <= j - 1 && variants_at(toks, i + 3, j - 1, d.variants@) && toks[j - 1].kind is RBrace
}

/// `fn name(params) -> Type { statements }`, the return type optional.
pub open spec fn fn_decl_at(toks: Seq<Token>, i: int, j: int, f: FunctionDecl) -> bool {
    toks[i].kind is Fn && toks[i + 1].kind == TokenKind::Identifier(f.name) && toks[i + 2].kind is LParen && toks[j
        - 1].kind is RBrace && exists|k: int|
        i + 3 <= k && params_at(toks, i + 3, k, f.params@) && (#[trigger] toks[k]).kind is RParen
            && if toks[k + 1].kind is Arrow {
            &&& f.return_type matches Some(t)
            &&& toks[k + 2].kind == TokenKind::Identifier(t)
            &&& toks[k + 3].kind is LBrace
            &&& k + 4 <= j - 1
            &&& block_at(toks, k + 4, j - 1, f.body@)
        } else {
            &&& f.return_type is None
            &&& toks[k + 1].kind is LBrace
            &&& k + 2 <= j - 1
            &&& block_at(toks, k + 2, j - 1, f.body@)
        }
}

/// Where a declaration's keyword stands: after `export` when there is
/// one.
pub open spec fn decl_start(toks: Seq<Token>, k: int) -> int {
    if toks[k].kind is Export {
        k + 1
    } else {
        k
    }
}

/// `import` lines and declarations up to the first `Eof`, in any order:
/// read after the imports and declarations `im`, `st`, `en` and `fs`,
/// they give `fim`, `fst`, `fen` and `ffs`.
pub open spec fn items_tail(
    toks: Seq<Token>,
    k: int,
    j: int,
    im: Seq<String>,
    st: Seq<StructDecl>,
    en: Seq<EnumDecl>,
    fs: Seq<FunctionDecl>,
    fim: Seq<String>,
    fst: Seq<StructDecl>,
    fen: Seq<EnumDecl>,
    ffs: Seq<FunctionDecl>,
) -> bool
    decreases j - k,
{
    if toks[k].kind is Eof {
        k == j && im == fim && st == fst && en == fen && fs == ffs
    } else if toks[k].kind is Import {
        k + 2 <= j && (toks[k + 1].kind matches TokenKind::Identifier(n) && items_tail(
            toks,
            k + 2,
            j,
            im.push(n),
            st,
            en,
            fs,
            fim,
            fst,
            fen,
            ffs,
        ))
    } else {
        let d = decl_start(toks, k);
        let exported = toks[k].kind is Export;
        if toks[d].kind is Struct {
            exists|w: (int, StructDecl)|
                #[trigger] within(k, j, w.0) && struct_decl_at(toks, d, w.0, w.1) && w.1.is_exported == exported && items_tail(
                    toks,
                    w.0,
                    j,
                    im,
                    st.push(w.1),
                    en,
                    fs,
                    fim,
                    fst,
                    fen,
                    ffs,
                )
        } else if toks[d].kind is Enum {
            exists|w: (int, EnumDecl)|
                #[trigger] within(k, j, w.0) && enum_decl_at(toks, d, w.0, w.1) && w.1.is_exported == exported && items_tail(
                    toks,
                    w.0,
                    j,
                    im,
                    st,
                    en.push(w.1),
                    fs,
                    fim,
                    fst,
                    fen,
                    ffs,
                )
        } else {
            exists|w: (int, FunctionDecl)|
                #[trigger] within(k, j, w.0) && fn_decl_at(toks, d, w.0, w.1) && w.1.is_exported == exported && items_tail(
                    toks,
                    w.0,
                    j,
                    im,
                    st,
                    en,
                    fs.push(w.1),
                    fim,
                    fst,
                    fen,
                    ffs,
                )
        }
    }
}

/// A whole file from position `i`: an optional `module Name` header, then
/// imports and declarations up to the first `Eof`.
pub open spec fn program_at(toks: Seq<Token>, i: int, p: Program) -> bool {
    exists|e: int|
        #![trigger toks[e]]
        toks[e].kind is Eof && if toks[i].kind is Module {
            &&& toks[i + 1].kind matches TokenKind::Identifier(n)
            &&& p.module_name == Some(n)
            &&& items_tail(
                toks,
                i + 2,
                e,
                Seq::empty(),
                Seq::empty(),
                Seq::empty(),
                Seq::empty(),
                p.imports@,
                p.structs@,
                p.enums@,
                p.functions@,
            )
        } else {
            &&& p.module_name is None
            &&& items_tail(
                toks,
                i,
                e,
                Seq::empty(),
                Seq::empty(),
                Seq::empty(),
                Seq::empty(),
                p.imports@,
                p.structs@,
                p.enums@,
                p.functions@,
            )
        }
}

// ---- how far a reading goes does not depend on what was read before ----

/// The postfix operations after `k` reach `j` whatever they apply to.
pub proof fn lemma_postfix_tail_acc(toks: Seq<Token>, k: int, j: int, allow: bool, acc: Expr, e: Expr, acc2: Expr)
    requires
        postfix_tail(toks, k, j, allow, acc, e),
    ensures
        exists|e2: Expr| #[trigger] postfix_tail(toks, k, j, allow, acc2, e2),
    decreases j - k,
{
    if toks[k].kind is Dot {
        let f = toks[k + 1].kind->Identifier_0;
        let next = Expr::FieldAccess { object: Box::new(acc2), field: f };
        lemma_postfix_tail_acc(toks, k + 2, j, allow, Expr::FieldAccess { object: Box::new(acc), field: f }, e, next);
        let e2 = choose|e2: Expr| #[trigger] postfix_tail(toks, k + 2, j, allow, next, e2);
        assert(postfix_tail(toks, k, j, allow, acc2, e2));
    } else if toks[k].kind is LBracket {
        let w = choose|w: (int, Expr)|
            #[trigger] within(k + 1, j - 1, w.0) && expr_at(toks, k + 1, w.0, true, w.1) && toks[w.0].kind is RBracket
                && postfix_tail(toks, w.0 + 1, j, allow, Expr::Index { array: Box::new(acc), index: Box::new(w.1) }, e);
        let next = Expr::Index { array: Box::new(acc2), index: Box::new(w.1) };
        lemma_postfix_tail_acc(toks, w.0 + 1, j, allow, Expr::Index { array: Box::new(acc), index: Box::new(w.1) }, e, next);
        let e2 = choose|e2: Expr| #[trigger] postfix_tail(toks, w.0 + 1, j, allow, next, e2);
        assert(within(k + 1, j - 1, w.0));
        assert(postfix_tail(toks, k, j, allow, acc2, e2));
    } else if toks[k].kind is Question {
        let next = Expr::Try(Box::new(acc2));
        lemma_postfix_tail_acc(toks, k + 1, j, allow, Expr::Try(Box::new(acc)), e, next);
        let e2 = choose|e2: Expr| #[trigger] postfix_tail(toks, k + 1, j, allow, next, e2);
        assert(postfix_tail(toks, k, j, allow, acc2, e2));
    } else {
        assert(postfix_tail(toks, k, j, allow, acc2, acc2));
    }
}

/// The operators of this level after `k` reach `j` whatever the left
/// operand.
pub proof fn lemma_factor_tail_acc(toks: Seq<Token>, k: int, j: int, allow: bool, acc: Expr, e: Expr, acc2: Expr)
    requires
        factor_tail(toks, k, j, allow, acc, e),
    ensures
        exists|e2: Expr| #[trigger] factor_tail(toks, k, j, allow, acc2, e2),
    decreases j - k,
{
    match factor_op(toks[k].kind) {
        Some(op) => {
            let w = choose|w: (int, Expr)|
                #[trigger] within(k + 1, j, w.0) && postfix_at(toks, k + 1, w.0, allow, w.1) && factor_tail(
                    toks,
                    w.0,
                    j,
                    allow,
                    Expr::Binary { left: Box::new(acc), op, right: Box::new(w.1) },
                    e,
                );
            let next = Expr::Binary { left: Box::new(acc2), op, right: Box::new(w.1) };
            lemma_factor_tail_acc(toks, w.0, j, allow, Expr::Binary { left: Box::new(acc), op, right: Box::new(w.1) }, e, next);
            let e2 = choose|e2: Expr| #[trigger] factor_tail(toks, w.0, j, allow, next, e2);
            assert(within(k + 1, j, w.0));
            assert(factor_tail(toks, k, j, allow, acc2, e2));
        },
        None => {
            assert(factor_tail(toks, k, j, allow, acc2, acc2));
        },
    }
}

/// The operators of this level after `k` reach `j` whatever the left
/// operand.
pub proof fn lemma_term_tail_acc(toks: Seq<Token>, k: int, j: int, allow: bool, acc: Expr, e: Expr, acc2: Expr)
    requires
        term_tail(toks, k, j, allow, acc, e),
    ensures
        exists|e2: Expr| #[trigger] term_tail(toks, k, j, allow, acc2, e2),
    decreases j - k,
{
    match term_op(toks[k].kind) {
        Some(op) => {
            let w = choose|w: (int, Expr)|
                #[trigger] within(k + 1, j, w.0) && factor_at(toks, k + 1, w.0, allow, w.1) && term_tail(
                    toks,
                    w.0,
                    j,
                    allow,
                    Expr::Binary { left: Box::new(acc), op, right: Box::new(w.1) },
                    e,
                );
            let next = Expr::Binary { left: Box::new(acc2), op, right: Box::new(w.1) };
            lemma_term_tail_acc(toks, w.0, j, allow, Expr::Binary { left: Box::new(acc), op, right: Box::new(w.1) }, e, next);
            let e2 = choose|e2: Expr| #[trigger] term_tail(toks, w.0, j, allow, next, e2);
            assert(within(k + 1, j, w.0));
            assert(term_tail(toks, k, j, allow, acc2, e2));
        },
        None => {
            assert(term_tail(toks, k, j, allow, acc2, acc2));
        },
    }
}

/// The operators of this level after `k` reach `j` whatever the left
/// operand.
pub proof fn lemma_comparison_tail_acc(toks: Seq<Token>, k: int, j: int, allow: bool, acc: Expr, e: Expr, acc2: Expr)
    requires
        comparison_tail(toks, k, j, allow, acc, e),
    ensures
        exists|e2: Expr| #[trigger] comparison_tail(toks, k, j, allow, acc2, e2),
    decreases j - k,
{
    match comparison_op(toks[k].kind) {
        Some(op) => {
            let w = choose|w: (int, Expr)|
                #[trigger] within(k + 1, j, w.0) && term_at(toks, k + 1, w.0, allow, w.1) && comparison_tail(
                    toks,
                    w.0,
                    j,
                    allow,
                    Expr::Binary { left: Box::new(acc), op, right: Box::new(w.1) },
                    e,
                );
            let next = Expr::Binary { left: Box::new(acc2), op, right: Box::new(w.1) };
            lemma_comparison_tail_acc(toks, w.0, j, allow, Expr::Binary { left: Box::new(acc), op, right: Box::new(w.1) }, e, next);
            let e2 = choose|e2: Expr| #[trigger] comparison_tail(toks, w.0, j, allow, next, e2);
            assert(within(k + 1, j, w.0));
            assert(comparison_tail(toks, k, j, allow, acc2, e2));
        },
        None => {
            assert(comparison_tail(toks, k, j, allow, acc2, acc2));
        },
    }
}

/// The operators of this level after `k` reach `j` whatever the left
/// operand.
pub proof fn lemma_expr_tail_acc(toks: Seq<Token>, k: int, j: int, allow: bool, acc: Expr, e: Expr, acc2: Expr)
    requires
        expr_tail(toks, k, j, allow, acc, e),
    ensures
        exists|e2: Expr| #[trigger] expr_tail(toks, k, j, allow, acc2, e2),
    decreases j - k,
{
    match equality_op(toks[k].kind) {
        Some(op) => {
            let w = choose|w: (int, Expr)|
                #[trigger] within(k + 1, j, w.0) && comparison_at(toks, k + 1, w.0, allow, w.1) && expr_tail(
                    toks,
                    w.0,
                    j,
                    allow,
                    Expr::Binary { left: Box::new(acc), op, right: Box::new(w.1) },
                    e,
                );
            let next = Expr::Binary { left: Box::new(acc2), op, right: Box::new(w.1) };
            lemma_expr_tail_acc(toks, w.0, j, allow, Expr::Binary { left: Box::new(acc), op, right: Box::new(w.1) }, e, next);
            let e2 = choose|e2: Expr| #[trigger] expr_tail(toks, w.0, j, allow, next, e2);
            assert(within(k + 1, j, w.0));
            assert(expr_tail(toks, k, j, allow, acc2, e2));
        },
        None => {
            assert(expr_tail(toks, k, j, allow, acc2, acc2));
        },
    }
}

/// More comma-separated expressions reach `j` whatever came before.
pub proof fn lemma_list_tail_acc(toks: Seq<Token>, k: int, j: int, acc: Seq<Expr>, es: Seq<Expr>, acc2: Seq<Expr>)
    requires
        list_tail(toks, k, j, acc, es),
    ensures
        exists|es2: Seq<Expr>| #[trigger] list_tail(toks, k, j, acc2, es2),
    decreases j - k,
{
    if toks[k].kind is Comma {
        let w = choose|w: (int, Expr)|
            #[trigger] within(k + 1, j, w.0) && expr_at(toks, k + 1, w.0, true, w.1) && list_tail(toks, w.0, j, acc.push(w.1), es);
        lemma_list_tail_acc(toks, w.0, j, acc.push(w.1), es, acc2.push(w.1));
        let es2 = choose|es2: Seq<Expr>| #[trigger] list_tail(toks, w.0, j, acc2.push(w.1), es2);
        assert(within(k + 1, j, w.0));
        assert(list_tail(toks, k, j, acc2, es2));
    } else {
        assert(list_tail(toks, k, j, acc2, acc2));
    }
}

/// More comma-separated fields reach `j` whatever came before.
pub proof fn lemma_fields_tail_acc(toks: Seq<Token>, k: int, j: int, acc: Seq<(String, Expr)>, es: Seq<(String, Expr)>, acc2: Seq<(String, Expr)>)
    requires
        fields_tail(toks, k, j, acc, es),
    ensures
        exists|es2: Seq<(String, Expr)>| #[trigger] fields_tail(toks, k, j, acc2, es2),
    decreases j - k,
{
    if toks[k].kind is Comma {
        let w = choose|w: (int, (String, Expr))|
            #[trigger] within(k + 1, j, w.0) && field_at(toks, k + 1, w.0, w.1) && fields_tail(toks, w.0, j, acc.push(w.1), es);
        lemma_fields_tail_acc(toks, w.0, j, acc.push(w.1), es, acc2.push(w.1));
        let es2 = choose|es2: Seq<(String, Expr)>| #[trigger] fields_tail(toks, w.0, j, acc2.push(w.1), es2);
        assert(within(k + 1, j, w.0));
        assert(fields_tail(toks, k, j, acc2, es2));
    } else {
        assert(fields_tail(toks, k, j, acc2, acc2));
    }
}

/// More names reach `j` whatever came before.
pub proof fn lemma_names_tail_acc(toks: Seq<Token>, k: int, j: int, acc: Seq<String>, es: Seq<String>, acc2: Seq<String>)
    requires
        names_tail(toks, k, j, acc, es),
    ensures
        exists|es2: Seq<String>| #[trigger] names_tail(toks, k, j, acc2, es2),
    decreases j - k,
{
    if toks[k].kind is Comma {
        let n = toks[k + 1].kind->Identifier_0;
        lemma_names_tail_acc(toks, k + 2, j, acc.push(n), es, acc2.push(n));
        let es2 = choose|es2: Seq<String>| #[trigger] names_tail(toks, k + 2, j, acc2.push(n), es2);
        assert(names_tail(toks, k, j, acc2, es2));
    } else {
        assert(names_tail(toks, k, j, acc2, acc2));
    }
}

/// More parameters reach `j` whatever came before.
pub proof fn lemma_params_tail_acc(toks: Seq<Token>, k: int, j: int, acc: Seq<Param>, es: Seq<Param>, acc2: Seq<Param>)
    requires
        params_tail(toks, k, j, acc, es),
    ensures
        exists|es2: Seq<Param>| #[trigger] params_tail(toks, k, j, acc2, es2),
    decreases j - k,
{
    if toks[k].kind is Comma {
        let p = choose|p: Param| #[trigger] param_at(toks, k + 1, k + 4, p) && params_tail(toks, k + 4, j, acc.push(p), es);
        lemma_params_tail_acc(toks, k + 4, j, acc.push(p), es, acc2.push(p));
        let es2 = choose|es2: Seq<Param>| #[trigger] params_tail(toks, k + 4, j, acc2.push(p), es2);
        assert(params_tail(toks, k, j, acc2, es2));
    } else {
        assert(params_tail(toks, k, j, acc2, acc2));
    }
}

/// More variants reach `j` whatever came before.
pub proof fn lemma_variants_tail_acc(toks: Seq<Token>, k: int, j: int, acc: Seq<EnumVariant>, es: Seq<EnumVariant>, acc2: Seq<EnumVariant>)
    requires
        variants_tail(toks, k, j, acc, es),
    ensures
        exists|es2: Seq<EnumVariant>| #[trigger] variants_tail(toks, k, j, acc2, es2),
    decreases j - k,
{
    if toks[k].kind is Comma {
        if toks[k + 1].kind is RBrace {
            assert(variants_tail(toks, k, j, acc2, acc2));
        } else {
            let w = choose|w: (int, EnumVariant)|
                #[trigger] within(k + 1, j, w.0) && variant_at(toks, k + 1, w.0, w.1) && variants_tail(toks, w.0, j, acc.push(w.1), es);
            lemma_variants_tail_acc(toks, w.0, j, acc.push(w.1), es, acc2.push(w.1));
            let es2 = choose|es2: Seq<EnumVariant>| #[trigger] variants_tail(toks, w.0, j, acc2.push(w.1), es2);
            assert(within(k + 1, j, w.0));
            assert(variants_tail(toks, k, j, acc2, es2));
        }
    } else {
        assert(variants_tail(toks, k, j, acc2, acc2));
    }
}

/// More statements reach `j` whatever came before.
pub proof fn lemma_block_tail_acc(toks: Seq<Token>, k: int, j: int, acc: Seq<Stmt>, es: Seq<Stmt>, acc2: Seq<Stmt>)
    requires
        block_tail(toks, k, j, acc, es),
    ensures
        exists|es2: Seq<Stmt>| #[trigger] block_tail(toks, k, j, acc2, es2),
    decreases j - k,
{
    if toks[k].kind is RBrace {
        assert(block_tail(toks, k, j, acc2, acc2));
    } else {
        let w = choose|w: (int, Stmt)|
            #[trigger] within(k, j, w.0) && stmt_at(toks, k, w.0, w.1) && block_tail(toks, w.0, j, acc.push(w.1), es);
        lemma_block_tail_acc(toks, w.0, j, acc.push(w.1), es, acc2.push(w.1));
        let es2 = choose|es2: Seq<Stmt>| #[trigger] block_tail(toks, w.0, j, acc2.push(w.1), es2);
        assert(within(k, j, w.0));
        assert(block_tail(toks, k, j, acc2, es2));
    }
}

/// More arms reach `j` whatever came before.
pub proof fn lemma_arms_tail_acc(toks: Seq<Token>, k: int, j: int, acc: Seq<MatchArm>, es: Seq<MatchArm>, acc2: Seq<MatchArm>)
    requires
        arms_tail(toks, k, j, acc, es),
    ensures
        exists|es2: Seq<MatchArm>| #[trigger] arms_tail(toks, k, j, acc2, es2),
    decreases j - k,
{
    if toks[k].kind is RBrace {
        assert(arms_tail(toks, k, j, acc2, acc2));
    } else {
        let w = choose|w: (int, MatchArm)|
            #[trigger] within(k, j, w.0) && arm_at(toks, k, w.0, w.1) && arms_tail(toks, w.0, j, acc.push(w.1), es);
        lemma_arms_tail_acc(toks, w.0, j, acc.push(w.1), es, acc2.push(w.1));
        let es2 = choose|es2: Seq<MatchArm>| #[trigger] arms_tail(toks, w.0, j, acc2.push(w.1), es2);
        assert(within(k, j, w.0));
        assert(arms_tail(toks, k, j, acc2, es2));
    }
}

/// More items reach `j` whatever came before.
pub proof fn lemma_items_tail_acc(
    toks: Seq<Token>,
    k: int,
    j: int,
    im: Seq<String>,
    st: Seq<StructDecl>,
    en: Seq<EnumDecl>,
    fs: Seq<FunctionDecl>,
    fim: Seq<String>,
    fst: Seq<StructDecl>,
    fen: Seq<EnumDecl>,
    ffs: Seq<FunctionDecl>,
    im2: Seq<String>,
    st2: Seq<StructDecl>,
    en2: Seq<EnumDecl>,
    fs2: Seq<FunctionDecl>,
)
    requires
        items_tail(toks, k, j, im, st, en, fs, fim, fst, fen, ffs),
    ensures
        exists|f: (Seq<String>, Seq<StructDecl>, Seq<EnumDecl>, Seq<FunctionDecl>)|
            #[trigger] items_tail(toks, k, j, im2, st2, en2, fs2, f.0, f.1, f.2, f.3),
    decreases j - k,
{
    if toks[k].kind is Eof {
        let f = (im2, st2, en2, fs2);
        assert(items_tail(toks, k, j, im2, st2, en2, fs2, f.0, f.1, f.2, f.3));
    } else if toks[k].kind is Import {
        let n = toks[k + 1].kind->Identifier_0;
        lemma_items_tail_acc(toks, k + 2, j, im.push(n), st, en, fs, fim, fst, fen, ffs, im2.push(n), st2, en2, fs2);
        let f = choose|f: (Seq<String>, Seq<StructDecl>, Seq<EnumDecl>, Seq<FunctionDecl>)|
            #[trigger] items_tail(toks, k + 2, j, im2.push(n), st2, en2, fs2, f.0, f.1, f.2, f.3);
        assert(items_tail(toks, k, j, im2, st2, en2, fs2, f.0, f.1, f.2, f.3));
    } else {
        let d = decl_start(toks, k);
        let exported = toks[k].kind is Export;
        if toks[d].kind is Struct {
            let w = choose|w: (int, StructDecl)|
                #[trigger] within(k, j, w.0) && struct_decl_at(toks, d, w.0, w.1) && w.1.is_exported == exported
                    && items_tail(toks, w.0, j, im, st.push(w.1), en, fs, fim, fst, fen, ffs);
            lemma_items_tail_acc(toks, w.0, j, im, st.push(w.1), en, fs, fim, fst, fen, ffs, im2, st2.push(w.1), en2, fs2);
            let f = choose|f: (Seq<String>, Seq<StructDecl>, Seq<EnumDecl>, Seq<FunctionDecl>)|
                #[trigger] items_tail(toks, w.0, j, im2, st2.push(w.1), en2, fs2, f.0, f.1, f.2, f.3);
            assert(within(k, j, w.0));
            assert(items_tail(toks, k, j, im2, st2, en2, fs2, f.0, f.1, f.2, f.3));
        } else if toks[d].kind is Enum {
            let w = choose|w: (int, EnumDecl)|
                #[trigger] within(k, j, w.0) && enum_decl_at(toks, d, w.0, w.1) && w.1.is_exported == exported
                    && items_tail(toks, w.0, j, im, st, en.push(w.1), fs, fim, fst, fen, ffs);
            lemma_items_tail_acc(toks, w.0, j, im, st, en.push(w.1), fs, fim, fst, fen, ffs, im2, st2, en2.push(w.1), fs2);
            let f = choose|f: (Seq<String>, Seq<StructDecl>, Seq<EnumDecl>, Seq<FunctionDecl>)|
                #[trigger] items_tail(toks, w.0, j, im2, st2, en2.push(w.1), fs2, f.0, f.1, f.2, f.3);
            assert(within(k, j, w.0));
            assert(items_tail(toks, k, j, im2, st2, en2, fs2, f.0, f.1, f.2, f.3));
        } else {
            let w = choose|w: (int, FunctionDecl)|
                #[trigger] within(k, j, w.0) && fn_decl_at(toks, d, w.0, w.1) && w.1.is_exported == exported
                    && items_tail(toks, w.0, j, im, st, en, fs.push(w.1), fim, fst, fen, ffs);
            lemma_items_tail_acc(toks, w.0, j, im, st, en, fs.push(w.1), fim, fst, fen, ffs, im2, st2, en2, fs2.push(w.1));
            let f = choose|f: (Seq<String>, Seq<StructDecl>, Seq<EnumDecl>, Seq<FunctionDecl>)|
                #[trigger] items_tail(toks, w.0, j, im2, st2, en2, fs2.push(w.1), f.0, f.1, f.2, f.3);
            assert(within(k, j, w.0));
            assert(items_tail(toks, k, j, im2, st2, en2, fs2, f.0, f.1, f.2, f.3));
        }
    }
}

/// An expression starts with a literal, an identifier, `(` or `[`.
pub proof fn lemma_expr_starts(toks: Seq<Token>, i: int, j: int, allow: bool, e: Expr)
    requires
        expr_at(toks, i, j, allow, e),
    ensures
        starts_expr(toks[i].kind),
{
    let w1 = choose|w: (int, Expr)| #[trigger] within(i, j, w.0) && comparison_at(toks, i, w.0, allow, w.1) && expr_tail(toks, w.0, j, allow, w.1, e);
    let w2 = choose|w: (int, Expr)| #[trigger] within(i, w1.0, w.0) && term_at(toks, i, w.0, allow, w.1) && comparison_tail(toks, w.0, w1.0, allow, w.1, w1.1);
    let w3 = choose|w: (int, Expr)| #[trigger] within(i, w2.0, w.0) && factor_at(toks, i, w.0, allow, w.1) && term_tail(toks, w.0, w2.0, allow, w.1, w2.1);
    let w4 = choose|w: (int, Expr)| #[trigger] within(i, w3.0, w.0) && postfix_at(toks, i, w.0, allow, w.1) && factor_tail(toks, w.0, w3.0, allow, w.1, w3.1);
    let w5 = choose|w: (int, Expr)| #[trigger] within(i, w4.0, w.0) && primary_at(toks, i, w.0, allow, w.1) && postfix_tail(toks, w.0, w4.0, allow, w.1, w4.1);
    assert(primary_at(toks, i, w5.0, allow, w5.1));
}

/// The ordering a comparison token spells on two numbers: `<`, `>`, `<=`
/// (smaller or the same) and `>=` (larger or the same).
pub open spec fn token_orders(k: TokenKind, a: i64, b: i64) -> bool {
    match k {
        TokenKind::Lt => a < b,
        TokenKind::Gt => b < a,
        TokenKind::LtEq => a < b || a == b,
        _ => b < a || a == b,
    }
}

/// Each comparison token gives an operator of its own (no two tokens give
/// the same one), and the operator a token gives, applied to two integers,
/// computes the ordering the token spells: `<=` accepts equal numbers, `<`
/// does not.
pub proof fn lemma_comparison_tokens(k1: TokenKind, k2: TokenKind, a: i64, b: i64)
    requires
        comparison_op(k1) is Some,
    ensures
        comparison_op(k1) == comparison_op(k2) ==> k1 == k2,
        sem_binary(comparison_op(k1)->0, SpecValue::Int(a), SpecValue::Int(b)) == Ok::<SpecValue, SpecError>(
            SpecValue::Bool(token_orders(k1, a, b)),
        ),
{
}

/// `==` and `!=` give operators of their own, which test whether the two
/// values are equal and whether they differ.
pub proof fn lemma_equality_tokens(k1: TokenKind, k2: TokenKind, x: SpecValue, y: SpecValue)
    requires
        equality_op(k1) is Some,
    ensures
        equality_op(k1) == equality_op(k2) ==> k1 == k2,
        sem_binary(equality_op(k1)->0, x, y) == Ok::<SpecValue, SpecError>(
            SpecValue::Bool(if k1 is EqEq { x == y } else { x != y }),
        ),
{
}

/// `+` and `-`, and `*` and `/`, each give an operator of their own, and
/// on integers whose result fits in `i64` they compute the sum,
/// difference, product and (for `a >= 0`, `b > 0`) the quotient.
pub proof fn lemma_arithmetic_tokens(k1: TokenKind, k2: TokenKind, a: i64, b: i64)
    ensures
        term_op(k1) is Some && term_op(k1) == term_op(k2) ==> k1 == k2,
        factor_op(k1) is Some && factor_op(k1) == factor_op(k2) ==> k1 == k2,
        i64::MIN <= a + b <= i64::MAX ==> sem_binary(term_op(TokenKind::Plus)->0, SpecValue::Int(a), SpecValue::Int(b))
            == Ok::<SpecValue, SpecError>(SpecValue::Int((a + b) as i64)),
        i64::MIN <= a - b <= i64::MAX ==> sem_binary(term_op(TokenKind::Minus)->0, SpecValue::Int(a), SpecValue::Int(b))
            == Ok::<SpecValue, SpecError>(SpecValue::Int((a - b) as i64)),
        i64::MIN <= a * b <= i64::MAX ==> sem_binary(factor_op(TokenKind::Star)->0, SpecValue::Int(a), SpecValue::Int(b))
            == Ok::<SpecValue, SpecError>(SpecValue::Int((a * b) as i64)),
        0 <= a && 0 < b ==> sem_binary(factor_op(TokenKind::Slash)->0, SpecValue::Int(a), SpecValue::Int(b))
            == Ok::<SpecValue, SpecError>(SpecValue::Int((a / b) as i64)),
{
    crate::semantics::lemma_arithmetic(a, b, Seq::empty(), Seq::empty());
}

} // verus!
