//! What running a lowered program means: the value or error each
//! expression and statement ends in, the variables after each statement,
//! and the lines `print` writes, in order.
//!
//! Every evaluation step is given a depth budget (`fuel`): each nested
//! step, and each turn of a `while` loop, has one unit less than the step
//! that starts it, and a step started with none left fails with
//! `StepLimitExceeded`.
use vstd::prelude::*;
use crate::ast::{BinaryOp, EnumDecl, EnumVariant, Param, StructDecl};
use crate::hir::{HExpr, HFunctionDecl, HProgram, HStmt};
use crate::text::decimal_digits;
use crate::value::{display_view, type_label_view, SpecValue};

verus! {

/// A runtime error with its texts as character sequences.
pub enum SpecError {
    UndefinedVariable(Seq<char>),
    UndefinedFunction(Seq<char>),
    WrongArgCount { callee: Seq<char>, expected: nat, found: nat },
    NoMainFunction,
    TypeError(Seq<char>),
    DivisionByZero,
    AlreadyDeclared(Seq<char>),
    ImmutableAssignment(Seq<char>),
    StructError(Seq<char>),
    EnumError(Seq<char>),
    IndexOutOfBounds(i64),
    TryPropagate(SpecValue),
    NotResultShaped(Seq<char>),
    StepLimitExceeded,
}

/// How a statement or block ends when it does not fail.
pub enum Flow {
    Normal,
    Return(SpecValue),
}

/// The variables in scope: each name with its value and whether `=` may
/// update it.
pub type Env = Map<Seq<char>, (SpecValue, bool)>;

// ---- finding declarations ----

/// Index of the last item of `s` whose key is `name`.
pub open spec fn last_keyed<T>(s: Seq<T>, key: spec_fn(T) -> Seq<char>, name: Seq<char>) -> Option<int>
    decreases s.len(),
{
    if s.len() == 0 {
        None
    } else if key(s.last()) == name {
        Some(s.len() - 1)
    } else {
        last_keyed(s.drop_last(), key, name)
    }
}

/// Index of the first item of `s` whose key is `name`.
pub open spec fn first_keyed<T>(s: Seq<T>, key: spec_fn(T) -> Seq<char>, name: Seq<char>) -> Option<int>
    decreases s.len(),
{
    if s.len() == 0 {
        None
    } else {
        match first_keyed(s.drop_last(), key, name) {
            Some(i) => Some(i),
            None => if key(s.last()) == name {
                Some(s.len() - 1)
            } else {
                None
            },
        }
    }
}

pub proof fn lemma_last_keyed_is<T>(s: Seq<T>, key: spec_fn(T) -> Seq<char>, name: Seq<char>, r: Option<int>)
    requires
        match r {
            Some(i) => 0 <= i < s.len() && key(s[i]) == name && forall|j: int|
                i < j < s.len() ==> key(#[trigger] s[j]) != name,
            None => forall|j: int| 0 <= j < s.len() ==> key(#[trigger] s[j]) != name,
        },
    ensures
        last_keyed(s, key, name) == r,
    decreases s.len(),
{
    if s.len() > 0 && key(s.last()) != name {
        let w = s.drop_last();
        assert forall|j: int| 0 <= j < w.len() implies #[trigger] w[j] == s[j] by {}
        match r {
            Some(i) => {
                assert(i != s.len() - 1);
                assert forall|j: int| i < j < w.len() implies key(#[trigger] w[j]) != name by {
                    assert(w[j] == s[j]);
                }
                lemma_last_keyed_is(w, key, name, r);
            },
            None => {
                assert forall|j: int| 0 <= j < w.len() implies key(#[trigger] w[j]) != name by {
                    assert(w[j] == s[j]);
                }
                lemma_last_keyed_is(w, key, name, r);
            },
        }
    } else if s.len() > 0 {
        match r {
            Some(i) => {
                if i < s.len() - 1 {
                    assert(key(s[s.len() - 1]) != name);
                }
            },
            None => {
                assert(key(s[s.len() - 1]) != name);
            },
        }
    }
}

pub proof fn lemma_first_keyed_is<T>(s: Seq<T>, key: spec_fn(T) -> Seq<char>, name: Seq<char>, r: Option<int>)
    requires
        match r {
            Some(i) => 0 <= i < s.len() && key(s[i]) == name && forall|j: int|
                0 <= j < i ==> key(#[trigger] s[j]) != name,
            None => forall|j: int| 0 <= j < s.len() ==> key(#[trigger] s[j]) != name,
        },
    ensures
        first_keyed(s, key, name) == r,
    decreases s.len(),
{
    if s.len() > 0 {
        let w = s.drop_last();
        assert forall|j: int| 0 <= j < w.len() implies #[trigger] w[j] == s[j] by {}
        match r {
            Some(i) => {
                if i < s.len() - 1 {
                    assert forall|j: int| 0 <= j < i implies key(#[trigger] w[j]) != name by {
                        assert(w[j] == s[j]);
                    }
                    assert(w[i] == s[i]);
                    lemma_first_keyed_is(w, key, name, r);
                } else {
                    assert forall|j: int| 0 <= j < w.len() implies key(#[trigger] w[j]) != name by {
                        assert(w[j] == s[j]);
                    }
                    lemma_first_keyed_is(w, key, name, None);
                }
            },
            None => {
                assert forall|j: int| 0 <= j < w.len() implies key(#[trigger] w[j]) != name by {
                    assert(w[j] == s[j]);
                }
                lemma_first_keyed_is(w, key, name, None);
                assert(key(s[s.len() - 1]) != name);
            },
        }
    }
}

pub open spec fn function_key() -> spec_fn(HFunctionDecl) -> Seq<char> {
    |f: HFunctionDecl| f.name@
}

pub open spec fn struct_key() -> spec_fn(StructDecl) -> Seq<char> {
    |d: StructDecl| d.name@
}

pub open spec fn enum_key() -> spec_fn(EnumDecl) -> Seq<char> {
    |d: EnumDecl| d.name@
}

pub open spec fn variant_key() -> spec_fn(EnumVariant) -> Seq<char> {
    |v: EnumVariant| v.name@
}

pub open spec fn entry_key() -> spec_fn((Seq<char>, SpecValue)) -> Seq<char> {
    |e: (Seq<char>, SpecValue)| e.0
}

/// The function a call of `name` runs: the last one declared so.
pub open spec fn function_named(p: HProgram, name: Seq<char>) -> Option<HFunctionDecl> {
    match last_keyed(p.functions@, function_key(), name) {
        Some(i) => Some(p.functions@[i]),
        None => None,
    }
}

pub open spec fn struct_named(p: HProgram, name: Seq<char>) -> Option<StructDecl> {
    match last_keyed(p.structs@, struct_key(), name) {
        Some(i) => Some(p.structs@[i]),
        None => None,
    }
}

pub open spec fn enum_named(p: HProgram, name: Seq<char>) -> Option<EnumDecl> {
    match last_keyed(p.enums@, enum_key(), name) {
        Some(i) => Some(p.enums@[i]),
        None => None,
    }
}

/// The first variant of `e` named `name`.
pub open spec fn variant_named(e: EnumDecl, name: Seq<char>) -> Option<EnumVariant> {
    match first_keyed(e.variants@, variant_key(), name) {
        Some(i) => Some(e.variants@[i]),
        None => None,
    }
}

/// The value of the first field named `name`.
pub open spec fn field_value(fs: Seq<(Seq<char>, SpecValue)>, name: Seq<char>) -> Option<SpecValue> {
    match first_keyed(fs, entry_key(), name) {
        Some(i) => Some(fs[i].1),
        None => None,
    }
}

pub open spec fn declares_field(ps: Seq<Param>, name: Seq<char>) -> bool {
    exists|j: int| 0 <= j < ps.len() && (#[trigger] ps[j]).name@ == name
}

/// The values of the declared fields `decl`, in declaration order, or the
/// first declared field without a value.
pub open spec fn order_fields(decl: Seq<Param>, vals: Seq<(Seq<char>, SpecValue)>) -> Result<
    Seq<(Seq<char>, SpecValue)>,
    Seq<char>,
>
    decreases decl.len(),
{
    if decl.len() == 0 {
        Ok(Seq::empty())
    } else {
        match order_fields(decl.drop_last(), vals) {
            Err(m) => Err(m),
            Ok(o) => match field_value(vals, decl.last().name@) {
                Some(v) => Ok(o.push((decl.last().name@, v))),
                None => Err(decl.last().name@),
            },
        }
    }
}

// ---- operators ----

/// Truncating division of mathematical integers, as Rust divides.
pub open spec fn trunc_div(a: int, b: int) -> int {
    let q = (if a < 0 { -a } else { a }) / (if b < 0 { -b } else { b });
    if (a < 0) != (b < 0) {
        -q
    } else {
        q
    }
}

/// `a / b` on `i64`, wrapping the one overflowing case (`MIN / -1`).
pub open spec fn i64_div(a: i64, b: i64) -> i64 {
    let q = trunc_div(a as int, b as int);
    if q > i64::MAX {
        i64::MIN
    } else {
        q as i64
    }
}

pub open spec fn op_text(op: BinaryOp) -> Seq<char> {
    match op {
        BinaryOp::Add => "+"@,
        BinaryOp::Sub => "-"@,
        BinaryOp::Mul => "*"@,
        BinaryOp::Div => "/"@,
        BinaryOp::Eq => "=="@,
        BinaryOp::NotEq => "!="@,
        BinaryOp::Lt => "<"@,
        BinaryOp::Gt => ">"@,
        BinaryOp::Le => "<="@,
        BinaryOp::Ge => ">="@,
    }
}

/// The message of a binary operator applied to operands of wrong types.
pub open spec fn type_error_text(op: Seq<char>, a: SpecValue, b: SpecValue) -> Seq<char> {
    "cannot apply `"@ + op + "` to "@ + type_label_view(a) + " and "@ + type_label_view(b)
}

/// What a binary operator gives on two values: `+` joins strings or adds
/// integers; `-` `*` `/` and the orderings work on integers (arithmetic
/// wraps on overflow; `/` by zero fails); `==` and `!=` compare any two
/// values; anything else is a type error.
pub open spec fn sem_binary(op: BinaryOp, l: SpecValue, r: SpecValue) -> Result<SpecValue, SpecError> {
    let mismatch = Err(SpecError::TypeError(type_error_text(op_text(op), l, r)));
    match op {
        BinaryOp::Eq => Ok(SpecValue::Bool(l == r)),
        BinaryOp::NotEq => Ok(SpecValue::Bool(l != r)),
        BinaryOp::Add => match (l, r) {
            (SpecValue::Str(a), SpecValue::Str(b)) => Ok(SpecValue::Str(a + b)),
            (SpecValue::Int(a), SpecValue::Int(b)) => Ok(SpecValue::Int(a.wrapping_add(b))),
            _ => mismatch,
        },
        _ => match (l, r) {
            (SpecValue::Int(a), SpecValue::Int(b)) => match op {
                BinaryOp::Sub => Ok(SpecValue::Int(a.wrapping_sub(b))),
                BinaryOp::Mul => Ok(SpecValue::Int(a.wrapping_mul(b))),
                BinaryOp::Div => if b == 0 {
                    Err(SpecError::DivisionByZero)
                } else {
                    Ok(SpecValue::Int(i64_div(a, b)))
                },
                BinaryOp::Lt => Ok(SpecValue::Bool(a < b)),
                BinaryOp::Gt => Ok(SpecValue::Bool(a > b)),
                BinaryOp::Le => Ok(SpecValue::Bool(a <= b)),
                _ => Ok(SpecValue::Bool(a >= b)),
            },
            _ => mismatch,
        },
    }
}

/// The error for a named field: a struct error, or an enum error inside
/// an enum literal.
pub open spec fn field_error(in_enum: bool, text: Seq<char>) -> SpecError {
    if in_enum {
        SpecError::EnumError(text)
    } else {
        SpecError::StructError(text)
    }
}

/// `owner` names the struct (`struct `P``) or variant (`variant `E::V``)
/// a field list belongs to.
pub open spec fn owner_text(in_enum: bool, owner: Seq<char>) -> Seq<char> {
    if in_enum {
        "variant `"@ + owner
    } else {
        "struct `"@ + owner
    }
}

/// Binding the parameters to the argument values, in order.
pub open spec fn bind_params(ps: Seq<Param>, vals: Seq<SpecValue>) -> Env
    decreases ps.len(),
{
    if ps.len() == 0 || vals.len() == 0 {
        Map::empty()
    } else if vals.len() < ps.len() {
        bind_params(ps.drop_last(), vals)
    } else {
        bind_params(ps.drop_last(), vals).insert(ps.last().name@, (vals[ps.len() - 1], false))
    }
}

// ---- evaluation ----

/// Evaluating `e` with `fuel` in variables `env`, after `out` was printed:
/// the value or error, and everything printed by then. Expressions never
/// change the variables.
pub open spec fn sem_expr(p: HProgram, fuel: nat, env: Env, out: Seq<Seq<char>>, e: HExpr) -> (
    Result<SpecValue, SpecError>,
    Seq<Seq<char>>,
)
    decreases fuel, 0int,
{
    if fuel == 0 {
        (Err(SpecError::StepLimitExceeded), out)
    } else {
        let f = (fuel - 1) as nat;
        match e {
            HExpr::StringLiteral(s) => (Ok(SpecValue::Str(s@)), out),
            HExpr::IntLiteral(i) => (Ok(SpecValue::Int(i)), out),
            HExpr::BoolLiteral(b) => (Ok(SpecValue::Bool(b)), out),
            HExpr::Identifier(n) => if env.contains_key(n@) {
                (Ok(env[n@].0), out)
            } else {
                (Err(SpecError::UndefinedVariable(n@)), out)
            },
            HExpr::Binary { left, op, right } => {
                let (l, o1) = sem_expr(p, f, env, out, *left);
                match l {
                    Err(err) => (Err(err), o1),
                    Ok(lv) => {
                        let (r, o2) = sem_expr(p, f, env, o1, *right);
                        match r {
                            Err(err) => (Err(err), o2),
                            Ok(rv) => (sem_binary(op, lv, rv), o2),
                        }
                    },
                }
            },
            HExpr::Call { callee, args } => sem_call(p, f, env, out, callee@, args@),
            HExpr::StructLiteral { name, fields } => sem_struct_literal(p, f, env, out, name@, fields@),
            HExpr::FieldAccess { object, field } => {
                let (o, o1) = sem_expr(p, f, env, out, *object);
                match o {
                    Err(err) => (Err(err), o1),
                    Ok(SpecValue::Struct(name, fs)) => match field_value(fs, field@) {
                        Some(v) => (Ok(v), o1),
                        None => (
                            Err(
                                SpecError::StructError(
                                    "struct `"@ + name + "` has no field `"@ + field@ + "`"@,
                                ),
                            ),
                            o1,
                        ),
                    },
                    Ok(other) => (
                        Err(
                            SpecError::TypeError(
                                "cannot access field `"@ + field@ + "` on "@ + type_label_view(other),
                            ),
                        ),
                        o1,
                    ),
                }
            },
            HExpr::EnumLiteral { enum_name, variant, fields } => sem_enum_literal(
                p,
                f,
                env,
                out,
                enum_name@,
                variant@,
                fields@,
            ),
            HExpr::ArrayLiteral(elements) => {
                let (r, o1) = sem_exprs(p, f, env, out, elements@);
                match r {
                    Err(err) => (Err(err), o1),
                    Ok(vs) => (Ok(SpecValue::Array(vs)), o1),
                }
            },
            HExpr::Index { array, index } => {
                let (iv, o1) = sem_expr(p, f, env, out, *index);
                match iv {
                    Err(err) => (Err(err), o1),
                    Ok(SpecValue::Int(i)) => {
                        let (av, o2) = sem_expr(p, f, env, o1, *array);
                        match av {
                            Err(err) => (Err(err), o2),
                            Ok(SpecValue::Array(items)) => if i < 0 || i >= items.len() {
                                (Err(SpecError::IndexOutOfBounds(i)), o2)
                            } else {
                                (Ok(items[i as int]), o2)
                            },
                            Ok(other) => (
                                Err(SpecError::TypeError("cannot index into "@ + type_label_view(other))),
                                o2,
                            ),
                        }
                    },
                    Ok(other) => (
                        Err(
                            SpecError::TypeError(
                                "array index must be Int, found "@ + type_label_view(other),
                            ),
                        ),
                        o1,
                    ),
                }
            },
            HExpr::Try(inner) => {
                let (v, o1) = sem_expr(p, f, env, out, *inner);
                match v {
                    Err(err) => (Err(err), o1),
                    Ok(SpecValue::Enum(en, vn, fs)) => if vn == "Ok"@ {
                        match field_value(fs, "value"@) {
                            Some(x) => (Ok(x), o1),
                            None => (
                                Err(
                                    SpecError::NotResultShaped(
                                        "enum `"@ + en + "` variant `Ok` has no `value` field"@,
                                    ),
                                ),
                                o1,
                            ),
                        }
                    } else if vn == "Err"@ {
                        (Err(SpecError::TryPropagate(SpecValue::Enum(en, vn, fs))), o1)
                    } else {
                        (
                            Err(
                                SpecError::NotResultShaped(
                                    "`?` requires an Ok/Err-shaped enum, found variant `"@ + vn + "`"@,
                                ),
                            ),
                            o1,
                        )
                    },
                    Ok(_) => (Err(SpecError::NotResultShaped("? used on a non-enum value"@)), o1),
                }
            },
            HExpr::IsVariant { scrutinee, enum_name, variant } => {
                let (v, o1) = sem_expr(p, f, env, out, *scrutinee);
                match v {
                    Err(err) => (Err(err), o1),
                    Ok(SpecValue::Enum(en, vn, _)) => (
                        Ok(SpecValue::Bool(en == enum_name@ && vn == variant@)),
                        o1,
                    ),
                    Ok(_) => (Ok(SpecValue::Bool(false)), o1),
                }
            },
            HExpr::VariantField { scrutinee, enum_name, variant, field } => {
                let (v, o1) = sem_expr(p, f, env, out, *scrutinee);
                match v {
                    Err(err) => (Err(err), o1),
                    Ok(SpecValue::Enum(_, _, fs)) => match field_value(fs, field@) {
                        Some(x) => (Ok(x), o1),
                        None => (
                            Err(
                                SpecError::EnumError(
                                    "variant `"@ + enum_name@ + "::"@ + variant@ + "` has no field `"@
                                        + field@ + "`"@,
                                ),
                            ),
                            o1,
                        ),
                    },
                    Ok(other) => (
                        Err(
                            SpecError::TypeError(
                                "expected enum `"@ + enum_name@ + "`, found "@ + type_label_view(other),
                            ),
                        ),
                        o1,
                    ),
                }
            },
        }
    }
}

/// Evaluating `es` from left to right, each with `fuel`, stopping at the
/// first error.
pub open spec fn sem_exprs(p: HProgram, fuel: nat, env: Env, out: Seq<Seq<char>>, es: Seq<HExpr>) -> (
    Result<Seq<SpecValue>, SpecError>,
    Seq<Seq<char>>,
)
    decreases fuel, es.len() + 1,
{
    if es.len() == 0 {
        (Ok(Seq::empty()), out)
    } else {
        let (r, o1) = sem_exprs(p, fuel, env, out, es.drop_last());
        match r {
            Err(err) => (Err(err), o1),
            Ok(vs) => {
                let (v, o2) = sem_expr(p, fuel, env, o1, es.last());
                match v {
                    Err(err) => (Err(err), o2),
                    Ok(x) => (Ok(vs.push(x)), o2),
                }
            },
        }
    }
}

/// Evaluating the named fields of a struct or variant literal from left to
/// right: each name must be declared and given once.
pub open spec fn sem_named_fields(
    p: HProgram,
    fuel: nat,
    env: Env,
    out: Seq<Seq<char>>,
    decl: Seq<Param>,
    fs: Seq<(String, HExpr)>,
    in_enum: bool,
    owner: Seq<char>,
) -> (Result<Seq<(Seq<char>, SpecValue)>, SpecError>, Seq<Seq<char>>)
    decreases fuel, fs.len() + 1,
{
    if fs.len() == 0 {
        (Ok(Seq::empty()), out)
    } else {
        let (r, o1) = sem_named_fields(p, fuel, env, out, decl, fs.drop_last(), in_enum, owner);
        match r {
            Err(err) => (Err(err), o1),
            Ok(vals) => {
                let name = fs.last().0@;
                if !declares_field(decl, name) {
                    (
                        Err(
                            field_error(
                                in_enum,
                                owner_text(in_enum, owner) + "` has no field `"@ + name + "`"@,
                            ),
                        ),
                        o1,
                    )
                } else if field_value(vals, name) is Some {
                    (Err(field_error(in_enum, "field `"@ + name + "` specified more than once"@)), o1)
                } else {
                    let (v, o2) = sem_expr(p, fuel, env, o1, fs.last().1);
                    match v {
                        Err(err) => (Err(err), o2),
                        Ok(x) => (Ok(vals.push((name, x))), o2),
                    }
                }
            },
        }
    }
}

pub open spec fn sem_struct_literal(
    p: HProgram,
    fuel: nat,
    env: Env,
    out: Seq<Seq<char>>,
    name: Seq<char>,
    fs: Seq<(String, HExpr)>,
) -> (Result<SpecValue, SpecError>, Seq<Seq<char>>)
    decreases fuel, 0int,
{
    if fuel == 0 {
        (Err(SpecError::StepLimitExceeded), out)
    } else {
        match struct_named(p, name) {
            None => (Err(SpecError::StructError("undefined struct `"@ + name + "`"@)), out),
            Some(decl) => if fs.len() != decl.fields@.len() {
                (
                    Err(
                        SpecError::StructError(
                            "struct `"@ + name + "` expects "@ + decimal_digits(decl.fields@.len())
                                + " field(s), found "@ + decimal_digits(fs.len()),
                        ),
                    ),
                    out,
                )
            } else {
                let (r, o1) = sem_named_fields(
                    p,
                    (fuel - 1) as nat,
                    env,
                    out,
                    decl.fields@,
                    fs,
                    false,
                    name,
                );
                match r {
                    Err(err) => (Err(err), o1),
                    Ok(vals) => match order_fields(decl.fields@, vals) {
                        Ok(ordered) => (Ok(SpecValue::Struct(name, ordered)), o1),
                        Err(missing) => (
                            Err(
                                SpecError::StructError(
                                    "missing field `"@ + missing + "` in struct `"@ + name + "`"@,
                                ),
                            ),
                            o1,
                        ),
                    },
                }
            },
        }
    }
}

pub open spec fn sem_enum_literal(
    p: HProgram,
    fuel: nat,
    env: Env,
    out: Seq<Seq<char>>,
    enum_name: Seq<char>,
    variant: Seq<char>,
    fs: Seq<(String, HExpr)>,
) -> (Result<SpecValue, SpecError>, Seq<Seq<char>>)
    decreases fuel, 0int,
{
    if fuel == 0 {
        (Err(SpecError::StepLimitExceeded), out)
    } else {
        let path = enum_name + "::"@ + variant;
        match enum_named(p, enum_name) {
            None => (Err(SpecError::EnumError("undefined enum `"@ + enum_name + "`"@)), out),
            Some(decl) => match variant_named(decl, variant) {
                None => (
                    Err(
                        SpecError::EnumError(
                            "enum `"@ + enum_name + "` has no variant `"@ + variant + "`"@,
                        ),
                    ),
                    out,
                ),
                Some(vd) => if fs.len() != vd.fields@.len() {
                    (
                        Err(
                            SpecError::EnumError(
                                "variant `"@ + path + "` expects "@ + decimal_digits(vd.fields@.len())
                                    + " field(s), found "@ + decimal_digits(fs.len()),
                            ),
                        ),
                        out,
                    )
                } else {
                    let (r, o1) = sem_named_fields(
                        p,
                        (fuel - 1) as nat,
                        env,
                        out,
                        vd.fields@,
                        fs,
                        true,
                        path,
                    );
                    match r {
                        Err(err) => (Err(err), o1),
                        Ok(vals) => match order_fields(vd.fields@, vals) {
                            Ok(ordered) => (Ok(SpecValue::Enum(enum_name, variant, ordered)), o1),
                            Err(missing) => (
                                Err(
                                    SpecError::EnumError(
                                        "missing field `"@ + missing + "` in variant `"@ + path + "`"@,
                                    ),
                                ),
                                o1,
                            ),
                        },
                    }
                },
            },
        }
    }
}

/// A call: the built-ins `print`, `len` and `push`, else the last user
/// function declared under that name.
pub open spec fn sem_call(
    p: HProgram,
    fuel: nat,
    env: Env,
    out: Seq<Seq<char>>,
    callee: Seq<char>,
    args: Seq<HExpr>,
) -> (Result<SpecValue, SpecError>, Seq<Seq<char>>)
    decreases fuel, 0int,
{
    if fuel == 0 {
        (Err(SpecError::StepLimitExceeded), out)
    } else {
        let f = (fuel - 1) as nat;
        if callee == "print"@ {
            if args.len() != 1 {
                (Err(SpecError::WrongArgCount { callee, expected: 1, found: args.len() }), out)
            } else {
                let (v, o1) = sem_expr(p, f, env, out, args[0]);
                match v {
                    Err(err) => (Err(err), o1),
                    Ok(x) => (Ok(SpecValue::Unit), o1.push(display_view(x))),
                }
            }
        } else if callee == "len"@ {
            if args.len() != 1 {
                (Err(SpecError::WrongArgCount { callee, expected: 1, found: args.len() }), out)
            } else {
                let (v, o1) = sem_expr(p, f, env, out, args[0]);
                match v {
                    Err(err) => (Err(err), o1),
                    Ok(SpecValue::Array(items)) => (
                        Ok(
                            SpecValue::Int(
                                if items.len() <= i64::MAX {
                                    items.len() as i64
                                } else {
                                    i64::MAX
                                },
                            ),
                        ),
                        o1,
                    ),
                    Ok(_) => (Err(SpecError::TypeError("len expects an Array"@)), o1),
                }
            }
        } else if callee == "push"@ {
            if args.len() != 2 {
                (Err(SpecError::WrongArgCount { callee, expected: 2, found: args.len() }), out)
            } else {
                let (a, o1) = sem_expr(p, f, env, out, args[0]);
                match a {
                    Err(err) => (Err(err), o1),
                    Ok(SpecValue::Array(items)) => {
                        let (x, o2) = sem_expr(p, f, env, o1, args[1]);
                        match x {
                            Err(err) => (Err(err), o2),
                            Ok(item) => (Ok(SpecValue::Array(items.push(item))), o2),
                        }
                    },
                    Ok(_) => (
                        Err(SpecError::TypeError("push expects an Array as its first argument"@)),
                        o1,
                    ),
                }
            }
        } else {
            match function_named(p, callee) {
                None => (Err(SpecError::UndefinedFunction(callee)), out),
                Some(func) => sem_call_user(p, f, env, out, func, args),
            }
        }
    }
}

/// A call of a user function: the arguments are evaluated in the caller's
/// variables, then the body runs with only the parameters bound.
pub open spec fn sem_call_user(
    p: HProgram,
    fuel: nat,
    env: Env,
    out: Seq<Seq<char>>,
    func: HFunctionDecl,
    args: Seq<HExpr>,
) -> (Result<SpecValue, SpecError>, Seq<Seq<char>>)
    decreases fuel, 0int,
{
    if fuel == 0 {
        (Err(SpecError::StepLimitExceeded), out)
    } else {
        let f = (fuel - 1) as nat;
        if args.len() != func.params@.len() {
            (
                Err(
                    SpecError::WrongArgCount {
                        callee: func.name@,
                        expected: func.params@.len(),
                        found: args.len(),
                    },
                ),
                out,
            )
        } else {
            let (r, o1) = sem_exprs(p, f, env, out, args);
            match r {
                Err(err) => (Err(err), o1),
                Ok(vals) => {
                    let (b, _, o2) = sem_block(p, f, bind_params(func.params@, vals), o1, func.body@);
                    match b {
                        Err(err) => (Err(err), o2),
                        Ok(Flow::Return(v)) => (Ok(v), o2),
                        Ok(Flow::Normal) => (Ok(SpecValue::Unit), o2),
                    }
                },
            }
        }
    }
}

/// A condition: its value must be a boolean.
pub open spec fn sem_condition(p: HProgram, fuel: nat, env: Env, out: Seq<Seq<char>>, e: HExpr) -> (
    Result<bool, SpecError>,
    Seq<Seq<char>>,
)
    decreases fuel, 0int,
{
    if fuel == 0 {
        (Err(SpecError::StepLimitExceeded), out)
    } else {
        let (v, o1) = sem_expr(p, (fuel - 1) as nat, env, out, e);
        match v {
            Err(err) => (Err(err), o1),
            Ok(SpecValue::Bool(b)) => (Ok(b), o1),
            Ok(other) => (
                Err(SpecError::TypeError("condition must be Bool, found "@ + type_label_view(other))),
                o1,
            ),
        }
    }
}

/// Running a block: its statements in order until one returns or fails.
/// A `?` meeting an `Err` in one of them returns that `Err` value from the
/// block.
pub open spec fn sem_block(p: HProgram, fuel: nat, env: Env, out: Seq<Seq<char>>, ss: Seq<HStmt>) -> (
    Result<Flow, SpecError>,
    Env,
    Seq<Seq<char>>,
)
    decreases fuel, 0int,
{
    if fuel == 0 {
        (Err(SpecError::StepLimitExceeded), env, out)
    } else {
        sem_stmts(p, (fuel - 1) as nat, env, out, ss)
    }
}

pub open spec fn sem_stmts(p: HProgram, fuel: nat, env: Env, out: Seq<Seq<char>>, ss: Seq<HStmt>) -> (
    Result<Flow, SpecError>,
    Env,
    Seq<Seq<char>>,
)
    decreases fuel, ss.len() + 1,
{
    if ss.len() == 0 {
        (Ok(Flow::Normal), env, out)
    } else {
        let (r, e1, o1) = sem_stmts(p, fuel, env, out, ss.drop_last());
        match r {
            Ok(Flow::Normal) => {
                let (s, e2, o2) = sem_stmt(p, fuel, e1, o1, ss.last());
                match s {
                    Err(SpecError::TryPropagate(v)) => (Ok(Flow::Return(v)), e2, o2),
                    other => (other, e2, o2),
                }
            },
            other => (other, e1, o1),
        }
    }
}

pub open spec fn sem_stmt(p: HProgram, fuel: nat, env: Env, out: Seq<Seq<char>>, s: HStmt) -> (
    Result<Flow, SpecError>,
    Env,
    Seq<Seq<char>>,
)
    decreases fuel, 0int,
{
    if fuel == 0 {
        (Err(SpecError::StepLimitExceeded), env, out)
    } else {
        let f = (fuel - 1) as nat;
        match s {
            HStmt::VariableDecl { name, value, is_mutable } => if env.contains_key(name@) {
                (Err(SpecError::AlreadyDeclared(name@)), env, out)
            } else {
                let (v, o1) = sem_expr(p, f, env, out, value);
                match v {
                    Err(err) => (Err(err), env, o1),
                    Ok(x) => (Ok(Flow::Normal), env.insert(name@, (x, is_mutable)), o1),
                }
            },
            HStmt::Assign { name, value } => {
                let (v, o1) = sem_expr(p, f, env, out, value);
                match v {
                    Err(err) => (Err(err), env, o1),
                    Ok(x) => if !env.contains_key(name@) {
                        (Err(SpecError::UndefinedVariable(name@)), env, o1)
                    } else if !env[name@].1 {
                        (Err(SpecError::ImmutableAssignment(name@)), env, o1)
                    } else {
                        (Ok(Flow::Normal), env.insert(name@, (x, true)), o1)
                    },
                }
            },
            HStmt::IndexAssign { name, index, value } => {
                let (iv, o1) = sem_expr(p, f, env, out, index);
                match iv {
                    Err(err) => (Err(err), env, o1),
                    Ok(SpecValue::Int(i)) => {
                        let (v, o2) = sem_expr(p, f, env, o1, value);
                        match v {
                            Err(err) => (Err(err), env, o2),
                            Ok(x) => if !env.contains_key(name@) {
                                (Err(SpecError::UndefinedVariable(name@)), env, o2)
                            } else if !env[name@].1 {
                                (Err(SpecError::ImmutableAssignment(name@)), env, o2)
                            } else {
                                match env[name@].0 {
                                    SpecValue::Array(items) => if i < 0 || i >= items.len() {
                                        (Err(SpecError::IndexOutOfBounds(i)), env, o2)
                                    } else {
                                        (
                                            Ok(Flow::Normal),
                                            env.insert(
                                                name@,
                                                (SpecValue::Array(items.update(i as int, x)), true),
                                            ),
                                            o2,
                                        )
                                    },
                                    _ => (
                                        Err(SpecError::TypeError("cannot index-assign into a non-array"@)),
                                        env,
                                        o2,
                                    ),
                                }
                            },
                        }
                    },
                    Ok(other) => (
                        Err(
                            SpecError::TypeError(
                                "array index must be Int, found "@ + type_label_view(other),
                            ),
                        ),
                        env,
                        o1,
                    ),
                }
            },
            HStmt::Expr(e) => {
                let (v, o1) = sem_expr(p, f, env, out, e);
                match v {
                    Err(err) => (Err(err), env, o1),
                    Ok(_) => (Ok(Flow::Normal), env, o1),
                }
            },
            HStmt::If { condition, then_branch, else_branch } => {
                let (c, o1) = sem_condition(p, f, env, out, condition);
                match c {
                    Err(err) => (Err(err), env, o1),
                    Ok(true) => sem_block(p, f, env, o1, then_branch@),
                    Ok(false) => match else_branch {
                        Some(b) => sem_block(p, f, env, o1, b@),
                        None => (Ok(Flow::Normal), env, o1),
                    },
                }
            },
            HStmt::While { condition, body } => sem_while(p, f, env, out, condition, body@),
            HStmt::Return(e) => match e {
                Some(x) => {
                    let (v, o1) = sem_expr(p, f, env, out, x);
                    match v {
                        Err(err) => (Err(err), env, o1),
                        Ok(y) => (Ok(Flow::Return(y)), env, o1),
                    }
                },
                None => (Ok(Flow::Return(SpecValue::Unit)), env, out),
            },
        }
    }
}

/// A `while` loop: each turn tests the condition, then runs the body.
pub open spec fn sem_while(
    p: HProgram,
    fuel: nat,
    env: Env,
    out: Seq<Seq<char>>,
    condition: HExpr,
    body: Seq<HStmt>,
) -> (Result<Flow, SpecError>, Env, Seq<Seq<char>>)
    decreases fuel, 0int,
{
    if fuel == 0 {
        (Err(SpecError::StepLimitExceeded), env, out)
    } else {
        let f = (fuel - 1) as nat;
        let (c, o1) = sem_condition(p, f, env, out, condition);
        match c {
            Err(err) => (Err(err), env, o1),
            Ok(false) => (Ok(Flow::Normal), env, o1),
            Ok(true) => {
                let (b, e2, o2) = sem_block(p, f, env, o1, body);
                match b {
                    Ok(Flow::Normal) => sem_while(p, f, e2, o2, condition, body),
                    other => (other, e2, o2),
                }
            },
        }
    }
}

/// Running `main` (the last function so named) with `fuel`: how it ends,
/// the variables it leaves, and everything printed.
pub open spec fn sem_run(p: HProgram, fuel: nat, env: Env, out: Seq<Seq<char>>) -> (
    Result<(), SpecError>,
    Env,
    Seq<Seq<char>>,
) {
    match function_named(p, "main"@) {
        None => (Err(SpecError::NoMainFunction), env, out),
        Some(m) => {
            let (r, e1, o1) = sem_block(p, fuel, env, out, m.body@);
            match r {
                Ok(_) => (Ok(()), e1, o1),
                Err(err) => (Err(err), e1, o1),
            }
        },
    }
}

/// `after` begins with `before`: nothing printed earlier was taken back.
pub open spec fn keeps_output(before: Seq<Seq<char>>, after: Seq<Seq<char>>) -> bool {
    before.len() <= after.len() && forall|i: int| 0 <= i < before.len() ==> after[i] == before[i]
}

proof fn lemma_expr_keeps_output(p: HProgram, fuel: nat, env: Env, out: Seq<Seq<char>>, e: HExpr)
    ensures
        keeps_output(out, sem_expr(p, fuel, env, out, e).1),
    decreases fuel, 0int,
{
    if fuel > 0 {
        let f = (fuel - 1) as nat;
        match e {
            HExpr::Binary { left, op, right } => {
                lemma_expr_keeps_output(p, f, env, out, *left);
                let (l, o1) = sem_expr(p, f, env, out, *left);
                if l is Ok {
                    lemma_expr_keeps_output(p, f, env, o1, *right);
                }
            },
            HExpr::Call { callee, args } => lemma_call_keeps_output(p, f, env, out, callee@, args@),
            HExpr::StructLiteral { name, fields } => lemma_struct_literal_keeps_output(p, f, env, out, name@, fields@),
            HExpr::EnumLiteral { enum_name, variant, fields } => lemma_enum_literal_keeps_output(
                p,
                f,
                env,
                out,
                enum_name@,
                variant@,
                fields@,
            ),
            HExpr::FieldAccess { object, field } => lemma_expr_keeps_output(p, f, env, out, *object),
            HExpr::ArrayLiteral(elements) => lemma_exprs_keeps_output(p, f, env, out, elements@),
            HExpr::Index { array, index } => {
                lemma_expr_keeps_output(p, f, env, out, *index);
                let (iv, o1) = sem_expr(p, f, env, out, *index);
                lemma_expr_keeps_output(p, f, env, o1, *array);
            },
            HExpr::Try(inner) => lemma_expr_keeps_output(p, f, env, out, *inner),
            HExpr::IsVariant { scrutinee, .. } => lemma_expr_keeps_output(p, f, env, out, *scrutinee),
            HExpr::VariantField { scrutinee, .. } => lemma_expr_keeps_output(p, f, env, out, *scrutinee),
            _ => {},
        }
    }
}

proof fn lemma_exprs_keeps_output(p: HProgram, fuel: nat, env: Env, out: Seq<Seq<char>>, es: Seq<HExpr>)
    ensures
        keeps_output(out, sem_exprs(p, fuel, env, out, es).1),
    decreases fuel, es.len() + 1,
{
    if es.len() > 0 {
        lemma_exprs_keeps_output(p, fuel, env, out, es.drop_last());
        let (r, o1) = sem_exprs(p, fuel, env, out, es.drop_last());
        lemma_expr_keeps_output(p, fuel, env, o1, es.last());
    }
}

proof fn lemma_named_fields_keeps_output(
    p: HProgram,
    fuel: nat,
    env: Env,
    out: Seq<Seq<char>>,
    decl: Seq<Param>,
    fs: Seq<(String, HExpr)>,
    in_enum: bool,
    owner: Seq<char>,
)
    ensures
        keeps_output(out, sem_named_fields(p, fuel, env, out, decl, fs, in_enum, owner).1),
    decreases fuel, fs.len() + 1,
{
    if fs.len() > 0 {
        lemma_named_fields_keeps_output(p, fuel, env, out, decl, fs.drop_last(), in_enum, owner);
        let (r, o1) = sem_named_fields(p, fuel, env, out, decl, fs.drop_last(), in_enum, owner);
        lemma_expr_keeps_output(p, fuel, env, o1, fs.last().1);
    }
}

proof fn lemma_struct_literal_keeps_output(
    p: HProgram,
    fuel: nat,
    env: Env,
    out: Seq<Seq<char>>,
    name: Seq<char>,
    fs: Seq<(String, HExpr)>,
)
    ensures
        keeps_output(out, sem_struct_literal(p, fuel, env, out, name, fs).1),
    decreases fuel, 0int,
{
    if fuel > 0 {
        if let Some(decl) = struct_named(p, name) {
            lemma_named_fields_keeps_output(p, (fuel - 1) as nat, env, out, decl.fields@, fs, false, name);
        }
    }
}

proof fn lemma_enum_literal_keeps_output(
    p: HProgram,
    fuel: nat,
    env: Env,
    out: Seq<Seq<char>>,
    enum_name: Seq<char>,
    variant: Seq<char>,
    fs: Seq<(String, HExpr)>,
)
    ensures
        keeps_output(out, sem_enum_literal(p, fuel, env, out, enum_name, variant, fs).1),
    decreases fuel, 0int,
{
    if fuel > 0 {
        if let Some(decl) = enum_named(p, enum_name) {
            if let Some(vd) = variant_named(decl, variant) {
                lemma_named_fields_keeps_output(
                    p,
                    (fuel - 1) as nat,
                    env,
                    out,
                    vd.fields@,
                    fs,
                    true,
                    enum_name + "::"@ + variant,
                );
            }
        }
    }
}

proof fn lemma_call_keeps_output(
    p: HProgram,
    fuel: nat,
    env: Env,
    out: Seq<Seq<char>>,
    callee: Seq<char>,
    args: Seq<HExpr>,
)
    ensures
        keeps_output(out, sem_call(p, fuel, env, out, callee, args).1),
    decreases fuel, 0int,
{
    if fuel > 0 {
        let f = (fuel - 1) as nat;
        if callee == "print"@ || callee == "len"@ {
            if args.len() == 1 {
                lemma_expr_keeps_output(p, f, env, out, args[0]);
            }
        } else if callee == "push"@ {
            if args.len() == 2 {
                lemma_expr_keeps_output(p, f, env, out, args[0]);
                let (a, o1) = sem_expr(p, f, env, out, args[0]);
                lemma_expr_keeps_output(p, f, env, o1, args[1]);
            }
        } else if let Some(func) = function_named(p, callee) {
            lemma_call_user_keeps_output(p, f, env, out, func, args);
        }
    }
}

proof fn lemma_call_user_keeps_output(
    p: HProgram,
    fuel: nat,
    env: Env,
    out: Seq<Seq<char>>,
    func: HFunctionDecl,
    args: Seq<HExpr>,
)
    ensures
        keeps_output(out, sem_call_user(p, fuel, env, out, func, args).1),
    decreases fuel, 0int,
{
    if fuel > 0 {
        let f = (fuel - 1) as nat;
        if args.len() == func.params@.len() {
            lemma_exprs_keeps_output(p, f, env, out, args);
            let (r, o1) = sem_exprs(p, f, env, out, args);
            if let Ok(vals) = r {
                lemma_block_keeps_output(p, f, bind_params(func.params@, vals), o1, func.body@);
            }
        }
    }
}

proof fn lemma_condition_keeps_output(p: HProgram, fuel: nat, env: Env, out: Seq<Seq<char>>, e: HExpr)
    ensures
        keeps_output(out, sem_condition(p, fuel, env, out, e).1),
    decreases fuel, 0int,
{
    if fuel > 0 {
        lemma_expr_keeps_output(p, (fuel - 1) as nat, env, out, e);
    }
}

proof fn lemma_block_keeps_output(p: HProgram, fuel: nat, env: Env, out: Seq<Seq<char>>, ss: Seq<HStmt>)
    ensures
        keeps_output(out, sem_block(p, fuel, env, out, ss).2),
    decreases fuel, 0int,
{
    if fuel > 0 {
        lemma_stmts_keeps_output(p, (fuel - 1) as nat, env, out, ss);
    }
}

proof fn lemma_stmts_keeps_output(p: HProgram, fuel: nat, env: Env, out: Seq<Seq<char>>, ss: Seq<HStmt>)
    ensures
        keeps_output(out, sem_stmts(p, fuel, env, out, ss).2),
    decreases fuel, ss.len() + 1,
{
    if ss.len() > 0 {
        lemma_stmts_keeps_output(p, fuel, env, out, ss.drop_last());
        let (r, e1, o1) = sem_stmts(p, fuel, env, out, ss.drop_last());
        lemma_stmt_keeps_output(p, fuel, e1, o1, ss.last());
    }
}

proof fn lemma_stmt_keeps_output(p: HProgram, fuel: nat, env: Env, out: Seq<Seq<char>>, s: HStmt)
    ensures
        keeps_output(out, sem_stmt(p, fuel, env, out, s).2),
    decreases fuel, 0int,
{
    if fuel > 0 {
        let f = (fuel - 1) as nat;
        match s {
            HStmt::VariableDecl { value, .. } => lemma_expr_keeps_output(p, f, env, out, value),
            HStmt::Assign { value, .. } => lemma_expr_keeps_output(p, f, env, out, value),
            HStmt::IndexAssign { index, value, .. } => {
                lemma_expr_keeps_output(p, f, env, out, index);
                let (iv, o1) = sem_expr(p, f, env, out, index);
                lemma_expr_keeps_output(p, f, env, o1, value);
            },
            HStmt::Expr(e) => lemma_expr_keeps_output(p, f, env, out, e),
            HStmt::If { condition, then_branch, else_branch } => {
                lemma_condition_keeps_output(p, f, env, out, condition);
                let (c, o1) = sem_condition(p, f, env, out, condition);
                lemma_block_keeps_output(p, f, env, o1, then_branch@);
                if let Some(b) = else_branch {
                    lemma_block_keeps_output(p, f, env, o1, b@);
                }
            },
            HStmt::While { condition, body } => lemma_while_keeps_output(p, f, env, out, condition, body@),
            HStmt::Return(e) => {
                if let Some(x) = e {
                    lemma_expr_keeps_output(p, f, env, out, x);
                }
            },
        }
    }
}

proof fn lemma_while_keeps_output(
    p: HProgram,
    fuel: nat,
    env: Env,
    out: Seq<Seq<char>>,
    condition: HExpr,
    body: Seq<HStmt>,
)
    ensures
        keeps_output(out, sem_while(p, fuel, env, out, condition, body).2),
    decreases fuel, 0int,
{
    if fuel > 0 {
        let f = (fuel - 1) as nat;
        lemma_condition_keeps_output(p, f, env, out, condition);
        let (c, o1) = sem_condition(p, f, env, out, condition);
        lemma_block_keeps_output(p, f, env, o1, body);
        let (b, e2, o2) = sem_block(p, f, env, o1, body);
        lemma_while_keeps_output(p, f, e2, o2, condition, body);
    }
}

/// Running a program never takes back output: whatever was printed
/// before stays, in order, at the start of everything printed after.
pub proof fn lemma_run_keeps_output(p: HProgram, fuel: nat, env: Env, out: Seq<Seq<char>>)
    ensures
        keeps_output(out, sem_run(p, fuel, env, out).2),
{
    if let Some(m) = function_named(p, "main"@) {
        lemma_block_keeps_output(p, fuel, env, out, m.body@);
    }
}

/// Comparing two integers gives their order as numbers: `<` holds when the
/// left one is smaller, `<=` when it is smaller or the same (so `x <= x`
/// holds), `>` when it is larger, and `>=` when it is larger or the same.
/// The operands are evaluated first, left then right.
pub proof fn lemma_int_comparison(
    p: HProgram,
    fuel: nat,
    env: Env,
    out: Seq<Seq<char>>,
    l: HExpr,
    r: HExpr,
    a: i64,
    b: i64,
    o1: Seq<Seq<char>>,
    o2: Seq<Seq<char>>,
)
    requires
        sem_expr(p, fuel, env, out, l) == (Ok::<SpecValue, SpecError>(SpecValue::Int(a)), o1),
        sem_expr(p, fuel, env, o1, r) == (Ok::<SpecValue, SpecError>(SpecValue::Int(b)), o2),
    ensures
        sem_expr(p, fuel + 1, env, out, HExpr::Binary { left: Box::new(l), op: BinaryOp::Lt, right: Box::new(r) })
            == (Ok::<SpecValue, SpecError>(SpecValue::Bool(a < b)), o2),
        sem_expr(p, fuel + 1, env, out, HExpr::Binary { left: Box::new(l), op: BinaryOp::Le, right: Box::new(r) })
            == (Ok::<SpecValue, SpecError>(SpecValue::Bool(a < b || a == b)), o2),
        sem_expr(p, fuel + 1, env, out, HExpr::Binary { left: Box::new(l), op: BinaryOp::Gt, right: Box::new(r) })
            == (Ok::<SpecValue, SpecError>(SpecValue::Bool(b < a)), o2),
        sem_expr(p, fuel + 1, env, out, HExpr::Binary { left: Box::new(l), op: BinaryOp::Ge, right: Box::new(r) })
            == (Ok::<SpecValue, SpecError>(SpecValue::Bool(b < a || a == b)), o2),
{
}

/// On integers, `+`, `-` and `*` are the sum, difference and product of
/// the numbers whenever that fits in `i64`; `/` by a non-zero divisor
/// rounds the quotient toward zero (for a dividend `a >= 0` and divisor
/// `b > 0` it is the number of times `b` fits in `a`), and `/` by zero
/// fails with `DivisionByZero`. On strings, `+` joins them.
pub proof fn lemma_arithmetic(a: i64, b: i64, s: Seq<char>, t: Seq<char>)
    ensures
        i64::MIN <= a + b <= i64::MAX ==> sem_binary(BinaryOp::Add, SpecValue::Int(a), SpecValue::Int(b)) == Ok::<
            SpecValue,
            SpecError,
        >(SpecValue::Int((a + b) as i64)),
        i64::MIN <= a - b <= i64::MAX ==> sem_binary(BinaryOp::Sub, SpecValue::Int(a), SpecValue::Int(b)) == Ok::<
            SpecValue,
            SpecError,
        >(SpecValue::Int((a - b) as i64)),
        i64::MIN <= a * b <= i64::MAX ==> sem_binary(BinaryOp::Mul, SpecValue::Int(a), SpecValue::Int(b)) == Ok::<
            SpecValue,
            SpecError,
        >(SpecValue::Int((a * b) as i64)),
        0 <= a && 0 < b ==> sem_binary(BinaryOp::Div, SpecValue::Int(a), SpecValue::Int(b)) == Ok::<
            SpecValue,
            SpecError,
        >(SpecValue::Int((a / b) as i64)),
        0 <= a && 0 < b ==> (a / b) * b <= a < (a / b) * b + b,
        sem_binary(BinaryOp::Div, SpecValue::Int(a), SpecValue::Int(0)) == Err::<SpecValue, SpecError>(
            SpecError::DivisionByZero,
        ),
        sem_binary(BinaryOp::Add, SpecValue::Str(s), SpecValue::Str(t)) == Ok::<SpecValue, SpecError>(
            SpecValue::Str(s + t),
        ),
{
    if i64::MIN <= a * b <= i64::MAX {
        let x = a * b;
        let m = 0x1_0000_0000_0000_0000int;
        if x >= 0 {
            vstd::arithmetic::div_mod::lemma_small_mod(x as nat, m as nat);
        } else {
            vstd::arithmetic::div_mod::lemma_small_mod((x + m) as nat, m as nat);
            vstd::arithmetic::div_mod::lemma_mod_add_multiples_vanish(x, m);
        }
    }
    if 0 <= a && 0 < b {
        vstd::arithmetic::div_mod::lemma_fundamental_div_mod(a as int, b as int);
        vstd::arithmetic::div_mod::lemma_div_pos_is_pos(a as int, b as int);
        vstd::arithmetic::div_mod::lemma_div_is_ordered_by_denominator(a as int, 1, b as int);
    }
}

} // verus!
