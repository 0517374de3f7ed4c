//! Static type checking of a whole program.
//!
//! Declarations are collected first (struct fields, enum variants,
//! function signatures), then every function body is checked. Errors are
//! accumulated rather than stopping at the first one: `tc_*` say whether a
//! part checks and what type or scope it gives, and `*_errors` say which
//! errors it reports, in order.
use vstd::prelude::*;
use crate::ast::{BinaryOp, EnumDecl, EnumVariant, Expr, FunctionDecl, MatchArm, Param, Pattern, Program, Stmt, StructDecl};
use crate::table::{
    find, has_key, insert, last_index, lemma_has_key_iff, lemma_last_index, lemma_last_index_map, lemma_seq_insert_has_key, lookup,
    seq_insert,
};
use crate::text::{concat, decimal_digits, string_is, string_of, usize_to_string, wrap};

verus! {

#[derive(Debug, PartialEq, Eq)]
pub enum Type {
    Int,
    Bool,
    String,
    Unit,
    Struct(String),
    Array(Box<Type>),
    Enum(String),
}

/// A type with its names taken by their characters.
pub enum TypeView {
    Int,
    Bool,
    String,
    Unit,
    Struct(Seq<char>),
    Array(Box<TypeView>),
    Enum(Seq<char>),
}

impl View for Type {
    type V = TypeView;

    open spec fn view(&self) -> TypeView
        decreases self,
    {
        match self {
            Type::Int => TypeView::Int,
            Type::Bool => TypeView::Bool,
            Type::String => TypeView::String,
            Type::Unit => TypeView::Unit,
            Type::Struct(n) => TypeView::Struct(n@),
            Type::Array(inner) => TypeView::Array(Box::new((**inner).view())),
            Type::Enum(n) => TypeView::Enum(n@),
        }
    }
}

/// How a type is written in messages: `Int`, `Point`, `Array<Int>`, ...
pub open spec fn spec_type_name(t: TypeView) -> Seq<char>
    decreases t,
{
    match t {
        TypeView::Int => "Int"@,
        TypeView::Bool => "Bool"@,
        TypeView::String => "String"@,
        TypeView::Unit => "Unit"@,
        TypeView::Struct(n) => n,
        TypeView::Array(inner) => "Array<"@ + spec_type_name(*inner) + ">"@,
        TypeView::Enum(n) => n,
    }
}

pub open spec fn opt_type_view(t: Option<Type>) -> Option<TypeView> {
    match t {
        Some(t) => Some(t@),
        None => None,
    }
}

impl Type {
    pub fn name(&self) -> (r: String)
        ensures
            r@ == spec_type_name(self@),
        decreases self,
    {
        match self {
            Type::Int => string_of("Int"),
            Type::Bool => string_of("Bool"),
            Type::String => string_of("String"),
            Type::Unit => string_of("Unit"),
            Type::Struct(n) => n.clone(),
            Type::Array(inner) => {
                let n = inner.name();
                wrap("Array<", &n, ">")
            },
            Type::Enum(n) => n.clone(),
        }
    }
}

/// A copy of a type.
pub fn copy_type(t: &Type) -> (r: Type)
    ensures
        r == *t,
    decreases t,
{
    match t {
        Type::Int => Type::Int,
        Type::Bool => Type::Bool,
        Type::String => Type::String,
        Type::Unit => Type::Unit,
        Type::Struct(n) => Type::Struct(n.clone()),
        Type::Array(inner) => Type::Array(Box::new(copy_type(inner))),
        Type::Enum(n) => Type::Enum(n.clone()),
    }
}

/// Whether two types are the same type.
pub fn same_type(a: &Type, b: &Type) -> (r: bool)
    ensures
        r == (a@ == b@),
    decreases a,
{
    match (a, b) {
        (Type::Int, Type::Int) => true,
        (Type::Bool, Type::Bool) => true,
        (Type::String, Type::String) => true,
        (Type::Unit, Type::Unit) => true,
        (Type::Struct(x), Type::Struct(y)) => *x == *y,
        (Type::Enum(x), Type::Enum(y)) => *x == *y,
        (Type::Array(x), Type::Array(y)) => same_type(x, y),
        _ => false,
    }
}

#[derive(Debug, Clone, PartialEq, Eq)]
pub enum TypeError {
    UndefinedType(String),
    UndefinedVariable(String),
    UndefinedFunction(String),
    UndefinedStruct(String),
    AlreadyDeclared(String),
    ImmutableAssignment(String),
    Mismatch { expected: String, found: String, context: String },
    CannotInferType(String),
    WrongArgCount { callee: String, expected: usize, found: usize },
    UnknownField { struct_name: String, field: String },
    MissingField { struct_name: String, field: String },
    DuplicateField(String),
    NotAStruct(String),
    NoMainFunction,
    UndefinedEnum(String),
    UndefinedVariant { enum_name: String, variant: String },
    NonExhaustiveMatch(String),
    NotResultShaped(String),
}

/// `new` holds every error of `old`, in order, possibly followed by more,
/// none of which is a missing `main`.
pub open spec fn extends(old_errors: Seq<TypeError>, new_errors: Seq<TypeError>) -> bool {
    &&& old_errors.len() <= new_errors.len()
    &&& forall|k: int| 0 <= k < old_errors.len() ==> #[trigger] new_errors[k] == old_errors[k]
    &&& forall|k: int| old_errors.len() <= k < new_errors.len() ==> !(#[trigger] new_errors[k] is NoMainFunction)
}

/// No error in `es` reports a missing `main`.
pub open spec fn no_missing_main(es: Seq<TypeError>) -> bool {
    forall|k: int| 0 <= k < es.len() ==> !(#[trigger] es[k] is NoMainFunction)
}

pub proof fn lemma_extends_trans(a: Seq<TypeError>, b: Seq<TypeError>, c: Seq<TypeError>)
    requires
        extends(a, b),
        extends(b, c),
    ensures
        extends(a, c),
{
}

/// Whether `n` names one of the `names`.
pub open spec fn names_contain(names: Seq<String>, n: Seq<char>) -> bool {
    exists|i: int| 0 <= i < names.len() && (#[trigger] names[i])@ == n
}

/// The type a type name denotes, given the declared struct and enum names.
pub open spec fn spec_resolve(name: Seq<char>, structs: Seq<String>, enums: Seq<String>) -> Option<TypeView> {
    if name == "Int"@ {
        Some(TypeView::Int)
    } else if name == "Bool"@ {
        Some(TypeView::Bool)
    } else if name == "String"@ {
        Some(TypeView::String)
    } else if name == "Unit"@ {
        Some(TypeView::Unit)
    } else if names_contain(structs, name) {
        Some(TypeView::Struct(name))
    } else if names_contain(enums, name) {
        Some(TypeView::Enum(name))
    } else {
        None
    }
}

/// The result type of a binary operator on operand types `l` and `r`, if
/// the operands are acceptable: `+` on two Ints or two Strings; `-` `*`
/// `/` on Ints; `==` `!=` on two operands of one type; orderings on Ints.
pub open spec fn spec_binary_type(op: BinaryOp, l: TypeView, r: TypeView) -> Option<TypeView> {
    match op {
        BinaryOp::Add => if (l == TypeView::String && r == TypeView::String) {
            Some(TypeView::String)
        } else if (l == TypeView::Int && r == TypeView::Int) {
            Some(TypeView::Int)
        } else {
            None
        },
        BinaryOp::Sub | BinaryOp::Mul | BinaryOp::Div => if (l == TypeView::Int && r
            == TypeView::Int) {
            Some(TypeView::Int)
        } else {
            None
        },
        BinaryOp::Eq | BinaryOp::NotEq => if l == r {
            Some(TypeView::Bool)
        } else {
            None
        },
        _ => if (l == TypeView::Int && r == TypeView::Int) {
            Some(TypeView::Bool)
        } else {
            None
        },
    }
}

/// Whether some arm is the wildcard `_`.
pub open spec fn has_wildcard(arms: Seq<MatchArm>) -> bool {
    exists|i: int| 0 <= i < arms.len() && (#[trigger] arms[i]).pattern is Wildcard
}

/// Whether some arm names variant `v`.
pub open spec fn covers_variant(arms: Seq<MatchArm>, v: Seq<char>) -> bool {
    exists|i: int|
        0 <= i < arms.len() && ((#[trigger] arms[i]).pattern matches Pattern::EnumVariant {
            variant,
            ..
        } && variant@ == v)
}

/// Whether some arm is the Bool literal `b`.
pub open spec fn covers_bool(arms: Seq<MatchArm>, b: bool) -> bool {
    exists|i: int| 0 <= i < arms.len() && (#[trigger] arms[i]).pattern == Pattern::BoolLiteral(b)
}

pub open spec fn types_view(ts: Seq<Type>) -> Seq<TypeView> {
    ts.map_values(|t: Type| t@)
}

pub open spec fn fields_type_view(fs: Seq<(String, Type)>) -> Seq<(Seq<char>, TypeView)> {
    fs.map_values(|e: (String, Type)| (e.0@, e.1@))
}

/// The variables in scope: each name with its type and whether `=` may
/// update it.
pub type ScopeMap = Map<Seq<char>, (TypeView, bool)>;

pub open spec fn scope_map(v: Seq<(String, (Type, bool))>) -> ScopeMap {
    Map::new(
        |k: Seq<char>| has_key(v, k),
        |k: Seq<char>| (lookup(v, k).unwrap().0@, lookup(v, k).unwrap().1),
    )
}

/// An optional type, when present, is `t`.
pub open spec fn agrees(found: Option<TypeView>, t: TypeView) -> bool {
    found is None || found == Some(t)
}

/// The type of the first field named `name`.
pub open spec fn first_field_type(fs: Seq<(Seq<char>, TypeView)>, name: Seq<char>) -> Option<TypeView>
    decreases fs.len(),
{
    if fs.len() == 0 {
        None
    } else {
        match first_field_type(fs.drop_last(), name) {
            Some(t) => Some(t),
            None => if fs.last().0 == name {
                Some(fs.last().1)
            } else {
                None
            },
        }
    }
}

/// The names of declared fields, in order.
pub open spec fn field_names(dfs: Seq<(Seq<char>, TypeView)>) -> Seq<Seq<char>> {
    dfs.map_values(|d: (Seq<char>, TypeView)| d.0)
}

/// Some field is named `name`.
pub open spec fn given(fs: Seq<(String, Expr)>, name: Seq<char>) -> bool {
    exists|i: int| 0 <= i < fs.len() && (#[trigger] fs[i]).0@ == name
}

/// No field name is given twice.
pub open spec fn distinct_names(fs: Seq<(String, Expr)>) -> bool {
    forall|i: int, j: int| 0 <= i < j < fs.len() ==> (#[trigger] fs[i]).0@ != (#[trigger] fs[j]).0@
}

/// Every one of `names` is given.
pub open spec fn gives_all(fs: Seq<(String, Expr)>, names: Seq<Seq<char>>) -> bool {
    forall|k: int| 0 <= k < names.len() ==> given(fs, #[trigger] names[k])
}

/// Checking an expression: whether it raises no error, and the type found
/// (none when it has none). `rt` is the return type of the function being
/// checked, which `?` needs.
pub open spec fn tc_expr(tc: TcTables, rt: TypeView, sc: ScopeMap, e: Expr) -> (bool, Option<TypeView>)
    decreases e, 0int,
{
    match e {
        Expr::StringLiteral(_) => (true, Some(TypeView::String)),
        Expr::IntLiteral(_) => (true, Some(TypeView::Int)),
        Expr::BoolLiteral(_) => (true, Some(TypeView::Bool)),
        Expr::Identifier(n) => if sc.contains_key(n@) {
            (true, Some(sc[n@].0))
        } else {
            (false, None)
        },
        Expr::Binary { left, op, right } => {
            let (okl, tl) = tc_expr(tc, rt, sc, *left);
            let (okr, tr) = tc_expr(tc, rt, sc, *right);
            match (tl, tr) {
                (Some(a), Some(b)) => match spec_binary_type(op, a, b) {
                    Some(t) => (okl && okr, Some(t)),
                    None => (false, None),
                },
                _ => (okl && okr, None),
            }
        },
        Expr::Call { callee, args } => tc_call(tc, rt, sc, callee@, args@),
        Expr::StructLiteral { name, fields } => tc_struct_literal(tc, rt, sc, name@, fields@),
        Expr::EnumLiteral { enum_name, variant, fields } => tc_enum_literal(
            tc,
            rt,
            sc,
            enum_name@,
            variant@,
            fields@,
        ),
        Expr::FieldAccess { object, field } => {
            let (ok, t) = tc_expr(tc, rt, sc, *object);
            match t {
                None => (ok, None),
                Some(TypeView::Struct(s)) => match tc.struct_field_type(s, field@) {
                    Some(ft) => (ok, Some(ft)),
                    None => (false, None),
                },
                Some(_) => (false, None),
            }
        },
        Expr::ArrayLiteral(elements) => if elements@.len() == 0 {
            (false, None)
        } else {
            let (ok0, t0) = tc_expr(tc, rt, sc, elements@[0]);
            match t0 {
                None => (ok0, None),
                Some(first) => (
                    ok0 && tc_elements(tc, rt, sc, elements@, first, elements@.len() as int),
                    Some(TypeView::Array(Box::new(first))),
                ),
            }
        },
        Expr::Index { array, index } => {
            let (oka, ta) = tc_expr(tc, rt, sc, *array);
            match ta {
                None => (oka, None),
                Some(at) => {
                    let (oki, ti) = tc_expr(tc, rt, sc, *index);
                    let idx_ok = oki && agrees(ti, TypeView::Int);
                    match at {
                        TypeView::Array(inner) => (oka && idx_ok, Some(*inner)),
                        _ => (false, None),
                    }
                },
            }
        },
        Expr::Try(inner) => {
            let (ok, t) = tc_expr(tc, rt, sc, *inner);
            match t {
                None => (ok, None),
                Some(TypeView::Enum(n)) => match (tc.variant_fields(n, "Ok"@), tc.variant_fields(n, "Err"@)) {
                    (Some(okf), Some(errf)) => if okf.len() == 1 && okf[0].0 == "value"@ && errf.len() == 1
                        && errf[0].0 == "error"@ {
                        (ok && rt == TypeView::Enum(n), Some(okf[0].1))
                    } else {
                        (false, None)
                    },
                    _ => (false, None),
                },
                Some(_) => (false, None),
            }
        },
    }
}

/// Elements `1..n` of an array literal check and have type `first`.
pub open spec fn tc_elements(tc: TcTables, rt: TypeView, sc: ScopeMap, es: Seq<Expr>, first: TypeView, n: int) -> bool
    decreases es, n + 1,
{
    if n <= 1 || n > es.len() {
        true
    } else {
        let (ok, t) = tc_expr(tc, rt, sc, es[n - 1]);
        tc_elements(tc, rt, sc, es, first, n - 1) && ok && agrees(t, first)
    }
}

/// A call: the built-ins `print`, `len` and `push`, else a declared
/// function, whose result type is its return type.
pub open spec fn tc_call(tc: TcTables, rt: TypeView, sc: ScopeMap, callee: Seq<char>, args: Seq<Expr>) -> (
    bool,
    Option<TypeView>,
)
    decreases args, args.len() + 2,
{
    if callee == "print"@ {
        if args.len() != 1 {
            (false, Some(TypeView::Unit))
        } else {
            (tc_expr(tc, rt, sc, args[0]).0, Some(TypeView::Unit))
        }
    } else if callee == "len"@ {
        if args.len() != 1 {
            (false, Some(TypeView::Int))
        } else {
            let (ok, t) = tc_expr(tc, rt, sc, args[0]);
            (ok && (t is None || t matches Some(TypeView::Array(_))), Some(TypeView::Int))
        }
    } else if callee == "push"@ {
        if args.len() != 2 {
            (false, None)
        } else {
            let (oka, ta) = tc_expr(tc, rt, sc, args[0]);
            let (okv, tv) = tc_expr(tc, rt, sc, args[1]);
            match ta {
                Some(TypeView::Array(inner)) => (oka && okv && agrees(tv, *inner), Some(TypeView::Array(inner))),
                Some(_) => (false, None),
                None => (oka && okv, None),
            }
        }
    } else {
        match tc.signature(callee) {
            None => (false, None),
            Some((params, ret)) => (
                args.len() == params.len() && tc_args(tc, rt, sc, args, params, args.len() as int),
                Some(ret),
            ),
        }
    }
}

/// The first `n` arguments check and have their parameters' types.
pub open spec fn tc_args(tc: TcTables, rt: TypeView, sc: ScopeMap, args: Seq<Expr>, params: Seq<TypeView>, n: int) -> bool
    decreases args, n + 1,
{
    if n <= 0 || n > args.len() {
        true
    } else {
        let (ok, t) = tc_expr(tc, rt, sc, args[n - 1]);
        tc_args(tc, rt, sc, args, params, n - 1) && ok && (n - 1 >= params.len() || agrees(t, params[n - 1]))
    }
}

/// A struct literal checks when the struct is declared, every field value
/// checks and has its field's type, and each declared field is given
/// exactly once.
pub open spec fn tc_struct_literal(tc: TcTables, rt: TypeView, sc: ScopeMap, name: Seq<char>, fs: Seq<(String, Expr)>) -> (
    bool,
    Option<TypeView>,
)
    decreases fs, fs.len() + 2,
{
    if !tc.struct_declared(name) {
        (false, None)
    } else {
        (
            tc_struct_fields(tc, rt, sc, name, fs, fs.len() as int) && distinct_names(fs) && gives_all(
                fs,
                tc.struct_field_names(name),
            ),
            Some(TypeView::Struct(name)),
        )
    }
}

pub open spec fn tc_struct_fields(tc: TcTables, rt: TypeView, sc: ScopeMap, name: Seq<char>, fs: Seq<(String, Expr)>, n: int) -> bool
    decreases fs, n + 1,
{
    if n <= 0 || n > fs.len() {
        true
    } else {
        let (ok, t) = tc_expr(tc, rt, sc, fs[n - 1].1);
        tc_struct_fields(tc, rt, sc, name, fs, n - 1) && ok && match tc.struct_field_type(name, fs[n - 1].0@) {
            Some(ft) => agrees(t, ft),
            None => false,
        }
    }
}

/// A variant literal checks when the variant is declared, every field
/// value checks and has its field's type, and each declared field is given
/// exactly once.
pub open spec fn tc_enum_literal(
    tc: TcTables,
    rt: TypeView,
    sc: ScopeMap,
    enum_name: Seq<char>,
    variant: Seq<char>,
    fs: Seq<(String, Expr)>,
) -> (bool, Option<TypeView>)
    decreases fs, fs.len() + 2,
{
    if !tc.enum_declared(enum_name) {
        (false, None)
    } else {
        match tc.variant_fields(enum_name, variant) {
            None => (false, None),
            Some(dfs) => (
                tc_variant_fields(tc, rt, sc, dfs, fs, fs.len() as int) && distinct_names(fs) && gives_all(
                    fs,
                    field_names(dfs),
                ),
                Some(TypeView::Enum(enum_name)),
            ),
        }
    }
}

pub open spec fn tc_variant_fields(
    tc: TcTables,
    rt: TypeView,
    sc: ScopeMap,
    dfs: Seq<(Seq<char>, TypeView)>,
    fs: Seq<(String, Expr)>,
    n: int,
) -> bool
    decreases fs, n + 1,
{
    if n <= 0 || n > fs.len() {
        true
    } else {
        let (ok, t) = tc_expr(tc, rt, sc, fs[n - 1].1);
        tc_variant_fields(tc, rt, sc, dfs, fs, n - 1) && ok && match first_field_type(dfs, fs[n - 1].0@) {
            Some(ft) => agrees(t, ft),
            None => false,
        }
    }
}

/// The declarations a checker has collected: struct and enum names, the
/// fields of each struct, the variants of each enum with their fields, and
/// each function's parameter types and return type. A later entry for a
/// name shadows an earlier one.
pub struct TcTables {
    pub struct_names: Seq<String>,
    pub enum_names: Seq<String>,
    pub struct_fields: Seq<(String, Seq<(String, Type)>)>,
    pub enum_variants: Seq<(String, Seq<(String, Seq<(String, Type)>)>)>,
    pub functions: Seq<(String, (Seq<Type>, Type))>,
}

impl TcTables {
    /// The parameter types and return type recorded for function `n`.
    pub open spec fn signature(self, n: Seq<char>) -> Option<(Seq<TypeView>, TypeView)> {
        match lookup(self.functions, n) {
            Some(sig) => Some((types_view(sig.0), sig.1@)),
            None => None,
        }
    }

    /// Whether struct `s` has been declared.
    pub open spec fn struct_declared(self, s: Seq<char>) -> bool {
        has_key(self.struct_fields, s)
    }

    /// The type of field `f` of struct `s`.
    pub open spec fn struct_field_type(self, s: Seq<char>, f: Seq<char>) -> Option<TypeView> {
        match lookup(self.struct_fields, s) {
            Some(fs) => match lookup(fs, f) {
                Some(t) => Some(t@),
                None => None,
            },
            None => None,
        }
    }

    /// The fields of struct `s`, in the order recorded.
    pub open spec fn struct_field_names(self, s: Seq<char>) -> Seq<Seq<char>> {
        match lookup(self.struct_fields, s) {
            Some(fs) => fs.map_values(|e: (String, Type)| e.0@),
            None => Seq::empty(),
        }
    }

    /// Whether enum `e` has been declared.
    pub open spec fn enum_declared(self, e: Seq<char>) -> bool {
        has_key(self.enum_variants, e)
    }

    /// The variants of enum `e` with their fields.
    pub open spec fn enum_variants_of(self, e: Seq<char>) -> Option<Seq<(String, Seq<(String, Type)>)>> {
        lookup(self.enum_variants, e)
    }

    /// The fields of variant `v` of enum `e`, in declaration order.
    pub open spec fn variant_fields(self, e: Seq<char>, v: Seq<char>) -> Option<Seq<(Seq<char>, TypeView)>> {
        match lookup(self.enum_variants, e) {
            Some(vs) => match lookup(vs, v) {
                Some(fs) => Some(fields_type_view(fs)),
                None => None,
            },
            None => None,
        }
    }
}

/// An error with its texts taken by their characters.
pub enum TypeErrorView {
    UndefinedType(Seq<char>),
    UndefinedVariable(Seq<char>),
    UndefinedFunction(Seq<char>),
    UndefinedStruct(Seq<char>),
    AlreadyDeclared(Seq<char>),
    ImmutableAssignment(Seq<char>),
    Mismatch { expected: Seq<char>, found: Seq<char>, context: Seq<char> },
    CannotInferType(Seq<char>),
    WrongArgCount { callee: Seq<char>, expected: nat, found: nat },
    UnknownField { struct_name: Seq<char>, field: Seq<char> },
    MissingField { struct_name: Seq<char>, field: Seq<char> },
    DuplicateField(Seq<char>),
    NotAStruct(Seq<char>),
    NoMainFunction,
    UndefinedEnum(Seq<char>),
    UndefinedVariant { enum_name: Seq<char>, variant: Seq<char> },
    NonExhaustiveMatch(Seq<char>),
    NotResultShaped(Seq<char>),
}

impl View for TypeError {
    type V = TypeErrorView;

    open spec fn view(&self) -> TypeErrorView {
        match self {
            TypeError::UndefinedType(n) => TypeErrorView::UndefinedType(n@),
            TypeError::UndefinedVariable(n) => TypeErrorView::UndefinedVariable(n@),
            TypeError::UndefinedFunction(n) => TypeErrorView::UndefinedFunction(n@),
            TypeError::UndefinedStruct(n) => TypeErrorView::UndefinedStruct(n@),
            TypeError::AlreadyDeclared(n) => TypeErrorView::AlreadyDeclared(n@),
            TypeError::ImmutableAssignment(n) => TypeErrorView::ImmutableAssignment(n@),
            TypeError::Mismatch { expected, found, context } => TypeErrorView::Mismatch {
                expected: expected@,
                found: found@,
                context: context@,
            },
            TypeError::CannotInferType(n) => TypeErrorView::CannotInferType(n@),
            TypeError::WrongArgCount { callee, expected, found } => TypeErrorView::WrongArgCount {
                callee: callee@,
                expected: *expected as nat,
                found: *found as nat,
            },
            TypeError::UnknownField { struct_name, field } => TypeErrorView::UnknownField {
                struct_name: struct_name@,
                field: field@,
            },
            TypeError::MissingField { struct_name, field } => TypeErrorView::MissingField {
                struct_name: struct_name@,
                field: field@,
            },
            TypeError::DuplicateField(n) => TypeErrorView::DuplicateField(n@),
            TypeError::NotAStruct(n) => TypeErrorView::NotAStruct(n@),
            TypeError::NoMainFunction => TypeErrorView::NoMainFunction,
            TypeError::UndefinedEnum(n) => TypeErrorView::UndefinedEnum(n@),
            TypeError::UndefinedVariant { enum_name, variant } => TypeErrorView::UndefinedVariant {
                enum_name: enum_name@,
                variant: variant@,
            },
            TypeError::NonExhaustiveMatch(n) => TypeErrorView::NonExhaustiveMatch(n@),
            TypeError::NotResultShaped(n) => TypeErrorView::NotResultShaped(n@),
        }
    }
}

/// A list of errors, each taken by its view.
pub open spec fn errors_view(es: Seq<TypeError>) -> Seq<TypeErrorView> {
    es.map_values(|e: TypeError| e@)
}

/// `Some(t)` with `t` other than `want`: the one-error list reporting it.
pub open spec fn mismatch_if(found: Option<TypeView>, want: TypeView, expected: Seq<char>, context: Seq<char>) -> Seq<
    TypeErrorView,
> {
    match found {
        Some(t) => if t != want {
            seq![TypeErrorView::Mismatch { expected, found: spec_type_name(t), context }]
        } else {
            Seq::empty()
        },
        None => Seq::empty(),
    }
}

/// The error an operator applied to operands of types `l` and `r`
/// reports, if any.
pub open spec fn binary_errors(op: BinaryOp, l: Option<TypeView>, r: Option<TypeView>) -> Seq<TypeErrorView> {
    match (l, r) {
        (Some(a), Some(b)) => if spec_binary_type(op, a, b) is None {
            seq![
                TypeErrorView::Mismatch {
                    expected: "matching operand types for `"@ + spec_op_symbol(op) + "`"@,
                    found: spec_type_name(a) + " and "@ + spec_type_name(b),
                    context: "binary `"@ + spec_op_symbol(op) + "`"@,
                },
            ]
        } else {
            Seq::empty()
        },
        _ => Seq::empty(),
    }
}

/// The errors checking an expression reports, in order.
pub open spec fn expr_errors(tc: TcTables, rt: TypeView, sc: ScopeMap, e: Expr) -> Seq<TypeErrorView>
    decreases e, 0int,
{
    match e {
        Expr::StringLiteral(_) => Seq::empty(),
        Expr::IntLiteral(_) => Seq::empty(),
        Expr::BoolLiteral(_) => Seq::empty(),
        Expr::Identifier(n) => if sc.contains_key(n@) {
            Seq::empty()
        } else {
            seq![TypeErrorView::UndefinedVariable(n@)]
        },
        Expr::Binary { left, op, right } => expr_errors(tc, rt, sc, *left) + expr_errors(tc, rt, sc, *right)
            + binary_errors(op, tc_expr(tc, rt, sc, *left).1, tc_expr(tc, rt, sc, *right).1),
        Expr::Call { callee, args } => call_errors(tc, rt, sc, callee@, args@),
        Expr::StructLiteral { name, fields } => struct_literal_errors(tc, rt, sc, name@, fields@),
        Expr::EnumLiteral { enum_name, variant, fields } => enum_literal_errors(
            tc,
            rt,
            sc,
            enum_name@,
            variant@,
            fields@,
        ),
        Expr::FieldAccess { object, field } => expr_errors(tc, rt, sc, *object) + match tc_expr(tc, rt, sc, *object).1 {
            None => Seq::empty(),
            Some(TypeView::Struct(s)) => if tc.struct_field_type(s, field@) is Some {
                Seq::empty()
            } else {
                seq![TypeErrorView::UnknownField { struct_name: s, field: field@ }]
            },
            Some(t) => seq![TypeErrorView::NotAStruct(spec_type_name(t))],
        },
        Expr::ArrayLiteral(elements) => if elements@.len() == 0 {
            seq![TypeErrorView::CannotInferType("empty array literal (no elements to infer type from)"@)]
        } else {
            expr_errors(tc, rt, sc, elements@[0]) + match tc_expr(tc, rt, sc, elements@[0]).1 {
                None => Seq::empty(),
                Some(first) => elements_errors(tc, rt, sc, elements@, first, elements@.len() as int),
            }
        },
        Expr::Index { array, index } => expr_errors(tc, rt, sc, *array) + match tc_expr(tc, rt, sc, *array).1 {
            None => Seq::empty(),
            Some(at) => expr_errors(tc, rt, sc, *index) + mismatch_if(
                tc_expr(tc, rt, sc, *index).1,
                TypeView::Int,
                "Int"@,
                "array index"@,
            ) + match at {
                TypeView::Array(_) => Seq::empty(),
                _ => seq![
                    TypeErrorView::Mismatch { expected: "Array"@, found: spec_type_name(at), context: "indexing"@ },
                ],
            },
        },
        Expr::Try(inner) => expr_errors(tc, rt, sc, *inner) + match tc_expr(tc, rt, sc, *inner).1 {
            None => Seq::empty(),
            Some(TypeView::Enum(n)) => match (tc.variant_fields(n, "Ok"@), tc.variant_fields(n, "Err"@)) {
                (Some(okf), Some(errf)) => if okf.len() == 1 && okf[0].0 == "value"@ && errf.len() == 1
                    && errf[0].0 == "error"@ {
                    if rt != TypeView::Enum(n) {
                        seq![
                            TypeErrorView::Mismatch {
                                expected: spec_type_name(rt),
                                found: n,
                                context: "`?` requires the current function to return the same Result-shaped enum"@,
                            },
                        ]
                    } else {
                        Seq::empty()
                    }
                } else {
                    seq![
                        TypeErrorView::NotResultShaped(
                            "enum `"@ + n + "` is not Ok/Err-shaped (need Ok(value: T), Err(error: E))"@,
                        ),
                    ]
                },
                _ => seq![
                    TypeErrorView::NotResultShaped(
                        "enum `"@ + n + "` is not Ok/Err-shaped (need Ok(value: T), Err(error: E))"@,
                    ),
                ],
            },
            Some(t) => seq![TypeErrorView::NotResultShaped("`?` requires an enum type, found "@ + spec_type_name(t))],
        },
    }
}

/// The errors of elements `1..n` of an array literal whose first element
/// has type `first`.
pub open spec fn elements_errors(tc: TcTables, rt: TypeView, sc: ScopeMap, es: Seq<Expr>, first: TypeView, n: int) -> Seq<
    TypeErrorView,
>
    decreases es, n + 1,
{
    if n <= 1 || n > es.len() {
        Seq::empty()
    } else {
        elements_errors(tc, rt, sc, es, first, n - 1) + expr_errors(tc, rt, sc, es[n - 1]) + mismatch_if(
            tc_expr(tc, rt, sc, es[n - 1]).1,
            first,
            spec_type_name(first),
            "array literal element"@,
        )
    }
}

/// The errors of the first `n` expressions, each checked on its own.
pub open spec fn each_errors(tc: TcTables, rt: TypeView, sc: ScopeMap, es: Seq<Expr>, n: int) -> Seq<TypeErrorView>
    decreases es, n + 1,
{
    if n <= 0 || n > es.len() {
        Seq::empty()
    } else {
        each_errors(tc, rt, sc, es, n - 1) + expr_errors(tc, rt, sc, es[n - 1])
    }
}

/// The errors of the first `n` field values, each checked on its own.
pub open spec fn values_errors(tc: TcTables, rt: TypeView, sc: ScopeMap, fs: Seq<(String, Expr)>, n: int) -> Seq<
    TypeErrorView,
>
    decreases fs, n + 1,
{
    if n <= 0 || n > fs.len() {
        Seq::empty()
    } else {
        values_errors(tc, rt, sc, fs, n - 1) + expr_errors(tc, rt, sc, fs[n - 1].1)
    }
}

/// The errors of a call.
pub open spec fn call_errors(tc: TcTables, rt: TypeView, sc: ScopeMap, callee: Seq<char>, args: Seq<Expr>) -> Seq<
    TypeErrorView,
>
    decreases args, args.len() + 2,
{
    if callee == "print"@ {
        if args.len() != 1 {
            seq![TypeErrorView::WrongArgCount { callee: "print"@, expected: 1, found: args.len() }]
        } else {
            expr_errors(tc, rt, sc, args[0])
        }
    } else if callee == "len"@ {
        if args.len() != 1 {
            seq![TypeErrorView::WrongArgCount { callee: "len"@, expected: 1, found: args.len() }]
        } else {
            expr_errors(tc, rt, sc, args[0]) + match tc_expr(tc, rt, sc, args[0]).1 {
                Some(TypeView::Array(_)) => Seq::empty(),
                Some(t) => seq![
                    TypeErrorView::Mismatch {
                        expected: "Array"@,
                        found: spec_type_name(t),
                        context: "argument to `len`"@,
                    },
                ],
                None => Seq::empty(),
            }
        }
    } else if callee == "push"@ {
        if args.len() != 2 {
            seq![TypeErrorView::WrongArgCount { callee: "push"@, expected: 2, found: args.len() }] + each_errors(
                tc,
                rt,
                sc,
                args,
                args.len() as int,
            )
        } else {
            expr_errors(tc, rt, sc, args[0]) + expr_errors(tc, rt, sc, args[1]) + match tc_expr(tc, rt, sc, args[0]).1 {
                Some(TypeView::Array(inner)) => mismatch_if(
                    tc_expr(tc, rt, sc, args[1]).1,
                    *inner,
                    spec_type_name(*inner),
                    "second argument to `push`"@,
                ),
                Some(t) => seq![
                    TypeErrorView::Mismatch {
                        expected: "Array"@,
                        found: spec_type_name(t),
                        context: "first argument to `push`"@,
                    },
                ],
                None => Seq::empty(),
            }
        }
    } else {
        match tc.signature(callee) {
            None => seq![TypeErrorView::UndefinedFunction(callee)] + each_errors(tc, rt, sc, args, args.len() as int),
            Some((params, _)) => (if args.len() != params.len() {
                seq![TypeErrorView::WrongArgCount { callee, expected: params.len(), found: args.len() }]
            } else {
                Seq::empty()
            }) + args_errors(tc, rt, sc, callee, args, params, args.len() as int),
        }
    }
}

/// The errors of the first `n` arguments of a call of `callee`.
pub open spec fn args_errors(
    tc: TcTables,
    rt: TypeView,
    sc: ScopeMap,
    callee: Seq<char>,
    args: Seq<Expr>,
    params: Seq<TypeView>,
    n: int,
) -> Seq<TypeErrorView>
    decreases args, n + 1,
{
    if n <= 0 || n > args.len() {
        Seq::empty()
    } else {
        args_errors(tc, rt, sc, callee, args, params, n - 1) + expr_errors(tc, rt, sc, args[n - 1]) + if n - 1
            < params.len() {
            mismatch_if(
                tc_expr(tc, rt, sc, args[n - 1]).1,
                params[n - 1],
                spec_type_name(params[n - 1]),
                "argument "@ + decimal_digits(n as nat) + " to `"@ + callee + "`"@,
            )
        } else {
            Seq::empty()
        }
    }
}

/// Whether a field of the first `n` has the name `f`.
pub open spec fn named_before(fs: Seq<(String, Expr)>, f: Seq<char>, n: int) -> bool {
    exists|j: int| 0 <= j < n && (#[trigger] fs[j]).0@ == f
}

/// The errors of a struct literal.
pub open spec fn struct_literal_errors(tc: TcTables, rt: TypeView, sc: ScopeMap, name: Seq<char>, fs: Seq<(String, Expr)>) -> Seq<
    TypeErrorView,
>
    decreases fs, fs.len() + 2,
{
    if !tc.struct_declared(name) {
        seq![TypeErrorView::UndefinedStruct(name)] + values_errors(tc, rt, sc, fs, fs.len() as int)
    } else {
        struct_fields_errors(tc, rt, sc, name, fs, fs.len() as int) + missing_errors(
            name,
            tc.struct_field_names(name),
            fs,
            tc.struct_field_names(name).len() as int,
        )
    }
}

/// The errors of the first `n` fields of a literal of struct `name`.
pub open spec fn struct_fields_errors(tc: TcTables, rt: TypeView, sc: ScopeMap, name: Seq<char>, fs: Seq<(String, Expr)>, n: int) -> Seq<
    TypeErrorView,
>
    decreases fs, n + 1,
{
    if n <= 0 || n > fs.len() {
        Seq::empty()
    } else {
        let f = fs[n - 1].0@;
        struct_fields_errors(tc, rt, sc, name, fs, n - 1) + expr_errors(tc, rt, sc, fs[n - 1].1) + match tc.struct_field_type(
            name,
            f,
        ) {
            None => seq![TypeErrorView::UnknownField { struct_name: name, field: f }],
            Some(ft) => (if named_before(fs, f, n - 1) {
                seq![TypeErrorView::DuplicateField(f)]
            } else {
                Seq::empty()
            }) + mismatch_if(
                tc_expr(tc, rt, sc, fs[n - 1].1).1,
                ft,
                spec_type_name(ft),
                "field `"@ + f + "` of `"@ + name + "`"@,
            ),
        }
    }
}

/// A `MissingField` for each of the first `d` of `names` not given.
pub open spec fn missing_errors(owner: Seq<char>, names: Seq<Seq<char>>, fs: Seq<(String, Expr)>, d: int) -> Seq<
    TypeErrorView,
>
    decreases d,
{
    if d <= 0 || d > names.len() {
        Seq::empty()
    } else {
        missing_errors(owner, names, fs, d - 1) + if given(fs, names[d - 1]) {
            Seq::empty()
        } else {
            seq![TypeErrorView::MissingField { struct_name: owner, field: names[d - 1] }]
        }
    }
}

/// The errors of a variant literal.
pub open spec fn enum_literal_errors(
    tc: TcTables,
    rt: TypeView,
    sc: ScopeMap,
    enum_name: Seq<char>,
    variant: Seq<char>,
    fs: Seq<(String, Expr)>,
) -> Seq<TypeErrorView>
    decreases fs, fs.len() + 2,
{
    if !tc.enum_declared(enum_name) {
        seq![TypeErrorView::UndefinedEnum(enum_name)] + values_errors(tc, rt, sc, fs, fs.len() as int)
    } else {
        match tc.variant_fields(enum_name, variant) {
            None => seq![TypeErrorView::UndefinedVariant { enum_name, variant }] + values_errors(
                tc,
                rt,
                sc,
                fs,
                fs.len() as int,
            ),
            Some(dfs) => variant_fields_errors(tc, rt, sc, enum_name + "::"@ + variant, dfs, fs, fs.len() as int)
                + missing_errors(enum_name + "::"@ + variant, field_names(dfs), fs, dfs.len() as int),
        }
    }
}

/// The errors of the first `n` fields of a literal of the variant `path`
/// with fields `dfs`.
pub open spec fn variant_fields_errors(
    tc: TcTables,
    rt: TypeView,
    sc: ScopeMap,
    path: Seq<char>,
    dfs: Seq<(Seq<char>, TypeView)>,
    fs: Seq<(String, Expr)>,
    n: int,
) -> Seq<TypeErrorView>
    decreases fs, n + 1,
{
    if n <= 0 || n > fs.len() {
        Seq::empty()
    } else {
        let f = fs[n - 1].0@;
        variant_fields_errors(tc, rt, sc, path, dfs, fs, n - 1) + expr_errors(tc, rt, sc, fs[n - 1].1) + match first_field_type(
            dfs,
            f,
        ) {
            None => seq![TypeErrorView::UnknownField { struct_name: path, field: f }],
            Some(ft) => (if named_before(fs, f, n - 1) {
                seq![TypeErrorView::DuplicateField(f)]
            } else {
                Seq::empty()
            }) + mismatch_if(
                tc_expr(tc, rt, sc, fs[n - 1].1).1,
                ft,
                spec_type_name(ft),
                "field `"@ + f + "` of `"@ + path + "`"@,
            ),
        }
    }
}

/// The errors checking a condition reports.
pub open spec fn cond_errors(tc: TcTables, rt: TypeView, sc: ScopeMap, c: Expr) -> Seq<TypeErrorView> {
    expr_errors(tc, rt, sc, c) + mismatch_if(tc_expr(tc, rt, sc, c).1, TypeView::Bool, "Bool"@, "condition"@)
}

/// A `NonExhaustiveMatch` for each of the first `v` variants of enum `n`
/// that no arm names.
pub open spec fn uncovered_errors<V>(n: Seq<char>, vs: Seq<(String, V)>, arms: Seq<MatchArm>, v: int) -> Seq<
    TypeErrorView,
>
    decreases v,
{
    if v <= 0 || v > vs.len() {
        Seq::empty()
    } else {
        uncovered_errors(n, vs, arms, v - 1) + if covers_variant(arms, vs[v - 1].0@) {
            Seq::empty()
        } else {
            seq![TypeErrorView::NonExhaustiveMatch(n + "::"@ + vs[v - 1].0@)]
        }
    }
}

/// The errors the exhaustiveness check of a match on a value of type `st`
/// reports.
pub open spec fn exhaustive_errors(tc: TcTables, st: TypeView, arms: Seq<MatchArm>) -> Seq<TypeErrorView> {
    if has_wildcard(arms) {
        Seq::empty()
    } else {
        match st {
            TypeView::Enum(n) => match tc.enum_variants_of(n) {
                None => Seq::empty(),
                Some(vs) => uncovered_errors(n, vs, arms, vs.len() as int),
            },
            TypeView::Bool => if covers_bool(arms, true) && covers_bool(arms, false) {
                Seq::empty()
            } else {
                seq![TypeErrorView::NonExhaustiveMatch("Bool (missing true, false, or a wildcard `_`)"@)]
            },
            _ => seq![TypeErrorView::NonExhaustiveMatch(spec_type_name(st) + " requires a wildcard `_` arm"@)],
        }
    }
}

/// The error a literal pattern of type `lit` against a scrutinee of type
/// `st` reports, if any.
pub open spec fn literal_pattern_errors(st: TypeView, lit: TypeView) -> Seq<TypeErrorView> {
    if st != lit {
        seq![
            TypeErrorView::Mismatch { expected: spec_type_name(st), found: spec_type_name(lit), context: "match pattern"@ },
        ]
    } else {
        Seq::empty()
    }
}

/// The errors checking a pattern against a scrutinee of type `st`
/// reports.
pub open spec fn pattern_errors(tc: TcTables, p: Pattern, st: TypeView) -> Seq<TypeErrorView> {
    match p {
        Pattern::Wildcard => Seq::empty(),
        Pattern::IntLiteral(_) => literal_pattern_errors(st, TypeView::Int),
        Pattern::BoolLiteral(_) => literal_pattern_errors(st, TypeView::Bool),
        Pattern::StringLiteral(_) => literal_pattern_errors(st, TypeView::String),
        Pattern::EnumVariant { enum_name, variant, bindings } => if st == TypeView::Enum(enum_name@) {
            match tc.variant_fields(enum_name@, variant@) {
                None => seq![TypeErrorView::UndefinedVariant { enum_name: enum_name@, variant: variant@ }],
                Some(fs) => if bindings@.len() != fs.len() {
                    seq![
                        TypeErrorView::WrongArgCount {
                            callee: enum_name@ + "::"@ + variant@,
                            expected: fs.len(),
                            found: bindings@.len(),
                        },
                    ]
                } else {
                    Seq::empty()
                },
            }
        } else {
            seq![
                TypeErrorView::Mismatch {
                    expected: spec_type_name(st),
                    found: enum_name@ + "::"@ + variant@,
                    context: "match pattern"@,
                },
            ]
        },
    }
}

/// The errors an assignment to `name` of a value of type `t` reports.
pub open spec fn assign_errors(sc: ScopeMap, name: Seq<char>, t: Option<TypeView>) -> Seq<TypeErrorView> {
    if !sc.contains_key(name) {
        seq![TypeErrorView::UndefinedVariable(name)]
    } else if !sc[name].1 {
        seq![TypeErrorView::ImmutableAssignment(name)]
    } else {
        mismatch_if(t, sc[name].0, spec_type_name(sc[name].0), "assignment to `"@ + name + "`"@)
    }
}

/// The errors an index assignment to `name` of a value of type `t`
/// reports, after those of the index and the value.
pub open spec fn index_assign_errors(sc: ScopeMap, name: Seq<char>, t: Option<TypeView>) -> Seq<TypeErrorView> {
    if !sc.contains_key(name) {
        seq![TypeErrorView::UndefinedVariable(name)]
    } else if !sc[name].1 {
        seq![TypeErrorView::ImmutableAssignment(name)]
    } else {
        match sc[name].0 {
            TypeView::Array(inner) => mismatch_if(t, *inner, spec_type_name(*inner), "index assignment to `"@ + name + "`"@),
            other => seq![
                TypeErrorView::Mismatch {
                    expected: "Array"@,
                    found: spec_type_name(other),
                    context: "index assignment to `"@ + name + "`"@,
                },
            ],
        }
    }
}

/// The errors checking a statement in a function returning `rt` reports.
pub open spec fn stmt_errors(tc: TcTables, rt: TypeView, sc: ScopeMap, s: Stmt) -> Seq<TypeErrorView>
    decreases s, 0int,
{
    match s {
        Stmt::VariableDecl { name, value, .. } => (if sc.contains_key(name@) {
            seq![TypeErrorView::AlreadyDeclared(name@)]
        } else {
            Seq::empty()
        }) + expr_errors(tc, rt, sc, value),
        Stmt::Assign { name, value } => expr_errors(tc, rt, sc, value) + assign_errors(
            sc,
            name@,
            tc_expr(tc, rt, sc, value).1,
        ),
        Stmt::IndexAssign { name, index, value } => expr_errors(tc, rt, sc, index) + mismatch_if(
            tc_expr(tc, rt, sc, index).1,
            TypeView::Int,
            "Int"@,
            "array index"@,
        ) + expr_errors(tc, rt, sc, value) + index_assign_errors(sc, name@, tc_expr(tc, rt, sc, value).1),
        Stmt::Expr(e) => expr_errors(tc, rt, sc, e),
        Stmt::If { condition, then_branch, else_branch } => cond_errors(tc, rt, sc, condition) + block_errors(
            tc,
            rt,
            sc,
            then_branch@,
            then_branch@.len() as int,
        ) + match else_branch {
            Some(b) => block_errors(
                tc,
                rt,
                tc_block(tc, rt, sc, then_branch@, then_branch@.len() as int).1,
                b@,
                b@.len() as int,
            ),
            None => Seq::empty(),
        },
        Stmt::While { condition, body } => cond_errors(tc, rt, sc, condition) + block_errors(
            tc,
            rt,
            sc,
            body@,
            body@.len() as int,
        ),
        Stmt::Match { scrutinee, arms } => expr_errors(tc, rt, sc, scrutinee) + match tc_expr(tc, rt, sc, scrutinee).1 {
            None => Seq::empty(),
            Some(st) => arms_errors(tc, rt, sc, arms@, st, arms@.len() as int) + exhaustive_errors(tc, st, arms@),
        },
        Stmt::Return(e) => match e {
            Some(x) => expr_errors(tc, rt, sc, x) + mismatch_if(
                tc_expr(tc, rt, sc, x).1,
                rt,
                spec_type_name(rt),
                "return statement"@,
            ),
            None => mismatch_if(Some(TypeView::Unit), rt, spec_type_name(rt), "return statement"@),
        },
    }
}

/// The errors of the first `n` statements of a block.
pub open spec fn block_errors(tc: TcTables, rt: TypeView, sc: ScopeMap, ss: Seq<Stmt>, n: int) -> Seq<TypeErrorView>
    decreases ss, n + 1,
{
    if n <= 0 || n > ss.len() {
        Seq::empty()
    } else {
        block_errors(tc, rt, sc, ss, n - 1) + stmt_errors(tc, rt, tc_block(tc, rt, sc, ss, n - 1).1, ss[n - 1])
    }
}

/// The errors of the first `n` arms of a match on a value of type `st`.
pub open spec fn arms_errors(tc: TcTables, rt: TypeView, sc: ScopeMap, arms: Seq<MatchArm>, st: TypeView, n: int) -> Seq<
    TypeErrorView,
>
    decreases arms, n + 1,
{
    if n <= 0 || n > arms.len() {
        Seq::empty()
    } else {
        arms_errors(tc, rt, sc, arms, st, n - 1) + pattern_errors(tc, arms[n - 1].pattern, st) + block_errors(
            tc,
            rt,
            tc_pattern(tc, sc, arms[n - 1].pattern, st).1,
            arms[n - 1].body@,
            arms[n - 1].body@.len() as int,
        )
    }
}

/// The errors checking a function body reports.
pub open spec fn body_errors(tc: TcTables, f: FunctionDecl) -> Seq<TypeErrorView> {
    block_errors(
        tc,
        body_return_type(tc, f),
        param_scope(tc, f.params@, f.params@.len() as int),
        f.body@,
        f.body@.len() as int,
    )
}

/// The errors checking the bodies of the first `n` functions reports.
pub open spec fn bodies_errors(tc: TcTables, fs: Seq<FunctionDecl>, n: int) -> Seq<TypeErrorView>
    decreases n,
{
    if n <= 0 || n > fs.len() {
        Seq::empty()
    } else {
        bodies_errors(tc, fs, n - 1) + body_errors(tc, fs[n - 1])
    }
}

/// A condition checks and, when it has a type, is a Bool.
pub open spec fn tc_cond(tc: TcTables, rt: TypeView, sc: ScopeMap, c: Expr) -> bool {
    let (ok, t) = tc_expr(tc, rt, sc, c);
    ok && agrees(t, TypeView::Bool)
}

/// The arms of a match leave no value uncovered: an arm is `_`; or the
/// scrutinee is a Bool and both `true` and `false` have arms; or it is an
/// enum and every variant has an arm.
pub open spec fn exhaustive(tc: TcTables, st: TypeView, arms: Seq<MatchArm>) -> bool {
    has_wildcard(arms) || match st {
        TypeView::Bool => covers_bool(arms, true) && covers_bool(arms, false),
        TypeView::Enum(n) => match tc.enum_variants_of(n) {
            None => true,
            Some(vs) => uncovered_count(vs, arms) == 0,
        },
        _ => false,
    }
}

/// Each binding names the field at its position, with that field's type.
pub open spec fn bind_pattern(sc: ScopeMap, bs: Seq<String>, fs: Seq<(Seq<char>, TypeView)>, n: int) -> ScopeMap
    decreases n,
{
    if n <= 0 {
        sc
    } else {
        bind_pattern(sc, bs, fs, n - 1).insert(bs[n - 1]@, (fs[n - 1].1, false))
    }
}

/// Checking a pattern against the scrutinee's type: whether it raises no
/// error, and the scope the arm's body sees.
pub open spec fn tc_pattern(tc: TcTables, sc: ScopeMap, p: Pattern, st: TypeView) -> (bool, ScopeMap) {
    match p {
        Pattern::Wildcard => (true, sc),
        Pattern::IntLiteral(_) => (st == TypeView::Int, sc),
        Pattern::BoolLiteral(_) => (st == TypeView::Bool, sc),
        Pattern::StringLiteral(_) => (st == TypeView::String, sc),
        Pattern::EnumVariant { enum_name, variant, bindings } => if st == TypeView::Enum(enum_name@) {
            match tc.variant_fields(enum_name@, variant@) {
                None => (false, sc),
                Some(fs) => if bindings@.len() != fs.len() {
                    (false, sc)
                } else {
                    (true, bind_pattern(sc, bindings@, fs, bindings@.len() as int))
                },
            }
        } else {
            (false, sc)
        },
    }
}

/// Checking a statement in a function returning `rt`: whether it raises
/// no error, and the scope after it.
pub open spec fn tc_stmt(tc: TcTables, rt: TypeView, sc: ScopeMap, s: Stmt) -> (bool, ScopeMap)
    decreases s, 0int,
{
    match s {
        Stmt::VariableDecl { name, value, is_mutable } => {
            let (ok, t) = tc_expr(tc, rt, sc, value);
            (
                ok && !sc.contains_key(name@),
                match t {
                    Some(t) => sc.insert(name@, (t, is_mutable)),
                    None => sc,
                },
            )
        },
        Stmt::Assign { name, value } => {
            let (ok, t) = tc_expr(tc, rt, sc, value);
            (ok && sc.contains_key(name@) && sc[name@].1 && agrees(t, sc[name@].0), sc)
        },
        Stmt::IndexAssign { name, index, value } => {
            let (oki, ti) = tc_expr(tc, rt, sc, index);
            let (okv, tv) = tc_expr(tc, rt, sc, value);
            (
                oki && agrees(ti, TypeView::Int) && okv && sc.contains_key(name@) && sc[name@].1
                    && match sc[name@].0 {
                    TypeView::Array(inner) => agrees(tv, *inner),
                    _ => false,
                },
                sc,
            )
        },
        Stmt::Expr(e) => (tc_expr(tc, rt, sc, e).0, sc),
        Stmt::If { condition, then_branch, else_branch } => {
            let okc = tc_cond(tc, rt, sc, condition);
            let (okt, sc1) = tc_block(tc, rt, sc, then_branch@, then_branch@.len() as int);
            match else_branch {
                Some(b) => {
                    let (oke, sc2) = tc_block(tc, rt, sc1, b@, b@.len() as int);
                    (okc && okt && oke, sc2)
                },
                None => (okc && okt, sc1),
            }
        },
        Stmt::While { condition, body } => {
            let okc = tc_cond(tc, rt, sc, condition);
            let (okb, sc1) = tc_block(tc, rt, sc, body@, body@.len() as int);
            (okc && okb, sc1)
        },
        Stmt::Match { scrutinee, arms } => {
            let (oks, ts) = tc_expr(tc, rt, sc, scrutinee);
            match ts {
                None => (oks, sc),
                Some(st) => (
                    oks && tc_arms(tc, rt, sc, arms@, st, arms@.len() as int) && exhaustive(tc, st, arms@),
                    sc,
                ),
            }
        },
        Stmt::Return(e) => {
            let (ok, t) = match e {
                Some(x) => tc_expr(tc, rt, sc, x),
                None => (true, Some(TypeView::Unit)),
            };
            (ok && agrees(t, rt), sc)
        },
    }
}

/// The first `n` statements of a block, each in the scope the ones before
/// it leave.
pub open spec fn tc_block(tc: TcTables, rt: TypeView, sc: ScopeMap, ss: Seq<Stmt>, n: int) -> (bool, ScopeMap)
    decreases ss, n + 1,
{
    if n <= 0 || n > ss.len() {
        (true, sc)
    } else {
        let (ok0, sc0) = tc_block(tc, rt, sc, ss, n - 1);
        let (ok1, sc1) = tc_stmt(tc, rt, sc0, ss[n - 1]);
        (ok0 && ok1, sc1)
    }
}

/// The first `n` arms of a match: each pattern against the scrutinee's
/// type, and each body in the scope of its own pattern.
pub open spec fn tc_arms(tc: TcTables, rt: TypeView, sc: ScopeMap, arms: Seq<MatchArm>, st: TypeView, n: int) -> bool
    decreases arms, n + 1,
{
    if n <= 0 || n > arms.len() {
        true
    } else {
        let (okp, scp) = tc_pattern(tc, sc, arms[n - 1].pattern, st);
        tc_arms(tc, rt, sc, arms, st, n - 1) && okp && tc_block(
            tc,
            rt,
            scp,
            arms[n - 1].body@,
            arms[n - 1].body@.len() as int,
        ).0
    }
}

/// The parameters whose types resolve, bound in order.
pub open spec fn param_scope(tc: TcTables, ps: Seq<Param>, n: int) -> ScopeMap
    decreases n,
{
    if n <= 0 || n > ps.len() {
        Map::empty()
    } else {
        match spec_resolve(ps[n - 1].ty@, tc.struct_names, tc.enum_names) {
            Some(t) => param_scope(tc, ps, n - 1).insert(ps[n - 1].name@, (t, false)),
            None => param_scope(tc, ps, n - 1),
        }
    }
}

/// The return type a function's body is checked against.
pub open spec fn body_return_type(tc: TcTables, f: FunctionDecl) -> TypeView {
    match tc.signature(f.name@) {
        Some((_, r)) => r,
        None => TypeView::Unit,
    }
}

/// A function body checks: its statements, in the scope of its
/// parameters, against its recorded return type.
pub open spec fn tc_body(tc: TcTables, f: FunctionDecl) -> bool {
    tc_block(
        tc,
        body_return_type(tc, f),
        param_scope(tc, f.params@, f.params@.len() as int),
        f.body@,
        f.body@.len() as int,
    ).0
}

/// The type a type name denotes, given the declared struct and enum names.
pub open spec fn resolve(name: String, structs: Seq<String>, enums: Seq<String>) -> Option<Type> {
    if name@ == "Int"@ {
        Some(Type::Int)
    } else if name@ == "Bool"@ {
        Some(Type::Bool)
    } else if name@ == "String"@ {
        Some(Type::String)
    } else if name@ == "Unit"@ {
        Some(Type::Unit)
    } else if names_contain(structs, name@) {
        Some(Type::Struct(name))
    } else if names_contain(enums, name@) {
        Some(Type::Enum(name))
    } else {
        None
    }
}

/// The first `n` declared types in `ps` all resolve.
pub open spec fn params_resolve(ps: Seq<Param>, structs: Seq<String>, enums: Seq<String>, n: int) -> bool {
    forall|j: int| 0 <= j < n ==> (#[trigger] resolve(ps[j].ty, structs, enums)) is Some
}

/// The fields of a struct among the first `n` whose types resolve, by
/// name: a later field of a name replaces an earlier one.
pub open spec fn field_table(ps: Seq<Param>, structs: Seq<String>, enums: Seq<String>, n: int) -> Seq<(String, Type)>
    decreases n,
{
    if n <= 0 || n > ps.len() {
        Seq::empty()
    } else {
        let prev = field_table(ps, structs, enums, n - 1);
        match resolve(ps[n - 1].ty, structs, enums) {
            Some(t) => seq_insert(prev, ps[n - 1].name, t),
            None => prev,
        }
    }
}

/// The fields of a variant among the first `n` whose types resolve, in
/// order.
pub open spec fn field_list(ps: Seq<Param>, structs: Seq<String>, enums: Seq<String>, n: int) -> Seq<(String, Type)>
    decreases n,
{
    if n <= 0 || n > ps.len() {
        Seq::empty()
    } else {
        let prev = field_list(ps, structs, enums, n - 1);
        match resolve(ps[n - 1].ty, structs, enums) {
            Some(t) => prev.push((ps[n - 1].name, t)),
            None => prev,
        }
    }
}

/// The types among the first `n` parameters that resolve, in order.
pub open spec fn param_types(ps: Seq<Param>, structs: Seq<String>, enums: Seq<String>, n: int) -> Seq<Type>
    decreases n,
{
    if n <= 0 || n > ps.len() {
        Seq::empty()
    } else {
        let prev = param_types(ps, structs, enums, n - 1);
        match resolve(ps[n - 1].ty, structs, enums) {
            Some(t) => prev.push(t),
            None => prev,
        }
    }
}

/// The variants among the first `n`, by name, each with its resolved
/// fields: a later variant of a name replaces an earlier one.
pub open spec fn variant_table(
    vs: Seq<EnumVariant>,
    structs: Seq<String>,
    enums: Seq<String>,
    n: int,
) -> Seq<(String, Seq<(String, Type)>)>
    decreases n,
{
    if n <= 0 || n > vs.len() {
        Seq::empty()
    } else {
        seq_insert(
            variant_table(vs, structs, enums, n - 1),
            vs[n - 1].name,
            field_list(vs[n - 1].fields@, structs, enums, vs[n - 1].fields@.len() as int),
        )
    }
}

/// The return type recorded for `f`: its declared type if that resolves,
/// else Unit.
pub open spec fn declared_return(f: FunctionDecl, structs: Seq<String>, enums: Seq<String>) -> Type {
    match f.return_type {
        None => Type::Unit,
        Some(n) => match resolve(n, structs, enums) {
            Some(t) => t,
            None => Type::Unit,
        },
    }
}

/// Every type named in `f`'s signature resolves.
pub open spec fn signature_resolves(f: FunctionDecl, structs: Seq<String>, enums: Seq<String>) -> bool {
    &&& params_resolve(f.params@, structs, enums, f.params@.len() as int)
    &&& match f.return_type {
        None => true,
        Some(n) => resolve(n, structs, enums) is Some,
    }
}

/// The signatures table after recording the first `n` functions of `fs`
/// in turn: a later function of a name replaces an earlier one.
pub open spec fn sig_table(
    t: Seq<(String, (Seq<Type>, Type))>,
    fs: Seq<FunctionDecl>,
    structs: Seq<String>,
    enums: Seq<String>,
    n: int,
) -> Seq<(String, (Seq<Type>, Type))>
    decreases n,
{
    if n <= 0 || n > fs.len() {
        t
    } else {
        seq_insert(
            sig_table(t, fs, structs, enums, n - 1),
            fs[n - 1].name,
            (param_types(fs[n - 1].params@, structs, enums, fs[n - 1].params@.len() as int), declared_return(fs[n - 1], structs, enums)),
        )
    }
}

/// The names of a program's structs.
pub open spec fn struct_decl_names(ss: Seq<StructDecl>) -> Seq<String> {
    ss.map_values(|d: StructDecl| d.name)
}

/// The names of a program's enums.
pub open spec fn enum_decl_names(es: Seq<EnumDecl>) -> Seq<String> {
    es.map_values(|d: EnumDecl| d.name)
}

/// A name has a signature after recording `fs[..n]` exactly when it had
/// one before or one of those functions has that name.
pub proof fn lemma_sig_table_keys(
    t: Seq<(String, (Seq<Type>, Type))>,
    fs: Seq<FunctionDecl>,
    structs: Seq<String>,
    enums: Seq<String>,
    n: int,
    k: Seq<char>,
)
    requires
        0 <= n <= fs.len(),
    ensures
        has_key(sig_table(t, fs, structs, enums, n), k) <==> (has_key(t, k) || exists|i: int|
            0 <= i < n && (#[trigger] fs[i]).name@ == k),
    decreases n,
{
    if n > 0 {
        lemma_sig_table_keys(t, fs, structs, enums, n - 1, k);
        let f = fs[n - 1];
        lemma_seq_insert_has_key(
            sig_table(t, fs, structs, enums, n - 1),
            f.name,
            (param_types(f.params@, structs, enums, f.params@.len() as int), declared_return(f, structs, enums)),
            k,
        );
        if exists|i: int| 0 <= i < n && (#[trigger] fs[i]).name@ == k {
            let i = choose|i: int| 0 <= i < n && (#[trigger] fs[i]).name@ == k;
            if i < n - 1 {
                assert(exists|i: int| 0 <= i < n - 1 && (#[trigger] fs[i]).name@ == k);
            }
        }
    }
}

/// A program passes the check for `main` exactly when a function named
/// `main` is declared in it or was declared before it.
pub proof fn lemma_main_found(t: TcTables, p: Program)
    ensures
        has_key(collected(t, p).functions, "main"@) <==> (has_key(t.functions, "main"@) || exists|i: int|
            0 <= i < p.functions@.len() && (#[trigger] p.functions@[i]).name@ == "main"@),
{
    let c = collected(t, p);
    lemma_sig_table_keys(t.functions, p.functions@, c.struct_names, c.enum_names, p.functions@.len() as int, "main"@);
}

/// The struct table entries for `ss`, each struct's fields resolved
/// against `structs` and `enums`.
pub open spec fn struct_entries(ss: Seq<StructDecl>, structs: Seq<String>, enums: Seq<String>) -> Seq<
    (String, Seq<(String, Type)>),
> {
    ss.map_values(|d: StructDecl| (d.name, field_table(d.fields@, structs, enums, d.fields@.len() as int)))
}

/// The enum table entries for `es`, each enum's variants resolved against
/// `structs` and `enums`.
pub open spec fn enum_entries(es: Seq<EnumDecl>, structs: Seq<String>, enums: Seq<String>) -> Seq<
    (String, Seq<(String, Seq<(String, Type)>)>),
> {
    es.map_values(|d: EnumDecl| (d.name, variant_table(d.variants@, structs, enums, d.variants@.len() as int)))
}

/// The tables after collecting a program's declarations on top of `t`.
/// Struct fields resolve against all struct names but only the enum names
/// known before the program, since enum names are collected after them.
pub open spec fn collected(t: TcTables, p: Program) -> TcTables {
    let structs = t.struct_names + struct_decl_names(p.structs@);
    let enums = t.enum_names + enum_decl_names(p.enums@);
    TcTables {
        struct_names: structs,
        enum_names: enums,
        struct_fields: t.struct_fields + struct_entries(p.structs@, structs, t.enum_names),
        enum_variants: t.enum_variants + enum_entries(p.enums@, structs, enums),
        functions: sig_table(t.functions, p.functions@, structs, enums, p.functions@.len() as int),
    }
}

/// Every type named in a program's declarations resolves when collected
/// on top of `t`.
pub open spec fn declarations_resolve(t: TcTables, p: Program) -> bool {
    let c = collected(t, p);
    &&& forall|i: int| 0 <= i < p.structs@.len() ==> params_resolve(
        (#[trigger] p.structs@[i]).fields@,
        c.struct_names,
        t.enum_names,
        p.structs@[i].fields@.len() as int,
    )
    &&& forall|i: int, j: int| 0 <= i < p.enums@.len() && 0 <= j < p.enums@[i].variants@.len() ==> params_resolve(
        (#[trigger] p.enums@[i].variants@[j]).fields@,
        c.struct_names,
        c.enum_names,
        p.enums@[i].variants@[j].fields@.len() as int,
    )
    &&& forall|i: int| 0 <= i < p.functions@.len() ==> signature_resolves(
        #[trigger] p.functions@[i],
        c.struct_names,
        c.enum_names,
    )
}

/// The errors reported while reading the declared types of the first `n`
/// of `ps`: one `UndefinedType` for each that does not resolve, in order.
pub open spec fn type_errors(ps: Seq<Param>, structs: Seq<String>, enums: Seq<String>, n: int) -> Seq<TypeError>
    decreases n,
{
    if n <= 0 || n > ps.len() {
        Seq::empty()
    } else {
        let prev = type_errors(ps, structs, enums, n - 1);
        match resolve(ps[n - 1].ty, structs, enums) {
            Some(_) => prev,
            None => prev.push(TypeError::UndefinedType(ps[n - 1].ty)),
        }
    }
}

/// The errors reported for the field types of the first `n` variants.
pub open spec fn variant_errors(vs: Seq<EnumVariant>, structs: Seq<String>, enums: Seq<String>, n: int) -> Seq<
    TypeError,
>
    decreases n,
{
    if n <= 0 || n > vs.len() {
        Seq::empty()
    } else {
        variant_errors(vs, structs, enums, n - 1) + type_errors(
            vs[n - 1].fields@,
            structs,
            enums,
            vs[n - 1].fields@.len() as int,
        )
    }
}

/// The errors reported for a function's parameter types, then for its
/// return type.
pub open spec fn signature_errors(f: FunctionDecl, structs: Seq<String>, enums: Seq<String>) -> Seq<TypeError> {
    type_errors(f.params@, structs, enums, f.params@.len() as int) + match f.return_type {
        Some(n) => if resolve(n, structs, enums) is None {
            seq![TypeError::UndefinedType(n)]
        } else {
            Seq::empty()
        },
        None => Seq::empty(),
    }
}

/// The errors reported for the field types of the first `n` structs.
pub open spec fn struct_errors(ss: Seq<StructDecl>, structs: Seq<String>, enums: Seq<String>, n: int) -> Seq<TypeError>
    decreases n,
{
    if n <= 0 || n > ss.len() {
        Seq::empty()
    } else {
        struct_errors(ss, structs, enums, n - 1) + type_errors(ss[n - 1].fields@, structs, enums, ss[n - 1].fields@.len() as int)
    }
}

/// The errors reported for the variants of the first `n` enums.
pub open spec fn enum_errors(es: Seq<EnumDecl>, structs: Seq<String>, enums: Seq<String>, n: int) -> Seq<TypeError>
    decreases n,
{
    if n <= 0 || n > es.len() {
        Seq::empty()
    } else {
        enum_errors(es, structs, enums, n - 1) + variant_errors(
            es[n - 1].variants@,
            structs,
            enums,
            es[n - 1].variants@.len() as int,
        )
    }
}

/// The errors reported for the signatures of the first `n` functions.
pub open spec fn signatures_errors(fs: Seq<FunctionDecl>, structs: Seq<String>, enums: Seq<String>, n: int) -> Seq<
    TypeError,
>
    decreases n,
{
    if n <= 0 || n > fs.len() {
        Seq::empty()
    } else {
        signatures_errors(fs, structs, enums, n - 1) + signature_errors(fs[n - 1], structs, enums)
    }
}

/// The errors reported while collecting a program's declarations on top
/// of `t`: struct field types, then enum variant field types, then
/// function signatures, each in declaration order.
pub open spec fn declaration_errors(t: TcTables, p: Program) -> Seq<TypeError> {
    let c = collected(t, p);
    struct_errors(p.structs@, c.struct_names, t.enum_names, p.structs@.len() as int) + enum_errors(
        p.enums@,
        c.struct_names,
        c.enum_names,
        p.enums@.len() as int,
    ) + signatures_errors(p.functions@, c.struct_names, c.enum_names, p.functions@.len() as int)
}

/// Every error checking a program on top of `t` reports, in order: the
/// declarations' errors, a missing `main`, then each body's errors in
/// declaration order.
pub open spec fn program_errors(t: TcTables, p: Program) -> Seq<TypeErrorView> {
    let c = collected(t, p);
    errors_view(declaration_errors(t, p)) + (if has_key(c.functions, "main"@) {
        Seq::empty()
    } else {
        seq![TypeErrorView::NoMainFunction]
    }) + bodies_errors(c, p.functions@, p.functions@.len() as int)
}

/// A program checks on top of `t`: its declarations resolve, a `main`
/// function is declared, and every function body checks.
pub open spec fn program_checks(t: TcTables, p: Program) -> bool {
    let c = collected(t, p);
    &&& declarations_resolve(t, p)
    &&& has_key(c.functions, "main"@)
    &&& forall|i: int| 0 <= i < p.functions@.len() ==> tc_body(c, #[trigger] p.functions@[i])
}

struct FunctionSig {
    params: Vec<Type>,
    return_type: Type,
}

spec fn struct_entry_view() -> spec_fn((String, Vec<(String, Type)>)) -> (String, Seq<(String, Type)>) {
    |e: (String, Vec<(String, Type)>)| (e.0, e.1@)
}

spec fn variant_entry_view() -> spec_fn((String, Vec<(String, Type)>)) -> (String, Seq<(String, Type)>) {
    |e: (String, Vec<(String, Type)>)| (e.0, e.1@)
}

spec fn enum_entry_view() -> spec_fn((String, Vec<(String, Vec<(String, Type)>)>)) -> (
    String,
    Seq<(String, Seq<(String, Type)>)>,
) {
    |e: (String, Vec<(String, Vec<(String, Type)>)>)| (e.0, e.1@.map_values(variant_entry_view()))
}

spec fn sig_entry_view() -> spec_fn((String, FunctionSig)) -> (String, (Seq<Type>, Type)) {
    |e: (String, FunctionSig)| (e.0, (e.1.params@, e.1.return_type))
}

/// A table viewed entry by entry keeps where each key is, and what it
/// holds there.
proof fn lemma_lookup_map<V, W>(v: Seq<(String, V)>, f: spec_fn((String, V)) -> (String, W), key: Seq<char>)
    requires
        forall|e: (String, V)| #[trigger] f(e).0 == e.0,
    ensures
        lookup(v.map_values(f), key) == match lookup(v, key) {
            Some(x) => Some(f((key_of(v, key), x)).1),
            None => None,
        },
{
    lemma_last_index_map(v, f, key);
    lemma_last_index(v, key);
    match last_index(v, key) {
        Some(i) => {
            assert(v.map_values(f)[i] == f(v[i]));
        },
        None => {},
    }
}

/// Inserting and then viewing entry by entry is viewing and then
/// inserting the viewed value.
proof fn lemma_seq_insert_map<V, W>(v: Seq<(String, V)>, f: spec_fn((String, V)) -> (String, W), key: String, val: V)
    requires
        forall|e: (String, V)| #[trigger] f(e).0 == e.0,
    ensures
        seq_insert(v, key, val).map_values(f) == seq_insert(v.map_values(f), key, f((key, val)).1),
{
    lemma_last_index_map(v, f, key@);
    assert(f((key, val)) == (key, f((key, val)).1));
    match last_index(v, key@) {
        Some(i) => {
            lemma_last_index(v, key@);
            assert(seq_insert(v, key, val).map_values(f) =~= v.map_values(f).update(i, (key, f((key, val)).1)));
        },
        None => {
            assert(seq_insert(v, key, val).map_values(f) =~= v.map_values(f).push((key, f((key, val)).1)));
        },
    }
}

impl Default for TypeChecker {
    /// A checker with nothing declared, as `new` gives.
    fn default() -> (r: Self)
        ensures
            r.tables() == (TcTables {
                struct_names: Seq::empty(),
                enum_names: Seq::empty(),
                struct_fields: Seq::empty(),
                enum_variants: Seq::empty(),
                functions: Seq::empty(),
            }),
    {
        Self::new()
    }
}

/// The struct table seen through `tables()`.
proof fn lemma_struct_table(tc: TypeChecker, s: Seq<char>)
    ensures
        tc.tables().struct_declared(s) == has_key(tc.struct_fields@, s),
        lookup(tc.tables().struct_fields, s) == match lookup(tc.struct_fields@, s) {
            Some(fs) => Some(fs@),
            None => None,
        },
{
    lemma_last_index_map(tc.struct_fields@, struct_entry_view(), s);
    lemma_lookup_map(tc.struct_fields@, struct_entry_view(), s);
}

/// The enum table seen through `tables()`.
proof fn lemma_enum_table(tc: TypeChecker, e: Seq<char>)
    ensures
        tc.tables().enum_declared(e) == has_key(tc.enum_variants@, e),
        tc.tables().enum_variants_of(e) == match lookup(tc.enum_variants@, e) {
            Some(vs) => Some(vs@.map_values(variant_entry_view())),
            None => None,
        },
{
    lemma_last_index_map(tc.enum_variants@, enum_entry_view(), e);
    lemma_lookup_map(tc.enum_variants@, enum_entry_view(), e);
}

/// Only the keys of a variant table count.
proof fn lemma_uncovered_errors_map<V, W>(
    n: Seq<char>,
    v: Seq<(String, V)>,
    f: spec_fn((String, V)) -> (String, W),
    arms: Seq<MatchArm>,
    m: int,
)
    requires
        forall|e: (String, V)| #[trigger] f(e).0 == e.0,
        0 <= m <= v.len(),
    ensures
        uncovered_errors(n, v.map_values(f), arms, m) == uncovered_errors(n, v, arms, m),
    decreases m,
{
    if m > 0 {
        lemma_uncovered_errors_map(n, v, f, arms, m - 1);
        assert(v.map_values(f)[m - 1].0 == f(v[m - 1]).0);
    }
}

/// A variant table seen entry by entry.
proof fn lemma_variant_table(vs: Seq<(String, Vec<(String, Type)>)>, v: Seq<char>)
    ensures
        has_key(vs.map_values(variant_entry_view()), v) == has_key(vs, v),
        lookup(vs.map_values(variant_entry_view()), v) == match lookup(vs, v) {
            Some(fs) => Some(fs@),
            None => None,
        },
{
    lemma_last_index_map(vs, variant_entry_view(), v);
    lemma_lookup_map(vs, variant_entry_view(), v);
}

/// The key of the last entry for `key`.
spec fn key_of<V>(v: Seq<(String, V)>, key: Seq<char>) -> String {
    match last_index(v, key) {
        Some(i) => v[i].0,
        None => v[0].0,
    }
}

/// Variables in scope: name, type, and whether `=` may update it.
type Scope = Vec<(String, (Type, bool))>;

/// A copy of a scope.
fn copy_scope(s: &Vec<(String, (Type, bool))>) -> (r: Vec<(String, (Type, bool))>)
    ensures
        r@ == s@,
{
    let mut out: Vec<(String, (Type, bool))> = Vec::new();
    let mut i: usize = 0;
    while i < s.len()
        invariant
            i <= s.len(),
            out@ == s@.subrange(0, i as int),
        decreases s.len() - i,
    {
        let e = (s[i].0.clone(), (copy_type(&s[i].1.0), s[i].1.1));
        out.push(e);
        proof {
            assert(out@ =~= s@.subrange(0, i + 1));
        }
        i = i + 1;
    }
    proof {
        assert(out@ =~= s@);
    }
    out
}

pub struct TypeChecker {
    struct_names: Vec<String>,
    struct_fields: Vec<(String, Vec<(String, Type)>)>,
    enum_names: Vec<String>,
    enum_variants: Vec<(String, Vec<(String, Vec<(String, Type)>)>)>,
    functions: Vec<(String, FunctionSig)>,
    current_return_type: Type,
}

impl TypeChecker {
    /// The return type of the function being checked.
    pub closed spec fn return_type(&self) -> TypeView {
        self.current_return_type@
    }

    /// What has been declared so far.
    pub closed spec fn tables(&self) -> TcTables {
        TcTables {
            struct_names: self.struct_names@,
            enum_names: self.enum_names@,
            struct_fields: self.struct_fields@.map_values(struct_entry_view()),
            enum_variants: self.enum_variants@.map_values(enum_entry_view()),
            functions: self.functions@.map_values(sig_entry_view()),
        }
    }

    /// A checker with nothing declared.
    pub fn new() -> (r: Self)
        ensures
            r.tables() == (TcTables {
                struct_names: Seq::empty(),
                enum_names: Seq::empty(),
                struct_fields: Seq::empty(),
                enum_variants: Seq::empty(),
                functions: Seq::empty(),
            }),
    {
        let r = TypeChecker {
            struct_names: Vec::new(),
            struct_fields: Vec::new(),
            enum_names: Vec::new(),
            enum_variants: Vec::new(),
            functions: Vec::new(),
            current_return_type: Type::Unit,
        };
        proof {
            assert(r.tables().struct_fields =~= Seq::empty());
            assert(r.tables().enum_variants =~= Seq::empty());
            assert(r.tables().functions =~= Seq::empty());
        }
        r
    }

    /// Checks a whole program, collecting every error found: the
    /// declarations are recorded first (struct names, struct fields, enum
    /// names, enum variants, function signatures), then a missing `main`
    /// is reported, then every body is checked. The result is `Ok` exactly
    /// when `program_checks` holds; otherwise the errors are exactly
    /// `program_errors`: the `declaration_errors`, then `NoMainFunction`
    /// exactly when no `main` is declared (it is reported nowhere else),
    /// then each body's errors.
    pub fn check_program(&mut self, program: &Program) -> (r: Result<(), Vec<TypeError>>)
        ensures
            final(self).tables() == collected(old(self).tables(), *program),
            r is Ok <==> program_checks(old(self).tables(), *program),
            r matches Err(es) ==> es@.len() > 0,
            r matches Err(es) ==> ((exists|k: int| 0 <= k < es@.len() && (#[trigger] es@[k]) is NoMainFunction)
                <==> !has_key(collected(old(self).tables(), *program).functions, "main"@)),
            r is Ok <==> program_errors(old(self).tables(), *program).len() == 0,
            r matches Err(es) ==> errors_view(es@) == program_errors(old(self).tables(), *program),
            r matches Err(es) ==> {
                let d = declaration_errors(old(self).tables(), *program);
                &&& d.len() <= es@.len()
                &&& es@.subrange(0, d.len() as int) == d
                &&& !has_key(collected(old(self).tables(), *program).functions, "main"@) <==> (d.len() < es@.len()
                    && es@[d.len() as int] is NoMainFunction)
            },
    {
        let ghost t0 = self.tables();
        let ghost c = collected(t0, *program);
        let ghost structs = c.struct_names;
        let ghost enums = c.enum_names;
        let mut errors: Vec<TypeError> = Vec::new();
        let mut i: usize = 0;
        while i < program.structs.len()
            invariant
                i <= program.structs.len(),
                self.tables().struct_names == t0.struct_names + struct_decl_names(program.structs@).subrange(0, i as int),
                self.tables().enum_names == t0.enum_names,
                self.tables().struct_fields == t0.struct_fields,
                self.tables().enum_variants == t0.enum_variants,
                self.tables().functions == t0.functions,
            decreases program.structs.len() - i,
        {
            self.struct_names.push(program.structs[i].name.clone());
            proof {
                assert(struct_decl_names(program.structs@)[i as int] == program.structs@[i as int].name);
                assert(self.tables().struct_names =~= t0.struct_names + struct_decl_names(program.structs@).subrange(0, i + 1));
            }
            i = i + 1;
        }
        proof {
            assert(struct_decl_names(program.structs@).subrange(0, i as int) =~= struct_decl_names(program.structs@));
            assert(self.struct_names@ == structs);
        }
        let mut i: usize = 0;
        while i < program.structs.len()
            invariant
                i <= program.structs.len(),
                self.struct_names@ == structs,
                self.enum_names@ == t0.enum_names,
                self.tables().struct_fields == t0.struct_fields + struct_entries(
                    program.structs@.subrange(0, i as int),
                    structs,
                    t0.enum_names,
                ),
                self.tables().enum_variants == t0.enum_variants,
                self.tables().functions == t0.functions,
                no_missing_main(errors@),
                errors@ == struct_errors(program.structs@, structs, t0.enum_names, i as int),
                (errors@.len() == 0) == forall|j: int| 0 <= j < i ==> params_resolve(
                    (#[trigger] program.structs@[j]).fields@,
                    structs,
                    t0.enum_names,
                    program.structs@[j].fields@.len() as int,
                ),
            decreases program.structs.len() - i,
        {
            let ghost before = errors@;
            self.collect_struct_fields(&program.structs[i], &mut errors);
            proof {
                assert(program.structs@.subrange(0, i + 1) =~= program.structs@.subrange(0, i as int).push(program.structs@[i as int]));
                assert(self.tables().struct_fields =~= t0.struct_fields + struct_entries(program.structs@.subrange(0, i + 1), structs, t0.enum_names));
            }
            i = i + 1;
        }
        proof {
            assert(program.structs@.subrange(0, i as int) =~= program.structs@);
        }
        let ghost struct_errors_empty = errors@.len() == 0;
        let ghost se = errors@;
        let mut i: usize = 0;
        while i < program.enums.len()
            invariant
                i <= program.enums.len(),
                self.struct_names@ == structs,
                self.tables().enum_names == t0.enum_names + enum_decl_names(program.enums@).subrange(0, i as int),
                self.tables().struct_fields == c.struct_fields,
                self.tables().enum_variants == t0.enum_variants,
                self.tables().functions == t0.functions,
                struct_errors_empty == (errors@.len() == 0),
                no_missing_main(errors@),
                errors@ == se,
            decreases program.enums.len() - i,
        {
            self.enum_names.push(program.enums[i].name.clone());
            proof {
                assert(enum_decl_names(program.enums@)[i as int] == program.enums@[i as int].name);
                assert(self.tables().enum_names =~= t0.enum_names + enum_decl_names(program.enums@).subrange(0, i + 1));
            }
            i = i + 1;
        }
        proof {
            assert(enum_decl_names(program.enums@).subrange(0, i as int) =~= enum_decl_names(program.enums@));
            assert(self.enum_names@ == enums);
        }
        let mut i: usize = 0;
        while i < program.enums.len()
            invariant
                i <= program.enums.len(),
                self.struct_names@ == structs,
                self.enum_names@ == enums,
                self.tables().struct_fields == c.struct_fields,
                self.tables().enum_variants == t0.enum_variants + enum_entries(
                    program.enums@.subrange(0, i as int),
                    structs,
                    enums,
                ),
                self.tables().functions == t0.functions,
                no_missing_main(errors@),
                errors@ == se + enum_errors(program.enums@, structs, enums, i as int),
                (errors@.len() == 0) == (struct_errors_empty && forall|j: int, k: int|
                    0 <= j < i && 0 <= k < program.enums@[j].variants@.len() ==> params_resolve(
                        (#[trigger] program.enums@[j].variants@[k]).fields@,
                        structs,
                        enums,
                        program.enums@[j].variants@[k].fields@.len() as int,
                    )),
            decreases program.enums.len() - i,
        {
            self.collect_enum_variants(&program.enums[i], &mut errors);
            proof {
                assert(program.enums@.subrange(0, i + 1) =~= program.enums@.subrange(0, i as int).push(program.enums@[i as int]));
                assert(self.tables().enum_variants =~= t0.enum_variants + enum_entries(program.enums@.subrange(0, i + 1), structs, enums));
            }
            i = i + 1;
        }
        proof {
            assert(program.enums@.subrange(0, i as int) =~= program.enums@);
        }
        let ghost type_errors_empty = errors@.len() == 0;
        let ghost ee = errors@;
        let mut i: usize = 0;
        while i < program.functions.len()
            invariant
                i <= program.functions.len(),
                self.struct_names@ == structs,
                self.enum_names@ == enums,
                self.tables().struct_fields == c.struct_fields,
                self.tables().enum_variants == c.enum_variants,
                self.tables().functions == sig_table(t0.functions, program.functions@, structs, enums, i as int),
                no_missing_main(errors@),
                errors@ == ee + signatures_errors(program.functions@, structs, enums, i as int),
                (errors@.len() == 0) == (type_errors_empty && forall|j: int|
                    0 <= j < i ==> signature_resolves(#[trigger] program.functions@[j], structs, enums)),
            decreases program.functions.len() - i,
        {
            self.collect_function_sig(&program.functions[i], &mut errors);
            i = i + 1;
        }
        proof {
            assert(self.tables() == c);
            assert((errors@.len() == 0) == declarations_resolve(t0, *program));
        }
        let main_name = string_of("main");
        let has_main = find(&self.functions, &main_name).is_some();
        proof {
            lemma_last_index_map(self.functions@, sig_entry_view(), "main"@);
            assert(has_key(c.functions, "main"@) == has_main);
        }
        let ghost decl_ok = errors@.len() == 0;
        if !has_main {
            errors.push(TypeError::NoMainFunction);
        }
        let ghost after_main = errors@;
        let ghost evm = errors_view(after_main);
        let ghost xm = if has_main {
            Seq::<TypeErrorView>::empty()
        } else {
            seq![TypeErrorView::NoMainFunction]
        };
        proof {
            if !has_main {
                assert(after_main[after_main.len() - 1] is NoMainFunction);
            }
            assert(errors_view(after_main) =~= errors_view(declaration_errors(t0, *program)) + xm);
            lemma_append_assoc(evm, Seq::empty(), Seq::empty());
        }
        let mut i: usize = 0;
        while i < program.functions.len()
            invariant
                i <= program.functions.len(),
                extends(after_main, errors@),
                self.tables() == c,
                (errors@.len() == 0) == (decl_ok && has_main && forall|j: int|
                    0 <= j < i ==> tc_body(c, #[trigger] program.functions@[j])),
                evm == errors_view(after_main),
                errors_view(errors@) == evm + bodies_errors(c, program.functions@, i as int),
            decreases program.functions.len() - i,
        {
            let ghost before = errors@;
            self.check_function_body(&program.functions[i], &mut errors);
            proof {
                lemma_extends_trans(after_main, before, errors@);
                lemma_append_assoc(evm, bodies_errors(c, program.functions@, i as int), body_errors(c, program.functions@[i as int]));
            }
            i = i + 1;
        }
        proof {
            assert(errors_view(errors@) == program_errors(t0, *program));
            assert(errors_view(errors@).len() == errors@.len());
        }
        proof {
            assert(t0 == old(self).tables());
            if !has_key(collected(old(self).tables(), *program).functions, "main"@) {
                assert(!has_main);
                let k = after_main.len() - 1;
                assert(errors@[k] == after_main[k]);
                assert(errors@[k] is NoMainFunction);
            } else {
                assert(no_missing_main(after_main));
                assert(no_missing_main(errors@));
            }
        }
        if errors.len() == 0 {
            Ok(())
        } else {
            let r: Result<(), Vec<TypeError>> = Err(errors);
            r
        }
    }

    /// The type a type name denotes: a built-in, or a declared struct or enum.
    fn resolve_type(&self, name: &String) -> (r: Option<Type>)
        ensures
            r == resolve(*name, self.struct_names@, self.enum_names@),
            opt_type_view(r) == spec_resolve(name@, self.struct_names@, self.enum_names@),
    {
        if string_is(name, "Int") {
            Some(Type::Int)
        } else if string_is(name, "Bool") {
            Some(Type::Bool)
        } else if string_is(name, "String") {
            Some(Type::String)
        } else if string_is(name, "Unit") {
            Some(Type::Unit)
        } else if contains_name(&self.struct_names, name) {
            Some(Type::Struct(name.clone()))
        } else if contains_name(&self.enum_names, name) {
            Some(Type::Enum(name.clone()))
        } else {
            None
        }
    }

    /// Records a struct's fields whose types resolve, reporting each
    /// field type that does not.
    fn collect_struct_fields(&mut self, s: &StructDecl, errors: &mut Vec<TypeError>)
        ensures
            extends(old(errors)@, final(errors)@),
            final(errors)@ == old(errors)@ + type_errors(s.fields@, old(self).struct_names@, old(self).enum_names@, s.fields@.len() as int),
            (final(errors)@.len() == old(errors)@.len()) == params_resolve(
                s.fields@,
                old(self).struct_names@,
                old(self).enum_names@,
                s.fields@.len() as int,
            ),
            final(self).struct_names@ == old(self).struct_names@,
            final(self).enum_names@ == old(self).enum_names@,
            final(self).tables().struct_fields == old(self).tables().struct_fields.push(
                (s.name, field_table(s.fields@, old(self).struct_names@, old(self).enum_names@, s.fields@.len() as int)),
            ),
            final(self).tables().enum_variants == old(self).tables().enum_variants,
            final(self).tables().functions == old(self).tables().functions,
    {
        let ghost e0 = errors@;
        let mut fields: Vec<(String, Type)> = Vec::new();
        let mut i: usize = 0;
        while i < s.fields.len()
            invariant
                i <= s.fields.len(),
                extends(e0, errors@),
                fields@ == field_table(s.fields@, self.struct_names@, self.enum_names@, i as int),
                (errors@.len() == e0.len()) == params_resolve(s.fields@, self.struct_names@, self.enum_names@, i as int),
                errors@ == e0 + type_errors(s.fields@, self.struct_names@, self.enum_names@, i as int),
            decreases s.fields.len() - i,
        {
            let field = &s.fields[i];
            let ghost before = errors@;
            match self.resolve_type(&field.ty) {
                Some(t) => {
                    insert(&mut fields, field.name.clone(), t);
                },
                None => {
                    push_error(errors, TypeError::UndefinedType(field.ty.clone()));
                },
            }
            proof {
                lemma_extends_trans(e0, before, errors@);
                if resolve(s.fields@[i as int].ty, self.struct_names@, self.enum_names@) is None {
                    assert(!params_resolve(s.fields@, self.struct_names@, self.enum_names@, i + 1));
                }
                assert(errors@ =~= e0 + type_errors(s.fields@, self.struct_names@, self.enum_names@, i + 1));
            }
            i = i + 1;
        }
        let ghost old_entries = self.struct_fields@;
        let entry = (s.name.clone(), fields);
        self.struct_fields.push(entry);
        proof {
            assert(self.struct_fields@.map_values(struct_entry_view()) =~= old_entries.map_values(struct_entry_view()).push(
                struct_entry_view()(entry),
            ));
        }
    }

    /// Records an enum's variants with their fields whose types resolve,
    /// reporting each field type that does not.
    fn collect_enum_variants(&mut self, e: &EnumDecl, errors: &mut Vec<TypeError>)
        ensures
            extends(old(errors)@, final(errors)@),
            final(errors)@ == old(errors)@ + variant_errors(
                e.variants@,
                old(self).struct_names@,
                old(self).enum_names@,
                e.variants@.len() as int,
            ),
            (final(errors)@.len() == old(errors)@.len()) == forall|j: int|
                0 <= j < e.variants@.len() ==> params_resolve(
                    (#[trigger] e.variants@[j]).fields@,
                    old(self).struct_names@,
                    old(self).enum_names@,
                    e.variants@[j].fields@.len() as int,
                ),
            final(self).struct_names@ == old(self).struct_names@,
            final(self).enum_names@ == old(self).enum_names@,
            final(self).tables().struct_fields == old(self).tables().struct_fields,
            final(self).tables().enum_variants == old(self).tables().enum_variants.push(
                (e.name, variant_table(e.variants@, old(self).struct_names@, old(self).enum_names@, e.variants@.len() as int)),
            ),
            final(self).tables().functions == old(self).tables().functions,
    {
        let ghost e0 = errors@;
        let ghost sn = self.struct_names@;
        let ghost en = self.enum_names@;
        let mut variants: Vec<(String, Vec<(String, Type)>)> = Vec::new();
        let mut i: usize = 0;
        while i < e.variants.len()
            invariant
                i <= e.variants.len(),
                sn == self.struct_names@,
                en == self.enum_names@,
                extends(e0, errors@),
                variants@.map_values(variant_entry_view()) == variant_table(e.variants@, sn, en, i as int),
                errors@ == e0 + variant_errors(e.variants@, sn, en, i as int),
                (errors@.len() == e0.len()) == forall|j: int|
                    0 <= j < i ==> params_resolve(
                        (#[trigger] e.variants@[j]).fields@,
                        sn,
                        en,
                        e.variants@[j].fields@.len() as int,
                    ),
            decreases e.variants.len() - i,
        {
            let v = &e.variants[i];
            let ghost e1 = errors@;
            let mut fields: Vec<(String, Type)> = Vec::new();
            let mut j: usize = 0;
            while j < v.fields.len()
                invariant
                    j <= v.fields.len(),
                    sn == self.struct_names@,
                    en == self.enum_names@,
                    extends(e1, errors@),
                    fields@ == field_list(v.fields@, sn, en, j as int),
                    (errors@.len() == e1.len()) == params_resolve(v.fields@, sn, en, j as int),
                    errors@ == e1 + type_errors(v.fields@, sn, en, j as int),
                decreases v.fields.len() - j,
            {
                let field = &v.fields[j];
                let ghost before = errors@;
                match self.resolve_type(&field.ty) {
                    Some(t) => {
                        fields.push((field.name.clone(), t));
                    },
                    None => {
                        push_error(errors, TypeError::UndefinedType(field.ty.clone()));
                    },
                }
                proof {
                    lemma_extends_trans(e1, before, errors@);
                    if resolve(v.fields@[j as int].ty, sn, en) is None {
                        assert(!params_resolve(v.fields@, sn, en, j + 1));
                    }
                    assert(errors@ =~= e1 + type_errors(v.fields@, sn, en, j + 1));
                }
                j = j + 1;
            }
            let ghost old_variants = variants@;
            let ghost fv = fields;
            insert(&mut variants, v.name.clone(), fields);
            proof {
                lemma_extends_trans(e0, e1, errors@);
                assert(errors@ =~= e0 + variant_errors(e.variants@, sn, en, i + 1));
                lemma_seq_insert_map(old_variants, variant_entry_view(), v.name, fv);
                assert(variants@.map_values(variant_entry_view()) == variant_table(e.variants@, sn, en, i + 1));
                if errors@.len() == e0.len() {
                    assert forall|k: int| 0 <= k < i + 1 implies params_resolve(
                        (#[trigger] e.variants@[k]).fields@,
                        sn,
                        en,
                        e.variants@[k].fields@.len() as int,
                    ) by {
                        if k == i {
                            assert(e1.len() == e0.len());
                        }
                    }
                }
            }
            i = i + 1;
        }
        let ghost old_entries = self.enum_variants@;
        let entry = (e.name.clone(), variants);
        self.enum_variants.push(entry);
        proof {
            assert(self.enum_variants@.map_values(enum_entry_view()) =~= old_entries.map_values(enum_entry_view()).push(
                enum_entry_view()(entry),
            ));
        }
    }

    /// Records a function's parameter types and return type, reporting
    /// each type name that does not resolve.
    fn collect_function_sig(&mut self, f: &FunctionDecl, errors: &mut Vec<TypeError>)
        ensures
            extends(old(errors)@, final(errors)@),
            final(errors)@ == old(errors)@ + signature_errors(*f, old(self).struct_names@, old(self).enum_names@),
            (final(errors)@.len() == old(errors)@.len()) == signature_resolves(
                *f,
                old(self).struct_names@,
                old(self).enum_names@,
            ),
            final(self).struct_names@ == old(self).struct_names@,
            final(self).enum_names@ == old(self).enum_names@,
            final(self).tables().struct_fields == old(self).tables().struct_fields,
            final(self).tables().enum_variants == old(self).tables().enum_variants,
            final(self).tables().functions == seq_insert(
                old(self).tables().functions,
                f.name,
                (
                    param_types(f.params@, old(self).struct_names@, old(self).enum_names@, f.params@.len() as int),
                    declared_return(*f, old(self).struct_names@, old(self).enum_names@),
                ),
            ),
    {
        let ghost e0 = errors@;
        let mut params: Vec<Type> = Vec::new();
        let mut i: usize = 0;
        while i < f.params.len()
            invariant
                i <= f.params.len(),
                extends(e0, errors@),
                params@ == param_types(f.params@, self.struct_names@, self.enum_names@, i as int),
                (errors@.len() == e0.len()) == params_resolve(f.params@, self.struct_names@, self.enum_names@, i as int),
                errors@ == e0 + type_errors(f.params@, self.struct_names@, self.enum_names@, i as int),
            decreases f.params.len() - i,
        {
            let ghost before = errors@;
            match self.resolve_type(&f.params[i].ty) {
                Some(t) => {
                    params.push(t);
                },
                None => {
                    push_error(errors, TypeError::UndefinedType(f.params[i].ty.clone()));
                },
            }
            proof {
                lemma_extends_trans(e0, before, errors@);
                if resolve(f.params@[i as int].ty, self.struct_names@, self.enum_names@) is None {
                    assert(!params_resolve(f.params@, self.struct_names@, self.enum_names@, i + 1));
                }
                assert(errors@ =~= e0 + type_errors(f.params@, self.struct_names@, self.enum_names@, i + 1));
            }
            i = i + 1;
        }
        let ghost e1 = errors@;
        let return_type = match &f.return_type {
            None => Type::Unit,
            Some(name) => match self.resolve_type(name) {
                Some(t) => t,
                None => {
                    push_error(errors, TypeError::UndefinedType(name.clone()));
                    Type::Unit
                },
            },
        };
        proof {
            lemma_extends_trans(e0, e1, errors@);
            assert(errors@ =~= e0 + signature_errors(*f, self.struct_names@, self.enum_names@));
        }
        let ghost old_fns = self.functions@;
        let sig = FunctionSig { params, return_type };
        insert(&mut self.functions, f.name.clone(), sig);
        proof {
            lemma_seq_insert_map(old_fns, sig_entry_view(), f.name, sig);
        }
    }

    /// Checks a function body; no error is added exactly when `tc_body`
    /// says it checks.
    fn check_function_body(&mut self, f: &FunctionDecl, errors: &mut Vec<TypeError>)
        ensures
            extends(old(errors)@, final(errors)@),
            final(self).struct_names@ == old(self).struct_names@,
            final(self).enum_names@ == old(self).enum_names@,
            final(self).functions@ == old(self).functions@,
            final(self).tables() == old(self).tables(),
            (final(errors)@.len() == old(errors)@.len()) == tc_body(old(self).tables(), *f),
            errors_view(final(errors)@) == errors_view(old(errors)@) + body_errors(old(self).tables(), *f),
    {
        let ghost tc = self.tables();
        let ghost ev0 = errors_view(errors@);
        proof {
            lemma_append_assoc(ev0, Seq::empty(), Seq::empty());
        }
        let mut scope: Vec<(String, (Type, bool))> = Vec::new();
        let mut i: usize = 0;
        proof {
            assert(scope_map(scope@) =~= param_scope(tc, f.params@, 0));
        }
        while i < f.params.len()
            invariant
                i <= f.params.len(),
                tc == self.tables(),
                scope_map(scope@) == param_scope(tc, f.params@, i as int),
            decreases f.params.len() - i,
        {
            if let Some(t) = self.resolve_type(&f.params[i].ty) {
                let ghost before = scope@;
                let entry = (t, false);
                insert(&mut scope, f.params[i].name.clone(), entry);
                proof {
                    lemma_scope_insert(before, scope@, f.params@[i as int].name, entry);
                }
            }
            i = i + 1;
        }
        let ghost sc = scope_map(scope@);
        proof {
            lemma_signature(*self, f.name@);
        }
        let return_type = match find(&self.functions, &f.name) {
            Some(k) => {
                proof {
                    assert(lookup(self.functions@, f.name@) == Some(self.functions@[k as int].1));
                }
                copy_type(&self.functions[k].1.return_type)
            },
            None => Type::Unit,
        };
        let ghost rt = return_type@;
        proof {
            assert(rt == body_return_type(tc, *f));
        }
        // Kept so `?`, nested arbitrarily deep in expressions, can check
        // against it; functions are checked one at a time.
        self.current_return_type = copy_type(&return_type);
        let ghost e0 = errors@;
        let mut i: usize = 0;
        while i < f.body.len()
            invariant
                i <= f.body.len(),
                extends(e0, errors@),
                e0 == old(errors)@,
                self.struct_names@ == old(self).struct_names@,
                self.enum_names@ == old(self).enum_names@,
                self.functions@ == old(self).functions@,
                tc == self.tables(),
                tc == old(self).tables(),
                rt == return_type@,
                self.current_return_type == return_type,
                tc_block(tc, rt, sc, f.body@, i as int) == (errors@.len() == e0.len(), scope_map(scope@)),
                ev0 == errors_view(e0),
                errors_view(errors@) == ev0 + block_errors(tc, rt, sc, f.body@, i as int),
            decreases f.body.len() - i,
        {
            let ghost before = errors@;
            self.check_stmt(&f.body[i], &mut scope, &return_type, errors);
            proof {
                lemma_extends_trans(e0, before, errors@);
                lemma_append_assoc(
                    ev0,
                    block_errors(tc, rt, sc, f.body@, i as int),
                    stmt_errors(tc, rt, tc_block(tc, rt, sc, f.body@, i as int).1, f.body@[i as int]),
                );
            }
            i = i + 1;
        }
    }

    /// Checks one statement in a function returning `return_type`, adding
    /// its errors; no error is added exactly when `tc_stmt` says it checks,
    /// and the scope afterwards is the one `tc_stmt` gives.
    fn check_stmt(
        &self,
        stmt: &Stmt,
        scope: &mut Vec<(String, (Type, bool))>,
        return_type: &Type,
        errors: &mut Vec<TypeError>,
    )
        requires
            self.current_return_type == *return_type,
        ensures
            extends(old(errors)@, final(errors)@),
            tc_stmt(self.tables(), return_type@, scope_map(old(scope)@), *stmt) == (
                final(errors)@.len() == old(errors)@.len(),
                scope_map(final(scope)@),
            ),
            errors_view(final(errors)@) == errors_view(old(errors)@) + stmt_errors(
                self.tables(),
                return_type@,
                scope_map(old(scope)@),
                *stmt,
            ),
        decreases stmt,
    {
        let ghost tc = self.tables();
        let ghost rt = return_type@;
        let ghost sc0 = scope_map(scope@);
        let ghost e0 = errors@;
        let ghost ev0 = errors_view(errors@);
        proof {
            lemma_append_assoc(ev0, Seq::empty(), Seq::empty());
        }
        match stmt {
            Stmt::VariableDecl { name, value, is_mutable } => {
                if find(scope, name).is_some() {
                    push_error(errors, TypeError::AlreadyDeclared(name.clone()));
                }
                let ghost mid = errors@;
                let ghost evm = errors_view(errors@);
                let ghost ad = if sc0.contains_key(name@) {
                    seq![TypeErrorView::AlreadyDeclared(name@)]
                } else {
                    Seq::<TypeErrorView>::empty()
                };
                proof {
                    assert(evm == ev0 + ad);
                }
                if let Some(t) = self.eval_expr_type(value, scope, errors) {
                    let ghost before = scope@;
                    let entry = (t, *is_mutable);
                    insert(scope, name.clone(), entry);
                    proof {
                        lemma_scope_insert(before, scope@, *name, entry);
                    }
                }
                proof {
                    lemma_extends_trans(e0, mid, errors@);
                    lemma_append_assoc(ev0, ad, expr_errors(tc, rt, sc0, *value));
                }
            },
            Stmt::Assign { name, value } => {
                let value_type = self.eval_expr_type(value, scope, errors);
                let ghost mid = errors@;
                let ghost evm = errors_view(errors@);
                proof {
                    lemma_append_assoc(evm, Seq::empty(), Seq::empty());
                }
                match find(scope, name) {
                    None => push_error(errors, TypeError::UndefinedVariable(name.clone())),
                    Some(k) => {
                        proof {
                            assert(lookup(scope@, name@) == Some(scope@[k as int].1));
                        }
                        if !scope[k].1.1 {
                            push_error(errors, TypeError::ImmutableAssignment(name.clone()));
                        } else if let Some(found) = value_type {
                            if !same_type(&found, &scope[k].1.0) {
                                let context = wrap("assignment to `", name, "`");
                                push_error(
                                    errors,
                                    TypeError::Mismatch {
                                        expected: scope[k].1.0.name(),
                                        found: found.name(),
                                        context,
                                    },
                                );
                            }
                        }
                    },
                }
                proof {
                    lemma_extends_trans(e0, mid, errors@);
                    let xa = assign_errors(sc0, name@, opt_type_view(value_type));
                    assert(errors_view(errors@) == evm + xa);
                    lemma_append_assoc(ev0, expr_errors(tc, rt, sc0, *value), xa);
                }
            },
            Stmt::IndexAssign { name, index, value } => {
                let idx_type = self.eval_expr_type(index, scope, errors);
                let ghost ev1 = errors_view(errors@);
                let ghost ti = opt_type_view(idx_type);
                proof {
                    lemma_append_assoc(ev1, Seq::empty(), Seq::empty());
                }
                if let Some(idx_type) = idx_type {
                    if !same_type(&idx_type, &Type::Int) {
                        push_error(
                            errors,
                            TypeError::Mismatch {
                                expected: string_of("Int"),
                                found: idx_type.name(),
                                context: string_of("array index"),
                            },
                        );
                    }
                }
                let ghost mid1 = errors@;
                let ghost mi = mismatch_if(ti, TypeView::Int, "Int"@, "array index"@);
                proof {
                    assert(errors_view(mid1) == ev1 + mi);
                }
                let value_type = self.eval_expr_type(value, scope, errors);
                let ghost mid2 = errors@;
                let ghost ev2 = errors_view(errors@);
                proof {
                    lemma_append_assoc(ev2, Seq::empty(), Seq::empty());
                }
                match find(scope, name) {
                    None => push_error(errors, TypeError::UndefinedVariable(name.clone())),
                    Some(k) => {
                        proof {
                            assert(lookup(scope@, name@) == Some(scope@[k as int].1));
                        }
                        if !scope[k].1.1 {
                            push_error(errors, TypeError::ImmutableAssignment(name.clone()));
                        } else {
                            match &scope[k].1.0 {
                                Type::Array(inner) => {
                                    if let Some(found) = value_type {
                                        if !same_type(&found, inner) {
                                            let context = wrap("index assignment to `", name, "`");
                                            push_error(
                                                errors,
                                                TypeError::Mismatch {
                                                    expected: inner.name(),
                                                    found: found.name(),
                                                    context,
                                                },
                                            );
                                        }
                                    }
                                },
                                other => {
                                    let context = wrap("index assignment to `", name, "`");
                                    push_error(
                                        errors,
                                        TypeError::Mismatch {
                                            expected: string_of("Array"),
                                            found: other.name(),
                                            context,
                                        },
                                    );
                                },
                            }
                        }
                    },
                }
                proof {
                    lemma_extends_trans(e0, mid1, mid2);
                    lemma_extends_trans(e0, mid2, errors@);
                    let xi = expr_errors(tc, rt, sc0, *index);
                    let xv = expr_errors(tc, rt, sc0, *value);
                    let xa = index_assign_errors(sc0, name@, opt_type_view(value_type));
                    assert(errors_view(errors@) == ev2 + xa);
                    lemma_append_assoc(ev0, xi, mi);
                    lemma_append_assoc(ev0 + xi + mi, xv, xa);
                    lemma_append_assoc(ev0 + xi, mi, xv);
                    lemma_append_assoc(ev0, xi, mi + xv);
                    lemma_append_assoc(ev0 + xi + mi, xv, xa);
                    lemma_append_assoc(xi, mi, xv);
                    lemma_append_assoc(xi + mi, xv, xa);
                    lemma_append_assoc(ev0, xi + mi + xv, xa);
                    lemma_append_assoc(ev0, xi + mi, xv);
                }
            },
            Stmt::Expr(expr) => {
                self.eval_expr_type(expr, scope, errors);
            },
            Stmt::If { condition, then_branch, else_branch } => {
                self.check_condition(condition, scope, errors);
                let ghost e1 = errors@;
                let ghost ev1 = errors_view(errors@);
                proof {
                    lemma_append_assoc(ev1, Seq::empty(), Seq::empty());
                }
                let mut i: usize = 0;
                while i < then_branch.len()
                    invariant
                        i <= then_branch.len(),
                        extends(e0, e1),
                        extends(e1, errors@),
                        e0 == old(errors)@,
                        sc0 == scope_map(old(scope)@),
                        tc == self.tables(),
                        rt == return_type@,
                        self.current_return_type == *return_type,
                        stmt == (Stmt::If {
                            condition: *condition,
                            then_branch: *then_branch,
                            else_branch: *else_branch,
                        }),
                        tc_block(tc, rt, sc0, then_branch@, i as int) == (errors@.len() == e1.len(), scope_map(scope@)),
                        ev1 == errors_view(e1),
                        errors_view(errors@) == ev1 + block_errors(tc, rt, sc0, then_branch@, i as int),
                    decreases then_branch.len() - i,
                {
                    proof {
                        lemma_vec_elem_decreases(*then_branch, i as int);
                        assert(decreases_to!(*stmt => stmt->If_then_branch));
                    }
                    let ghost before = errors@;
                    self.check_stmt(&then_branch[i], scope, return_type, errors);
                    proof {
                        lemma_extends_trans(e1, before, errors@);
                        lemma_append_assoc(
                            ev1,
                            block_errors(tc, rt, sc0, then_branch@, i as int),
                            stmt_errors(tc, rt, tc_block(tc, rt, sc0, then_branch@, i as int).1, then_branch@[i as int]),
                        );
                    }
                    i = i + 1;
                }
                let ghost e2 = errors@;
                let ghost ev2 = errors_view(errors@);
                let ghost sc1 = scope_map(scope@);
                proof {
                    lemma_extends_trans(e0, e1, e2);
                    lemma_append_assoc(ev2, Seq::empty(), Seq::empty());
                    lemma_append_assoc(ev0, cond_errors(tc, rt, sc0, *condition), block_errors(tc, rt, sc0, then_branch@, then_branch@.len() as int));
                }
                if let Some(else_stmts) = else_branch {
                    let mut i: usize = 0;
                    while i < else_stmts.len()
                        invariant
                            i <= else_stmts.len(),
                            extends(e0, e2),
                            extends(e2, errors@),
                            e0 == old(errors)@,
                            tc == self.tables(),
                            rt == return_type@,
                            self.current_return_type == *return_type,
                            stmt == (Stmt::If {
                                condition: *condition,
                                then_branch: *then_branch,
                                else_branch: Some(*else_stmts),
                            }),
                            tc_block(tc, rt, sc1, else_stmts@, i as int) == (errors@.len() == e2.len(), scope_map(scope@)),
                            ev2 == errors_view(e2),
                            errors_view(errors@) == ev2 + block_errors(tc, rt, sc1, else_stmts@, i as int),
                        decreases else_stmts.len() - i,
                    {
                        proof {
                            lemma_vec_elem_decreases(*else_stmts, i as int);
                            assert(decreases_to!(*stmt => stmt->If_else_branch));
                            assert(decreases_to!(stmt->If_else_branch => stmt->If_else_branch->0));
                        }
                        let ghost before = errors@;
                        self.check_stmt(&else_stmts[i], scope, return_type, errors);
                        proof {
                            lemma_extends_trans(e2, before, errors@);
                            lemma_append_assoc(
                                ev2,
                                block_errors(tc, rt, sc1, else_stmts@, i as int),
                                stmt_errors(tc, rt, tc_block(tc, rt, sc1, else_stmts@, i as int).1, else_stmts@[i as int]),
                            );
                        }
                        i = i + 1;
                    }
                    proof {
                        lemma_extends_trans(e0, e2, errors@);
                        lemma_append_assoc(
                            ev0 + cond_errors(tc, rt, sc0, *condition),
                            block_errors(tc, rt, sc0, then_branch@, then_branch@.len() as int),
                            block_errors(tc, rt, sc1, else_stmts@, else_stmts@.len() as int),
                        );
                        lemma_append_assoc(
                            ev0,
                            cond_errors(tc, rt, sc0, *condition),
                            block_errors(tc, rt, sc0, then_branch@, then_branch@.len() as int),
                        );
                        lemma_append_assoc(
                            ev0,
                            cond_errors(tc, rt, sc0, *condition) + block_errors(tc, rt, sc0, then_branch@, then_branch@.len() as int),
                            block_errors(tc, rt, sc1, else_stmts@, else_stmts@.len() as int),
                        );
                    }
                }
            },
            Stmt::While { condition, body } => {
                self.check_condition(condition, scope, errors);
                let ghost e1 = errors@;
                let ghost ev1 = errors_view(errors@);
                proof {
                    lemma_append_assoc(ev1, Seq::empty(), Seq::empty());
                }
                let mut i: usize = 0;
                while i < body.len()
                    invariant
                        i <= body.len(),
                        extends(e0, e1),
                        extends(e1, errors@),
                        e0 == old(errors)@,
                        sc0 == scope_map(old(scope)@),
                        tc == self.tables(),
                        rt == return_type@,
                        self.current_return_type == *return_type,
                        stmt == (Stmt::While { condition: *condition, body: *body }),
                        tc_block(tc, rt, sc0, body@, i as int) == (errors@.len() == e1.len(), scope_map(scope@)),
                        ev1 == errors_view(e1),
                        errors_view(errors@) == ev1 + block_errors(tc, rt, sc0, body@, i as int),
                    decreases body.len() - i,
                {
                    proof {
                        lemma_vec_elem_decreases(*body, i as int);
                        assert(decreases_to!(*stmt => stmt->While_body));
                    }
                    let ghost before = errors@;
                    self.check_stmt(&body[i], scope, return_type, errors);
                    proof {
                        lemma_extends_trans(e1, before, errors@);
                        lemma_append_assoc(
                            ev1,
                            block_errors(tc, rt, sc0, body@, i as int),
                            stmt_errors(tc, rt, tc_block(tc, rt, sc0, body@, i as int).1, body@[i as int]),
                        );
                    }
                    i = i + 1;
                }
                proof {
                    lemma_extends_trans(e0, e1, errors@);
                    lemma_append_assoc(ev0, cond_errors(tc, rt, sc0, *condition), block_errors(tc, rt, sc0, body@, body@.len() as int));
                }
            },
            Stmt::Match { scrutinee, arms } => {
                let scrutinee_found = self.eval_expr_type(scrutinee, scope, errors);
                let ghost ev1 = errors_view(errors@);
                let ghost xs = expr_errors(tc, rt, sc0, *scrutinee);
                proof {
                    lemma_append_assoc(ev1, Seq::empty(), Seq::empty());
                }
                if let Some(scrutinee_type) = scrutinee_found {
                    let ghost e1 = errors@;
                    let ghost st = scrutinee_type@;
                    let mut a: usize = 0;
                    while a < arms.len()
                        invariant
                            a <= arms.len(),
                            extends(e0, e1),
                            extends(e1, errors@),
                            e0 == old(errors)@,
                            sc0 == scope_map(old(scope)@),
                            sc0 == scope_map(scope@),
                            tc == self.tables(),
                            rt == return_type@,
                            st == scrutinee_type@,
                            self.current_return_type == *return_type,
                            stmt == (Stmt::Match { scrutinee: *scrutinee, arms: *arms }),
                            tc_arms(tc, rt, sc0, arms@, st, a as int) == (errors@.len() == e1.len()),
                            ev1 == errors_view(e1),
                            errors_view(errors@) == ev1 + arms_errors(tc, rt, sc0, arms@, st, a as int),
                        decreases arms.len() - a,
                    {
                        let arm = &arms[a];
                        let ghost before_arm = errors@;
                        let ghost evb = errors_view(errors@);
                        let mut arm_scope = copy_scope(scope);
                        self.check_pattern(&arm.pattern, &scrutinee_type, &mut arm_scope, errors);
                        let ghost e_pat = errors@;
                        let ghost evp = errors_view(errors@);
                        let ghost scp = scope_map(arm_scope@);
                        proof {
                            lemma_extends_trans(e1, before_arm, e_pat);
                            lemma_append_assoc(evp, Seq::empty(), Seq::empty());
                        }
                        let mut i: usize = 0;
                        while i < arm.body.len()
                            invariant
                                i <= arm.body.len(),
                                a < arms.len(),
                                *arm == arms@[a as int],
                                extends(e_pat, errors@),
                                extends(e1, e_pat),
                                tc == self.tables(),
                                rt == return_type@,
                                self.current_return_type == *return_type,
                                stmt == (Stmt::Match { scrutinee: *scrutinee, arms: *arms }),
                                tc_block(tc, rt, scp, arm.body@, i as int) == (errors@.len() == e_pat.len(), scope_map(arm_scope@)),
                                evp == errors_view(e_pat),
                                errors_view(errors@) == evp + block_errors(tc, rt, scp, arm.body@, i as int),
                            decreases arm.body.len() - i,
                        {
                            proof {
                                lemma_vec_elem_decreases(*arms, a as int);
                                lemma_vec_elem_decreases(arm.body, i as int);
                                assert(decreases_to!(*stmt => stmt->Match_arms));
                                assert(decreases_to!(arms@[a as int] => arms@[a as int].body));
                            }
                            let ghost before = errors@;
                            self.check_stmt(&arm.body[i], &mut arm_scope, return_type, errors);
                            proof {
                                lemma_extends_trans(e_pat, before, errors@);
                                lemma_append_assoc(
                                    evp,
                                    block_errors(tc, rt, scp, arm.body@, i as int),
                                    stmt_errors(tc, rt, tc_block(tc, rt, scp, arm.body@, i as int).1, arm.body@[i as int]),
                                );
                            }
                            i = i + 1;
                        }
                        proof {
                            lemma_extends_trans(e1, e_pat, errors@);
                            let xp = pattern_errors(tc, arms@[a as int].pattern, st);
                            let xb = block_errors(tc, rt, scp, arm.body@, arm.body@.len() as int);
                            assert(scp == tc_pattern(tc, sc0, arms@[a as int].pattern, st).1);
                            lemma_append_assoc(evb, xp, xb);
                            lemma_append_assoc(ev1, arms_errors(tc, rt, sc0, arms@, st, a as int), xp + xb);
                            lemma_append_assoc(arms_errors(tc, rt, sc0, arms@, st, a as int), xp, xb);
                        }
                        a = a + 1;
                    }
                    let ghost e2 = errors@;
                    let ghost ev2 = errors_view(errors@);
                    self.check_exhaustiveness(&scrutinee_type, arms, errors);
                    proof {
                        lemma_extends_trans(e0, e1, e2);
                        lemma_extends_trans(e0, e2, errors@);
                        let xa = arms_errors(tc, rt, sc0, arms@, st, arms@.len() as int);
                        let xe = exhaustive_errors(tc, st, arms@);
                        lemma_append_assoc(ev0, xs, xa);
                        lemma_append_assoc(ev0 + xs, xa, xe);
                        lemma_append_assoc(ev0, xs, xa + xe);
                        lemma_append_assoc(xs, xa, xe);
                    }
                }
            },
            Stmt::Return(expr) => {
                let found = match expr {
                    Some(e) => self.eval_expr_type(e, scope, errors),
                    None => Some(Type::Unit),
                };
                let ghost mid = errors@;
                let ghost evm = errors_view(errors@);
                let ghost fv = opt_type_view(found);
                proof {
                    lemma_append_assoc(evm, Seq::empty(), Seq::empty());
                }
                if let Some(found) = found {
                    if !same_type(&found, return_type) {
                        push_error(
                            errors,
                            TypeError::Mismatch {
                                expected: return_type.name(),
                                found: found.name(),
                                context: string_of("return statement"),
                            },
                        );
                    }
                }
                proof {
                    lemma_extends_trans(e0, mid, errors@);
                    let m = mismatch_if(fv, rt, spec_type_name(rt), "return statement"@);
                    assert(errors_view(errors@) == evm + m);
                    match expr {
                        Some(e) => {
                            lemma_append_assoc(ev0, expr_errors(tc, rt, sc0, *e), m);
                        },
                        None => {},
                    }
                }
            },
        }
    }

    fn check_pattern(
        &self,
        pattern: &Pattern,
        scrutinee_type: &Type,
        scope: &mut Vec<(String, (Type, bool))>,
        errors: &mut Vec<TypeError>,
    )
        ensures
            extends(old(errors)@, final(errors)@),
            tc_pattern(self.tables(), scope_map(old(scope)@), *pattern, scrutinee_type@) == (
                final(errors)@.len() == old(errors)@.len(),
                scope_map(final(scope)@),
            ),
            errors_view(final(errors)@) == errors_view(old(errors)@) + pattern_errors(self.tables(), *pattern, scrutinee_type@),
    {
        proof {
            lemma_append_assoc(errors_view(errors@), Seq::empty(), Seq::empty());
        }
        match pattern {
            Pattern::Wildcard => {},
            Pattern::IntLiteral(_) => {
                if !same_type(scrutinee_type, &Type::Int) {
                    push_error(
                        errors,
                        TypeError::Mismatch {
                            expected: scrutinee_type.name(),
                            found: string_of("Int"),
                            context: string_of("match pattern"),
                        },
                    );
                }
            },
            Pattern::BoolLiteral(_) => {
                if !same_type(scrutinee_type, &Type::Bool) {
                    push_error(
                        errors,
                        TypeError::Mismatch {
                            expected: scrutinee_type.name(),
                            found: string_of("Bool"),
                            context: string_of("match pattern"),
                        },
                    );
                }
            },
            Pattern::StringLiteral(_) => {
                if !same_type(scrutinee_type, &Type::String) {
                    push_error(
                        errors,
                        TypeError::Mismatch {
                            expected: scrutinee_type.name(),
                            found: string_of("String"),
                            context: string_of("match pattern"),
                        },
                    );
                }
            },
            Pattern::EnumVariant { enum_name, variant, bindings } => {
                let matches_enum = match scrutinee_type {
                    Type::Enum(n) => *n == *enum_name,
                    _ => false,
                };
                if matches_enum {
                    proof {
                        lemma_enum_table(*self, enum_name@);
                    }
                    let fields = match find(&self.enum_variants, enum_name) {
                        Some(k) => match find(&self.enum_variants[k].1, variant) {
                            Some(j) => Some(j),
                            None => None,
                        },
                        None => None,
                    };
                    let k = match find(&self.enum_variants, enum_name) {
                        Some(k) => k,
                        None => 0,
                    };
                    proof {
                        if has_key(self.enum_variants@, enum_name@) {
                            lemma_variant_table(self.enum_variants@[k as int].1@, variant@);
                        }
                    }
                    match fields {
                        None => {
                            push_error(
                                errors,
                                TypeError::UndefinedVariant {
                                    enum_name: enum_name.clone(),
                                    variant: variant.clone(),
                                },
                            );
                        },
                        Some(j) => {
                            let decl_fields = &self.enum_variants[k].1[j].1;
                            let ghost fs = fields_type_view(decl_fields@);
                            let ghost sc0 = scope_map(scope@);
                            proof {
                                assert(lookup(self.enum_variants@, enum_name@) == Some(self.enum_variants@[k as int].1));
                                assert(lookup(self.enum_variants@[k as int].1@, variant@) == Some(*decl_fields));
                                assert(self.tables().variant_fields(enum_name@, variant@) == Some(fs));
                            }
                            if bindings.len() != decl_fields.len() {
                                let callee = join_path(enum_name, variant);
                                push_error(
                                    errors,
                                    TypeError::WrongArgCount {
                                        callee,
                                        expected: decl_fields.len(),
                                        found: bindings.len(),
                                    },
                                );
                            } else {
                                let mut i: usize = 0;
                                while i < bindings.len()
                                    invariant
                                        i <= bindings.len(),
                                        bindings.len() == decl_fields.len(),
                                        fs == fields_type_view(decl_fields@),
                                        scope_map(scope@) == bind_pattern(sc0, bindings@, fs, i as int),
                                    decreases bindings.len() - i,
                                {
                                    let ghost before = scope@;
                                    let entry = (copy_type(&decl_fields[i].1), false);
                                    insert(scope, bindings[i].clone(), entry);
                                    proof {
                                        lemma_scope_insert(before, scope@, bindings@[i as int], entry);
                                    }
                                    i = i + 1;
                                }
                            }
                        },
                    }
                } else {
                    let found = join_path(enum_name, variant);
                    push_error(
                        errors,
                        TypeError::Mismatch {
                            expected: scrutinee_type.name(),
                            found,
                            context: string_of("match pattern"),
                        },
                    );
                }
            },
        }
    }

    /// Reports the values a match leaves uncovered: nothing when an arm is
    /// `_`; for an enum, each variant with no arm; for Bool, a missing
    /// `true` or `false`; for any other type (no `_`), always.
    #[verifier::spinoff_prover]
    #[verifier::rlimit(30)]
    fn check_exhaustiveness(&self, scrutinee_type: &Type, arms: &Vec<MatchArm>, errors: &mut Vec<TypeError>)
        ensures
            extends(old(errors)@, final(errors)@),
            forall|k: int| old(errors)@.len() <= k < final(errors)@.len() ==> (#[trigger] final(errors)@[k]) is NonExhaustiveMatch,
            has_wildcard(arms@) ==> final(errors)@ == old(errors)@,
            (!has_wildcard(arms@) && scrutinee_type@ == TypeView::Bool) ==> (final(errors)@ == old(errors)@
                <==> (covers_bool(arms@, true) && covers_bool(arms@, false))),
            (!has_wildcard(arms@) && !(scrutinee_type is Enum) && scrutinee_type@ != TypeView::Bool)
                ==> final(errors)@.len() == old(errors)@.len() + 1,
            (!has_wildcard(arms@) && scrutinee_type is Enum) ==> match lookup(self.enum_variants@, scrutinee_type->Enum_0@) {
                None => final(errors)@ == old(errors)@,
                Some(variants) => final(errors)@.len() - old(errors)@.len() == uncovered_count(variants@, arms@),
            },
            (final(errors)@.len() == old(errors)@.len()) == exhaustive(self.tables(), scrutinee_type@, arms@),
            errors_view(final(errors)@) == errors_view(old(errors)@) + exhaustive_errors(self.tables(), scrutinee_type@, arms@),
    {
        let ghost ev0 = errors_view(errors@);
        proof {
            lemma_append_assoc(ev0, Seq::empty(), Seq::empty());
        }
        let mut a: usize = 0;
        while a < arms.len()
            invariant
                a <= arms.len(),
                forall|i: int| 0 <= i < a ==> !((#[trigger] arms@[i]).pattern is Wildcard),
            decreases arms.len() - a,
        {
            if matches!(arms[a].pattern, Pattern::Wildcard) {
                return;
            }
            a = a + 1;
        }
        match scrutinee_type {
            Type::Enum(name) => {
                proof {
                    lemma_enum_table(*self, name@);
                }
                if let Some(k) = find(&self.enum_variants, name) {
                    let variants = &self.enum_variants[k].1;
                    proof {
                        lemma_uncovered_count_map(variants@, variant_entry_view(), arms@);
                    }
                    let ghost start = errors@;
                    let mut v: usize = 0;
                    while v < variants.len()
                        invariant
                            v <= variants.len(),
                            extends(start, errors@),
                            errors@.len() - start.len() == uncovered_count(variants@.subrange(0, v as int), arms@),
                            forall|k: int| start.len() <= k < errors@.len() ==> (#[trigger] errors@[k]) is NonExhaustiveMatch,
                            ev0 == errors_view(start),
                            errors_view(errors@) == ev0 + uncovered_errors(name@, variants@, arms@, v as int),
                        decreases variants.len() - v,
                    {
                        let covered = arm_covers(arms, &variants[v].0);
                        let ghost before = errors@;
                        if !covered {
                            let msg = join_path(name, &variants[v].0);
                            push_error(errors, TypeError::NonExhaustiveMatch(msg));
                        }
                        proof {
                            lemma_uncovered_count_push(variants@.subrange(0, v as int), variants@[v as int], arms@);
                            assert(variants@.subrange(0, v + 1) =~= variants@.subrange(0, v as int).push(variants@[v as int]));
                            lemma_extends_trans(start, before, errors@);
                            lemma_append_assoc(ev0, uncovered_errors(name@, variants@, arms@, v as int), Seq::empty());
                            lemma_append_assoc(
                                ev0,
                                uncovered_errors(name@, variants@, arms@, v as int),
                                seq![TypeErrorView::NonExhaustiveMatch(name@ + "::"@ + variants@[v as int].0@)],
                            );
                        }
                        v = v + 1;
                    }
                    proof {
                        assert(variants@.subrange(0, variants@.len() as int) =~= variants@);
                        lemma_uncovered_errors_map(name@, variants@, variant_entry_view(), arms@, variants@.len() as int);
                    }
                }
            },
            Type::Bool => {
                let has_true = arm_is_bool(arms, true);
                let has_false = arm_is_bool(arms, false);
                if !has_true || !has_false {
                    push_error(
                        errors,
                        TypeError::NonExhaustiveMatch(
                            string_of("Bool (missing true, false, or a wildcard `_`)"),
                        ),
                    );
                }
            },
            other => {
                let n = other.name();
                let msg = concat(&n, " requires a wildcard `_` arm");
                push_error(errors, TypeError::NonExhaustiveMatch(msg));
            },
        }
    }

    fn check_condition(&self, condition: &Expr, scope: &Vec<(String, (Type, bool))>, errors: &mut Vec<TypeError>)
        ensures
            extends(old(errors)@, final(errors)@),
            (final(errors)@.len() == old(errors)@.len()) == tc_cond(self.tables(), self.return_type(), scope_map(scope@), *condition),
            errors_view(final(errors)@) == errors_view(old(errors)@) + cond_errors(
                self.tables(),
                self.return_type(),
                scope_map(scope@),
                *condition,
            ),
    {
        let ghost ev0 = errors_view(errors@);
        let found = self.eval_expr_type(condition, scope, errors);
        let ghost ev1 = errors_view(errors@);
        if let Some(t) = found {
            if !same_type(&t, &Type::Bool) {
                push_error(
                    errors,
                    TypeError::Mismatch {
                        expected: string_of("Bool"),
                        found: t.name(),
                        context: string_of("condition"),
                    },
                );
            }
        }
        proof {
            let x = expr_errors(self.tables(), self.return_type(), scope_map(scope@), *condition);
            let m = mismatch_if(opt_type_view(found), TypeView::Bool, "Bool"@, "condition"@);
            lemma_append_assoc(ev1, Seq::empty(), Seq::empty());
            assert(errors_view(errors@) == ev1 + m);
            lemma_append_assoc(ev0, x, m);
        }
    }

    /// The type of an expression, if it has one; errors found on the way
    /// are appended. No error is added exactly when `tc_expr` says the
    /// expression checks, and the type is the one `tc_expr` gives.
    fn eval_expr_type(&self, expr: &Expr, scope: &Vec<(String, (Type, bool))>, errors: &mut Vec<TypeError>) -> (r: Option<Type>)
        ensures
            extends(old(errors)@, final(errors)@),
            tc_expr(self.tables(), self.return_type(), scope_map(scope@), *expr) == (
                final(errors)@.len() == old(errors)@.len(),
                opt_type_view(r),
            ),
            errors_view(final(errors)@) == errors_view(old(errors)@) + expr_errors(
                self.tables(),
                self.return_type(),
                scope_map(scope@),
                *expr,
            ),
        decreases expr, 2int,
    {
        let ghost tc = self.tables();
        let ghost rt = self.return_type();
        let ghost sm = scope_map(scope@);
        let ghost ev0 = errors_view(errors@);
        proof {
            lemma_append_assoc(ev0, Seq::empty(), Seq::empty());
        }
        match expr {
            Expr::StringLiteral(_) => Some(Type::String),
            Expr::IntLiteral(_) => Some(Type::Int),
            Expr::BoolLiteral(_) => Some(Type::Bool),
            Expr::Identifier(name) => match find(scope, name) {
                Some(k) => {
                    proof {
                        assert(lookup(scope@, name@) == Some(scope@[k as int].1));
                    }
                    Some(copy_type(&scope[k].1.0))
                },
                None => {
                    push_error(errors, TypeError::UndefinedVariable(name.clone()));
                    None
                },
            },
            Expr::Binary { left, op, right } => {
                let l = self.eval_expr_type(left, scope, errors);
                let ghost ev1 = errors_view(errors@);
                let r = self.eval_expr_type(right, scope, errors);
                let ghost ev2 = errors_view(errors@);
                let res = self.check_binary(*op, l, r, errors);
                proof {
                    let xl = expr_errors(tc, rt, sm, **left);
                    let xr = expr_errors(tc, rt, sm, **right);
                    let xb = binary_errors(*op, opt_type_view(l), opt_type_view(r));
                    lemma_append_assoc(ev0, xl, xr);
                    lemma_append_assoc(ev0, xl + xr, xb);
                }
                res
            },
            Expr::Call { callee, args } => {
                proof {
                    assert(decreases_to!(*expr => expr->Call_args));
                }
                self.check_call(callee, args, scope, errors)
            },
            Expr::StructLiteral { name, fields } => {
                proof {
                    assert(decreases_to!(*expr => expr->StructLiteral_fields));
                }
                self.check_struct_literal(name, fields, scope, errors)
            },
            Expr::EnumLiteral { enum_name, variant, fields } => {
                proof {
                    assert(decreases_to!(*expr => expr->EnumLiteral_fields));
                }
                self.check_enum_literal(enum_name, variant, fields, scope, errors)
            },
            Expr::FieldAccess { object, field } => {
                let obj_type = match self.eval_expr_type(object, scope, errors) {
                    Some(t) => t,
                    None => {
                        return None;
                    },
                };
                let ghost ev1 = errors_view(errors@);
                let ghost xo = expr_errors(tc, rt, sm, **object);
                match &obj_type {
                    Type::Struct(struct_name) => {
                        proof {
                            lemma_struct_table(*self, struct_name@);
                        }
                        let found = match find(&self.struct_fields, struct_name) {
                            Some(k) => match find(&self.struct_fields[k].1, field) {
                                Some(j) => Some(copy_type(&self.struct_fields[k].1[j].1)),
                                None => None,
                            },
                            None => None,
                        };
                        match found {
                            Some(t) => Some(t),
                            None => {
                                push_error(
                                    errors,
                                    TypeError::UnknownField {
                                        struct_name: struct_name.clone(),
                                        field: field.clone(),
                                    },
                                );
                                proof {
                                    lemma_append_assoc(ev0, xo, seq![TypeErrorView::UnknownField { struct_name: struct_name@, field: field@ }]);
                                }
                                None
                            },
                        }
                    },
                    other => {
                        push_error(errors, TypeError::NotAStruct(other.name()));
                        proof {
                            lemma_append_assoc(ev0, xo, seq![TypeErrorView::NotAStruct(spec_type_name(other@))]);
                        }
                        None
                    },
                }
            },
            Expr::ArrayLiteral(elements) => {
                if elements.len() == 0 {
                    push_error(
                        errors,
                        TypeError::CannotInferType(
                            string_of("empty array literal (no elements to infer type from)"),
                        ),
                    );
                    return None;
                }
                proof {
                    lemma_vec_elem_decreases(*elements, 0);
                    assert(decreases_to!(*expr => expr->ArrayLiteral_0));
                }
                let first = match self.eval_expr_type(&elements[0], scope, errors) {
                    Some(t) => t,
                    None => {
                        return None;
                    },
                };
                let ghost mid = errors@;
                let ghost x0 = expr_errors(tc, rt, sm, elements@[0]);
                let mut i: usize = 1;
                while i < elements.len()
                    invariant
                        1 <= i <= elements.len(),
                        extends(mid, errors@),
                        extends(old(errors)@, mid),
                        *expr == Expr::ArrayLiteral(*elements),
                        tc == self.tables(),
                        rt == self.return_type(),
                        sm == scope_map(scope@),
                        ev0 == errors_view(old(errors)@),
                        x0 == expr_errors(tc, rt, sm, elements@[0]),
                        tc_elements(self.tables(), rt, sm, elements@, first@, i as int) == (errors@.len() == mid.len()),
                        errors_view(errors@) == ev0 + x0 + elements_errors(tc, rt, sm, elements@, first@, i as int),
                    decreases elements.len() - i,
                {
                    proof {
                        lemma_vec_elem_decreases(*elements, i as int);
                        assert(decreases_to!(*expr => expr->ArrayLiteral_0));
                    }
                    let ghost before = errors@;
                    let ghost evb = errors_view(errors@);
                    let found = self.eval_expr_type(&elements[i], scope, errors);
                    let ghost evm = errors_view(errors@);
                    if let Some(t) = found {
                        if !same_type(&t, &first) {
                            push_error(
                                errors,
                                TypeError::Mismatch {
                                    expected: first.name(),
                                    found: t.name(),
                                    context: string_of("array literal element"),
                                },
                            );
                        }
                    }
                    proof {
                        lemma_extends_trans(mid, before, errors@);
                        let xi = expr_errors(tc, rt, sm, elements@[i as int]);
                        let mi = mismatch_if(opt_type_view(found), first@, spec_type_name(first@), "array literal element"@);
                        lemma_append_assoc(evb, xi, mi);
                        lemma_append_assoc(ev0 + x0, elements_errors(tc, rt, sm, elements@, first@, i as int), xi + mi);
                        lemma_append_assoc(elements_errors(tc, rt, sm, elements@, first@, i as int), xi, mi);
                    }
                    i = i + 1;
                }
                proof {
                    lemma_extends_trans(old(errors)@, mid, errors@);
                    lemma_append_assoc(ev0, x0, elements_errors(tc, rt, sm, elements@, first@, i as int));
                }
                Some(Type::Array(Box::new(first)))
            },
            Expr::Index { array, index } => {
                let arr_type = match self.eval_expr_type(array, scope, errors) {
                    Some(t) => t,
                    None => {
                        return None;
                    },
                };
                let ghost xa = expr_errors(tc, rt, sm, **array);
                let ghost ev1 = errors_view(errors@);
                let idx_type = self.eval_expr_type(index, scope, errors);
                let ghost xi = expr_errors(tc, rt, sm, **index);
                let ghost ev2 = errors_view(errors@);
                if let Some(idx_type) = &idx_type {
                    if !same_type(idx_type, &Type::Int) {
                        push_error(
                            errors,
                            TypeError::Mismatch {
                                expected: string_of("Int"),
                                found: idx_type.name(),
                                context: string_of("array index"),
                            },
                        );
                    }
                }
                let ghost mi = mismatch_if(opt_type_view(idx_type), TypeView::Int, "Int"@, "array index"@);
                let ghost ev3 = errors_view(errors@);
                proof {
                    assert(ev3 == ev2 + mi);
                }
                match arr_type {
                    Type::Array(inner) => {
                        proof {
                            lemma_append_assoc(ev0, xa, xi);
                            lemma_append_assoc(ev0, xa + xi, mi);
                            lemma_append_assoc(xa, xi, mi);
                            lemma_append_assoc(ev0, xa, xi + mi);
                            lemma_append_assoc(ev0 + xa, xi + mi, Seq::empty());
                            lemma_append_assoc(xa, xi + mi, Seq::empty());
                            lemma_append_assoc(ev0, xa, xi + mi + Seq::empty());
                        }
                        Some(*inner)
                    },
                    other => {
                        let ghost ov = other@;
                        push_error(
                            errors,
                            TypeError::Mismatch {
                                expected: string_of("Array"),
                                found: other.name(),
                                context: string_of("indexing"),
                            },
                        );
                        proof {
                            let xm = seq![TypeErrorView::Mismatch { expected: "Array"@, found: spec_type_name(ov), context: "indexing"@ }];
                            lemma_append_assoc(ev0, xa, xi);
                            lemma_append_assoc(ev0, xa + xi, mi);
                            lemma_append_assoc(ev0 + xa + xi + mi, Seq::empty(), Seq::empty());
                            lemma_append_assoc(xa, xi, mi);
                            lemma_append_assoc(ev0, xa, xi + mi);
                            lemma_append_assoc(ev0 + xa, xi + mi, xm);
                            lemma_append_assoc(xa, xi + mi, xm);
                            lemma_append_assoc(ev0, xa, xi + mi + xm);
                        }
                        None
                    },
                }
            },
            Expr::Try(inner) => self.check_try(inner, scope, errors),
        }
    }

    /// The type of a binary operation whose operand types are `l` and `r`
    /// (none when an operand had no type); a mismatch is reported.
    fn check_binary(&self, op: BinaryOp, l: Option<Type>, r: Option<Type>, errors: &mut Vec<TypeError>) -> (res: Option<Type>)
        ensures
            match (l, r) {
                (Some(lt), Some(rt)) => {
                    &&& opt_type_view(res) == spec_binary_type(op, lt@, rt@)
                    &&& res is None ==> final(errors)@.len() == old(errors)@.len() + 1
                        && final(errors)@.last() is Mismatch
                    &&& res is Some ==> final(errors)@ == old(errors)@
                },
                _ => res is None && final(errors)@ == old(errors)@,
            },
            extends(old(errors)@, final(errors)@),
            errors_view(final(errors)@) == errors_view(old(errors)@) + binary_errors(op, opt_type_view(l), opt_type_view(r)),
    {
        proof {
            lemma_append_assoc(errors_view(errors@), Seq::empty(), Seq::empty());
        }
        let (l, r) = match (l, r) {
            (Some(l), Some(r)) => (l, r),
            _ => {
                return None;
            },
        };
        match op {
            BinaryOp::Add => {
                if same_type(&l, &Type::String) && same_type(&r, &Type::String) {
                    Some(Type::String)
                } else if same_type(&l, &Type::Int) && same_type(&r, &Type::Int) {
                    Some(Type::Int)
                } else {
                    push_error(errors, binary_mismatch("+", &l, &r));
                    None
                }
            },
            BinaryOp::Sub | BinaryOp::Mul | BinaryOp::Div => {
                if same_type(&l, &Type::Int) && same_type(&r, &Type::Int) {
                    Some(Type::Int)
                } else {
                    push_error(errors, binary_mismatch(op_symbol(op), &l, &r));
                    None
                }
            },
            BinaryOp::Eq | BinaryOp::NotEq => {
                if same_type(&l, &r) {
                    Some(Type::Bool)
                } else {
                    push_error(errors, binary_mismatch(op_symbol(op), &l, &r));
                    None
                }
            },
            _ => {
                if same_type(&l, &Type::Int) && same_type(&r, &Type::Int) {
                    Some(Type::Bool)
                } else {
                    push_error(errors, binary_mismatch(op_symbol(op), &l, &r));
                    None
                }
            },
        }
    }

    fn check_call(&self, callee: &String, args: &Vec<Expr>, scope: &Vec<(String, (Type, bool))>, errors: &mut Vec<TypeError>) -> (r: Option<Type>)
        ensures
            extends(old(errors)@, final(errors)@),
            tc_call(self.tables(), self.return_type(), scope_map(scope@), callee@, args@) == (
                final(errors)@.len() == old(errors)@.len(),
                opt_type_view(r),
            ),
            errors_view(final(errors)@) == errors_view(old(errors)@) + call_errors(
                self.tables(),
                self.return_type(),
                scope_map(scope@),
                callee@,
                args@,
            ),
        decreases args, 1int,
    {
        let ghost tc = self.tables();
        let ghost rt = self.return_type();
        let ghost sm = scope_map(scope@);
        let ghost ev0 = errors_view(errors@);
        proof {
            reveal_strlit("print");
            reveal_strlit("len");
            reveal_strlit("push");
            assert("print"@ != "push"@ && "len"@ != "push"@ && "print"@ != "len"@) by {
                assert("print"@.len() == 5 && "len"@.len() == 3 && "push"@.len() == 4);
            }
            lemma_append_assoc(ev0, Seq::empty(), Seq::empty());
        }
        if string_is(callee, "print") {
            if args.len() != 1 {
                push_error(
                    errors,
                    TypeError::WrongArgCount { callee: string_of("print"), expected: 1, found: args.len() },
                );
            } else {
                proof {
                    lemma_vec_elem_decreases(*args, 0);
                }
                self.eval_expr_type(&args[0], scope, errors);
            }
            return Some(Type::Unit);
        }
        if string_is(callee, "len") {
            if args.len() != 1 {
                push_error(
                    errors,
                    TypeError::WrongArgCount { callee: string_of("len"), expected: 1, found: args.len() },
                );
            } else {
                proof {
                    lemma_vec_elem_decreases(*args, 0);
                }
                let found = self.eval_expr_type(&args[0], scope, errors);
                let ghost x0 = expr_errors(tc, rt, sm, args@[0]);
                if let Some(t) = found {
                    if !matches!(t, Type::Array(_)) {
                        push_error(
                            errors,
                            TypeError::Mismatch {
                                expected: string_of("Array"),
                                found: t.name(),
                                context: string_of("argument to `len`"),
                            },
                        );
                        proof {
                            lemma_append_assoc(
                                ev0,
                                x0,
                                seq![TypeErrorView::Mismatch { expected: "Array"@, found: spec_type_name(t@), context: "argument to `len`"@ }],
                            );
                        }
                    }
                }
            }
            return Some(Type::Int);
        }
        if string_is(callee, "push") {
            if args.len() != 2 {
                push_error(
                    errors,
                    TypeError::WrongArgCount { callee: string_of("push"), expected: 2, found: args.len() },
                );
                let ghost ev1 = errors_view(errors@);
                self.eval_args(args, scope, errors);
                proof {
                    lemma_append_assoc(
                        ev0,
                        seq![TypeErrorView::WrongArgCount { callee: "push"@, expected: 2, found: args@.len() }],
                        each_errors(tc, rt, sm, args@, args@.len() as int),
                    );
                }
                return None;
            }
            proof {
                lemma_vec_elem_decreases(*args, 0);
                lemma_vec_elem_decreases(*args, 1);
            }
            let arr_t = self.eval_expr_type(&args[0], scope, errors);
            let val_t = self.eval_expr_type(&args[1], scope, errors);
            let ghost x0 = expr_errors(tc, rt, sm, args@[0]);
            let ghost x1 = expr_errors(tc, rt, sm, args@[1]);
            proof {
                lemma_append_assoc(ev0, x0, x1);
                lemma_append_assoc(ev0, x0 + x1, Seq::empty());
            }
            return match arr_t {
                Some(Type::Array(inner)) => {
                    let ghost xm = mismatch_if(opt_type_view(val_t), inner@, spec_type_name(inner@), "second argument to `push`"@);
                    if let Some(val_t) = val_t {
                        if !same_type(&val_t, &inner) {
                            push_error(
                                errors,
                                TypeError::Mismatch {
                                    expected: inner.name(),
                                    found: val_t.name(),
                                    context: string_of("second argument to `push`"),
                                },
                            );
                        }
                    }
                    proof {
                        lemma_append_assoc(ev0, x0 + x1, xm);
                    }
                    Some(Type::Array(inner))
                },
                Some(other) => {
                    let ghost ov = other@;
                    push_error(
                        errors,
                        TypeError::Mismatch {
                            expected: string_of("Array"),
                            found: other.name(),
                            context: string_of("first argument to `push`"),
                        },
                    );
                    proof {
                        lemma_append_assoc(
                            ev0,
                            x0 + x1,
                            seq![TypeErrorView::Mismatch { expected: "Array"@, found: spec_type_name(ov), context: "first argument to `push`"@ }],
                        );
                    }
                    None
                },
                None => None,
            };
        }
        let k = match find(&self.functions, callee) {
            Some(k) => k,
            None => {
                proof {
                    lemma_signature(*self, callee@);
                }
                push_error(errors, TypeError::UndefinedFunction(callee.clone()));
                self.eval_args(args, scope, errors);
                proof {
                    lemma_append_assoc(
                        ev0,
                        seq![TypeErrorView::UndefinedFunction(callee@)],
                        each_errors(tc, rt, sm, args@, args@.len() as int),
                    );
                }
                return None;
            },
        };
        let params = &self.functions[k].1.params;
        proof {
            lemma_signature(*self, callee@);
            assert(lookup(self.functions@, callee@) == Some(self.functions@[k as int].1));
        }
        if args.len() != params.len() {
            push_error(
                errors,
                TypeError::WrongArgCount { callee: callee.clone(), expected: params.len(), found: args.len() },
            );
        }
        let ghost mid = errors@;
        let ghost ptypes = types_view(params@);
        let ghost wac = if args@.len() != params@.len() {
            seq![TypeErrorView::WrongArgCount { callee: callee@, expected: params@.len(), found: args@.len() }]
        } else {
            Seq::<TypeErrorView>::empty()
        };
        proof {
            assert(errors_view(mid) == ev0 + wac);
            lemma_append_assoc(ev0 + wac, Seq::empty(), Seq::empty());
        }
        let mut i: usize = 0;
        while i < args.len()
            invariant
                i <= args.len(),
                extends(old(errors)@, mid),
                extends(mid, errors@),
                (mid.len() == old(errors)@.len()) == (args@.len() == params@.len()),
                tc == self.tables(),
                rt == self.return_type(),
                sm == scope_map(scope@),
                ptypes == types_view(params@),
                tc_args(self.tables(), rt, sm, args@, ptypes, i as int) == (errors@.len() == mid.len()),
                errors_view(errors@) == ev0 + wac + args_errors(tc, rt, sm, callee@, args@, ptypes, i as int),
            decreases args.len() - i,
        {
            proof {
                lemma_vec_elem_decreases(*args, i as int);
            }
            let ghost before = errors@;
            let ghost evb = errors_view(errors@);
            let arg_type = self.eval_expr_type(&args[i], scope, errors);
            let ghost xi = expr_errors(tc, rt, sm, args@[i as int]);
            let ghost mi = if i < params@.len() {
                mismatch_if(
                    opt_type_view(arg_type),
                    ptypes[i as int],
                    spec_type_name(ptypes[i as int]),
                    "argument "@ + decimal_digits((i + 1) as nat) + " to `"@ + callee@ + "`"@,
                )
            } else {
                Seq::<TypeErrorView>::empty()
            };
            if let Some(found) = arg_type {
                if i < params.len() {
                    if !same_type(&found, &params[i]) {
                        let number = usize_to_string(i + 1);
                        let prefix = concat(&string_of("argument "), number.as_str());
                        let with_to = concat(&prefix, " to `");
                        let with_callee = concat(&with_to, callee.as_str());
                        let context = concat(&with_callee, "`");
                        push_error(
                            errors,
                            TypeError::Mismatch { expected: params[i].name(), found: found.name(), context },
                        );
                    }
                }
            }
            proof {
                lemma_extends_trans(mid, before, errors@);
                assert(errors_view(errors@) == evb + xi + mi);
                lemma_append_assoc(evb, xi, mi);
                lemma_append_assoc(ev0 + wac, args_errors(tc, rt, sm, callee@, args@, ptypes, i as int), xi + mi);
                lemma_append_assoc(args_errors(tc, rt, sm, callee@, args@, ptypes, i as int), xi, mi);
            }
            i = i + 1;
        }
        proof {
            lemma_extends_trans(old(errors)@, mid, errors@);
            lemma_append_assoc(ev0, wac, args_errors(tc, rt, sm, callee@, args@, ptypes, args@.len() as int));
        }
        Some(copy_type(&self.functions[k].1.return_type))
    }

    /// Checks each argument for its own errors, ignoring the types.
    fn eval_args(&self, args: &Vec<Expr>, scope: &Vec<(String, (Type, bool))>, errors: &mut Vec<TypeError>)
        ensures
            extends(old(errors)@, final(errors)@),
            errors_view(final(errors)@) == errors_view(old(errors)@) + each_errors(
                self.tables(),
                self.return_type(),
                scope_map(scope@),
                args@,
                args@.len() as int,
            ),
        decreases args, 0int,
    {
        let ghost tc = self.tables();
        let ghost rt = self.return_type();
        let ghost sm = scope_map(scope@);
        let ghost ev0 = errors_view(errors@);
        let mut i: usize = 0;
        proof {
            lemma_append_assoc(ev0, Seq::empty(), Seq::empty());
        }
        while i < args.len()
            invariant
                i <= args.len(),
                extends(old(errors)@, errors@),
                tc == self.tables(),
                rt == self.return_type(),
                sm == scope_map(scope@),
                ev0 == errors_view(old(errors)@),
                errors_view(errors@) == ev0 + each_errors(tc, rt, sm, args@, i as int),
            decreases args.len() - i,
        {
            proof {
                lemma_vec_elem_decreases(*args, i as int);
            }
            self.eval_expr_type(&args[i], scope, errors);
            proof {
                lemma_append_assoc(ev0, each_errors(tc, rt, sm, args@, i as int), expr_errors(tc, rt, sm, args@[i as int]));
            }
            i = i + 1;
        }
    }

    fn check_struct_literal(&self, name: &String, fields: &Vec<(String, Expr)>, scope: &Vec<(String, (Type, bool))>, errors: &mut Vec<TypeError>) -> (r: Option<Type>)
        ensures
            extends(old(errors)@, final(errors)@),
            tc_struct_literal(self.tables(), self.return_type(), scope_map(scope@), name@, fields@) == (
                final(errors)@.len() == old(errors)@.len(),
                opt_type_view(r),
            ),
            errors_view(final(errors)@) == errors_view(old(errors)@) + struct_literal_errors(
                self.tables(),
                self.return_type(),
                scope_map(scope@),
                name@,
                fields@,
            ),
        decreases fields, 1int,
    {
        let ghost tc = self.tables();
        let ghost rt = self.return_type();
        let ghost sm = scope_map(scope@);
        let ghost ev0 = errors_view(errors@);
        proof {
            lemma_struct_table(*self, name@);
            lemma_append_assoc(ev0, Seq::empty(), Seq::empty());
        }
        let k = match find(&self.struct_fields, name) {
            Some(k) => k,
            None => {
                push_error(errors, TypeError::UndefinedStruct(name.clone()));
                self.eval_field_values(fields, scope, errors);
                proof {
                    lemma_append_assoc(
                        ev0,
                        seq![TypeErrorView::UndefinedStruct(name@)],
                        values_errors(tc, rt, sm, fields@, fields@.len() as int),
                    );
                }
                return None;
            },
        };
        let decl_fields = &self.struct_fields[k].1;
        proof {
            assert(lookup(self.struct_fields@, name@) == Some(self.struct_fields@[k as int].1));
        }
        let ghost e0 = errors@;
        let mut seen: Vec<String> = Vec::new();
        let mut i: usize = 0;
        while i < fields.len()
            invariant
                i <= fields.len(),
                extends(e0, errors@),
                e0 == old(errors)@,
                tc == self.tables(),
                rt == self.return_type(),
                sm == scope_map(scope@),
                ev0 == errors_view(e0),
                *decl_fields == self.struct_fields@[k as int].1,
                lookup(self.struct_fields@, name@) == Some(*decl_fields),
                lookup(self.tables().struct_fields, name@) == Some(decl_fields@),
                (errors@.len() == e0.len()) == (tc_struct_fields(self.tables(), rt, sm, name@, fields@, i as int)
                    && distinct_names(fields@.take(i as int))),
                (errors@.len() == e0.len()) ==> (seen@.len() == i && forall|j: int|
                    0 <= j < i ==> (#[trigger] seen@[j])@ == fields@[j].0@),
                forall|n: Seq<char>|
                    #[trigger] names_contain(seen@, n) <==> (named_before(fields@, n, i as int) && lookup(decl_fields@, n)
                        is Some),
                errors_view(errors@) == ev0 + struct_fields_errors(tc, rt, sm, name@, fields@, i as int),
            decreases fields.len() - i,
        {
            proof {
                lemma_field_value_decreases(*fields, i as int);
            }
            let ghost before = errors@;
            let ghost evb = errors_view(errors@);
            let ghost seen0 = seen@;
            let field_name = &fields[i].0;
            let found = self.eval_expr_type(&fields[i].1, scope, errors);
            let ghost xv = expr_errors(tc, rt, sm, fields@[i as int].1);
            let ghost after_value = errors@;
            match find(decl_fields, field_name) {
                None => {
                    push_error(
                        errors,
                        TypeError::UnknownField { struct_name: name.clone(), field: field_name.clone() },
                    );
                    proof {
                        assert(tc.struct_field_type(name@, field_name@) is None);
                        lemma_append_assoc(evb, xv, seq![TypeErrorView::UnknownField { struct_name: name@, field: field_name@ }]);
                    }
                },
                Some(j) => {
                    proof {
                        assert(lookup(decl_fields@, field_name@) == Some(decl_fields@[j as int].1));
                        assert(tc.struct_field_type(name@, field_name@) == Some(decl_fields@[j as int].1@));
                    }
                    let ghost evm = errors_view(errors@);
                    if contains_name(&seen, field_name) {
                        push_error(errors, TypeError::DuplicateField(field_name.clone()));
                    } else {
                        seen.push(field_name.clone());
                    }
                    let ghost evd = errors_view(errors@);
                    let ghost xd = if named_before(fields@, field_name@, i as int) {
                        seq![TypeErrorView::DuplicateField(field_name@)]
                    } else {
                        Seq::<TypeErrorView>::empty()
                    };
                    proof {
                        lemma_append_assoc(evm, Seq::empty(), Seq::empty());
                        assert(evd == evm + xd);
                    }
                    let ghost ft = decl_fields@[j as int].1@;
                    let ghost xm = mismatch_if(
                        opt_type_view(found),
                        ft,
                        spec_type_name(ft),
                        "field `"@ + field_name@ + "` of `"@ + name@ + "`"@,
                    );
                    if let Some(found) = found {
                        if !same_type(&found, &decl_fields[j].1) {
                            let context = concat(&wrap("field `", field_name, "` of `"), name.as_str());
                            let context = concat(&context, "`");
                            push_error(
                                errors,
                                TypeError::Mismatch {
                                    expected: decl_fields[j].1.name(),
                                    found: found.name(),
                                    context,
                                },
                            );
                        }
                    }
                    proof {
                        assert(errors_view(errors@) == evd + xm);
                        lemma_append_assoc(evb, xv, xd);
                        lemma_append_assoc(evb + xv, xd, xm);
                        lemma_append_assoc(evb, xv, xd + xm);
                    }
                },
            }
            proof {
                lemma_extends_trans(e0, before, errors@);
                lemma_distinct_step(fields@, i as int);
                lemma_append_assoc(ev0, struct_fields_errors(tc, rt, sm, name@, fields@, i as int), errors_view(errors@).subrange(
                    evb.len() as int,
                    errors_view(errors@).len() as int,
                ));
                assert forall|n: Seq<char>|
                    #[trigger] names_contain(seen@, n) <==> (named_before(fields@, n, i + 1) && lookup(decl_fields@, n) is Some) by {
                    lemma_named_before_step(fields@, n, i as int);
                    if seen@.len() > seen0.len() {
                        assert(seen@ == seen0.push(fields@[i as int].0));
                        lemma_names_contain_push(seen0, fields@[i as int].0, n);
                    }
                }
                if before.len() == e0.len() {
                    assert(names_contain(seen0.take(i as int), field_name@) == exists|j: int| 0 <= j < i && fields@[j].0@ == field_name@) by {
                        assert(seen0.take(i as int) =~= seen0);
                        if names_contain(seen0.take(i as int), field_name@) {
                            let j = choose|j: int| 0 <= j < seen0.take(i as int).len() && (#[trigger] seen0.take(i as int)[j])@ == field_name@;
                            assert(seen0[j]@ == fields@[j].0@);
                        }
                        if exists|j: int| 0 <= j < i && fields@[j].0@ == field_name@ {
                            let j = choose|j: int| 0 <= j < i && fields@[j].0@ == field_name@;
                            assert(seen0.take(i as int)[j] == seen0[j]);
                        }
                    }
                }
            }
            i = i + 1;
        }
        proof {
            assert(fields@.take(i as int) =~= fields@);
        }
        let ghost e1 = errors@;
        let ghost ev1 = errors_view(errors@);
        let ghost names = self.tables().struct_field_names(name@);
        proof {
            assert(names == decl_fields@.map_values(|e: (String, Type)| e.0@));
            lemma_append_assoc(ev1, Seq::empty(), Seq::empty());
        }
        let mut d: usize = 0;
        while d < decl_fields.len()
            invariant
                d <= decl_fields.len(),
                extends(e1, errors@),
                extends(e0, e1),
                e0 == old(errors)@,
                ev1 == errors_view(e1),
                names == decl_fields@.map_values(|e: (String, Type)| e.0@),
                (e1.len() == e0.len()) ==> (seen@.len() == fields@.len() && forall|j: int|
                    0 <= j < fields@.len() ==> (#[trigger] seen@[j])@ == fields@[j].0@),
                (errors@.len() == e0.len()) == ((e1.len() == e0.len()) && forall|q: int|
                    0 <= q < d ==> given(fields@, #[trigger] names[q])),
                forall|n: Seq<char>|
                    #[trigger] names_contain(seen@, n) <==> (named_before(fields@, n, fields@.len() as int) && lookup(
                        decl_fields@,
                        n,
                    ) is Some),
                errors_view(errors@) == ev1 + missing_errors(name@, names, fields@, d as int),
            decreases decl_fields.len() - d,
        {
            let ghost before = errors@;
            let ghost evb = errors_view(errors@);
            proof {
                lemma_has_key_iff(decl_fields@, decl_fields@[d as int].0@);
                lemma_given_named_before(fields@, decl_fields@[d as int].0@);
                assert(names[d as int] == decl_fields@[d as int].0@);
            }
            if !contains_name(&seen, &decl_fields[d].0) {
                push_error(
                    errors,
                    TypeError::MissingField { struct_name: name.clone(), field: decl_fields[d].0.clone() },
                );
            }
            proof {
                lemma_extends_trans(e1, before, errors@);
                if e1.len() == e0.len() {
                    if names_contain(seen@, decl_fields@[d as int].0@) {
                        let j = choose|j: int| 0 <= j < seen@.len() && (#[trigger] seen@[j])@ == decl_fields@[d as int].0@;
                        assert(fields@[j].0@ == names[d as int]);
                    }
                    if given(fields@, names[d as int]) {
                        let i = choose|i: int| 0 <= i < fields@.len() && (#[trigger] fields@[i]).0@ == names[d as int];
                        assert(seen@[i]@ == fields@[i].0@);
                    }
                }
                lemma_append_assoc(ev1, missing_errors(name@, names, fields@, d as int), Seq::empty());
                lemma_append_assoc(
                    ev1,
                    missing_errors(name@, names, fields@, d as int),
                    seq![TypeErrorView::MissingField { struct_name: name@, field: names[d as int] }],
                );
            }
            d = d + 1;
        }
        proof {
            lemma_extends_trans(e0, e1, errors@);
            lemma_append_assoc(
                ev0,
                struct_fields_errors(tc, rt, sm, name@, fields@, fields@.len() as int),
                missing_errors(name@, names, fields@, names.len() as int),
            );
        }
        Some(Type::Struct(name.clone()))
    }

    /// Checks each field value for its own errors, ignoring the types.
    fn eval_field_values(&self, fields: &Vec<(String, Expr)>, scope: &Vec<(String, (Type, bool))>, errors: &mut Vec<TypeError>)
        ensures
            extends(old(errors)@, final(errors)@),
            errors_view(final(errors)@) == errors_view(old(errors)@) + values_errors(
                self.tables(),
                self.return_type(),
                scope_map(scope@),
                fields@,
                fields@.len() as int,
            ),
        decreases fields, 0int,
    {
        let ghost tc = self.tables();
        let ghost rt = self.return_type();
        let ghost sm = scope_map(scope@);
        let ghost ev0 = errors_view(errors@);
        let mut i: usize = 0;
        proof {
            lemma_append_assoc(ev0, Seq::empty(), Seq::empty());
        }
        while i < fields.len()
            invariant
                i <= fields.len(),
                extends(old(errors)@, errors@),
                tc == self.tables(),
                rt == self.return_type(),
                sm == scope_map(scope@),
                ev0 == errors_view(old(errors)@),
                errors_view(errors@) == ev0 + values_errors(tc, rt, sm, fields@, i as int),
            decreases fields.len() - i,
        {
            proof {
                lemma_field_value_decreases(*fields, i as int);
            }
            self.eval_expr_type(&fields[i].1, scope, errors);
            proof {
                lemma_append_assoc(ev0, values_errors(tc, rt, sm, fields@, i as int), expr_errors(tc, rt, sm, fields@[i as int].1));
            }
            i = i + 1;
        }
    }

    fn check_enum_literal(
        &self,
        enum_name: &String,
        variant: &String,
        fields: &Vec<(String, Expr)>,
        scope: &Vec<(String, (Type, bool))>,
        errors: &mut Vec<TypeError>,
    ) -> (r: Option<Type>)
        ensures
            extends(old(errors)@, final(errors)@),
            tc_enum_literal(self.tables(), self.return_type(), scope_map(scope@), enum_name@, variant@, fields@) == (
                final(errors)@.len() == old(errors)@.len(),
                opt_type_view(r),
            ),
            errors_view(final(errors)@) == errors_view(old(errors)@) + enum_literal_errors(
                self.tables(),
                self.return_type(),
                scope_map(scope@),
                enum_name@,
                variant@,
                fields@,
            ),
        decreases fields, 1int,
    {
        let ghost tc = self.tables();
        let ghost rt = self.return_type();
        let ghost sm = scope_map(scope@);
        let ghost ev0 = errors_view(errors@);
        proof {
            lemma_enum_table(*self, enum_name@);
            lemma_append_assoc(ev0, Seq::empty(), Seq::empty());
        }
        let k = match find(&self.enum_variants, enum_name) {
            Some(k) => k,
            None => {
                push_error(errors, TypeError::UndefinedEnum(enum_name.clone()));
                self.eval_field_values(fields, scope, errors);
                proof {
                    lemma_append_assoc(
                        ev0,
                        seq![TypeErrorView::UndefinedEnum(enum_name@)],
                        values_errors(tc, rt, sm, fields@, fields@.len() as int),
                    );
                }
                return None;
            },
        };
        proof {
            assert(lookup(self.enum_variants@, enum_name@) == Some(self.enum_variants@[k as int].1));
            lemma_variant_table(self.enum_variants@[k as int].1@, variant@);
        }
        let j = match find(&self.enum_variants[k].1, variant) {
            Some(j) => j,
            None => {
                push_error(
                    errors,
                    TypeError::UndefinedVariant { enum_name: enum_name.clone(), variant: variant.clone() },
                );
                self.eval_field_values(fields, scope, errors);
                proof {
                    lemma_append_assoc(
                        ev0,
                        seq![TypeErrorView::UndefinedVariant { enum_name: enum_name@, variant: variant@ }],
                        values_errors(tc, rt, sm, fields@, fields@.len() as int),
                    );
                }
                return None;
            },
        };
        let decl_fields = &self.enum_variants[k].1[j].1;
        let ghost dfs = fields_type_view(decl_fields@);
        let ghost path = enum_name@ + "::"@ + variant@;
        proof {
            assert(lookup(self.enum_variants@[k as int].1@, variant@) == Some(*decl_fields));
            assert(self.tables().variant_fields(enum_name@, variant@) == Some(dfs));
        }
        let ghost e0 = errors@;
        let mut seen: Vec<String> = Vec::new();
        let mut i: usize = 0;
        while i < fields.len()
            invariant
                i <= fields.len(),
                extends(e0, errors@),
                e0 == old(errors)@,
                tc == self.tables(),
                rt == self.return_type(),
                sm == scope_map(scope@),
                ev0 == errors_view(e0),
                path == enum_name@ + "::"@ + variant@,
                dfs == fields_type_view(decl_fields@),
                (errors@.len() == e0.len()) == (tc_variant_fields(self.tables(), rt, sm, dfs, fields@, i as int)
                    && distinct_names(fields@.take(i as int))),
                (errors@.len() == e0.len()) ==> (seen@.len() == i && forall|j: int|
                    0 <= j < i ==> (#[trigger] seen@[j])@ == fields@[j].0@),
                forall|n: Seq<char>|
                    #[trigger] names_contain(seen@, n) <==> (named_before(fields@, n, i as int) && first_field_type(dfs, n)
                        is Some),
                errors_view(errors@) == ev0 + variant_fields_errors(tc, rt, sm, path, dfs, fields@, i as int),
            decreases fields.len() - i,
        {
            proof {
                lemma_field_value_decreases(*fields, i as int);
            }
            let ghost before = errors@;
            let ghost evb = errors_view(errors@);
            let ghost seen0 = seen@;
            let field_name = &fields[i].0;
            let found = self.eval_expr_type(&fields[i].1, scope, errors);
            let ghost xv = expr_errors(tc, rt, sm, fields@[i as int].1);
            match first_index(decl_fields, field_name) {
                None => {
                    push_error(
                        errors,
                        TypeError::UnknownField {
                            struct_name: join_path(enum_name, variant),
                            field: field_name.clone(),
                        },
                    );
                    proof {
                        lemma_append_assoc(evb, xv, seq![TypeErrorView::UnknownField { struct_name: path, field: field_name@ }]);
                    }
                },
                Some(d) => {
                    let ghost evm = errors_view(errors@);
                    if contains_name(&seen, field_name) {
                        push_error(errors, TypeError::DuplicateField(field_name.clone()));
                    } else {
                        seen.push(field_name.clone());
                    }
                    let ghost evd = errors_view(errors@);
                    let ghost xd = if named_before(fields@, field_name@, i as int) {
                        seq![TypeErrorView::DuplicateField(field_name@)]
                    } else {
                        Seq::<TypeErrorView>::empty()
                    };
                    proof {
                        lemma_append_assoc(evm, Seq::empty(), Seq::empty());
                        assert(evd == evm + xd);
                    }
                    let ghost ft = decl_fields@[d as int].1@;
                    let ghost xm = mismatch_if(
                        opt_type_view(found),
                        ft,
                        spec_type_name(ft),
                        "field `"@ + field_name@ + "` of `"@ + path + "`"@,
                    );
                    if let Some(found) = found {
                        if !same_type(&found, &decl_fields[d].1) {
                            let path_text = join_path(enum_name, variant);
                            let context = concat(&wrap("field `", field_name, "` of `"), path_text.as_str());
                            let context = concat(&context, "`");
                            push_error(
                                errors,
                                TypeError::Mismatch {
                                    expected: decl_fields[d].1.name(),
                                    found: found.name(),
                                    context,
                                },
                            );
                        }
                    }
                    proof {
                        assert(errors_view(errors@) == evd + xm);
                        lemma_append_assoc(evb, xv, xd);
                        lemma_append_assoc(evb + xv, xd, xm);
                        lemma_append_assoc(evb, xv, xd + xm);
                    }
                },
            }
            proof {
                lemma_extends_trans(e0, before, errors@);
                lemma_distinct_step(fields@, i as int);
                lemma_append_assoc(ev0, variant_fields_errors(tc, rt, sm, path, dfs, fields@, i as int), errors_view(errors@).subrange(
                    evb.len() as int,
                    errors_view(errors@).len() as int,
                ));
                assert forall|n: Seq<char>|
                    #[trigger] names_contain(seen@, n) <==> (named_before(fields@, n, i + 1) && first_field_type(dfs, n) is Some) by {
                    lemma_named_before_step(fields@, n, i as int);
                    if seen@.len() > seen0.len() {
                        assert(seen@ == seen0.push(fields@[i as int].0));
                        lemma_names_contain_push(seen0, fields@[i as int].0, n);
                    }
                }
                if before.len() == e0.len() {
                    assert(names_contain(seen0.take(i as int), field_name@) == exists|j: int| 0 <= j < i && fields@[j].0@ == field_name@) by {
                        assert(seen0.take(i as int) =~= seen0);
                        if names_contain(seen0.take(i as int), field_name@) {
                            let j = choose|j: int| 0 <= j < seen0.take(i as int).len() && (#[trigger] seen0.take(i as int)[j])@ == field_name@;
                            assert(seen0[j]@ == fields@[j].0@);
                        }
                        if exists|j: int| 0 <= j < i && fields@[j].0@ == field_name@ {
                            let j = choose|j: int| 0 <= j < i && fields@[j].0@ == field_name@;
                            assert(seen0.take(i as int)[j] == seen0[j]);
                        }
                    }
                }
            }
            i = i + 1;
        }
        proof {
            assert(fields@.take(i as int) =~= fields@);
        }
        let ghost e1 = errors@;
        let ghost ev1 = errors_view(errors@);
        let ghost names = field_names(dfs);
        proof {
            lemma_append_assoc(ev1, Seq::empty(), Seq::empty());
        }
        let mut d: usize = 0;
        while d < decl_fields.len()
            invariant
                d <= decl_fields.len(),
                extends(e1, errors@),
                extends(e0, e1),
                e0 == old(errors)@,
                ev1 == errors_view(e1),
                path == enum_name@ + "::"@ + variant@,
                dfs == fields_type_view(decl_fields@),
                names == field_names(dfs),
                (e1.len() == e0.len()) ==> (seen@.len() == fields@.len() && forall|j: int|
                    0 <= j < fields@.len() ==> (#[trigger] seen@[j])@ == fields@[j].0@),
                (errors@.len() == e0.len()) == ((e1.len() == e0.len()) && forall|q: int|
                    0 <= q < d ==> #[trigger] given(fields@, decl_fields@[q].0@)),
                forall|n: Seq<char>|
                    #[trigger] names_contain(seen@, n) <==> (named_before(fields@, n, fields@.len() as int) && first_field_type(
                        dfs,
                        n,
                    ) is Some),
                errors_view(errors@) == ev1 + missing_errors(path, names, fields@, d as int),
            decreases decl_fields.len() - d,
        {
            let ghost before = errors@;
            proof {
                assert(dfs[d as int].0 == decl_fields@[d as int].0@);
                lemma_first_field_type_member(dfs, d as int);
                lemma_given_named_before(fields@, decl_fields@[d as int].0@);
                assert(names[d as int] == decl_fields@[d as int].0@);
            }
            if !contains_name(&seen, &decl_fields[d].0) {
                push_error(
                    errors,
                    TypeError::MissingField {
                        struct_name: join_path(enum_name, variant),
                        field: decl_fields[d].0.clone(),
                    },
                );
            }
            proof {
                lemma_extends_trans(e1, before, errors@);
                if e1.len() == e0.len() {
                    if names_contain(seen@, decl_fields@[d as int].0@) {
                        let j = choose|j: int| 0 <= j < seen@.len() && (#[trigger] seen@[j])@ == decl_fields@[d as int].0@;
                        assert(fields@[j].0@ == decl_fields@[d as int].0@);
                    }
                    if given(fields@, decl_fields@[d as int].0@) {
                        let i = choose|i: int| 0 <= i < fields@.len() && (#[trigger] fields@[i]).0@ == decl_fields@[d as int].0@;
                        assert(seen@[i]@ == fields@[i].0@);
                    }
                }
                lemma_append_assoc(ev1, missing_errors(path, names, fields@, d as int), Seq::empty());
                lemma_append_assoc(
                    ev1,
                    missing_errors(path, names, fields@, d as int),
                    seq![TypeErrorView::MissingField { struct_name: path, field: names[d as int] }],
                );
            }
            d = d + 1;
        }
        proof {
            lemma_extends_trans(e0, e1, errors@);
            assert(names.len() == decl_fields@.len());
            assert forall|q: int| 0 <= q < names.len() implies #[trigger] names[q] == decl_fields@[q].0@ by {}
            assert(e1.len() == e0.len() <==> tc_variant_fields(self.tables(), rt, sm, dfs, fields@, fields@.len() as int)
                && distinct_names(fields@));
            assert(d == decl_fields@.len());
            if errors@.len() == e0.len() {
                assert forall|q: int| 0 <= q < names.len() implies given(fields@, #[trigger] names[q]) by {
                    assert(given(fields@, decl_fields@[q].0@));
                }
            }
            if e1.len() == e0.len() && gives_all(fields@, names) {
                assert forall|q: int| 0 <= q < d implies #[trigger] given(fields@, decl_fields@[q].0@) by {
                    assert(names[q] == decl_fields@[q].0@);
                }
            }
            assert((errors@.len() == e0.len()) == (e1.len() == e0.len() && gives_all(fields@, names)));
            assert(self.tables().enum_declared(enum_name@));
            assert(tc_enum_literal(self.tables(), rt, sm, enum_name@, variant@, fields@).0 == (errors@.len() == e0.len()));
            lemma_append_assoc(
                ev0,
                variant_fields_errors(tc, rt, sm, path, dfs, fields@, fields@.len() as int),
                missing_errors(path, names, fields@, dfs.len() as int),
            );
        }
        Some(Type::Enum(enum_name.clone()))
    }

    /// `<inner>?`: the inner expression must have an enum type shaped
    /// `Ok(value: T)` / `Err(error: E)`, and the current function must
    /// return that same enum; the result is `T`.
    fn check_try(&self, inner: &Expr, scope: &Vec<(String, (Type, bool))>, errors: &mut Vec<TypeError>) -> (r: Option<Type>)
        ensures
            extends(old(errors)@, final(errors)@),
            tc_expr(self.tables(), self.return_type(), scope_map(scope@), Expr::Try(Box::new(*inner))) == (
                final(errors)@.len() == old(errors)@.len(),
                opt_type_view(r),
            ),
            errors_view(final(errors)@) == errors_view(old(errors)@) + expr_errors(
                self.tables(),
                self.return_type(),
                scope_map(scope@),
                Expr::Try(Box::new(*inner)),
            ),
        decreases inner, 3int,
    {
        proof {
            reveal_strlit("Ok");
            reveal_strlit("Err");
            reveal_strlit("value");
            reveal_strlit("error");
        }
        let inner_type = match self.eval_expr_type(inner, scope, errors) {
            Some(t) => t,
            None => {
                return None;
            },
        };
        let enum_name = match &inner_type {
            Type::Enum(n) => n,
            _ => {
                let n = inner_type.name();
                let msg = concat(&string_of("`?` requires an enum type, found "), n.as_str());
                push_error(errors, TypeError::NotResultShaped(msg));
                return None;
            },
        };
        proof {
            lemma_enum_table(*self, enum_name@);
        }
        let k = match find(&self.enum_variants, enum_name) {
            Some(k) => k,
            None => {
                let msg = wrap("enum `", enum_name, "` is not Ok/Err-shaped (need Ok(value: T), Err(error: E))");
                push_error(errors, TypeError::NotResultShaped(msg));
                return None;
            },
        };
        let variants = &self.enum_variants[k].1;
        proof {
            assert(lookup(self.enum_variants@, enum_name@) == Some(*variants));
            lemma_variant_table(variants@, "Ok"@);
            lemma_variant_table(variants@, "Err"@);
        }
        let ok_name = string_of("Ok");
        let err_name = string_of("Err");
        let ok = match find(variants, &ok_name) {
            Some(o) => o,
            None => {
                let msg = wrap("enum `", enum_name, "` is not Ok/Err-shaped (need Ok(value: T), Err(error: E))");
                push_error(errors, TypeError::NotResultShaped(msg));
                return None;
            },
        };
        let err = match find(variants, &err_name) {
            Some(e) => e,
            None => {
                let msg = wrap("enum `", enum_name, "` is not Ok/Err-shaped (need Ok(value: T), Err(error: E))");
                push_error(errors, TypeError::NotResultShaped(msg));
                return None;
            },
        };
        let ok_fields = &variants[ok].1;
        let err_fields = &variants[err].1;
        proof {
            assert(lookup(variants@, "Ok"@) == Some(*ok_fields));
            assert(lookup(variants@, "Err"@) == Some(*err_fields));
        }
        if ok_fields.len() != 1 || !string_is(&ok_fields[0].0, "value") || err_fields.len() != 1
            || !string_is(&err_fields[0].0, "error") {
            let msg = wrap("enum `", enum_name, "` is not Ok/Err-shaped (need Ok(value: T), Err(error: E))");
            push_error(errors, TypeError::NotResultShaped(msg));
            return None;
        }
        if !same_type(&self.current_return_type, &inner_type) {
            push_error(
                errors,
                TypeError::Mismatch {
                    expected: self.current_return_type.name(),
                    found: inner_type.name(),
                    context: string_of(
                        "`?` requires the current function to return the same Result-shaped enum",
                    ),
                },
            );
        }
        Some(copy_type(&ok_fields[0].1))
    }
}

/// Number of `variants` that no arm names.
pub open spec fn uncovered_count<V>(variants: Seq<(String, V)>, arms: Seq<MatchArm>) -> int
    decreases variants.len(),
{
    if variants.len() == 0 {
        0
    } else {
        uncovered_count(variants.drop_last(), arms) + if covers_variant(arms, variants.last().0@) {
            0int
        } else {
            1int
        }
    }
}

/// Only the keys of a variant table count.
proof fn lemma_uncovered_count_map<V, W>(v: Seq<(String, V)>, f: spec_fn((String, V)) -> (String, W), arms: Seq<MatchArm>)
    requires
        forall|e: (String, V)| #[trigger] f(e).0 == e.0,
    ensures
        uncovered_count(v.map_values(f), arms) == uncovered_count(v, arms),
    decreases v.len(),
{
    if v.len() > 0 {
        assert(v.map_values(f).drop_last() =~= v.drop_last().map_values(f));
        assert(v.map_values(f).last() == f(v.last()));
        lemma_uncovered_count_map(v.drop_last(), f, arms);
    }
}

proof fn lemma_uncovered_count_push<V>(
    variants: Seq<(String, V)>,
    v: (String, V),
    arms: Seq<MatchArm>,
)
    ensures
        uncovered_count(variants.push(v), arms) == uncovered_count(variants, arms) + if covers_variant(
            arms,
            v.0@,
        ) {
            0int
        } else {
            1int
        },
{
    assert(variants.push(v).drop_last() =~= variants);
}

proof fn lemma_vec_elem_decreases<T>(v: Vec<T>, i: int)
    requires
        0 <= i < v@.len(),
    ensures
        decreases_to!(v => v@[i]),
{
    assert(decreases_to!(v => v@));
    assert(decreases_to!(v@ => v@[i]));
}

proof fn lemma_field_value_decreases(v: Vec<(String, Expr)>, i: int)
    requires
        0 <= i < v@.len(),
    ensures
        decreases_to!(v => v@[i].1),
{
    assert(decreases_to!(v => v@));
    assert(decreases_to!(v@ => v@[i]));
    assert(decreases_to!(v@[i] => v@[i].1));
}

/// Appends one error of the kinds found while reading declarations and
/// bodies.
fn push_error(errors: &mut Vec<TypeError>, e: TypeError)
    requires
        !(e is NoMainFunction),
    ensures
        final(errors)@ == old(errors)@.push(e),
        extends(old(errors)@, final(errors)@),
        errors_view(final(errors)@) == errors_view(old(errors)@).push(e@),
{
    errors.push(e);
    proof {
        assert(errors_view(errors@) =~= errors_view(old(errors)@).push(e@));
    }
}

/// Appending two lists of reports in turn appends their concatenation.
proof fn lemma_append_assoc(a: Seq<TypeErrorView>, x: Seq<TypeErrorView>, y: Seq<TypeErrorView>)
    ensures
        a + x + y == a + (x + y),
        a + Seq::<TypeErrorView>::empty() == a,
{
    assert(a + x + y =~= a + (x + y));
    assert(a + Seq::<TypeErrorView>::empty() =~= a);
}

/// Whether some name in `names` is `n`.
fn contains_name(names: &Vec<String>, n: &String) -> (r: bool)
    ensures
        r == names_contain(names@, n@),
{
    let mut i: usize = 0;
    while i < names.len()
        invariant
            i <= names.len(),
            forall|j: int| 0 <= j < i ==> (#[trigger] names@[j])@ != n@,
        decreases names.len() - i,
    {
        if names[i] == *n {
            return true;
        }
        i = i + 1;
    }
    false
}

/// Index of the first entry with key `key`.
fn first_index(v: &Vec<(String, Type)>, key: &String) -> (r: Option<usize>)
    ensures
        r matches Some(i) ==> i < v@.len() && v@[i as int].0@ == key@ && first_field_type(
            fields_type_view(v@),
            key@,
        ) == Some(v@[i as int].1@),
        r is None ==> first_field_type(fields_type_view(v@), key@) is None,
{
    let mut i: usize = 0;
    while i < v.len()
        invariant
            i <= v.len(),
            forall|j: int| 0 <= j < i ==> (#[trigger] v@[j]).0@ != key@,
        decreases v.len() - i,
    {
        if v[i].0 == *key {
            proof {
                lemma_first_field_type_is(fields_type_view(v@), key@, Some(i as int));
            }
            return Some(i);
        }
        i = i + 1;
    }
    proof {
        lemma_first_field_type_is(fields_type_view(v@), key@, None);
    }
    None
}

/// `first_field_type` is the type at the first index carrying the name.
proof fn lemma_first_field_type_is(fs: Seq<(Seq<char>, TypeView)>, name: Seq<char>, r: Option<int>)
    requires
        match r {
            Some(i) => 0 <= i < fs.len() && fs[i].0 == name && forall|j: int| 0 <= j < i ==> (#[trigger] fs[j]).0 != name,
            None => forall|j: int| 0 <= j < fs.len() ==> (#[trigger] fs[j]).0 != name,
        },
    ensures
        first_field_type(fs, name) == match r {
            Some(i) => Some(fs[i].1),
            None => None,
        },
    decreases fs.len(),
{
    if fs.len() > 0 {
        let w = fs.drop_last();
        assert forall|j: int| 0 <= j < w.len() implies #[trigger] w[j] == fs[j] by {}
        match r {
            Some(i) => {
                if i < fs.len() - 1 {
                    assert(w[i] == fs[i]);
                    lemma_first_field_type_is(w, name, r);
                } else {
                    assert forall|j: int| 0 <= j < w.len() implies (#[trigger] w[j]).0 != name by {
                        assert(w[j] == fs[j]);
                    }
                    lemma_first_field_type_is(w, name, None);
                }
            },
            None => {
                assert forall|j: int| 0 <= j < w.len() implies (#[trigger] w[j]).0 != name by {
                    assert(w[j] == fs[j]);
                }
                lemma_first_field_type_is(w, name, None);
                assert(fs[fs.len() - 1].0 != name);
            },
        }
    }
}

/// Whether some arm's pattern names variant `v`.
fn arm_covers(arms: &Vec<MatchArm>, v: &String) -> (r: bool)
    ensures
        r == covers_variant(arms@, v@),
{
    let mut i: usize = 0;
    while i < arms.len()
        invariant
            i <= arms.len(),
            forall|j: int| 0 <= j < i ==> !((#[trigger] arms@[j]).pattern matches Pattern::EnumVariant {
                variant,
                ..
            } && variant@ == v@),
        decreases arms.len() - i,
    {
        if let Pattern::EnumVariant { variant, .. } = &arms[i].pattern {
            if *variant == *v {
                return true;
            }
        }
        i = i + 1;
    }
    false
}

/// Whether some arm's pattern is the Bool literal `b`.
fn arm_is_bool(arms: &Vec<MatchArm>, b: bool) -> (r: bool)
    ensures
        r == covers_bool(arms@, b),
{
    let mut i: usize = 0;
    while i < arms.len()
        invariant
            i <= arms.len(),
            forall|j: int| 0 <= j < i ==> (#[trigger] arms@[j]).pattern != Pattern::BoolLiteral(b),
        decreases arms.len() - i,
    {
        if let Pattern::BoolLiteral(x) = &arms[i].pattern {
            if *x == b {
                return true;
            }
        }
        i = i + 1;
    }
    false
}

/// `a::b`
fn join_path(a: &String, b: &String) -> (r: String)
    ensures
        r@ == a@ + "::"@ + b@,
{
    let with_sep = concat(a, "::");
    concat(&with_sep, b.as_str())
}

fn binary_mismatch(op: &str, l: &Type, r: &Type) -> (e: TypeError)
    ensures
        e is Mismatch,
        e->Mismatch_expected@ == "matching operand types for `"@ + op@ + "`"@,
        e->Mismatch_found@ == spec_type_name(l@) + " and "@ + spec_type_name(r@),
        e->Mismatch_context@ == "binary `"@ + op@ + "`"@,
{
    let expected = concat(&string_of("matching operand types for `"), op);
    let expected = concat(&expected, "`");
    let found = concat(&l.name(), " and ");
    let found = concat(&found, r.name().as_str());
    let context = concat(&string_of("binary `"), op);
    let context = concat(&context, "`");
    TypeError::Mismatch { expected, found, context }
}

/// How an operator is written.
fn op_symbol(op: BinaryOp) -> (r: &'static str)
    ensures
        r@ == spec_op_symbol(op),
{
    match op {
        BinaryOp::Add => "+",
        BinaryOp::Sub => "-",
        BinaryOp::Mul => "*",
        BinaryOp::Div => "/",
        BinaryOp::Eq => "==",
        BinaryOp::NotEq => "!=",
        BinaryOp::Lt => "<",
        BinaryOp::Gt => ">",
        BinaryOp::Le => "<=",
        BinaryOp::Ge => ">=",
    }
}

pub open spec fn spec_op_symbol(op: BinaryOp) -> Seq<char> {
    match op {
        BinaryOp::Add => "+"@,
        BinaryOp::Sub => "-"@,
        BinaryOp::Mul => "*"@,
        BinaryOp::Div => "/"@,
        BinaryOp::Eq => "=="@,
        BinaryOp::NotEq => "!="@,
        BinaryOp::Lt => "<"@,
        BinaryOp::Gt => ">"@,
        BinaryOp::Le => "<="@,
        BinaryOp::Ge => ">="@,
    }
}

proof fn lemma_scope_insert(
    old_scope: Seq<(String, (Type, bool))>,
    new_scope: Seq<(String, (Type, bool))>,
    key: String,
    val: (Type, bool),
)
    requires
        lookup(new_scope, key@) == Some(val),
        forall|k: Seq<char>| k != key@ ==> lookup(new_scope, k) == lookup(old_scope, k),
    ensures
        scope_map(new_scope) == scope_map(old_scope).insert(key@, (val.0@, val.1)),
{
    assert forall|k: Seq<char>| #[trigger] has_key(new_scope, k) == (has_key(old_scope, k) || k == key@) by {
        if k != key@ {
            assert(lookup(new_scope, k) == lookup(old_scope, k));
        }
    }
    assert(scope_map(new_scope) =~= scope_map(old_scope).insert(key@, (val.0@, val.1)));
}

/// The signature recorded for `n` is the last entry for `n`, viewed.
proof fn lemma_signature(tc: TypeChecker, n: Seq<char>)
    ensures
        tc.tables().signature(n) == match lookup(tc.functions@, n) {
            Some(sig) => Some((types_view(sig.params@), sig.return_type@)),
            None => None,
        },
{
    lemma_lookup_map(tc.functions@, sig_entry_view(), n);
}

/// `fs[..i+1]` has distinct names exactly when `fs[..i]` has and `fs[i]`'s
/// name is not among them.
/// A field among the first `i + 1` has name `n` when one among the first
/// `i` has, or the `i`th has.
proof fn lemma_named_before_step(fs: Seq<(String, Expr)>, n: Seq<char>, i: int)
    requires
        0 <= i < fs.len(),
    ensures
        named_before(fs, n, i + 1) == (named_before(fs, n, i) || fs[i].0@ == n),
{
    if named_before(fs, n, i + 1) && fs[i].0@ != n {
        let j = choose|j: int| 0 <= j < i + 1 && (#[trigger] fs[j]).0@ == n;
        assert(j < i);
    }
    if fs[i].0@ == n {
        assert(fs[i].0@ == n);
    }
}

proof fn lemma_given_named_before(fs: Seq<(String, Expr)>, n: Seq<char>)
    ensures
        given(fs, n) == named_before(fs, n, fs.len() as int),
{
}

proof fn lemma_names_contain_push(v: Seq<String>, x: String, n: Seq<char>)
    ensures
        names_contain(v.push(x), n) == (names_contain(v, n) || x@ == n),
{
    if names_contain(v.push(x), n) && x@ != n {
        let j = choose|j: int| 0 <= j < v.push(x).len() && (#[trigger] v.push(x)[j])@ == n;
        assert(v.push(x)[j] == v[j]);
    }
    if names_contain(v, n) {
        let j = choose|j: int| 0 <= j < v.len() && (#[trigger] v[j])@ == n;
        assert(v.push(x)[j] == v[j]);
    }
    if x@ == n {
        assert(v.push(x)[v.len() as int] == x);
    }
}

/// A name of one of `fs` has a first field type.
proof fn lemma_first_field_type_member(fs: Seq<(Seq<char>, TypeView)>, d: int)
    requires
        0 <= d < fs.len(),
    ensures
        first_field_type(fs, fs[d].0) is Some,
    decreases fs.len(),
{
    if d < fs.len() - 1 {
        lemma_first_field_type_member(fs.drop_last(), d);
        assert(fs.drop_last()[d] == fs[d]);
    }
}

proof fn lemma_distinct_step(fs: Seq<(String, Expr)>, i: int)
    requires
        0 <= i < fs.len(),
    ensures
        distinct_names(fs.take(i + 1)) == (distinct_names(fs.take(i)) && !exists|j: int|
            0 <= j < i && fs[j].0@ == fs[i].0@),
{
    let a = fs.take(i);
    let b = fs.take(i + 1);
    assert forall|j: int| 0 <= j < i implies #[trigger] a[j] == b[j] && b[j] == fs[j] by {}
    assert(b[i] == fs[i]);
    if distinct_names(b) {
        assert forall|x: int, y: int| 0 <= x < y < a.len() implies (#[trigger] a[x]).0@ != (#[trigger] a[y]).0@ by {
            assert(b[x] == a[x] && b[y] == a[y]);
        }
        if exists|j: int| 0 <= j < i && fs[j].0@ == fs[i].0@ {
            let j = choose|j: int| 0 <= j < i && fs[j].0@ == fs[i].0@;
            assert(b[j].0@ == b[i].0@);
        }
    }
    if distinct_names(a) && !exists|j: int| 0 <= j < i && fs[j].0@ == fs[i].0@ {
        assert forall|x: int, y: int| 0 <= x < y < b.len() implies (#[trigger] b[x]).0@ != (#[trigger] b[y]).0@ by {
            if y < i {
                assert(b[x] == a[x] && b[y] == a[y]);
            } else {
                assert(b[x] == fs[x]);
            }
        }
    }
}

/// An ordering (`<`, `>`, `<=`, `>=`) of two `Int` operands has type
/// `Bool` and adds no error of its own, so it is accepted as the
/// condition of an `if` or `while`: the condition's errors are those of
/// its operands.
pub proof fn lemma_int_ordering_is_bool(tc: TcTables, rt: TypeView, sc: ScopeMap, l: Expr, op: BinaryOp, r: Expr)
    requires
        op is Lt || op is Gt || op is Le || op is Ge,
        tc_expr(tc, rt, sc, l).1 == Some(TypeView::Int),
        tc_expr(tc, rt, sc, r).1 == Some(TypeView::Int),
    ensures
        tc_expr(tc, rt, sc, Expr::Binary { left: Box::new(l), op, right: Box::new(r) }) == (
            tc_expr(tc, rt, sc, l).0 && tc_expr(tc, rt, sc, r).0,
            Some(TypeView::Bool),
        ),
        expr_errors(tc, rt, sc, Expr::Binary { left: Box::new(l), op, right: Box::new(r) }) == expr_errors(
            tc,
            rt,
            sc,
            l,
        ) + expr_errors(tc, rt, sc, r),
        cond_errors(tc, rt, sc, Expr::Binary { left: Box::new(l), op, right: Box::new(r) }) == expr_errors(
            tc,
            rt,
            sc,
            l,
        ) + expr_errors(tc, rt, sc, r),
{
    let e = Expr::Binary { left: Box::new(l), op, right: Box::new(r) };
    assert(binary_errors(op, Some(TypeView::Int), Some(TypeView::Int)) =~= Seq::<TypeErrorView>::empty());
    assert(expr_errors(tc, rt, sc, e) =~= expr_errors(tc, rt, sc, l) + expr_errors(tc, rt, sc, r));
    assert(mismatch_if(Some(TypeView::Bool), TypeView::Bool, "Bool"@, "condition"@) =~= Seq::<TypeErrorView>::empty());
    assert(cond_errors(tc, rt, sc, e) =~= expr_errors(tc, rt, sc, e));
}

/// The type of an operator's result, given its operands' types: `+`,
/// `-`, `*`, `/` of two `Int`s is an `Int`; `+` of two `String`s is a
/// `String`; `==` and `!=` of two operands of one type are a `Bool`; an
/// `Int` and a `String` together fit no operator, which is reported as
/// one mismatch and gives no type.
pub proof fn lemma_operator_types(tc: TcTables, rt: TypeView, sc: ScopeMap, l: Expr, op: BinaryOp, r: Expr)
    ensures
        ({
            let e = Expr::Binary { left: Box::new(l), op, right: Box::new(r) };
            let tl = tc_expr(tc, rt, sc, l).1;
            let tr = tc_expr(tc, rt, sc, r).1;
            &&& (tl == Some(TypeView::Int) && tr == Some(TypeView::Int) && (op is Add || op is Sub || op is Mul
                || op is Div)) ==> tc_expr(tc, rt, sc, e).1 == Some(TypeView::Int)
            &&& (tl == Some(TypeView::String) && tr == Some(TypeView::String) && op is Add) ==> tc_expr(
                tc,
                rt,
                sc,
                e,
            ).1 == Some(TypeView::String)
            &&& (tl is Some && tl == tr && (op is Eq || op is NotEq)) ==> tc_expr(tc, rt, sc, e).1 == Some(
                TypeView::Bool,
            )
            &&& (tl == Some(TypeView::Int) && tr == Some(TypeView::String)) ==> (tc_expr(tc, rt, sc, e) == (
                false,
                None::<TypeView>,
            ) && expr_errors(tc, rt, sc, e).len() == expr_errors(tc, rt, sc, l).len() + expr_errors(
                tc,
                rt,
                sc,
                r,
            ).len() + 1)
        }),
{
}

} // verus!
