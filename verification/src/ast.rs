//! Syntax tree of a Kairo source file.
use vstd::prelude::*;

verus! {

#[derive(Debug, PartialEq, Eq)]
pub struct Program {
    /// `module Name` header, if the file has one.
    pub module_name: Option<String>,
    /// `import Name` lines, in source order.
    pub imports: Vec<String>,
    pub structs: Vec<StructDecl>,
    pub enums: Vec<EnumDecl>,
    pub functions: Vec<FunctionDecl>,
}

#[derive(Debug, Clone, PartialEq, Eq)]
pub struct StructDecl {
    pub name: String,
    pub fields: Vec<Param>,
    pub is_exported: bool,
}

#[derive(Debug, Clone, PartialEq, Eq)]
pub struct EnumDecl {
    pub name: String,
    pub variants: Vec<EnumVariant>,
    pub is_exported: bool,
}

#[derive(Debug, Clone, PartialEq, Eq)]
pub struct EnumVariant {
    pub name: String,
    /// Empty for a unit variant (`Pending`); populated for a data
    /// variant (`Failed(reason: String)`).
    pub fields: Vec<Param>,
}

#[derive(Debug, PartialEq, Eq)]
pub struct FunctionDecl {
    pub name: String,
    pub params: Vec<Param>,
    /// `None` means the function returns Unit.
    pub return_type: Option<String>,
    pub body: Vec<Stmt>,
    pub is_exported: bool,
}

#[derive(Debug, Clone, PartialEq, Eq)]
pub struct Param {
    pub name: String,
    pub ty: String,
}

#[derive(Debug, PartialEq, Eq)]
pub enum Stmt {
    /// `name := <expr>` (is_mutable: false) or `mut name := <expr>` (true)
    VariableDecl { name: String, value: Expr, is_mutable: bool },
    /// `name = <expr>` — reassigns an existing mutable variable
    Assign { name: String, value: Expr },
    /// `name[<expr>] = <expr>` — replaces one element of a mutable array
    IndexAssign { name: String, index: Expr, value: Expr },
    /// An expression evaluated for its side effect, e.g. `print(...)`
    Expr(Expr),
    /// `if <cond> { ... }` with an optional `else { ... }`
    If { condition: Expr, then_branch: Vec<Stmt>, else_branch: Option<Vec<Stmt>> },
    /// `while <cond> { ... }`
    While { condition: Expr, body: Vec<Stmt> },
    /// `return <expr>` or bare `return`
    Return(Option<Expr>),
    /// `match <scrutinee> { <pattern> => { ... } ... }`
    Match { scrutinee: Expr, arms: Vec<MatchArm> },
}

#[derive(Debug, PartialEq, Eq)]
pub struct MatchArm {
    pub pattern: Pattern,
    pub body: Vec<Stmt>,
}

#[derive(Debug, Clone, PartialEq, Eq)]
pub enum Pattern {
    /// `_`
    Wildcard,
    IntLiteral(i64),
    BoolLiteral(bool),
    StringLiteral(String),
    /// `Enum::Variant` or `Enum::Variant(a, b)`; bindings are positional.
    EnumVariant { enum_name: String, variant: String, bindings: Vec<String> },
}

#[derive(Debug, PartialEq, Eq)]
pub enum Expr {
    StringLiteral(String),
    IntLiteral(i64),
    BoolLiteral(bool),
    Identifier(String),
    Binary { left: Box<Expr>, op: BinaryOp, right: Box<Expr> },
    Call { callee: String, args: Vec<Expr> },
    /// `Name { field: <expr>, ... }`
    StructLiteral { name: String, fields: Vec<(String, Expr)> },
    /// `EnumName::Variant` or `EnumName::Variant(field: <expr>, ...)`
    EnumLiteral { enum_name: String, variant: String, fields: Vec<(String, Expr)> },
    /// `<expr>.field`
    FieldAccess { object: Box<Expr>, field: String },
    /// `[<expr>, ...]`
    ArrayLiteral(Vec<Expr>),
    /// `<expr>[<expr>]`
    Index { array: Box<Expr>, index: Box<Expr> },
    /// `<expr>?`
    Try(Box<Expr>),
}

#[derive(Debug, Clone, Copy, PartialEq, Eq)]
pub enum BinaryOp {
    Add,
    Sub,
    Mul,
    Div,
    Eq,
    NotEq,
    Lt,
    Gt,
    Le,
    Ge,
}

/// A copy of a parameter list.
pub fn copy_params(ps: &Vec<Param>) -> (r: Vec<Param>)
    ensures
        r@ == ps@,
{
    let mut out: Vec<Param> = Vec::new();
    let mut i: usize = 0;
    while i < ps.len()
        invariant
            i <= ps.len(),
            out@ == ps@.subrange(0, i as int),
        decreases ps.len() - i,
    {
        out.push(Param { name: ps[i].name.clone(), ty: ps[i].ty.clone() });
        proof {
            assert(out@ =~= ps@.subrange(0, i + 1));
        }
        i = i + 1;
    }
    proof {
        assert(out@ =~= ps@);
    }
    out
}

/// `b` declares the same struct as `a`: same name, fields and export.
pub open spec fn same_struct_decl(a: StructDecl, b: StructDecl) -> bool {
    a.name == b.name && a.fields@ == b.fields@ && a.is_exported == b.is_exported
}

/// `b` declares the same variant as `a`.
pub open spec fn same_variant(a: EnumVariant, b: EnumVariant) -> bool {
    a.name == b.name && a.fields@ == b.fields@
}

/// `b` declares the same enum as `a`: same name, variants and export.
pub open spec fn same_enum_decl(a: EnumDecl, b: EnumDecl) -> bool {
    &&& a.name == b.name
    &&& a.is_exported == b.is_exported
    &&& a.variants@.len() == b.variants@.len()
    &&& forall|i: int| 0 <= i < a.variants@.len() ==> same_variant(#[trigger] a.variants@[i], b.variants@[i])
}

/// A copy of a struct declaration.
pub fn copy_struct_decl(d: &StructDecl) -> (r: StructDecl)
    ensures
        same_struct_decl(*d, r),
{
    StructDecl { name: d.name.clone(), fields: copy_params(&d.fields), is_exported: d.is_exported }
}

/// A copy of an enum declaration.
pub fn copy_enum_decl(d: &EnumDecl) -> (r: EnumDecl)
    ensures
        same_enum_decl(*d, r),
{
    let mut variants: Vec<EnumVariant> = Vec::new();
    let mut i: usize = 0;
    while i < d.variants.len()
        invariant
            i <= d.variants.len(),
            variants@.len() == i,
            forall|k: int| 0 <= k < i ==> same_variant(#[trigger] d.variants@[k], variants@[k]),
        decreases d.variants.len() - i,
    {
        let v = &d.variants[i];
        variants.push(EnumVariant { name: v.name.clone(), fields: copy_params(&v.fields) });
        i = i + 1;
    }
    EnumDecl { name: d.name.clone(), variants, is_exported: d.is_exported }
}

/// Copies of a list of struct declarations.
pub fn copy_struct_decls(ds: &Vec<StructDecl>) -> (r: Vec<StructDecl>)
    ensures
        r@.len() == ds@.len(),
        forall|i: int| 0 <= i < ds@.len() ==> same_struct_decl(#[trigger] ds@[i], r@[i]),
{
    let mut out: Vec<StructDecl> = Vec::new();
    let mut i: usize = 0;
    while i < ds.len()
        invariant
            i <= ds.len(),
            out@.len() == i,
            forall|k: int| 0 <= k < i ==> same_struct_decl(#[trigger] ds@[k], out@[k]),
        decreases ds.len() - i,
    {
        out.push(copy_struct_decl(&ds[i]));
        i = i + 1;
    }
    out
}

/// Copies of a list of enum declarations.
pub fn copy_enum_decls(ds: &Vec<EnumDecl>) -> (r: Vec<EnumDecl>)
    ensures
        r@.len() == ds@.len(),
        forall|i: int| 0 <= i < ds@.len() ==> same_enum_decl(#[trigger] ds@[i], r@[i]),
{
    let mut out: Vec<EnumDecl> = Vec::new();
    let mut i: usize = 0;
    while i < ds.len()
        invariant
            i <= ds.len(),
            out@.len() == i,
            forall|k: int| 0 <= k < i ==> same_enum_decl(#[trigger] ds@[k], out@[k]),
        decreases ds.len() - i,
    {
        out.push(copy_enum_decl(&ds[i]));
        i = i + 1;
    }
    out
}

/// An element of a vector is smaller than the vector.
pub proof fn lemma_vec_elem_decreases<T>(v: Vec<T>, i: int)
    requires
        0 <= i < v@.len(),
    ensures
        decreases_to!(v => v@[i]),
{
    assert(decreases_to!(v => v@));
    assert(decreases_to!(v@ => v@[i]));
}

/// The expression of a named field is smaller than the field list.
pub proof fn lemma_field_value_decreases(v: Vec<(String, Expr)>, i: int)
    requires
        0 <= i < v@.len(),
    ensures
        decreases_to!(v => v@[i].1),
{
    assert(decreases_to!(v => v@));
    assert(decreases_to!(v@ => v@[i]));
    assert(decreases_to!(v@[i] => v@[i].1));
}

} // verus!
