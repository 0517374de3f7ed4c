//! High-level IR: a desugared form of the syntax tree.
//!
//! `match` is fully lowered here into explicit tag tests (`IsVariant`)
//! and field extraction (`VariantField`); the pattern concept of the
//! syntax tree does not exist at this level. `?` (`Try`) is not desugared:
//! knowing which enum an expression evaluates to needs type information,
//! which this purely syntactic pass does not have.
use vstd::prelude::*;
use crate::ast::{BinaryOp, EnumDecl, Param, StructDecl};

verus! {

#[derive(Debug, PartialEq)]
pub struct HProgram {
    pub structs: Vec<StructDecl>,
    pub enums: Vec<EnumDecl>,
    pub functions: Vec<HFunctionDecl>,
}

#[derive(Debug, PartialEq)]
pub struct HFunctionDecl {
    pub name: String,
    pub params: Vec<Param>,
    pub return_type: Option<String>,
    pub body: Vec<HStmt>,
}

#[derive(Debug, PartialEq)]
pub enum HStmt {
    VariableDecl { name: String, value: HExpr, is_mutable: bool },
    Assign { name: String, value: HExpr },
    IndexAssign { name: String, index: HExpr, value: HExpr },
    Expr(HExpr),
    If { condition: HExpr, then_branch: Vec<HStmt>, else_branch: Option<Vec<HStmt>> },
    While { condition: HExpr, body: Vec<HStmt> },
    Return(Option<HExpr>),
}

#[derive(Debug, PartialEq)]
pub enum HExpr {
    StringLiteral(String),
    IntLiteral(i64),
    BoolLiteral(bool),
    Identifier(String),
    Binary { left: Box<HExpr>, op: BinaryOp, right: Box<HExpr> },
    Call { callee: String, args: Vec<HExpr> },
    StructLiteral { name: String, fields: Vec<(String, HExpr)> },
    FieldAccess { object: Box<HExpr>, field: String },
    EnumLiteral { enum_name: String, variant: String, fields: Vec<(String, HExpr)> },
    ArrayLiteral(Vec<HExpr>),
    Index { array: Box<HExpr>, index: Box<HExpr> },
    /// Not desugared; see the module documentation.
    Try(Box<HExpr>),
    /// Does `scrutinee` currently hold `enum_name::variant`?
    IsVariant { scrutinee: Box<HExpr>, enum_name: String, variant: String },
    /// One field, by name, of an enum value known to be this variant.
    VariantField { scrutinee: Box<HExpr>, enum_name: String, variant: String, field: String },
}

} // verus!
