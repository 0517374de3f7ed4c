pub mod text;
pub mod span;
pub mod token;
pub mod lexer;
pub mod ast;
pub mod grammar;
pub mod parser;
pub mod table;
pub mod typecheck;
pub mod hir;
pub mod lower;
pub mod value;
pub mod semantics;
pub mod interpreter;
pub mod loader;

pub use ast::{BinaryOp, EnumDecl, EnumVariant, Expr, FunctionDecl, MatchArm, Param, Pattern, Program, Stmt, StructDecl};
pub use hir::{HExpr, HFunctionDecl, HProgram, HStmt};
pub use interpreter::{Interpreter, LineWriter, PrintSink, RuntimeError, StreamSink};
pub use lexer::{LexError, Lexer};
pub use loader::{load_program, LoadError, ModuleReader, ModuleSource, ReaderSource};
pub use lower::lower_program;
pub use parser::{ParseError, Parser};
pub use span::Span;
pub use token::{Token, TokenKind};
pub use typecheck::{Type, TypeChecker, TypeError};
pub use value::Value;
