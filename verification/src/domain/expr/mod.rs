//! The expression language: lexer, recursive-descent parsers and pure
//! evaluators for key conditions, conditions / filters, updates and projections.
pub mod ast;
pub mod lexer;
pub mod grammar;
pub mod parser;
pub mod eval;
pub mod key;
pub mod update;
pub mod frame;
pub mod projection;

pub use ast::{
    CmpOp, Expr, KeyCondition, Operand, Path, PathSeg, SetOperand, SetValue, SkCond, UpdateExpr,
};
pub use eval::{eval, ExprContext};
pub use parser::{parse_condition, parse_key_condition, parse_projection, parse_update};
pub use projection::project;
pub use update::{apply_update, touched_roots};
