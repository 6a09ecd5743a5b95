//! Constraint-based Hindley-Milner style type inference for a minimal lambda
//! calculus: walk an expression to collect equality constraints between type
//! terms, then solve them by unification with an occurs check.

pub mod expr;
pub mod infer;
pub mod lexer;
pub mod parser;
pub mod subst;
pub mod types;
