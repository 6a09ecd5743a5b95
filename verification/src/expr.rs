//! The expression tree consumed by the inference engine: variable references,
//! applications, and single-parameter abstractions.

use vstd::prelude::*;

verus! {

/// An expression node.
#[derive(Debug, PartialEq)]
pub enum Expr {
    /// A variable reference, by name.
    Var(String),
    /// A function application: function expression and argument expression.
    App(Box<Expr>, Box<Expr>),
    /// A function abstraction: parameter name and body expression.
    Abs(String, Box<Expr>),
}

} // verus!
