//! The failure values reported by the surface-syntax parser.

use vstd::prelude::*;

verus! {

use crate::lexer::TK;

/// A syntax error from the surface parser.
#[derive(Debug, PartialEq)]
pub enum SyntaxError {
    /// Input ended where a token was required.
    UnexpectedEof,
    /// A token of another kind stood where the named construct was expected.
    ExpectedGot(String, TK),
}

} // verus!
