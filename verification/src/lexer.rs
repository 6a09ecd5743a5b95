//! Token data shared with the surface-syntax front end: token kinds, source
//! spans, and text extraction.

use vstd::prelude::*;

verus! {

/// The kind of a token.
#[derive(Clone, Copy, Debug, PartialEq, Eq, Structural)]
pub enum TK {
    Ident,
    Fun,
    FatArrow,
    LParen,
    RParen,
    Error,
    Eof,
}

/// The position of a token in the source string: start inclusive, end
/// exclusive, in bytes.
#[derive(Debug, Clone, Copy, PartialEq, Eq, Structural)]
pub struct Span {
    pub start: usize,
    pub end: usize,
}

/// The kind of a token together with the span to extract its text from the
/// source string.
#[derive(Debug, Clone, Copy, PartialEq, Eq, Structural)]
pub struct Token {
    pub kind: TK,
    pub span: Span,
}

impl Token {
    /// The text of this token: the slice of the source string covered by its
    /// span.  The source must be ASCII, as the surface syntax is, so byte
    /// positions and character positions agree.
    pub fn text<'a>(&self, input: &'a str) -> (r: &'a str)
        requires
            vstd::string::is_ascii(input),
            self.span.start <= self.span.end,
            self.span.end <= input@.len(),
        ensures
            r@ == input@.subrange(self.span.start as int, self.span.end as int),
    {
        input.substring_ascii(self.span.start, self.span.end)
    }
}

} // verus!
