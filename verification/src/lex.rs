//! Lexical token types.
//!
//! Scanning source text is an external collaborator's job; the compiler
//! only consumes tokens.  A double literal therefore arrives with both its
//! text (for diagnostics) and its already-derived IEEE-754 bit pattern,
//! since the compiler treats doubles purely as bit patterns.

use vstd::prelude::*;

verus! {

/// The kind of a lexical token.
#[derive(Debug, Clone)]
pub enum Type {
    Eof,
    DelimitLeft,
    DelimitRight,
    Plus,
    Minus,
    Asteriks,
    Slash,
    Equal,
    LessThan,
    GreaterThan,
    Exlaim,
    DoubleColon,
    BraketLeft,
    BraketRight,
    CurlyLeft,
    CurlyRight,
    String(String),
    Ident(String),
    Double { text: String, bits: u64 },
    Integer(String),
    True,
    False,
    Let,
    Fn,
    Match,
    Std,
    For,
}

/// One lexical token with its source position.
#[derive(Debug, Clone)]
pub struct Token {
    pub line: usize,
    pub col: usize,
    pub t: Type,
}

} // verus!
