//! Tokens of the surface language, and the spans of source text they cover.
use vstd::prelude::*;

verus! {

/// A stretch of source text, by character position: from `start` up to,
/// not including, `end`.
#[derive(Debug, Clone, Copy, PartialEq, Eq, Structural)]
pub struct Span {
    pub start: usize,
    pub end: usize,
}

#[derive(Debug, Clone, PartialEq, Eq)]
pub enum TokenKind {
    Alphabet,
    Class,
    String(String),
    ClassIdent(String),
    Eq,
    Comma,
    Pipe,
    OpenParen,
    CloseParen,
    Eof,
}

#[derive(Debug, Clone)]
pub struct Token {
    pub kind: TokenKind,
    pub span: Span,
}

} // verus!
