use vstd::prelude::*;

verus! {

/// The kinds of token the lexer emits.
#[derive(Debug, Clone, Copy, PartialEq, Eq, Structural)]
pub enum TokenKind {
    Word,
    Pipe,
    RedirectIn,
    RedirectOut,
    RedirectAppend,
    And,
    Or,
    Semicolon,
    LParen,
    RParen,
    Eof,
}

/// One lexed token: its kind, its (unquoted) text and its half-open byte span.
#[derive(Debug, PartialEq, Eq)]
pub struct Token {
    pub kind: TokenKind,
    pub lexeme: String,
    pub span: (usize, usize),
}

} // verus!
