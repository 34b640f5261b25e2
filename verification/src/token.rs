//! Tokens as the pruner reads them: a kind, a byte range into the source and Ruff's flag bits.

use vstd::prelude::*;

verus! {

/// The token kinds that the pruner tells apart; every other kind of Ruff's lexer is `Other`.
#[derive(Clone, Copy, Debug, PartialEq, Eq, Structural)]
pub enum TokenKind {
    Name,
    String,
    Comment,
    Newline,
    NonLogicalNewline,
    Indent,
    Dedent,
    EndOfFile,
    Lpar,
    Rpar,
    Lsqb,
    Rsqb,
    Lbrace,
    Rbrace,
    Colon,
    Semi,
    Rarrow,
    Lambda,
    Class,
    Def,
    Other,
}

/// One lexed token: its kind, the byte range `start..end` it covers in the source, and whether
/// it is a string literal with a `b`/`B` prefix.
#[derive(Clone, Copy, Debug, PartialEq, Eq, Structural)]
pub struct Token {
    pub kind: TokenKind,
    pub start: usize,
    pub end: usize,
    pub byte_string: bool,
}

} // verus!

verus! {

/// Every token's range lies inside `src`.
pub open spec fn tokens_within(src: Seq<u8>, tokens: Seq<Token>) -> bool {
    forall|i: int|
        0 <= i < tokens.len() ==> #[trigger] tokens[i].start <= tokens[i].end <= src.len()
}

} // verus!
