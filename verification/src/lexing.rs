//! Lexing through Ruff: the only place where the library calls Ruff's Python parser.

use crate::token::Token;
use crate::token::TokenKind as T;
use ruff_python_ast::token::TokenKind as K;
use ruff_python_ast::Mod;
use ruff_python_parser::{parse_unchecked, Mode, ParseOptions, Parsed};
use vstd::prelude::*;
use vstd::string::StringSliceAdditionalSpecFns;

verus! {

/// Ruff's parsed module, which holds the token stream of the source.
#[verifier::external_type_specification]
#[verifier::external_body]
#[verifier::reject_recursive_types(N)]
pub struct ExParsed<N>(Parsed<N>);

/// Ruff's syntax tree of a module.
#[verifier::external_type_specification]
#[verifier::external_body]
pub struct ExMod(Mod);

/// The tokens, comments and non-logical newlines included, that Ruff's parser collects when it
/// reads `source` as a module: for each, its kind as `TokenKind` classifies it, its byte range in
/// the UTF-8 encoding of `source`, and whether Ruff marks it as a byte string.
pub uninterp spec fn module_tokens(source: Seq<char>) -> Seq<Token>;

/// The token stream that a parse result holds, each token seen as a `Token`.
pub uninterp spec fn parsed_tokens(parsed: Parsed<Mod>) -> Seq<Token>;

/// Calls `ruff_python_parser::parse_unchecked` on `source` with `Mode::Module`. The contract
/// claims only that the token stream it holds is `module_tokens` of the source. Ruff's lexer
/// refuses sources longer than `u32::MAX` bytes with a panic, hence the `requires`.
#[verifier::external_body]
fn parse_module(source: &str) -> (parsed: Parsed<Mod>)
    requires
        source.spec_bytes().len() <= u32::MAX,
    ensures
        parsed_tokens(parsed) == module_tokens(source@),
{
    parse_unchecked(source, ParseOptions::from(Mode::Module))
}

/// Calls `Parsed::tokens` and returns the number of tokens in the stream.
#[verifier::external_body]
fn token_count(parsed: &Parsed<Mod>) -> (count: usize)
    ensures
        count == parsed_tokens(*parsed).len(),
{
    parsed.tokens().len()
}

/// Calls `Token::kind` on the token at `index` of `Parsed::tokens` and maps Ruff's kind to the
/// variant of the same name; the kinds that the pruner does not read become `Other`.
#[verifier::external_body]
fn token_kind(parsed: &Parsed<Mod>, index: usize) -> (kind: T)
    requires
        index < parsed_tokens(*parsed).len(),
    ensures
        kind == parsed_tokens(*parsed)[index as int].kind,
{
    match parsed.tokens()[index].kind() {
        K::Name => T::Name, K::String => T::String, K::Comment => T::Comment,
        K::Newline => T::Newline, K::NonLogicalNewline => T::NonLogicalNewline,
        K::Indent => T::Indent, K::Dedent => T::Dedent, K::EndOfFile => T::EndOfFile,
        K::Lpar => T::Lpar, K::Rpar => T::Rpar, K::Lsqb => T::Lsqb, K::Rsqb => T::Rsqb,
        K::Lbrace => T::Lbrace, K::Rbrace => T::Rbrace, K::Colon => T::Colon,
        K::Semi => T::Semi, K::Rarrow => T::Rarrow, K::Lambda => T::Lambda,
        K::Class => T::Class, K::Def => T::Def, _ => T::Other,
    }
}

/// Calls `Token::as_tuple` on the token at `index` of `Parsed::tokens` and returns the start and
/// end offsets of its range.
#[verifier::external_body]
fn token_range(parsed: &Parsed<Mod>, index: usize) -> (range: (usize, usize))
    requires
        index < parsed_tokens(*parsed).len(),
    ensures
        range.0 == parsed_tokens(*parsed)[index as int].start,
        range.1 == parsed_tokens(*parsed)[index as int].end,
{
    let (_, range) = parsed.tokens()[index].as_tuple();
    (range.start().to_usize(), range.end().to_usize())
}

/// Calls `Token::string_flags` on the token at `index` of `Parsed::tokens` and returns whether
/// they exist and carry a `b`/`B` prefix (`AnyStringFlags::is_byte_string`).
#[verifier::external_body]
fn token_is_byte_string(parsed: &Parsed<Mod>, index: usize) -> (byte_string: bool)
    requires
        index < parsed_tokens(*parsed).len(),
    ensures
        byte_string == parsed_tokens(*parsed)[index as int].byte_string,
{
    parsed.tokens()[index].string_flags().is_some_and(|flags| flags.is_byte_string())
}

/// Lexes `source` as a Python module with Ruff and returns its token stream.
pub fn lex_module(source: &str) -> (tokens: Vec<Token>)
    requires
        source.spec_bytes().len() <= u32::MAX,
    ensures
        tokens@ == module_tokens(source@),
{
    let parsed = parse_module(source);
    let count = token_count(&parsed);
    let mut tokens: Vec<Token> = Vec::new();
    let mut i: usize = 0;
    while i < count
        invariant
            i <= count == parsed_tokens(parsed).len(),
            tokens@ == parsed_tokens(parsed).take(i as int),
        decreases count - i,
    {
        let kind = token_kind(&parsed, i);
        let (start, end) = token_range(&parsed, i);
        let byte_string = token_is_byte_string(&parsed, i);
        tokens.push(Token { kind, start, end, byte_string });
        assert(tokens@ =~= parsed_tokens(parsed).take(i + 1));
        i = i + 1;
    }
    assert(parsed_tokens(parsed).take(count as int) =~= parsed_tokens(parsed));
    tokens
}

} // verus!
