//! Pruning of Python function implementations for static API analysis.
//!
//! The source is lexed with Ruff; a pass over the tokens finds the suites of functions that are
//! neither in a class's `__init__` path nor docstrings; each such implementation is replaced by
//! `pass` while every physical line of the source is kept.

pub mod body;
pub mod collector;
pub mod edits;
pub mod fitting;
pub mod header;
pub mod lexing;
pub mod text;
pub mod token;

use crate::collector::{
    collect_edits, collected_edits, lemma_collected_indents_start_lines,
    lemma_nothing_to_prune_without_def,
};
use crate::edits::{apply_edits, edits_fit, edits_fit_source, lemma_pruned_keeps_newlines, pruned_bytes};
use crate::fitting::{lemma_well_shaped_edits_fit, well_shaped};
use crate::lexing::{lex_module, module_tokens};
use crate::text::newlines_of;
use crate::token::{tokens_within, Token, TokenKind};
use vstd::prelude::*;
use vstd::string::StringSliceAdditionalSpecFns;
use vstd::utf8::encode_utf8;

verus! {

/// The pruned source bytes for `tokens`, the token stream of `src`: `None` when there is nothing
/// to prune, or when a token or an edit does not lie where it can be applied; otherwise `src`
/// with every collected edit applied.
pub open spec fn pruning(src: Seq<u8>, tokens: Seq<Token>) -> Option<Seq<u8>> {
    let edits = collected_edits(src, tokens);
    if tokens_within(src, tokens) && tokens.len() < u32::MAX && edits_fit(src, edits)
        && edits.len() > 0 {
        Some(pruned_bytes(src, edits))
    } else {
        None
    }
}

/// A source whose token stream has no `def` has nothing to prune.
pub proof fn lemma_no_pruning_without_def(src: Seq<u8>, tokens: Seq<Token>)
    requires
        forall|i: int| 0 <= i < tokens.len() ==> #[trigger] tokens[i].kind != TokenKind::Def,
    ensures
        pruning(src, tokens) is None,
{
    lemma_nothing_to_prune_without_def(src, tokens);
}

/// A well-shaped token stream is pruned whenever the pass finds an edit in it: no check on the
/// tokens or the edits refuses it.
pub proof fn lemma_well_shaped_pruning(src: Seq<u8>, tokens: Seq<Token>)
    requires
        well_shaped(src, tokens),
    ensures
        pruning(src, tokens) == if collected_edits(src, tokens).len() > 0 {
            Some(pruned_bytes(src, collected_edits(src, tokens)))
        } else {
            None
        },
{
    lemma_well_shaped_edits_fit(src, tokens);
}

/// Returns whether every token lies inside `source` and there are fewer than `u32::MAX` tokens.
pub fn tokens_fit(source: &[u8], tokens: &Vec<Token>) -> (fit: bool)
    ensures
        fit == (tokens_within(source@, tokens@) && tokens@.len() < u32::MAX),
{
    if tokens.len() >= u32::MAX as usize {
        return false;
    }
    let mut i: usize = 0;
    while i < tokens.len()
        invariant
            i <= tokens@.len(),
            forall|j: int| 0 <= j < i ==> #[trigger] tokens@[j].start <= tokens@[j].end <= source@.len(),
        decreases tokens@.len() - i,
    {
        let token = tokens[i];
        if !(token.start <= token.end && token.end <= source.len()) {
            return false;
        }
        i = i + 1;
    }
    true
}

/// Prunes `source` given its token stream. `None` means that there is nothing to prune and the
/// caller should compile `source` itself.
pub fn prune_lexed(source: &str, tokens: &Vec<Token>) -> (pruned: Option<String>)
    ensures
        match pruned {
            Some(text) => pruning(source.spec_bytes(), tokens@) == Some(encode_utf8(text@)),
            None => pruning(source.spec_bytes(), tokens@) is None,
        },
        pruned matches Some(text) ==> newlines_of(encode_utf8(text@)) == newlines_of(
            source.spec_bytes(),
        ),
        well_shaped(source.spec_bytes(), tokens@) ==> (pruned is Some <==> collected_edits(
            source.spec_bytes(),
            tokens@,
        ).len() > 0),
{
    proof {
        if well_shaped(source.spec_bytes(), tokens@) {
            lemma_well_shaped_edits_fit(source.spec_bytes(), tokens@);
        }
    }
    let source_bytes = source.as_bytes();
    if !tokens_fit(source_bytes, tokens) {
        return None;
    }
    let edits = collect_edits(source_bytes, tokens);
    if edits.len() == 0 || !edits_fit_source(source_bytes, &edits) {
        return None;
    }
    proof {
        lemma_collected_indents_start_lines(source.spec_bytes(), tokens@);
        lemma_pruned_keeps_newlines(source.spec_bytes(), edits@);
    }
    Some(apply_edits(source, edits))
}

/// Lexes `source` with Ruff and replaces function implementation suites with `pass`.
///
/// Function signatures and docstrings are preserved, as are class `__init__` implementations.
/// The source is expected to be valid for the Python interpreter that will compile it. `None`
/// asks the caller to compile `source` as it is and means that there was nothing to prune.
pub fn prune(source: &str) -> (pruned: Option<String>)
    requires
        source.spec_bytes().len() <= u32::MAX,
    ensures
        match pruned {
            Some(text) => pruning(source.spec_bytes(), module_tokens(source@)) == Some(
                encode_utf8(text@),
            ),
            None => pruning(source.spec_bytes(), module_tokens(source@)) is None,
        },
        pruned matches Some(text) ==> newlines_of(encode_utf8(text@)) == newlines_of(
            source.spec_bytes(),
        ),
{
    let tokens = lex_module(source);
    prune_lexed(source, &tokens)
}

} // verus!
