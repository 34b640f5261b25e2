//! Edits found in a well-shaped token stream can always be applied.

use crate::body::{is_code, BodyEdit, FunctionBody, FunctionSuite};
use crate::collector::{
    at_most_one_open, collected_edits, lemma_run_at_most_one_open, lemma_run_in_order, run,
    state_in_order, tokens_in_order, CollectorState, PendingSuiteKind,
};
use crate::edits::{
    copied_before, edit_fits, edits_fit, lemma_edits_fit_push, lemma_removal_start_bounds,
};
use crate::header::SuiteAction;
use crate::text::{
    at_char_start, is_newline_byte, lemma_line_end_before_newline, lemma_line_start,
    lemma_line_start_after_newline, lemma_line_start_char_start, lemma_line_start_monotone,
    line_end_at, line_start_at,
};
use crate::token::{tokens_within, Token, TokenKind};
use vstd::prelude::*;
use vstd::utf8::valid_utf8;

verus! {

/// A logical newline token sits on the newline byte that ends its line, or at the end of the
/// source.
pub open spec fn newlines_end_lines(src: Seq<u8>, tokens: Seq<Token>) -> bool {
    forall|i: int|
        0 <= i < tokens.len() && (#[trigger] tokens[i]).kind == TokenKind::Newline ==> (
        tokens[i].start == src.len() || (tokens[i].start < tokens[i].end && is_newline_byte(
            src[tokens[i].start as int],
        )))
}

/// Every dedent follows a logical newline with no code token in between.
pub open spec fn dedents_follow_newlines(tokens: Seq<Token>) -> bool {
    forall|j: int|
        0 <= j < tokens.len() && (#[trigger] tokens[j]).kind == TokenKind::Dedent ==> exists|
            m: int,
        |
            0 <= m < j && (#[trigger] tokens[m]).kind == TokenKind::Newline && forall|q: int|
                m < q < j ==> !is_code((#[trigger] tokens[q]).kind)
}

/// Every token starts on a character boundary.
pub open spec fn tokens_at_char_starts(src: Seq<u8>, tokens: Seq<Token>) -> bool {
    forall|i: int| 0 <= i < tokens.len() ==> at_char_start(src, (#[trigger] tokens[i]).start as int)
}

/// The shape of the token stream of a Python source: tokens inside the source and in order,
/// on character boundaries, logical newlines on newline bytes, dedents after logical newlines.
pub open spec fn well_shaped(src: Seq<u8>, tokens: Seq<Token>) -> bool {
    &&& valid_utf8(src)
    &&& tokens_within(src, tokens)
    &&& tokens_in_order(tokens)
    &&& tokens.len() < u32::MAX
    &&& newlines_end_lines(src, tokens)
    &&& dedents_follow_newlines(tokens)
    &&& tokens_at_char_starts(src, tokens)
}

/// The end of the last code token of `tokens`, or 0.
pub open spec fn last_code_end_in(tokens: Seq<Token>) -> int
    decreases tokens.len(),
{
    if tokens.len() == 0 {
        0
    } else if is_code(tokens.last().kind) {
        tokens.last().end as int
    } else {
        last_code_end_in(tokens.drop_last())
    }
}

/// After the last edit a newline byte has been passed, or the source has been read to its end.
pub open spec fn separated(src: Seq<u8>, edits: Seq<BodyEdit>, bound: int) -> bool {
    edits.len() > 0 ==> (bound >= src.len() || exists|p: int|
        edits.last().end <= p < bound && p < src.len() && #[trigger] is_newline_byte(src[p]))
}

/// An open body whose edit, once made, fits after `edits`.
pub open spec fn body_fits(
    src: Seq<u8>,
    body: FunctionBody,
    edits: Seq<BodyEdit>,
    last_code: int,
) -> bool {
    &&& (body.last_code_end matches Some(y) ==> y == last_code && y <= src.len())
    &&& (body.first_statement_start matches Some(f) ==> {
        &&& f <= src.len()
        &&& at_char_start(src, f as int)
        &&& body.indent_start == line_start_at(src, f as int)
        &&& (edits.len() > 0 ==> line_end_at(src, edits.last().end as int) <= line_start_at(
            src,
            f as int,
        ))
    })
    &&& (body.edit_start matches Some(x) ==> at_char_start(src, x as int))
}

/// The state after the first tokens of a well-shaped stream: its edits fit, are separated from
/// what follows, and an open body fits after them.
pub open spec fn state_fits(
    src: Seq<u8>,
    state: CollectorState,
    read: Seq<Token>,
    bound: int,
) -> bool {
    &&& edits_fit(src, state.edits)
    &&& separated(src, state.edits, bound)
    &&& (state.body matches Some(b) ==> body_fits(src, b, state.edits, last_code_end_in(read)))
}

/// The end offset of the last of the first `n` tokens, or 0.
pub open spec fn bound_after(tokens: Seq<Token>, n: int) -> int {
    if n == 0 {
        0
    } else {
        tokens[n - 1].end as int
    }
}

/// The last code token before the `k`-th token ends before it starts.
proof fn lemma_last_code_before(src: Seq<u8>, tokens: Seq<Token>, k: int)
    requires
        well_shaped(src, tokens),
        0 <= k <= tokens.len(),
    ensures
        0 <= last_code_end_in(tokens.take(k)) <= src.len(),
        k < tokens.len() ==> last_code_end_in(tokens.take(k)) <= tokens[k].start,
    decreases k,
{
    if k > 0 {
        lemma_last_code_before(src, tokens, k - 1);
        assert(tokens.take(k).drop_last() =~= tokens.take(k - 1));
        assert(tokens.take(k).last() == tokens[k - 1]);
        assert(tokens[k - 1].start <= tokens[k - 1].end <= src.len());
        if k < tokens.len() {
            assert(tokens[k - 1].end <= tokens[k].start);
        }
    }
}

/// Tokens without code after the `m`-th do not move the end of the last code token.
proof fn lemma_last_code_skip(tokens: Seq<Token>, m: int, j: int)
    requires
        0 <= m < j <= tokens.len(),
        !is_code(tokens[m].kind),
        forall|q: int| m < q < j ==> !is_code((#[trigger] tokens[q]).kind),
    ensures
        last_code_end_in(tokens.take(j)) == last_code_end_in(tokens.take(m)),
    decreases j - m,
{
    assert(tokens.take(j).drop_last() =~= tokens.take(j - 1));
    assert(tokens.take(j).last() == tokens[j - 1]);
    if j - 1 > m {
        lemma_last_code_skip(tokens, m, j - 1);
    } else {
        assert(tokens.take(m + 1).drop_last() =~= tokens.take(m));
    }
}

/// A body that reads a token keeps fitting after the same edits.
proof fn lemma_body_after_fits(
    src: Seq<u8>,
    tokens: Seq<Token>,
    n: int,
    body: FunctionBody,
    edits: Seq<BodyEdit>,
    bound: int,
)
    requires
        well_shaped(src, tokens),
        0 < n <= tokens.len(),
        bound == bound_after(tokens, n - 1),
        body_fits(src, body, edits, last_code_end_in(tokens.take(n - 1))),
        separated(src, edits, bound),
    ensures
        body_fits(src, body.after(tokens[n - 1], src), edits, last_code_end_in(tokens.take(n))),
{
    let t = tokens[n - 1];
    assert(tokens.take(n).drop_last() =~= tokens.take(n - 1));
    assert(tokens.take(n).last() == t);
    assert(t.start <= t.end <= src.len());
    assert(at_char_start(src, t.start as int));
    lemma_line_start(src, t.start as int);
    if n > 1 {
        assert(tokens[n - 2].end <= t.start);
    }
    if is_code(t.kind) && body.first_statement_start is None && edits.len() > 0 {
        assert(t.start < t.end);
        if bound < src.len() {
            let p = choose|p: int|
                edits.last().end <= p < bound && p < src.len() && #[trigger] is_newline_byte(
                    src[p],
                );
            lemma_line_end_before_newline(src, edits.last().end as int, p);
            lemma_line_start_after_newline(src, p, t.start as int);
        }
    }
}

/// The edit of a body that fits, appended to the edits, keeps them fitting.
proof fn lemma_body_edit_fits(
    src: Seq<u8>,
    body: FunctionBody,
    edits: Seq<BodyEdit>,
    last_code: int,
    bound: int,
)
    requires
        valid_utf8(src),
        edits_fit(src, edits),
        body_fits(src, body, edits, last_code),
        state_in_order(
            CollectorState {
                depth: 0,
                scopes: Seq::empty(),
                header: None,
                pending: None,
                body: Some(body),
                edits,
            },
            bound,
        ),
    ensures
        body.edit() matches Some(edit) ==> edits_fit(src, edits.push(edit)),
{
    if let Some(edit) = body.edit() {
        let f = edit.indent_end as int;
        lemma_line_start(src, f);
        lemma_line_start_char_start(src, f);
        lemma_removal_start_bounds(src, edit);
        lemma_line_start_monotone(src, f, edit.start as int);
        if edits.len() > 0 {
            assert(copied_before(src, edits, edits.len() as int) == line_end_at(
                src,
                edits.last().end as int,
            ));
        }
        assert(edit_fits(src, copied_before(src, edits, edits.len() as int), edit));
        lemma_edits_fit_push(src, edits, edit);
    }
}

/// Being separated holds on as more of the source is read.
proof fn lemma_separated_later(src: Seq<u8>, edits: Seq<BodyEdit>, bound: int, later: int)
    requires
        separated(src, edits, bound),
        bound <= later,
    ensures
        separated(src, edits, later),
{
    if edits.len() > 0 && bound < src.len() {
        let p = choose|p: int|
            edits.last().end <= p < bound && p < src.len() && #[trigger] is_newline_byte(src[p]);
        assert(is_newline_byte(src[p]));
    }
}

/// A newline byte at `p` separates an edit ending at or before `p` from what follows `later`.
proof fn lemma_separated_at(src: Seq<u8>, edits: Seq<BodyEdit>, p: int, later: int)
    requires
        edits.len() > 0,
        edits.last().end <= p < later,
        p < src.len(),
        is_newline_byte(src[p]),
    ensures
        separated(src, edits, later),
{
}

/// One more token of a well-shaped stream keeps the pass's edits fitting.
#[verifier::rlimit(60)]
#[verifier::spinoff_prover]
proof fn lemma_step_fits(src: Seq<u8>, tokens: Seq<Token>, n: int)
    requires
        well_shaped(src, tokens),
        0 < n <= tokens.len(),
        state_fits(src, run(src, tokens.take(n - 1)), tokens.take(n - 1), bound_after(tokens, n - 1)),
        state_in_order(run(src, tokens.take(n - 1)), bound_after(tokens, n - 1)),
        at_most_one_open(run(src, tokens.take(n - 1))),
    ensures
        state_fits(src, run(src, tokens.take(n)), tokens.take(n), bound_after(tokens, n)),
{
    let state = run(src, tokens.take(n - 1));
    let t = tokens[n - 1];
    let bound = bound_after(tokens, n - 1);
    assert(tokens.take(n).drop_last() =~= tokens.take(n - 1));
    assert(tokens.take(n).last() == t);
    assert(run(src, tokens.take(n)) == state.step(t, src));
    assert(t.start <= t.end <= src.len());
    if n > 1 {
        assert(tokens[n - 2].end <= t.start);
    }
    lemma_separated_later(src, state.edits, bound, t.end as int);
    lemma_last_code_before(src, tokens, n - 1);
    lemma_last_code_before(src, tokens, n);
    let s = state.with_indentation_of(t.kind);
    assert(s.edits == state.edits && s.body == state.body && s.pending == state.pending
        && s.header == state.header);
    if s.body is Some {
        let body = s.body->0;
        if body.ends_at(t, s.depth) {
            lemma_body_edit_fits(src, body, s.edits, last_code_end_in(tokens.take(n - 1)), bound);
            if let Some(edit) = body.edit() {
                let pushed = s.edits.push(edit);
                assert(pushed.last() == edit);
                if t.kind == TokenKind::Newline {
                    assert(tokens[n - 1].kind == TokenKind::Newline);
                    if t.start < src.len() {
                        lemma_separated_at(src, pushed, t.start as int, t.end as int);
                    }
                } else {
                    assert(tokens[n - 1].kind == TokenKind::Dedent);
                    let m = choose|m: int|
                        0 <= m < n - 1 && (#[trigger] tokens[m]).kind == TokenKind::Newline
                            && forall|q: int| m < q < n - 1 ==> !is_code((#[trigger] tokens[q]).kind);
                    lemma_last_code_skip(tokens, m, n - 1);
                    lemma_last_code_before(src, tokens, m);
                    assert(tokens[m].end <= t.start);
                    assert(tokens[m].start <= tokens[m].end);
                    if tokens[m].start < src.len() {
                        lemma_separated_at(src, pushed, tokens[m].start as int, t.end as int);
                    }
                }
            }
        } else {
            lemma_body_after_fits(src, tokens, n, body, s.edits, bound);
        }
    } else if t.kind != TokenKind::Dedent && s.pending is Some {
        let p = s.pending->0;
        if p.kind == PendingSuiteKind::Undetermined && t.kind != TokenKind::Newline && t.kind
            != TokenKind::Comment && t.kind != TokenKind::NonLogicalNewline && p.action
            == SuiteAction::Prune {
            lemma_body_after_fits(
                src,
                tokens,
                n,
                FunctionBody::opened(FunctionSuite::Inline),
                s.edits,
                bound,
            );
        }
    }
}

/// The pass over the first `n` tokens of a well-shaped stream keeps its edits fitting.
proof fn lemma_run_fits(src: Seq<u8>, tokens: Seq<Token>, n: int)
    requires
        well_shaped(src, tokens),
        0 <= n <= tokens.len(),
    ensures
        state_fits(src, run(src, tokens.take(n)), tokens.take(n), bound_after(tokens, n)),
    decreases n,
{
    if n == 0 {
        assert(tokens.take(0) =~= Seq::<Token>::empty());
    } else {
        lemma_run_fits(src, tokens, n - 1);
        lemma_run_in_order(src, tokens, n - 1);
        lemma_run_at_most_one_open(src, tokens.take(n - 1));
        lemma_step_fits(src, tokens, n);
    }
}

/// The edits that the pass finds in a well-shaped token stream can be applied to the source:
/// each lies in it on character boundaries, and each removes text only after the line on which
/// the previous one ended.
pub proof fn lemma_well_shaped_edits_fit(src: Seq<u8>, tokens: Seq<Token>)
    requires
        well_shaped(src, tokens),
    ensures
        edits_fit(src, collected_edits(src, tokens)),
{
    let n = tokens.len() as int;
    lemma_run_fits(src, tokens, n);
    lemma_run_in_order(src, tokens, n);
    assert(tokens.take(n) =~= tokens);
    let state = run(src, tokens);
    if let Some(body) = state.body {
        lemma_body_edit_fits(src, body, state.edits, last_code_end_in(tokens), bound_after(tokens, n));
    }
}

} // verus!
