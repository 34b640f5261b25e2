//! The pass over the tokens that finds the function implementations to prune.

use crate::body::{is_code, last_code_token, read_body, BodyEdit, FunctionBody, FunctionSuite};
use crate::header::{DefinitionHeader, DefinitionKind, Scope, SuiteAction};
use crate::text::{lemma_line_start, line_start_at};
use crate::token::{tokens_within, Token, TokenKind};
use vstd::prelude::*;

verus! {

/// Whether the token after a suite colon has told yet if the suite is inline or indented.
#[derive(Clone, Copy, Debug, PartialEq, Eq, Structural)]
pub enum PendingSuiteKind {
    Undetermined,
    Indented,
}

/// A suite whose colon has been read but whose first statement has not.
#[derive(Clone, Copy, Debug, PartialEq, Eq, Structural)]
pub struct PendingSuite {
    pub action: SuiteAction,
    pub kind: PendingSuiteKind,
}

impl PendingSuite {
    /// A suite right after its colon.
    pub fn new(action: SuiteAction) -> (pending: Self)
        ensures
            pending == (PendingSuite { action, kind: PendingSuiteKind::Undetermined }),
    {
        PendingSuite { action, kind: PendingSuiteKind::Undetermined }
    }
}

/// A class or `__init__` suite that is being read, with the indentation depth of its statements.
#[derive(Clone, Copy, Debug, PartialEq, Eq, Structural)]
pub struct ScopeFrame {
    pub scope: Scope,
    pub depth: u32,
}

/// The state of the pass, as a mathematical value.
pub struct CollectorState {
    pub depth: u32,
    pub scopes: Seq<ScopeFrame>,
    pub header: Option<DefinitionHeader>,
    pub pending: Option<PendingSuite>,
    pub body: Option<FunctionBody>,
    pub edits: Seq<BodyEdit>,
}

/// The scopes left after a dedent to `depth`: those whose statements are deeper are closed.
pub open spec fn pop_deeper(scopes: Seq<ScopeFrame>, depth: u32) -> Seq<ScopeFrame>
    decreases scopes.len(),
{
    if scopes.len() > 0 && scopes.last().depth > depth {
        pop_deeper(scopes.drop_last(), depth)
    } else {
        scopes
    }
}

impl CollectorState {
    /// The state before the first token.
    pub open spec fn initial() -> Self {
        CollectorState {
            depth: 0,
            scopes: Seq::empty(),
            header: None,
            pending: None,
            body: None,
            edits: Seq::empty(),
        }
    }

    /// The innermost open scope.
    pub open spec fn scope(self) -> Scope {
        if self.scopes.len() == 0 {
            Scope::Module
        } else {
            self.scopes.last().scope
        }
    }

    /// Indents deepen the indentation; dedents make it shallower and close deeper scopes.
    pub open spec fn with_indentation_of(self, kind: TokenKind) -> Self {
        if kind == TokenKind::Indent {
            CollectorState { depth: (self.depth + 1) as u32, ..self }
        } else if kind == TokenKind::Dedent {
            let depth: u32 = if self.depth == 0 {
                0
            } else {
                (self.depth - 1) as u32
            };
            CollectorState { depth, scopes: pop_deeper(self.scopes, depth), ..self }
        } else {
            self
        }
    }

    /// A suite that starts on the colon's line: pruned from its first token on, or not tracked.
    pub open spec fn start_inline(self, action: SuiteAction, token: Token, src: Seq<u8>) -> Self {
        if action == SuiteAction::Prune {
            CollectorState {
                body: Some(FunctionBody::opened(FunctionSuite::Inline).after(token, src)),
                ..self
            }
        } else {
            self
        }
    }

    /// An indented suite: a scope to enter, or a function body to prune.
    pub open spec fn start_indented(self, action: SuiteAction) -> Self {
        match action {
            SuiteAction::Enter(scope) => CollectorState {
                scopes: self.scopes.push(ScopeFrame { scope, depth: self.depth }),
                ..self
            },
            SuiteAction::Prune => CollectorState {
                body: Some(FunctionBody::opened(FunctionSuite::Indented { depth: self.depth })),
                ..self
            },
        }
    }

    /// The token after a suite colon, with the pending suite already taken out of `self`.
    pub open spec fn after_pending(
        self,
        pending: PendingSuite,
        token: Token,
        src: Seq<u8>,
    ) -> Self {
        match pending.kind {
            PendingSuiteKind::Undetermined => if token.kind == TokenKind::Newline {
                CollectorState {
                    pending: Some(PendingSuite { kind: PendingSuiteKind::Indented, ..pending }),
                    ..self
                }
            } else if token.kind == TokenKind::Comment || token.kind
                == TokenKind::NonLogicalNewline {
                CollectorState { pending: Some(pending), ..self }
            } else {
                self.start_inline(pending.action, token, src)
            },
            PendingSuiteKind::Indented => if token.kind == TokenKind::Indent {
                self.start_indented(pending.action)
            } else if token.kind == TokenKind::Comment || token.kind == TokenKind::Newline
                || token.kind == TokenKind::NonLogicalNewline {
                CollectorState { pending: Some(pending), ..self }
            } else {
                self
            },
        }
    }

    /// A token of a header; its suite colon turns the header into a pending suite.
    pub open spec fn after_header(
        self,
        header: DefinitionHeader,
        token: Token,
        src: Seq<u8>,
    ) -> Self {
        let (next, colon) = header.after(token, src);
        if colon {
            CollectorState {
                header: None,
                pending: Some(
                    PendingSuite { action: next.action(), kind: PendingSuiteKind::Undetermined },
                ),
                ..self
            }
        } else {
            CollectorState { header: Some(next), ..self }
        }
    }

    /// The state after one token. A pruned body takes every token until it closes; otherwise a
    /// pending suite, then a header, then a `class` or `def` keyword is looked for.
    pub open spec fn step(self, token: Token, src: Seq<u8>) -> Self {
        let s = self.with_indentation_of(token.kind);
        if s.body is Some {
            let body = s.body->0;
            if body.ends_at(token, s.depth) {
                CollectorState {
                    body: None,
                    edits: match body.edit() {
                        Some(edit) => s.edits.push(edit),
                        None => s.edits,
                    },
                    ..s
                }
            } else {
                CollectorState { body: Some(body.after(token, src)), ..s }
            }
        } else if token.kind == TokenKind::Dedent {
            s
        } else if s.pending is Some {
            CollectorState { pending: None, ..s }.after_pending(s.pending->0, token, src)
        } else if s.header is Some {
            s.after_header(s.header->0, token, src)
        } else if token.kind == TokenKind::Class {
            CollectorState {
                header: Some(DefinitionHeader::opened(DefinitionKind::Class, s.scope())),
                ..s
            }
        } else if token.kind == TokenKind::Def {
            CollectorState {
                header: Some(DefinitionHeader::opened(DefinitionKind::Function, s.scope())),
                ..s
            }
        } else {
            s
        }
    }

    /// The edits once the input has ended: a body still open is closed.
    pub open spec fn finished(self) -> Seq<BodyEdit> {
        match self.body {
            Some(body) => match body.edit() {
                Some(edit) => self.edits.push(edit),
                None => self.edits,
            },
            None => self.edits,
        }
    }

    /// The counters that grow by at most one per token are at most `bound`.
    pub open spec fn counters_below(self, bound: int) -> bool {
        &&& self.depth <= bound
        &&& (self.header matches Some(h) ==> h.counters_below(bound))
        &&& (self.body matches Some(b) ==> b.parenthesis_depth <= bound)
    }
}

/// The state after reading `tokens` from the start.
pub open spec fn run(src: Seq<u8>, tokens: Seq<Token>) -> CollectorState
    decreases tokens.len(),
{
    if tokens.len() == 0 {
        CollectorState::initial()
    } else {
        run(src, tokens.drop_last()).step(tokens.last(), src)
    }
}

/// The edits that the pass finds in `tokens`, in the order their suites close.
pub open spec fn collected_edits(src: Seq<u8>, tokens: Seq<Token>) -> Seq<BodyEdit> {
    run(src, tokens).finished()
}

/// A token moves each counter by at most one.
pub proof fn lemma_step_counters(state: CollectorState, token: Token, src: Seq<u8>, bound: int)
    requires
        state.counters_below(bound),
        bound < u32::MAX,
    ensures
        state.step(token, src).counters_below(bound + 1),
{
}

/// No body is open or pending and no edit has been found.
pub open spec fn nothing_pruned(state: CollectorState) -> bool {
    &&& state.body is None
    &&& state.edits.len() == 0
    &&& (state.header matches Some(h) ==> h.kind == DefinitionKind::Class)
    &&& (state.pending matches Some(p) ==> p.action != SuiteAction::Prune)
}

/// Without `def` tokens the pass finds nothing to prune.
proof fn lemma_run_without_def(src: Seq<u8>, tokens: Seq<Token>)
    requires
        forall|i: int| 0 <= i < tokens.len() ==> #[trigger] tokens[i].kind != TokenKind::Def,
    ensures
        nothing_pruned(run(src, tokens)),
    decreases tokens.len(),
{
    if tokens.len() > 0 {
        let rest = tokens.drop_last();
        assert forall|i: int| 0 <= i < rest.len() implies #[trigger] rest[i].kind
            != TokenKind::Def by {
            assert(rest[i] == tokens[i]);
        }
        lemma_run_without_def(src, rest);
        let before = run(src, rest);
        let token = tokens.last();
        assert(token.kind != TokenKind::Def);
        if before.header is Some {
            let h = before.header->0;
            let (next, colon) = h.after(token, src);
            assert(next.kind == h.kind);
        }
    }
}

/// A token stream without `def` has no function implementation to prune.
pub proof fn lemma_nothing_to_prune_without_def(src: Seq<u8>, tokens: Seq<Token>)
    requires
        forall|i: int| 0 <= i < tokens.len() ==> #[trigger] tokens[i].kind != TokenKind::Def,
    ensures
        collected_edits(src, tokens).len() == 0,
{
    lemma_run_without_def(src, tokens);
}

/// The open scopes are strictly nested: each is deeper than the one it is in, and all lie at
/// depths from 1 up to the current indentation depth.
pub open spec fn scopes_nested(state: CollectorState) -> bool {
    &&& forall|i: int, j: int|
        #![trigger state.scopes[i], state.scopes[j]]
        0 <= i < j < state.scopes.len() ==> state.scopes[i].depth < state.scopes[j].depth
    &&& forall|i: int|
        #![trigger state.scopes[i]]
        0 <= i < state.scopes.len() ==> 1 <= state.scopes[i].depth <= state.depth
}

/// At most one of a header, a pending suite and an open body exists.
pub open spec fn at_most_one_open(state: CollectorState) -> bool {
    &&& !(state.header is Some && state.pending is Some)
    &&& !(state.header is Some && state.body is Some)
    &&& !(state.pending is Some && state.body is Some)
}

/// An open indented body lies at a depth from 1 up to the current indentation depth.
pub open spec fn body_depth_in_range(state: CollectorState) -> bool {
    state.body matches Some(b) ==> (b.suite matches FunctionSuite::Indented { depth } ==> 1
        <= depth <= state.depth)
}

/// Each edit's indentation, and that of an open body's first statement, runs from the start of
/// the statement's line.
pub open spec fn indents_at_line_starts(src: Seq<u8>, state: CollectorState) -> bool {
    &&& forall|k: int|
        #![trigger state.edits[k]]
        0 <= k < state.edits.len() ==> state.edits[k].indent_start == line_start_at(
            src,
            state.edits[k].indent_end as int,
        )
    &&& (state.body matches Some(b) ==> (b.first_statement_start matches Some(f)
        ==> b.indent_start == line_start_at(src, f as int)))
}

/// What every state of the pass satisfies.
pub open spec fn pass_invariant(src: Seq<u8>, state: CollectorState) -> bool {
    &&& scopes_nested(state)
    &&& at_most_one_open(state)
    &&& body_depth_in_range(state)
    &&& indents_at_line_starts(src, state)
}

/// The indentation depth after `tokens`: one more per indent, one less per dedent, never below 0.
pub open spec fn indentation_after(tokens: Seq<Token>) -> int
    decreases tokens.len(),
{
    if tokens.len() == 0 {
        0
    } else {
        let before = indentation_after(tokens.drop_last());
        if tokens.last().kind == TokenKind::Indent {
            before + 1
        } else if tokens.last().kind == TokenKind::Dedent {
            if before == 0 {
                0
            } else {
                before - 1
            }
        } else {
            before
        }
    }
}

/// The scopes kept after a dedent are a prefix of the open ones, the last of them no deeper than
/// `depth`.
proof fn lemma_pop_deeper(scopes: Seq<ScopeFrame>, depth: u32)
    ensures
        pop_deeper(scopes, depth).len() <= scopes.len(),
        pop_deeper(scopes, depth) == scopes.take(pop_deeper(scopes, depth).len() as int),
        pop_deeper(scopes, depth).len() > 0 ==> pop_deeper(scopes, depth).last().depth <= depth,
    decreases scopes.len(),
{
    if scopes.len() > 0 && scopes.last().depth > depth {
        lemma_pop_deeper(scopes.drop_last(), depth);
        let kept = pop_deeper(scopes.drop_last(), depth);
        assert(scopes.drop_last().take(kept.len() as int) =~= scopes.take(kept.len() as int));
    } else {
        assert(scopes.take(scopes.len() as int) =~= scopes);
    }
}

/// A code token read by a body keeps its first statement's indentation at its line start.
proof fn lemma_body_after_indent(body: FunctionBody, token: Token, src: Seq<u8>)
    requires
        token.start <= src.len(),
        body.first_statement_start matches Some(f) ==> body.indent_start == line_start_at(
            src,
            f as int,
        ),
    ensures
        body.after(token, src).first_statement_start matches Some(f) ==> body.after(
            token,
            src,
        ).indent_start == line_start_at(src, f as int),
        body.after(token, src).suite == body.suite,
{
    lemma_line_start(src, token.start as int);
}

/// One token keeps the invariant of the pass.
pub proof fn lemma_step_keeps_invariant(state: CollectorState, token: Token, src: Seq<u8>)
    requires
        pass_invariant(src, state),
        state.depth < u32::MAX,
        token.start <= src.len(),
    ensures
        pass_invariant(src, state.step(token, src)),
{
    let s = state.with_indentation_of(token.kind);
    if token.kind == TokenKind::Dedent {
        lemma_pop_deeper(state.scopes, s.depth);
        let kept = s.scopes;
        assert forall|i: int| #![trigger kept[i]] 0 <= i < kept.len() implies 1 <= kept[i].depth
            <= s.depth by {
            assert(kept[i] == state.scopes[i]);
            assert(kept[i].depth <= kept.last().depth) by {
                if i < kept.len() - 1 {
                    assert(kept.last() == state.scopes[kept.len() - 1]);
                }
            }
        }
        assert forall|i: int, j: int|
            #![trigger kept[i], kept[j]]
            0 <= i < j < kept.len() implies kept[i].depth < kept[j].depth by {
            assert(kept[i] == state.scopes[i] && kept[j] == state.scopes[j]);
        }
    }
    assert(scopes_nested(s));
    if s.body is Some {
        let body = s.body->0;
        if !body.ends_at(token, s.depth) {
            lemma_body_after_indent(body, token, src);
            if let FunctionSuite::Indented { depth } = body.suite {
                assert(token.kind == TokenKind::Dedent ==> s.depth + 1 >= depth);
            }
        }
    } else if token.kind != TokenKind::Dedent && s.pending is Some {
        let p = s.pending->0;
        if p.kind == PendingSuiteKind::Undetermined && p.action == SuiteAction::Prune {
            lemma_body_after_indent(FunctionBody::opened(FunctionSuite::Inline), token, src);
        }
        if p.kind == PendingSuiteKind::Indented && token.kind == TokenKind::Indent {
            let next = s.start_indented(p.action);
            if let SuiteAction::Enter(scope) = p.action {
                assert forall|i: int| #![trigger next.scopes[i]] 0 <= i < next.scopes.len() implies 1
                    <= next.scopes[i].depth <= next.depth by {
                    if i < s.scopes.len() {
                        assert(next.scopes[i] == s.scopes[i]);
                    }
                }
                assert forall|i: int, j: int|
                    #![trigger next.scopes[i], next.scopes[j]]
                    0 <= i < j < next.scopes.len() implies next.scopes[i].depth
                        < next.scopes[j].depth by {
                    assert(next.scopes[i] == s.scopes[i]);
                    if j < s.scopes.len() {
                        assert(next.scopes[j] == s.scopes[j]);
                    }
                }
            }
        }
    }
}

/// Every state that the pass reaches over tokens inside the source satisfies its invariant, and
/// its indentation depth counts indents against dedents.
pub proof fn lemma_run_keeps_invariant(src: Seq<u8>, tokens: Seq<Token>)
    requires
        tokens_within(src, tokens),
        tokens.len() < u32::MAX,
    ensures
        pass_invariant(src, run(src, tokens)),
        run(src, tokens).depth == indentation_after(tokens),
        run(src, tokens).depth <= tokens.len(),
    decreases tokens.len(),
{
    if tokens.len() > 0 {
        let rest = tokens.drop_last();
        assert forall|i: int| 0 <= i < rest.len() implies #[trigger] rest[i].start <= rest[i].end
            <= src.len() by {
            assert(rest[i] == tokens[i]);
        }
        lemma_run_keeps_invariant(src, rest);
        assert(tokens[tokens.len() - 1].start <= tokens[tokens.len() - 1].end <= src.len());
        lemma_step_keeps_invariant(run(src, rest), tokens.last(), src);
    }
}

/// Each collected edit's indentation runs from the start of its first statement's line.
pub proof fn lemma_collected_indents_start_lines(src: Seq<u8>, tokens: Seq<Token>)
    requires
        tokens_within(src, tokens),
        tokens.len() < u32::MAX,
    ensures
        forall|k: int|
            #![trigger collected_edits(src, tokens)[k]]
            0 <= k < collected_edits(src, tokens).len() ==> collected_edits(src, tokens)[k].indent_start
                == line_start_at(src, collected_edits(src, tokens)[k].indent_end as int),
{
    lemma_run_keeps_invariant(src, tokens);
    let state = run(src, tokens);
    let edits = collected_edits(src, tokens);
    assert forall|k: int| #![trigger edits[k]] 0 <= k < edits.len() implies edits[k].indent_start
        == line_start_at(src, edits[k].indent_end as int) by {
        if k < state.edits.len() {
            assert(edits[k] == state.edits[k]);
        }
    }
}

/// A token either leaves the edits found so far as they are or appends one edit to them.
pub proof fn lemma_step_appends_edits(state: CollectorState, token: Token, src: Seq<u8>)
    ensures
        state.edits.len() <= state.step(token, src).edits.len() <= state.edits.len() + 1,
        state.step(token, src).edits.take(state.edits.len() as int) == state.edits,
{
    let next = state.step(token, src);
    assert(next.edits.take(state.edits.len() as int) =~= state.edits);
}

/// Tokens in source order: each ends before the next one starts, and every token that carries
/// code (not layout, a newline or `;`) covers at least one byte.
pub open spec fn tokens_in_order(tokens: Seq<Token>) -> bool {
    &&& forall|i: int, j: int|
        0 <= i < j < tokens.len() ==> #[trigger] tokens[i].end <= #[trigger] tokens[j].start
    &&& forall|i: int| 0 <= i < tokens.len() ==> #[trigger] tokens[i].start <= tokens[i].end
    &&& forall|i: int|
        0 <= i < tokens.len() && is_code(#[trigger] tokens[i].kind) ==> tokens[i].start
            < tokens[i].end
}

/// The edits lie before `bound`, each after the ones before it with a gap, each with its
/// implementation after the start of its first statement.
pub open spec fn edits_in_order(edits: Seq<BodyEdit>, bound: int) -> bool {
    &&& forall|k: int|
        #![trigger edits[k]]
        0 <= k < edits.len() ==> edits[k].indent_end <= edits[k].start < edits[k].end <= bound
    &&& forall|k: int, l: int|
        #![trigger edits[k], edits[l]]
        0 <= k < l < edits.len() ==> edits[k].end < edits[l].start
}

/// An open body whose recorded offsets lie before `bound` and after every edit found so far.
pub open spec fn body_in_order(body: FunctionBody, edits: Seq<BodyEdit>, bound: int) -> bool {
    &&& (body.first_statement_start matches Some(f) ==> {
        &&& forall|k: int| #![trigger edits[k]] 0 <= k < edits.len() ==> edits[k].end < f
        &&& body.last_code_end matches Some(y) && f < y
    })
    &&& (body.first_statement_start is None ==> body.edit_start is None)
    &&& (body.edit_start matches Some(x) ==> {
        &&& body.first_statement_start matches Some(f) && f <= x
        &&& body.last_code_end matches Some(y) && x < y
    })
    &&& (body.last_code_end matches Some(y) ==> y <= bound)
}

/// The state of a pass that has read tokens in order up to `bound`: while a header, a pending
/// suite or a body is open, every edit found so far ends before `bound`.
pub open spec fn state_in_order(state: CollectorState, bound: int) -> bool {
    &&& edits_in_order(state.edits, bound)
    &&& (state.header is Some || state.pending is Some || state.body is Some) ==> forall|k: int|
        #![trigger state.edits[k]]
        0 <= k < state.edits.len() ==> state.edits[k].end < bound
    &&& (state.body matches Some(b) ==> body_in_order(b, state.edits, bound))
}

/// At most one of a header, a pending suite and a body is open after any token.
pub proof fn lemma_run_at_most_one_open(src: Seq<u8>, tokens: Seq<Token>)
    ensures
        at_most_one_open(run(src, tokens)),
    decreases tokens.len(),
{
    if tokens.len() > 0 {
        lemma_run_at_most_one_open(src, tokens.drop_last());
    }
}

/// A code token keeps an open body in order.
proof fn lemma_body_after_in_order(
    body: FunctionBody,
    token: Token,
    src: Seq<u8>,
    edits: Seq<BodyEdit>,
    bound: int,
)
    requires
        body_in_order(body, edits, bound),
        forall|k: int| #![trigger edits[k]] 0 <= k < edits.len() ==> edits[k].end < bound,
        bound <= token.start <= token.end,
        is_code(token.kind) ==> token.start < token.end,
    ensures
        body_in_order(body.after(token, src), edits, token.end as int),
{
}

/// An open body turns into an edit that keeps the edits in order.
proof fn lemma_body_edit_in_order(body: FunctionBody, edits: Seq<BodyEdit>, bound: int)
    requires
        body_in_order(body, edits, bound),
        edits_in_order(edits, bound),
    ensures
        body.edit() matches Some(edit) ==> edits_in_order(edits.push(edit), bound),
{
    if let Some(edit) = body.edit() {
        let pushed = edits.push(edit);
        assert forall|k: int, l: int|
            #![trigger pushed[k], pushed[l]]
            0 <= k < l < pushed.len() implies pushed[k].end < pushed[l].start by {
            if l < edits.len() {
                assert(pushed[k] == edits[k] && pushed[l] == edits[l]);
            } else {
                assert(pushed[k] == edits[k]);
            }
        }
        assert forall|k: int| #![trigger pushed[k]] 0 <= k < pushed.len() implies pushed[k].indent_end
            <= pushed[k].start < pushed[k].end <= bound by {
            if k < edits.len() {
                assert(pushed[k] == edits[k]);
            }
        }
    }
}

/// A token read in order keeps the pass in order.
proof fn lemma_step_in_order(state: CollectorState, token: Token, src: Seq<u8>, bound: int)
    requires
        state_in_order(state, bound),
        at_most_one_open(state),
        bound <= token.start <= token.end,
        is_code(token.kind) ==> token.start < token.end,
    ensures
        state_in_order(state.step(token, src), token.end as int),
{
    let s = state.with_indentation_of(token.kind);
    assert(s.edits == state.edits && s.body == state.body && s.header == state.header
        && s.pending == state.pending);
    if s.body is Some {
        let body = s.body->0;
        if body.ends_at(token, s.depth) {
            lemma_body_edit_in_order(body, s.edits, bound);
        } else {
            lemma_body_after_in_order(body, token, src, s.edits, bound);
        }
    } else if token.kind != TokenKind::Dedent && s.pending is Some {
        let p = s.pending->0;
        if p.kind == PendingSuiteKind::Undetermined && token.kind != TokenKind::Newline
            && token.kind != TokenKind::Comment && token.kind != TokenKind::NonLogicalNewline
            && p.action == SuiteAction::Prune {
            lemma_body_after_in_order(
                FunctionBody::opened(FunctionSuite::Inline),
                token,
                src,
                s.edits,
                bound,
            );
        }
    } else if token.kind != TokenKind::Dedent && s.header is None && (token.kind
        == TokenKind::Class || token.kind == TokenKind::Def) {
        assert(is_code(token.kind));
    }
}

/// The pass over the first `n` tokens is in order up to the end of the last of them.
pub proof fn lemma_run_in_order(src: Seq<u8>, tokens: Seq<Token>, n: int)
    requires
        tokens_in_order(tokens),
        0 <= n <= tokens.len(),
    ensures
        state_in_order(
            run(src, tokens.take(n)),
            if n == 0 {
                0
            } else {
                tokens[n - 1].end as int
            },
        ),
    decreases n,
{
    if n > 0 {
        lemma_run_in_order(src, tokens, n - 1);
        lemma_run_at_most_one_open(src, tokens.take(n - 1));
        assert(tokens.take(n).drop_last() =~= tokens.take(n - 1));
        assert(tokens.take(n).last() == tokens[n - 1]);
        let bound = if n == 1 {
            0
        } else {
            tokens[n - 2].end as int
        };
        if n > 1 {
            assert(tokens[n - 2].end <= tokens[n - 1].start);
        }
        assert(tokens[n - 1].start <= tokens[n - 1].end);
        lemma_step_in_order(run(src, tokens.take(n - 1)), tokens[n - 1], src, bound);
    }
}

/// Edits come in source order: for tokens in order, each collected edit starts at or after the
/// start of its first statement and ends after it starts, and each starts after the previous one
/// has ended.
pub proof fn lemma_collected_edits_in_order(src: Seq<u8>, tokens: Seq<Token>)
    requires
        tokens_in_order(tokens),
    ensures
        forall|k: int|
            #![trigger collected_edits(src, tokens)[k]]
            0 <= k < collected_edits(src, tokens).len() ==> collected_edits(src, tokens)[k].indent_end
                <= collected_edits(src, tokens)[k].start < collected_edits(src, tokens)[k].end,
        forall|k: int, l: int|
            #![trigger collected_edits(src, tokens)[k], collected_edits(src, tokens)[l]]
            0 <= k < l < collected_edits(src, tokens).len() ==> collected_edits(src, tokens)[k].end
                < collected_edits(src, tokens)[l].start && collected_edits(src, tokens)[k].start
                < collected_edits(src, tokens)[l].start,
{
    let n = tokens.len() as int;
    lemma_run_in_order(src, tokens, n);
    assert(tokens.take(n) =~= tokens);
    let state = run(src, tokens);
    let bound = if n == 0 {
        0
    } else {
        tokens[n - 1].end as int
    };
    if let Some(body) = state.body {
        lemma_body_edit_in_order(body, state.edits, bound);
    }
    let edits = collected_edits(src, tokens);
    assert(edits_in_order(edits, bound));
}

/// The state after reading `tokens` from `state`.
pub open spec fn run_from(state: CollectorState, src: Seq<u8>, tokens: Seq<Token>) -> CollectorState
    decreases tokens.len(),
{
    if tokens.len() == 0 {
        state
    } else {
        run_from(state, src, tokens.drop_last()).step(tokens.last(), src)
    }
}

/// Reading `first` and then `rest` from the start is reading `rest` from where `first` left the
/// pass.
pub proof fn lemma_run_split(src: Seq<u8>, first: Seq<Token>, rest: Seq<Token>)
    ensures
        run(src, first + rest) == run_from(run(src, first), src, rest),
    decreases rest.len(),
{
    if rest.len() == 0 {
        assert(first + rest =~= first);
    } else {
        lemma_run_split(src, first, rest.drop_last());
        assert((first + rest).drop_last() =~= first + rest.drop_last());
        assert((first + rest).last() == rest.last());
    }
}

/// The indentation depth reached from `depth` after `tokens`: one more per indent, one less per
/// dedent, never below 0.
pub open spec fn depth_after(depth: int, tokens: Seq<Token>) -> int
    decreases tokens.len(),
{
    if tokens.len() == 0 {
        depth
    } else {
        let before = depth_after(depth, tokens.drop_last());
        if tokens.last().kind == TokenKind::Indent {
            before + 1
        } else if tokens.last().kind == TokenKind::Dedent {
            if before == 0 {
                0
            } else {
                before - 1
            }
        } else {
            before
        }
    }
}

/// Whether reading `tokens` from indentation depth `from` never brings the indentation below
/// `depth`, after any of them.
pub open spec fn stays_at_or_deeper(from: int, tokens: Seq<Token>, depth: int) -> bool {
    forall|k: int| 0 <= k <= tokens.len() ==> #[trigger] depth_after(from, tokens.take(k)) >= depth
}

/// An indented suite that is being pruned stays open as long as the indentation does not go
/// below the depth of its statements: from a state with such a suite open at `depth`, tokens that
/// never bring the indentation below `depth` (nested blocks and the dedents that end them
/// included) leave the suite open, add no edit, and move the end of the implementation to the
/// last code token among them.
pub proof fn lemma_indented_suite_stays_open(
    state: CollectorState,
    src: Seq<u8>,
    tokens: Seq<Token>,
    depth: u32,
)
    requires
        state.body is Some,
        state.body->0.suite == (FunctionSuite::Indented { depth }),
        state.depth + tokens.len() < u32::MAX,
        stays_at_or_deeper(state.depth as int, tokens, depth as int),
    ensures
        run_from(state, src, tokens).body == Some(read_body(state.body->0, tokens, src)),
        run_from(state, src, tokens).body->0.suite == (FunctionSuite::Indented { depth }),
        run_from(state, src, tokens).edits == state.edits,
        run_from(state, src, tokens).depth == depth_after(state.depth as int, tokens),
        0 <= depth_after(state.depth as int, tokens) <= state.depth + tokens.len(),
        run_from(state, src, tokens).body->0.last_code_end == (match last_code_token(tokens) {
            Some(code) => Some(code.end),
            None => state.body->0.last_code_end,
        }),
    decreases tokens.len(),
{
    if tokens.len() > 0 {
        let rest = tokens.drop_last();
        assert forall|k: int| 0 <= k <= rest.len() implies #[trigger] depth_after(
            state.depth as int,
            rest.take(k),
        ) >= depth by {
            assert(rest.take(k) =~= tokens.take(k));
        }
        lemma_indented_suite_stays_open(state, src, rest, depth);
        assert(tokens.take(tokens.len() as int) =~= tokens);
        assert(depth_after(state.depth as int, tokens.take(tokens.len() as int)) >= depth);
    }
}

/// An indented suite that is being pruned closes at the first dedent that brings the indentation
/// below the depth of its statements: after tokens that keep the indentation at `depth` or
/// deeper and end at `depth`, a dedent closes the suite and appends the edit of the suite as it
/// stood before that dedent.
pub proof fn lemma_indented_suite_closes_below_depth(
    state: CollectorState,
    src: Seq<u8>,
    tokens: Seq<Token>,
    dedent: Token,
    depth: u32,
)
    requires
        state.body is Some,
        state.body->0.suite == (FunctionSuite::Indented { depth }),
        state.depth + tokens.len() < u32::MAX,
        stays_at_or_deeper(state.depth as int, tokens, depth as int),
        depth_after(state.depth as int, tokens) == depth,
        1 <= depth,
        dedent.kind == TokenKind::Dedent,
    ensures
        run_from(state, src, tokens.push(dedent)).body is None,
        run_from(state, src, tokens.push(dedent)).edits == (match read_body(
            state.body->0,
            tokens,
            src,
        ).edit() {
            Some(edit) => state.edits.push(edit),
            None => state.edits,
        }),
{
    lemma_indented_suite_stays_open(state, src, tokens, depth);
    assert(tokens.push(dedent).drop_last() =~= tokens);
}

/// Comments and non-logical newlines change nothing in the pass, whatever its state: in
/// particular one after a suite colon leaves that suite pending.
pub proof fn lemma_layout_token_changes_nothing(state: CollectorState, token: Token, src: Seq<u8>)
    requires
        token.kind == TokenKind::Comment || token.kind == TokenKind::NonLogicalNewline,
    ensures
        state.step(token, src) == state,
{
}

/// A comment or non-logical newline anywhere in the tokens, after the colon of a `def`
/// included, changes no edit: the pass reaches the same state, and finds the same edits, with
/// or without it.
pub proof fn lemma_layout_token_changes_no_edit(
    src: Seq<u8>,
    before: Seq<Token>,
    token: Token,
    after: Seq<Token>,
)
    requires
        token.kind == TokenKind::Comment || token.kind == TokenKind::NonLogicalNewline,
    ensures
        run(src, before.push(token) + after) == run(src, before + after),
        collected_edits(src, before.push(token) + after) == collected_edits(src, before + after),
{
    lemma_run_split(src, before.push(token), after);
    lemma_run_split(src, before, after);
    assert(before.push(token).drop_last() =~= before);
    lemma_layout_token_changes_nothing(run(src, before), token, src);
}

/// An inline suite that is being pruned reads every token up to the newline that ends its
/// logical line, and that newline closes it: tokens without a logical newline leave it open and
/// add no edit; a newline after them closes it and appends the edit of the suite as it read them.
pub proof fn lemma_inline_suite_closes_at_newline(
    state: CollectorState,
    src: Seq<u8>,
    tokens: Seq<Token>,
    newline: Token,
)
    requires
        state.body is Some,
        state.body->0.suite == FunctionSuite::Inline,
        forall|i: int| 0 <= i < tokens.len() ==> #[trigger] tokens[i].kind != TokenKind::Newline,
        newline.kind == TokenKind::Newline,
    ensures
        run_from(state, src, tokens).body == Some(read_body(state.body->0, tokens, src)),
        run_from(state, src, tokens).edits == state.edits,
        run_from(state, src, tokens.push(newline)).body is None,
        run_from(state, src, tokens.push(newline)).edits == (match read_body(
            state.body->0,
            tokens,
            src,
        ).edit() {
            Some(edit) => state.edits.push(edit),
            None => state.edits,
        }),
    decreases tokens.len(),
{
    if tokens.len() > 0 {
        let rest = tokens.drop_last();
        assert forall|i: int| 0 <= i < rest.len() implies #[trigger] rest[i].kind
            != TokenKind::Newline by {
            assert(rest[i] == tokens[i]);
        }
        lemma_inline_suite_closes_at_newline(state, src, rest, newline);
        assert(tokens[tokens.len() - 1].kind != TokenKind::Newline);
        crate::body::lemma_read_body_keeps(state.body->0, rest, src);
    }
    assert(tokens.push(newline).drop_last() =~= tokens);
    crate::body::lemma_read_body_keeps(state.body->0, tokens, src);
}

/// Tokens that are all comments, logical or non-logical newlines.
pub open spec fn blank_tokens(tokens: Seq<Token>) -> bool {
    forall|i: int|
        0 <= i < tokens.len() ==> (#[trigger] tokens[i].kind == TokenKind::Comment
            || tokens[i].kind == TokenKind::NonLogicalNewline || tokens[i].kind
            == TokenKind::Newline)
}

/// Reading blank tokens while a suite is pending for its indent changes nothing.
proof fn lemma_blank_keeps_pending_indented(state: CollectorState, src: Seq<u8>, tokens: Seq<Token>)
    requires
        state.body is None,
        state.pending matches Some(p) && p.kind == PendingSuiteKind::Indented,
        blank_tokens(tokens),
    ensures
        run_from(state, src, tokens) == state,
    decreases tokens.len(),
{
    if tokens.len() > 0 {
        let rest = tokens.drop_last();
        assert forall|i: int| 0 <= i < rest.len() implies (#[trigger] rest[i].kind
            == TokenKind::Comment || rest[i].kind == TokenKind::NonLogicalNewline || rest[i].kind
            == TokenKind::Newline) by {
            assert(rest[i] == tokens[i]);
        }
        lemma_blank_keeps_pending_indented(state, src, rest);
        let last = tokens[tokens.len() - 1];
        assert(last.kind == TokenKind::Comment || last.kind == TokenKind::NonLogicalNewline
            || last.kind == TokenKind::Newline);
    }
}

/// Reading comments and non-logical newlines changes nothing.
proof fn lemma_read_layout_tokens(state: CollectorState, src: Seq<u8>, tokens: Seq<Token>)
    requires
        forall|i: int|
            0 <= i < tokens.len() ==> (#[trigger] tokens[i].kind == TokenKind::Comment
                || tokens[i].kind == TokenKind::NonLogicalNewline),
    ensures
        run_from(state, src, tokens) == state,
    decreases tokens.len(),
{
    if tokens.len() > 0 {
        let rest = tokens.drop_last();
        assert forall|i: int| 0 <= i < rest.len() implies (#[trigger] rest[i].kind
            == TokenKind::Comment || rest[i].kind == TokenKind::NonLogicalNewline) by {
            assert(rest[i] == tokens[i]);
        }
        lemma_read_layout_tokens(state, src, rest);
        lemma_layout_token_changes_nothing(state, tokens[tokens.len() - 1], src);
    }
}

/// Reading `first` and then `rest` from `state` is reading `rest` from where `first` left it.
proof fn lemma_run_from_split(state: CollectorState, src: Seq<u8>, first: Seq<Token>, rest: Seq<Token>)
    ensures
        run_from(state, src, first + rest) == run_from(run_from(state, src, first), src, rest),
    decreases rest.len(),
{
    if rest.len() == 0 {
        assert(first + rest =~= first);
    } else {
        lemma_run_from_split(state, src, first, rest.drop_last());
        assert((first + rest).drop_last() =~= first + rest.drop_last());
    }
}

/// A suite whose colon ends its line is an indented block: after the colon, comments, the
/// newline, blank lines and the indent, a pruned suite is open at the new depth, and an entered
/// suite is a new scope at that depth; no edit is found on the way.
pub proof fn lemma_suite_after_colon_is_indented(
    state: CollectorState,
    src: Seq<u8>,
    comments: Seq<Token>,
    newline: Token,
    blank: Seq<Token>,
    indent: Token,
    action: SuiteAction,
)
    requires
        state.body is None,
        state.pending == Some(PendingSuite { action, kind: PendingSuiteKind::Undetermined }),
        state.depth < u32::MAX,
        forall|i: int|
            0 <= i < comments.len() ==> (#[trigger] comments[i].kind == TokenKind::Comment
                || comments[i].kind == TokenKind::NonLogicalNewline),
        newline.kind == TokenKind::Newline,
        blank_tokens(blank),
        indent.kind == TokenKind::Indent,
    ensures
        ({
            let end = run_from(state, src, comments + seq![newline] + blank + seq![indent]);
            &&& end.pending is None
            &&& end.depth == state.depth + 1
            &&& end.edits == state.edits
            &&& end.header == state.header
            &&& match action {
                SuiteAction::Prune => end.body == Some(
                    FunctionBody::opened(FunctionSuite::Indented { depth: (state.depth + 1) as u32 }),
                ) && end.scopes == state.scopes,
                SuiteAction::Enter(scope) => end.body is None && end.scopes == state.scopes.push(
                    ScopeFrame { scope, depth: (state.depth + 1) as u32 },
                ),
            }
        }),
{
    lemma_read_layout_tokens(state, src, comments);
    lemma_run_from_split(state, src, comments, seq![newline]);
    assert(seq![newline].drop_last() =~= Seq::<Token>::empty());
    let after_newline = run_from(state, src, comments + seq![newline]);
    assert(after_newline == state.step(newline, src)) by {
        reveal_with_fuel(run_from, 2);
    }
    lemma_blank_keeps_pending_indented(after_newline, src, blank);
    lemma_run_from_split(state, src, comments + seq![newline], blank);
    lemma_run_from_split(state, src, comments + seq![newline] + blank, seq![indent]);
    assert(seq![indent].drop_last() =~= Seq::<Token>::empty());
    assert(run_from(after_newline, src, seq![indent]) == after_newline.step(indent, src)) by {
        reveal_with_fuel(run_from, 2);
    }
}

/// A suite that follows its colon on the same line is read up to its logical newline: after the
/// colon of a pruned `def`, comments and non-logical newlines, a first code token and tokens
/// without a logical newline, the newline appends the edit of a suite that read exactly those
/// tokens.
pub proof fn lemma_inline_suite_after_colon(
    state: CollectorState,
    src: Seq<u8>,
    comments: Seq<Token>,
    first: Token,
    tokens: Seq<Token>,
    newline: Token,
)
    requires
        state.body is None,
        state.pending == Some(
            PendingSuite { action: SuiteAction::Prune, kind: PendingSuiteKind::Undetermined },
        ),
        forall|i: int|
            0 <= i < comments.len() ==> (#[trigger] comments[i].kind == TokenKind::Comment
                || comments[i].kind == TokenKind::NonLogicalNewline),
        is_code(first.kind),
        forall|i: int| 0 <= i < tokens.len() ==> #[trigger] tokens[i].kind != TokenKind::Newline,
        newline.kind == TokenKind::Newline,
    ensures
        run_from(state, src, comments + seq![first] + tokens + seq![newline]).body is None,
        run_from(state, src, comments + seq![first] + tokens + seq![newline]).edits == (match read_body(
            FunctionBody::opened(FunctionSuite::Inline),
            seq![first] + tokens,
            src,
        ).edit() {
            Some(edit) => state.edits.push(edit),
            None => state.edits,
        }),
{
    lemma_read_layout_tokens(state, src, comments);
    lemma_run_from_split(state, src, comments, seq![first]);
    assert(seq![first].drop_last() =~= Seq::<Token>::empty());
    let at_first = run_from(state, src, comments + seq![first]);
    assert(at_first == state.step(first, src)) by {
        reveal_with_fuel(run_from, 2);
    }
    let opened = FunctionBody::opened(FunctionSuite::Inline);
    assert(at_first.body == Some(opened.after(first, src)));
    assert(read_body(opened, seq![first], src) == opened.after(first, src)) by {
        reveal_with_fuel(read_body, 2);
    }
    crate::body::lemma_read_body_split(opened, seq![first], tokens, src);
    lemma_inline_suite_closes_at_newline(at_first, src, tokens, newline);
    lemma_run_from_split(state, src, comments + seq![first], tokens.push(newline));
    assert(comments + seq![first] + tokens + seq![newline] =~= (comments + seq![first]) + tokens.push(
        newline,
    ));
}

/// A dedent closes exactly the scopes whose statements are deeper than the new indentation: for
/// nested scopes, the scopes left after it are the open ones that lie at the new depth or
/// shallower, in order.
pub proof fn lemma_dedent_closes_deeper_scopes(state: CollectorState, dedent: Token, src: Seq<u8>)
    requires
        scopes_nested(state),
        dedent.kind == TokenKind::Dedent,
    ensures
        ({
            let next = state.step(dedent, src);
            &&& next.scopes.len() <= state.scopes.len()
            &&& forall|i: int| 0 <= i < next.scopes.len() ==> #[trigger] next.scopes[i] == state.scopes[i]
            &&& forall|i: int|
                0 <= i < state.scopes.len() ==> (#[trigger] state.scopes[i].depth <= next.depth
                    <==> i < next.scopes.len())
        }),
{
    let s = state.with_indentation_of(dedent.kind);
    lemma_pop_deeper(state.scopes, s.depth);
    lemma_pop_deeper_removes(state.scopes, s.depth);
    let kept = s.scopes;
    assert forall|i: int| 0 <= i < kept.len() implies #[trigger] kept[i] == state.scopes[i] by {
        assert(kept == state.scopes.take(kept.len() as int));
    }
    assert forall|i: int| 0 <= i < state.scopes.len() implies (#[trigger] state.scopes[i].depth
        <= s.depth <==> i < kept.len()) by {
        if i < kept.len() {
            assert(kept[i] == state.scopes[i]);
            assert(kept.last() == state.scopes[kept.len() - 1]);
            if i < kept.len() - 1 {
                assert(state.scopes[i].depth < state.scopes[kept.len() - 1].depth);
            }
        }
    }
}

/// The frames that a dedent to `depth` closes are deeper than `depth`.
proof fn lemma_pop_deeper_removes(scopes: Seq<ScopeFrame>, depth: u32)
    ensures
        forall|i: int|
            pop_deeper(scopes, depth).len() <= i < scopes.len() ==> #[trigger] scopes[i].depth
                > depth,
    decreases scopes.len(),
{
    if scopes.len() > 0 && scopes.last().depth > depth {
        lemma_pop_deeper_removes(scopes.drop_last(), depth);
        assert forall|i: int| pop_deeper(scopes, depth).len() <= i < scopes.len() implies #[trigger] scopes[i].depth
            > depth by {
            if i < scopes.len() - 1 {
                assert(scopes[i] == scopes.drop_last()[i]);
            }
        }
    }
}

/// A `def` or `class` outside any header, pending suite or pruned body starts a header whose
/// parent is the innermost open scope: the scope of the last entered suite still open, or the
/// module when none is.
pub proof fn lemma_definition_in_innermost_scope(state: CollectorState, keyword: Token, src: Seq<u8>)
    requires
        state.body is None,
        state.pending is None,
        state.header is None,
        keyword.kind == TokenKind::Def || keyword.kind == TokenKind::Class,
    ensures
        state.step(keyword, src).header == Some(
            DefinitionHeader::opened(
                if keyword.kind == TokenKind::Def {
                    DefinitionKind::Function
                } else {
                    DefinitionKind::Class
                },
                if state.scopes.len() == 0 {
                    Scope::Module
                } else {
                    state.scopes[state.scopes.len() - 1].scope
                },
            ),
        ),
        state.step(keyword, src).scopes == state.scopes,
        state.step(keyword, src).edits == state.edits,
{
}

/// The pass over the tokens of a source.
pub struct BodyCollector<'a> {
    pub source: &'a [u8],
    pub indentation_depth: u32,
    pub scopes: Vec<ScopeFrame>,
    pub header: Option<DefinitionHeader>,
    pub pending_suite: Option<PendingSuite>,
    pub function_body: Option<FunctionBody>,
    pub edits: Vec<BodyEdit>,
}

impl<'a> View for BodyCollector<'a> {
    type V = CollectorState;

    open spec fn view(&self) -> CollectorState {
        CollectorState {
            depth: self.indentation_depth,
            scopes: self.scopes@,
            header: self.header,
            pending: self.pending_suite,
            body: self.function_body,
            edits: self.edits@,
        }
    }
}

/// Closes the scopes whose statements are deeper than `depth`.
pub fn pop_frames_deeper(scopes: &mut Vec<ScopeFrame>, depth: u32)
    ensures
        final(scopes)@ == pop_deeper(old(scopes)@, depth),
{
    while scopes.len() > 0 && scopes[scopes.len() - 1].depth > depth
        invariant
            pop_deeper(scopes@, depth) == pop_deeper(old(scopes)@, depth),
        decreases scopes@.len(),
    {
        let _ = scopes.pop();
    }
}

impl<'a> BodyCollector<'a> {
    /// A pass that has read no token of `source`.
    pub fn new(source: &'a [u8]) -> (collector: Self)
        ensures
            collector@ == CollectorState::initial(),
            collector.source == source,
    {
        BodyCollector {
            source,
            indentation_depth: 0,
            scopes: Vec::new(),
            header: None,
            pending_suite: None,
            function_body: None,
            edits: Vec::new(),
        }
    }

    /// Returns the innermost open scope.
    pub fn current_scope(&self) -> (scope: Scope)
        ensures
            scope == self@.scope(),
    {
        if self.scopes.len() == 0 {
            Scope::Module
        } else {
            self.scopes[self.scopes.len() - 1].scope
        }
    }

    /// Consumes the next token.
    pub fn consume(&mut self, token: Token)
        requires
            token.start <= token.end <= old(self).source@.len(),
            old(self)@.counters_below(u32::MAX - 1),
        ensures
            final(self)@ == old(self)@.step(token, old(self).source@),
            final(self).source == old(self).source,
            old(self)@.edits.len() <= final(self)@.edits.len() <= old(self)@.edits.len() + 1,
            final(self)@.edits.take(old(self)@.edits.len() as int) == old(self)@.edits,
            pass_invariant(old(self).source@, old(self)@) ==> pass_invariant(
                old(self).source@,
                final(self)@,
            ),
    {
        proof {
            lemma_step_appends_edits(self@, token, self.source@);
            if pass_invariant(self.source@, self@) {
                lemma_step_keeps_invariant(self@, token, self.source@);
            }
        }
        let kind = token.kind;
        if kind == TokenKind::Indent {
            self.indentation_depth = self.indentation_depth + 1;
        } else if kind == TokenKind::Dedent {
            self.indentation_depth = self.indentation_depth.saturating_sub(1);
            pop_frames_deeper(&mut self.scopes, self.indentation_depth);
        }
        if let Some(body) = self.function_body {
            if body.closes_at(token, self.indentation_depth) {
                self.function_body = None;
                if let Some(edit) = body.into_edit() {
                    self.edits.push(edit);
                }
            } else {
                let mut body = body;
                body.consume(token, self.source);
                self.function_body = Some(body);
            }
            return;
        }
        if kind == TokenKind::Dedent {
            return;
        }
        if let Some(pending) = self.pending_suite {
            self.pending_suite = None;
            match pending.kind {
                PendingSuiteKind::Undetermined => {
                    if kind == TokenKind::Newline {
                        self.pending_suite = Some(
                            PendingSuite { kind: PendingSuiteKind::Indented, ..pending },
                        );
                    } else if kind == TokenKind::Comment || kind == TokenKind::NonLogicalNewline {
                        self.pending_suite = Some(pending);
                    } else {
                        self.start_inline_suite(pending.action, token);
                    }
                },
                PendingSuiteKind::Indented => {
                    if kind == TokenKind::Indent {
                        self.start_indented_suite(pending.action);
                    } else if kind == TokenKind::Comment || kind == TokenKind::Newline || kind
                        == TokenKind::NonLogicalNewline {
                        self.pending_suite = Some(pending);
                    }
                },
            }
            return;
        }
        if let Some(header) = self.header {
            let mut header = header;
            if header.advance(token, self.source) {
                let action = header.suite_action();
                self.header = None;
                self.pending_suite = Some(PendingSuite::new(action));
            } else {
                self.header = Some(header);
            }
            return;
        }
        if kind == TokenKind::Class {
            self.header = Some(DefinitionHeader::new(DefinitionKind::Class, self.current_scope()));
        } else if kind == TokenKind::Def {
            self.header = Some(
                DefinitionHeader::new(DefinitionKind::Function, self.current_scope()),
            );
        }
    }

    /// Starts a suite on the line of its colon with `token`, its first token.
    pub fn start_inline_suite(&mut self, action: SuiteAction, token: Token)
        requires
            token.start <= token.end <= old(self).source@.len(),
        ensures
            final(self)@ == old(self)@.start_inline(action, token, old(self).source@),
            final(self).source == old(self).source,
    {
        if action == SuiteAction::Prune {
            let mut body = FunctionBody::new(FunctionSuite::Inline);
            body.consume(token, self.source);
            self.function_body = Some(body);
        }
    }

    /// Starts an indented suite at the current indentation depth.
    pub fn start_indented_suite(&mut self, action: SuiteAction)
        ensures
            final(self)@ == old(self)@.start_indented(action),
            final(self).source == old(self).source,
    {
        match action {
            SuiteAction::Enter(scope) => {
                self.scopes.push(ScopeFrame { scope, depth: self.indentation_depth });
            },
            SuiteAction::Prune => {
                self.function_body = Some(
                    FunctionBody::new(FunctionSuite::Indented { depth: self.indentation_depth }),
                );
            },
        }
    }

    /// Ends the pass and returns the edits found.
    pub fn finish(self) -> (edits: Vec<BodyEdit>)
        ensures
            edits@ == self@.finished(),
    {
        let mut edits = self.edits;
        if let Some(body) = self.function_body {
            if let Some(edit) = body.into_edit() {
                edits.push(edit);
            }
        }
        edits
    }
}

/// Finds the function implementations to prune in `tokens`, the token stream of `source`.
pub fn collect_edits(source: &[u8], tokens: &Vec<Token>) -> (edits: Vec<BodyEdit>)
    requires
        tokens_within(source@, tokens@),
        tokens@.len() < u32::MAX,
    ensures
        edits@ == collected_edits(source@, tokens@),
{
    let mut collector = BodyCollector::new(source);
    let mut i: usize = 0;
    while i < tokens.len()
        invariant
            i <= tokens@.len() < u32::MAX,
            tokens_within(source@, tokens@),
            collector.source == source,
            collector@ == run(source@, tokens@.take(i as int)),
            collector@.counters_below(i as int),
        decreases tokens@.len() - i,
    {
        let token = tokens[i];
        assert(tokens@.take(i + 1).drop_last() =~= tokens@.take(i as int));
        assert(tokens@[i as int].start <= tokens@[i as int].end <= source@.len());
        proof {
            lemma_step_counters(collector@, token, source@, i as int);
        }
        collector.consume(token);
        i = i + 1;
    }
    assert(tokens@.take(i as int) =~= tokens@);
    collector.finish()
}

} // verus!
