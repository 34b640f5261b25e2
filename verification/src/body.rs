//! Reading the suite of a function that is pruned: where its implementation starts and ends.

use crate::text::{line_start, line_start_at};
use crate::token::{Token, TokenKind};
use vstd::prelude::*;

verus! {

/// Whether a pruned suite follows its colon on the same line, or is an indented block whose
/// statements sit at the given indentation depth.
#[derive(Clone, Copy, Debug, PartialEq, Eq, Structural)]
pub enum FunctionSuite {
    Inline,
    Indented { depth: u32 },
}

/// How far the first statement has matched the shape of a docstring: optional opening
/// parentheses, string literals, then the closing parentheses.
#[derive(Clone, Copy, Debug, PartialEq, Eq, Structural)]
pub enum DocstringPhase {
    OpeningParentheses,
    Strings,
    ClosingParentheses,
}

/// A byte range of the source to replace with `pass`: the implementation runs from `start` to
/// `end`; `indent_start..indent_end` is the indentation of the suite's first statement; `inline`
/// tells whether the suite followed its colon on the same line.
#[derive(Clone, Copy, Debug, PartialEq, Eq, Structural)]
pub struct BodyEdit {
    pub start: usize,
    pub end: usize,
    pub indent_start: usize,
    pub indent_end: usize,
    pub inline: bool,
}

/// The state of a pruned suite being read.
#[derive(Clone, Copy, Debug, PartialEq, Eq, Structural)]
pub struct FunctionBody {
    pub suite: FunctionSuite,
    pub first_statement_start: Option<usize>,
    pub indent_start: usize,
    pub candidate_docstring: bool,
    pub saw_string: bool,
    pub docstring_phase: DocstringPhase,
    pub parenthesis_depth: u32,
    pub first_statement_finished: bool,
    pub edit_start: Option<usize>,
    pub last_code_end: Option<usize>,
}

/// Tokens that carry no code: comments, non-logical newlines, indentation and the end of input.
pub open spec fn is_layout(kind: TokenKind) -> bool {
    ||| kind == TokenKind::Comment
    ||| kind == TokenKind::NonLogicalNewline
    ||| kind == TokenKind::Indent
    ||| kind == TokenKind::Dedent
    ||| kind == TokenKind::EndOfFile
}

/// A token that belongs to a statement: neither layout nor a statement separator.
pub open spec fn is_code(kind: TokenKind) -> bool {
    !is_layout(kind) && kind != TokenKind::Newline && kind != TokenKind::Semi
}

impl FunctionBody {
    /// A suite of which no token has been read.
    pub open spec fn opened(suite: FunctionSuite) -> Self {
        FunctionBody {
            suite,
            first_statement_start: None,
            indent_start: 0,
            candidate_docstring: true,
            saw_string: false,
            docstring_phase: DocstringPhase::OpeningParentheses,
            parenthesis_depth: 0,
            first_statement_finished: false,
            edit_start: None,
            last_code_end: None,
        }
    }

    /// An inline suite ends at its logical newline; an indented one at a dedent below its depth.
    pub open spec fn ends_at(self, token: Token, indentation_depth: u32) -> bool {
        match self.suite {
            FunctionSuite::Inline => token.kind == TokenKind::Newline,
            FunctionSuite::Indented { depth } => token.kind == TokenKind::Dedent
                && indentation_depth < depth,
        }
    }

    /// The first statement is a docstring when it is made only of non-byte string literals,
    /// possibly inside balanced parentheses.
    pub open spec fn first_is_docstring(self) -> bool {
        self.candidate_docstring && self.saw_string && self.parenthesis_depth == 0
    }

    /// The start of the implementation, set on the first token that is not part of the docstring.
    pub open spec fn start_edit_at(self, offset: Option<usize>) -> Option<usize> {
        if self.edit_start is None {
            offset
        } else {
            self.edit_start
        }
    }

    /// A code token of the first statement, judged as part of a docstring or not.
    pub open spec fn after_first_statement_token(self, token: Token) -> Self {
        if token.kind == TokenKind::String && !token.byte_string && self.docstring_phase
            != DocstringPhase::ClosingParentheses {
            FunctionBody { saw_string: true, docstring_phase: DocstringPhase::Strings, ..self }
        } else if token.kind == TokenKind::Lpar && self.docstring_phase
            == DocstringPhase::OpeningParentheses {
            FunctionBody { parenthesis_depth: (self.parenthesis_depth + 1) as u32, ..self }
        } else if token.kind == TokenKind::Rpar && self.saw_string && self.parenthesis_depth > 0 {
            FunctionBody {
                parenthesis_depth: (self.parenthesis_depth - 1) as u32,
                docstring_phase: DocstringPhase::ClosingParentheses,
                ..self
            }
        } else {
            FunctionBody {
                candidate_docstring: false,
                edit_start: self.start_edit_at(self.first_statement_start),
                ..self
            }
        }
    }

    /// The suite after `token`. The end of the first statement (a newline or `;`) decides
    /// whether it was a docstring; every code token moves the end of the implementation.
    pub open spec fn after(self, token: Token, src: Seq<u8>) -> Self {
        if is_layout(token.kind) {
            self
        } else if token.kind == TokenKind::Newline || token.kind == TokenKind::Semi {
            if !self.first_statement_finished {
                FunctionBody {
                    first_statement_finished: true,
                    edit_start: if !self.first_is_docstring() {
                        self.start_edit_at(self.first_statement_start)
                    } else {
                        self.edit_start
                    },
                    ..self
                }
            } else {
                self
            }
        } else {
            let started = if self.first_statement_start is None {
                FunctionBody {
                    first_statement_start: Some(token.start),
                    indent_start: line_start_at(src, token.start as int) as usize,
                    ..self
                }
            } else {
                self
            };
            let moved = FunctionBody { last_code_end: Some(token.end), ..started };
            if moved.first_statement_finished {
                FunctionBody { edit_start: moved.start_edit_at(Some(token.start)), ..moved }
            } else {
                moved.after_first_statement_token(token)
            }
        }
    }

    /// The recorded start of the implementation lies between the start of the first statement
    /// and `offset`.
    pub open spec fn offsets_up_to(self, offset: int) -> bool {
        &&& self.first_statement_start matches Some(f) ==> f <= offset
        &&& self.edit_start matches Some(e) ==> (self.first_statement_start matches Some(f) && f
            <= e <= offset)
    }

    /// The edit that prunes this suite, if it holds code beyond a docstring.
    pub open spec fn edit(self) -> Option<BodyEdit> {
        if self.edit_start is Some && self.last_code_end is Some
            && self.first_statement_start is Some {
            Some(
                BodyEdit {
                    start: self.edit_start->0,
                    end: self.last_code_end->0,
                    indent_start: self.indent_start,
                    indent_end: self.first_statement_start->0,
                    inline: self.suite == FunctionSuite::Inline,
                },
            )
        } else {
            None
        }
    }

    /// Starts reading a suite.
    pub fn new(suite: FunctionSuite) -> (body: Self)
        ensures
            body == Self::opened(suite),
    {
        FunctionBody {
            suite,
            first_statement_start: None,
            indent_start: 0,
            candidate_docstring: true,
            saw_string: false,
            docstring_phase: DocstringPhase::OpeningParentheses,
            parenthesis_depth: 0,
            first_statement_finished: false,
            edit_start: None,
            last_code_end: None,
        }
    }

    /// Returns whether `token` ends the suite.
    pub fn closes_at(&self, token: Token, indentation_depth: u32) -> (closes: bool)
        ensures
            closes == self.ends_at(token, indentation_depth),
    {
        match self.suite {
            FunctionSuite::Inline => token.kind == TokenKind::Newline,
            FunctionSuite::Indented { depth } => {
                token.kind == TokenKind::Dedent && indentation_depth < depth
            },
        }
    }

    /// Consumes a token inside the suite.
    pub fn consume(&mut self, token: Token, source: &[u8])
        requires
            token.start <= token.end <= source@.len(),
            old(self).parenthesis_depth < u32::MAX,
        ensures
            *final(self) == old(self).after(token, source@),
            is_layout(token.kind) ==> *final(self) == *old(self),
            old(self).first_statement_start is Some ==> final(self).first_statement_start
                == old(self).first_statement_start,
            old(self).edit_start is Some ==> final(self).edit_start == old(self).edit_start,
            is_code(token.kind) ==> final(self).last_code_end == Some(token.end),
            !is_code(token.kind) ==> final(self).last_code_end == old(self).last_code_end,
            final(self).suite == old(self).suite,
            old(self).offsets_up_to(token.start as int) ==> final(self).offsets_up_to(
                token.start as int,
            ),
    {
        let kind = token.kind;
        if kind == TokenKind::Comment || kind == TokenKind::NonLogicalNewline
            || kind == TokenKind::Indent || kind == TokenKind::Dedent
            || kind == TokenKind::EndOfFile {
            return;
        }
        if kind == TokenKind::Newline || kind == TokenKind::Semi {
            if !self.first_statement_finished {
                let is_docstring = self.candidate_docstring && self.saw_string
                    && self.parenthesis_depth == 0;
                self.first_statement_finished = true;
                if !is_docstring && self.edit_start.is_none() {
                    self.edit_start = self.first_statement_start;
                }
            }
            return;
        }
        if self.first_statement_start.is_none() {
            self.first_statement_start = Some(token.start);
            self.indent_start = line_start(source, token.start);
        }
        self.last_code_end = Some(token.end);
        if self.first_statement_finished {
            if self.edit_start.is_none() {
                self.edit_start = Some(token.start);
            }
            return;
        }
        if kind == TokenKind::String && !token.byte_string && self.docstring_phase
            != DocstringPhase::ClosingParentheses {
            self.saw_string = true;
            self.docstring_phase = DocstringPhase::Strings;
        } else if kind == TokenKind::Lpar && self.docstring_phase
            == DocstringPhase::OpeningParentheses {
            self.parenthesis_depth = self.parenthesis_depth + 1;
        } else if kind == TokenKind::Rpar && self.saw_string && self.parenthesis_depth > 0 {
            self.parenthesis_depth = self.parenthesis_depth - 1;
            self.docstring_phase = DocstringPhase::ClosingParentheses;
        } else {
            self.candidate_docstring = false;
            if self.edit_start.is_none() {
                self.edit_start = self.first_statement_start;
            }
        }
    }

    /// Returns the edit that prunes this suite, or `None` when there is nothing to prune.
    pub fn into_edit(self) -> (edit: Option<BodyEdit>)
        ensures
            edit == self.edit(),
    {
        match (self.edit_start, self.last_code_end, self.first_statement_start) {
            (Some(start), Some(end), Some(indent_end)) => Some(
                BodyEdit {
                    start,
                    end,
                    indent_start: self.indent_start,
                    indent_end,
                    inline: match self.suite {
                        FunctionSuite::Inline => true,
                        FunctionSuite::Indented { .. } => false,
                    },
                },
            ),
            _ => None,
        }
    }
}


/// The last token of `tokens` that carries code, if any.
pub open spec fn last_code_token(tokens: Seq<Token>) -> Option<Token>
    decreases tokens.len(),
{
    if tokens.len() == 0 {
        None
    } else if is_code(tokens.last().kind) {
        Some(tokens.last())
    } else {
        last_code_token(tokens.drop_last())
    }
}

/// The suite after reading `tokens` in order.
pub open spec fn read_body(body: FunctionBody, tokens: Seq<Token>, src: Seq<u8>) -> FunctionBody
    decreases tokens.len(),
{
    if tokens.len() == 0 {
        body
    } else {
        read_body(body, tokens.drop_last(), src).after(tokens.last(), src)
    }
}

/// Reading `first` and then `rest` is reading `rest` from where `first` left the suite.
pub proof fn lemma_read_body_split(body: FunctionBody, first: Seq<Token>, rest: Seq<Token>, src: Seq<u8>)
    ensures
        read_body(body, first + rest, src) == read_body(read_body(body, first, src), rest, src),
    decreases rest.len(),
{
    if rest.len() == 0 {
        assert(first + rest =~= first);
    } else {
        lemma_read_body_split(body, first, rest.drop_last(), src);
        assert((first + rest).drop_last() =~= first + rest.drop_last());
    }
}

/// What a suite keeps while it reads: its kind, the start and indentation of its first statement
/// and the start of the implementation once they are set; the end of the implementation follows
/// the last code token.
pub proof fn lemma_read_body_keeps(body: FunctionBody, tokens: Seq<Token>, src: Seq<u8>)
    ensures
        read_body(body, tokens, src).suite == body.suite,
        body.first_statement_start is Some ==> read_body(body, tokens, src).first_statement_start
            == body.first_statement_start && read_body(body, tokens, src).indent_start
            == body.indent_start,
        body.edit_start is Some ==> read_body(body, tokens, src).edit_start == body.edit_start,
        body.first_statement_finished ==> read_body(body, tokens, src).first_statement_finished,
        read_body(body, tokens, src).last_code_end == (match last_code_token(tokens) {
            Some(code) => Some(code.end),
            None => body.last_code_end,
        }),
    decreases tokens.len(),
{
    if tokens.len() > 0 {
        lemma_read_body_keeps(body, tokens.drop_last(), src);
    }
}

/// After its first statement, a suite that reads no code token is unchanged.
proof fn lemma_read_body_no_code(body: FunctionBody, tokens: Seq<Token>, src: Seq<u8>)
    requires
        body.first_statement_finished,
        forall|i: int| 0 <= i < tokens.len() ==> !is_code(#[trigger] tokens[i].kind),
    ensures
        read_body(body, tokens, src) == body,
    decreases tokens.len(),
{
    if tokens.len() > 0 {
        let rest = tokens.drop_last();
        assert forall|i: int| 0 <= i < rest.len() implies !is_code(#[trigger] rest[i].kind) by {
            assert(rest[i] == tokens[i]);
        }
        lemma_read_body_no_code(body, rest, src);
        assert(!is_code(tokens[tokens.len() - 1].kind));
    }
}

/// A suite that reads a string literal and then a newline or `;` has finished a first statement
/// that is a docstring, with nothing to prune yet.
proof fn lemma_read_docstring(suite: FunctionSuite, doc: Token, end: Token, src: Seq<u8>)
    requires
        doc.kind == TokenKind::String,
        !doc.byte_string,
        end.kind == TokenKind::Newline || end.kind == TokenKind::Semi,
    ensures
        read_body(FunctionBody::opened(suite), seq![doc, end], src).first_statement_finished,
        read_body(FunctionBody::opened(suite), seq![doc, end], src).edit_start is None,
        read_body(FunctionBody::opened(suite), seq![doc, end], src).first_statement_start == Some(
            doc.start,
        ),
        read_body(FunctionBody::opened(suite), seq![doc, end], src).indent_start == line_start_at(
            src,
            doc.start as int,
        ) as usize,
        read_body(FunctionBody::opened(suite), seq![doc, end], src).suite == suite,
{
    let opened = FunctionBody::opened(suite);
    assert(seq![doc, end].drop_last() =~= seq![doc]);
    assert(seq![doc].drop_last() =~= Seq::<Token>::empty());
    reveal_with_fuel(read_body, 3);
    assert(read_body(opened, seq![doc, end], src) == opened.after(doc, src).after(end, src));
}

/// The end of the implementation: the last code token of `tail`, or `code` when `tail` has none.
pub open spec fn implementation_end(code: Token, tail: Seq<Token>) -> usize {
    match last_code_token(tail) {
        Some(last) => last.end,
        None => code.end,
    }
}

/// A docstring alone is no implementation: a suite whose first statement is one string literal,
/// ended by a newline or `;`, followed by no code, has nothing to prune.
pub proof fn lemma_docstring_alone_kept(
    suite: FunctionSuite,
    doc: Token,
    end: Token,
    rest: Seq<Token>,
    src: Seq<u8>,
)
    requires
        doc.kind == TokenKind::String,
        !doc.byte_string,
        end.kind == TokenKind::Newline || end.kind == TokenKind::Semi,
        forall|i: int| 0 <= i < rest.len() ==> !is_code(#[trigger] rest[i].kind),
    ensures
        read_body(FunctionBody::opened(suite), seq![doc, end] + rest, src).edit() is None,
{
    let opened = FunctionBody::opened(suite);
    lemma_read_docstring(suite, doc, end, src);
    lemma_read_body_split(opened, seq![doc, end], rest, src);
    lemma_read_body_no_code(read_body(opened, seq![doc, end], src), rest, src);
}

/// The implementation after a docstring is pruned from its first code token to its last one,
/// and the docstring stays: for a suite whose first statement is one string literal ended by a
/// newline or `;`, the edit starts at the first code token after it and ends at the last one,
/// with the docstring's indentation.
pub proof fn lemma_docstring_then_code(
    suite: FunctionSuite,
    doc: Token,
    end: Token,
    gap: Seq<Token>,
    code: Token,
    tail: Seq<Token>,
    src: Seq<u8>,
)
    requires
        doc.kind == TokenKind::String,
        !doc.byte_string,
        end.kind == TokenKind::Newline || end.kind == TokenKind::Semi,
        forall|i: int| 0 <= i < gap.len() ==> !is_code(#[trigger] gap[i].kind),
        is_code(code.kind),
    ensures
        read_body(FunctionBody::opened(suite), seq![doc, end] + gap + seq![code] + tail, src).edit()
            == Some(
            BodyEdit {
                start: code.start,
                end: implementation_end(code, tail),
                indent_start: line_start_at(src, doc.start as int) as usize,
                indent_end: doc.start,
                inline: suite == FunctionSuite::Inline,
            },
        ),
{
    let opened = FunctionBody::opened(suite);
    let head = seq![doc, end];
    lemma_read_docstring(suite, doc, end, src);
    let after_doc = read_body(opened, head, src);
    lemma_read_body_no_code(after_doc, gap, src);
    lemma_read_body_split(opened, head, gap, src);
    lemma_read_body_split(opened, head + gap, seq![code], src);
    assert(seq![code].drop_last() =~= Seq::<Token>::empty());
    let at_code = read_body(opened, head + gap + seq![code], src);
    assert(read_body(read_body(opened, head + gap, src), seq![code], src) == read_body(
        opened,
        head + gap,
        src,
    ).after(code, src)) by {
        reveal_with_fuel(read_body, 2);
    }
    lemma_read_body_split(opened, head + gap + seq![code], tail, src);
    lemma_read_body_keeps(at_code, tail, src);
}

/// Code that is not a docstring is pruned from the first statement on: when the first token of
/// a suite is code other than a string literal or `(`, the edit starts at that token and ends at
/// the last code token, with the indentation of that token's line.
pub proof fn lemma_code_first_pruned(
    suite: FunctionSuite,
    first: Token,
    tail: Seq<Token>,
    src: Seq<u8>,
)
    requires
        is_code(first.kind),
        first.kind != TokenKind::Lpar,
        first.kind == TokenKind::String ==> first.byte_string,
    ensures
        read_body(FunctionBody::opened(suite), seq![first] + tail, src).edit() == Some(
            BodyEdit {
                start: first.start,
                end: implementation_end(first, tail),
                indent_start: line_start_at(src, first.start as int) as usize,
                indent_end: first.start,
                inline: suite == FunctionSuite::Inline,
            },
        ),
{
    let opened = FunctionBody::opened(suite);
    assert(seq![first].drop_last() =~= Seq::<Token>::empty());
    assert(read_body(opened, seq![first], src) == opened.after(first, src)) by {
        reveal_with_fuel(read_body, 2);
    }
    lemma_read_body_split(opened, seq![first], tail, src);
    lemma_read_body_keeps(read_body(opened, seq![first], src), tail, src);
}


/// A docstring in parentheses is no implementation either: a suite whose first statement is `(`,
/// a string literal and `)`, ended by a newline or `;`, followed by no code, has nothing to
/// prune.
pub proof fn lemma_parenthesized_docstring_kept(
    suite: FunctionSuite,
    lpar: Token,
    doc: Token,
    rpar: Token,
    end: Token,
    rest: Seq<Token>,
    src: Seq<u8>,
)
    requires
        lpar.kind == TokenKind::Lpar,
        doc.kind == TokenKind::String,
        !doc.byte_string,
        rpar.kind == TokenKind::Rpar,
        end.kind == TokenKind::Newline || end.kind == TokenKind::Semi,
        forall|i: int| 0 <= i < rest.len() ==> !is_code(#[trigger] rest[i].kind),
    ensures
        read_body(FunctionBody::opened(suite), seq![lpar, doc, rpar, end] + rest, src).edit() is None,
{
    let opened = FunctionBody::opened(suite);
    let head = seq![lpar, doc, rpar, end];
    assert(head.drop_last() =~= seq![lpar, doc, rpar]);
    assert(seq![lpar, doc, rpar].drop_last() =~= seq![lpar, doc]);
    assert(seq![lpar, doc].drop_last() =~= seq![lpar]);
    assert(seq![lpar].drop_last() =~= Seq::<Token>::empty());
    assert(read_body(opened, head, src) == opened.after(lpar, src).after(doc, src).after(
        rpar,
        src,
    ).after(end, src)) by {
        reveal_with_fuel(read_body, 5);
    }
    lemma_read_body_split(opened, head, rest, src);
    lemma_read_body_no_code(read_body(opened, head, src), rest, src);
}

/// A string literal that starts an expression is code, not a docstring: when the first
/// statement of a suite is a string literal followed by a code token other than a string
/// literal (as in `"-".join(parts)`), the edit starts at the string literal and ends at the last
/// code token.
pub proof fn lemma_string_expression_pruned(
    suite: FunctionSuite,
    string: Token,
    next: Token,
    tail: Seq<Token>,
    src: Seq<u8>,
)
    requires
        string.kind == TokenKind::String,
        is_code(next.kind),
        next.kind != TokenKind::String,
    ensures
        read_body(FunctionBody::opened(suite), seq![string, next] + tail, src).edit() == Some(
            BodyEdit {
                start: string.start,
                end: implementation_end(next, tail),
                indent_start: line_start_at(src, string.start as int) as usize,
                indent_end: string.start,
                inline: suite == FunctionSuite::Inline,
            },
        ),
{
    let opened = FunctionBody::opened(suite);
    let head = seq![string, next];
    assert(head.drop_last() =~= seq![string]);
    assert(seq![string].drop_last() =~= Seq::<Token>::empty());
    assert(read_body(opened, head, src) == opened.after(string, src).after(next, src)) by {
        reveal_with_fuel(read_body, 3);
    }
    lemma_read_body_split(opened, head, tail, src);
    lemma_read_body_keeps(read_body(opened, head, src), tail, src);
}

} // verus!
