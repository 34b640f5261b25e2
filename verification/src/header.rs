//! Reading a `class` or `def` header up to the colon that opens its suite.

use crate::token::{Token, TokenKind};
use vstd::prelude::*;

verus! {

/// The kind of suite that the pruner is in.
#[derive(Clone, Copy, Debug, PartialEq, Eq, Structural)]
pub enum Scope {
    Module,
    Class,
    Function,
}

/// Whether a header starts with `class` or with `def`.
#[derive(Clone, Copy, Debug, PartialEq, Eq, Structural)]
pub enum DefinitionKind {
    Class,
    Function,
}

/// What happens to the suite that follows a header: its statements are read in a new scope, or it
/// is a function implementation to prune.
#[derive(Clone, Copy, Debug, PartialEq, Eq, Structural)]
pub enum SuiteAction {
    Enter(Scope),
    Prune,
}

/// The state of a `class` or `def` header whose suite colon has not been seen yet.
#[derive(Clone, Copy, Debug, PartialEq, Eq, Structural)]
pub struct DefinitionHeader {
    pub kind: DefinitionKind,
    pub parent_scope: Scope,
    pub name_seen: bool,
    pub is_init: bool,
    pub delimiter_depth: u32,
    pub parameters_started: bool,
    pub parameters_closed: bool,
    pub return_annotation: bool,
    pub pending_lambda_colons: u32,
}

/// `(`, `[` or `{`.
pub open spec fn opens_delimiter(kind: TokenKind) -> bool {
    kind == TokenKind::Lpar || kind == TokenKind::Lsqb || kind == TokenKind::Lbrace
}

/// `)`, `]` or `}`.
pub open spec fn closes_delimiter(kind: TokenKind) -> bool {
    kind == TokenKind::Rpar || kind == TokenKind::Rsqb || kind == TokenKind::Rbrace
}

/// Returns whether `kind` is `(`, `[` or `{`.
pub fn is_opening_delimiter(kind: TokenKind) -> (res: bool)
    ensures
        res == opens_delimiter(kind),
{
    kind == TokenKind::Lpar || kind == TokenKind::Lsqb || kind == TokenKind::Lbrace
}

/// Returns whether `kind` is `)`, `]` or `}`.
pub fn is_closing_delimiter(kind: TokenKind) -> (res: bool)
    ensures
        res == closes_delimiter(kind),
{
    kind == TokenKind::Rpar || kind == TokenKind::Rsqb || kind == TokenKind::Rbrace
}

/// The bytes of the name `__init__`.
pub open spec fn init_name() -> Seq<u8> {
    seq![95u8, 95u8, 105u8, 110u8, 105u8, 116u8, 95u8, 95u8]
}

/// Returns whether `source[start..end]` is the name `__init__`.
pub fn is_init_name(source: &[u8], start: usize, end: usize) -> (res: bool)
    requires
        start <= end <= source@.len(),
    ensures
        res == (source@.subrange(start as int, end as int) == init_name()),
{
    let init: [u8; 8] = [95u8, 95u8, 105u8, 110u8, 105u8, 116u8, 95u8, 95u8];
    assert(init@ == init_name());
    if end - start != 8 {
        return false;
    }
    let mut i: usize = 0;
    while i < 8
        invariant
            start + 8 == end <= source@.len(),
            i <= 8,
            init@ == init_name(),
            forall|j: int| 0 <= j < i ==> source@[start + j] == init_name()[j],
        decreases 8 - i,
    {
        if source[start + i] != init[i] {
            assert(source@.subrange(start as int, end as int)[i as int] != init_name()[i as int]);
            return false;
        }
        i = i + 1;
    }
    assert(source@.subrange(start as int, end as int) =~= init_name());
    true
}

impl DefinitionHeader {
    /// A header that has just read its `class` or `def` keyword in `parent_scope`.
    pub open spec fn opened(kind: DefinitionKind, parent_scope: Scope) -> Self {
        DefinitionHeader {
            kind,
            parent_scope,
            name_seen: false,
            is_init: false,
            delimiter_depth: 0,
            parameters_started: false,
            parameters_closed: false,
            return_annotation: false,
            pending_lambda_colons: 0,
        }
    }

    /// The suite of a class is entered as a class scope; that of `__init__` directly in a class
    /// is entered as a function scope; every other function suite is pruned.
    pub open spec fn action(self) -> SuiteAction {
        match self.kind {
            DefinitionKind::Class => SuiteAction::Enter(Scope::Class),
            DefinitionKind::Function => if self.parent_scope == Scope::Class && self.is_init {
                SuiteAction::Enter(Scope::Function)
            } else {
                SuiteAction::Prune
            },
        }
    }

    /// The header after a token that may change the bracket depth.
    pub open spec fn with_depth_of(self, kind: TokenKind) -> Self {
        if opens_delimiter(kind) {
            DefinitionHeader { delimiter_depth: (self.delimiter_depth + 1) as u32, ..self }
        } else if closes_delimiter(kind) {
            DefinitionHeader {
                delimiter_depth: if self.delimiter_depth == 0 {
                    0
                } else {
                    (self.delimiter_depth - 1) as u32
                },
                ..self
            }
        } else {
            self
        }
    }

    /// A class header ends at the first colon outside brackets.
    pub open spec fn after_class_token(self, kind: TokenKind) -> (Self, bool) {
        if kind == TokenKind::Colon && self.delimiter_depth == 0 {
            (self, true)
        } else {
            (self.with_depth_of(kind), false)
        }
    }

    /// A function header ends at the first colon outside brackets after the parameter list that
    /// does not belong to a `lambda` of the return annotation.
    pub open spec fn after_function_token(self, kind: TokenKind) -> (Self, bool) {
        if opens_delimiter(kind) {
            let started = self.parameters_started || (kind == TokenKind::Lpar
                && self.delimiter_depth == 0);
            (
                DefinitionHeader {
                    parameters_started: started,
                    delimiter_depth: (self.delimiter_depth + 1) as u32,
                    ..self
                },
                false,
            )
        } else if closes_delimiter(kind) {
            let depth: u32 = if self.delimiter_depth == 0 {
                0
            } else {
                (self.delimiter_depth - 1) as u32
            };
            let closed = self.parameters_closed || (kind == TokenKind::Rpar && depth == 0
                && self.parameters_started);
            (
                DefinitionHeader { delimiter_depth: depth, parameters_closed: closed, ..self },
                false,
            )
        } else if self.delimiter_depth != 0 || !self.parameters_closed {
            (self, false)
        } else if kind == TokenKind::Rarrow {
            (DefinitionHeader { return_annotation: true, ..self }, false)
        } else if kind == TokenKind::Lambda && self.return_annotation {
            (
                DefinitionHeader {
                    pending_lambda_colons: (self.pending_lambda_colons + 1) as u32,
                    ..self
                },
                false,
            )
        } else if kind == TokenKind::Colon && self.pending_lambda_colons > 0 {
            (
                DefinitionHeader {
                    pending_lambda_colons: (self.pending_lambda_colons - 1) as u32,
                    ..self
                },
                false,
            )
        } else {
            (self, kind == TokenKind::Colon)
        }
    }

    /// The header after `token`, and whether `token` is the colon that opens the suite. The first
    /// name token is the definition's name; comments and non-logical newlines change nothing.
    pub open spec fn after(self, token: Token, src: Seq<u8>) -> (Self, bool) {
        if !self.name_seen && token.kind == TokenKind::Name {
            (
                DefinitionHeader {
                    name_seen: true,
                    is_init: src.subrange(token.start as int, token.end as int) == init_name(),
                    ..self
                },
                false,
            )
        } else if token.kind == TokenKind::Comment || token.kind == TokenKind::NonLogicalNewline {
            (self, false)
        } else {
            match self.kind {
                DefinitionKind::Class => self.after_class_token(token.kind),
                DefinitionKind::Function => self.after_function_token(token.kind),
            }
        }
    }

    /// The counters that grow by one per token stay below the given bound.
    pub open spec fn counters_below(self, bound: int) -> bool {
        self.delimiter_depth <= bound && self.pending_lambda_colons <= bound
    }

    /// Starts reading a header.
    pub fn new(kind: DefinitionKind, parent_scope: Scope) -> (header: Self)
        ensures
            header == Self::opened(kind, parent_scope),
    {
        DefinitionHeader {
            kind,
            parent_scope,
            name_seen: false,
            is_init: false,
            delimiter_depth: 0,
            parameters_started: false,
            parameters_closed: false,
            return_annotation: false,
            pending_lambda_colons: 0,
        }
    }

    /// Returns what happens to the suite of this definition.
    pub fn suite_action(&self) -> (action: SuiteAction)
        ensures
            action == self.action(),
    {
        match self.kind {
            DefinitionKind::Class => SuiteAction::Enter(Scope::Class),
            DefinitionKind::Function => {
                if self.parent_scope == Scope::Class && self.is_init {
                    SuiteAction::Enter(Scope::Function)
                } else {
                    SuiteAction::Prune
                }
            },
        }
    }

    /// Consumes a token of the header and reports whether it is the suite colon.
    pub fn advance(&mut self, token: Token, source: &[u8]) -> (colon: bool)
        requires
            token.start <= token.end <= source@.len(),
            old(self).delimiter_depth < u32::MAX,
            old(self).pending_lambda_colons < u32::MAX,
        ensures
            (*final(self), colon) == old(self).after(token, source@),
    {
        if !self.name_seen && token.kind == TokenKind::Name {
            self.name_seen = true;
            self.is_init = is_init_name(source, token.start, token.end);
            return false;
        }
        if token.kind == TokenKind::Comment || token.kind == TokenKind::NonLogicalNewline {
            return false;
        }
        match self.kind {
            DefinitionKind::Class => self.advance_class(token.kind),
            DefinitionKind::Function => self.advance_function(token.kind),
        }
    }

    /// Consumes a token of a class header.
    pub fn advance_class(&mut self, kind: TokenKind) -> (colon: bool)
        requires
            old(self).delimiter_depth < u32::MAX,
        ensures
            (*final(self), colon) == old(self).after_class_token(kind),
    {
        if kind == TokenKind::Colon && self.delimiter_depth == 0 {
            return true;
        }
        self.update_delimiter_depth(kind);
        false
    }

    /// Consumes a token of a function header.
    pub fn advance_function(&mut self, kind: TokenKind) -> (colon: bool)
        requires
            old(self).delimiter_depth < u32::MAX,
            old(self).pending_lambda_colons < u32::MAX,
        ensures
            (*final(self), colon) == old(self).after_function_token(kind),
    {
        if is_opening_delimiter(kind) {
            if kind == TokenKind::Lpar && self.delimiter_depth == 0 && !self.parameters_started {
                self.parameters_started = true;
            }
            self.delimiter_depth = self.delimiter_depth + 1;
            return false;
        }
        if is_closing_delimiter(kind) {
            self.delimiter_depth = self.delimiter_depth.saturating_sub(1);
            if kind == TokenKind::Rpar && self.delimiter_depth == 0 && self.parameters_started {
                self.parameters_closed = true;
            }
            return false;
        }
        if self.delimiter_depth != 0 || !self.parameters_closed {
            return false;
        }
        if kind == TokenKind::Rarrow {
            self.return_annotation = true;
        } else if kind == TokenKind::Lambda && self.return_annotation {
            self.pending_lambda_colons = self.pending_lambda_colons + 1;
        } else if kind == TokenKind::Colon && self.pending_lambda_colons > 0 {
            self.pending_lambda_colons = self.pending_lambda_colons - 1;
        } else if kind == TokenKind::Colon {
            return true;
        }
        false
    }

    /// Tracks the bracket depth across a token.
    pub fn update_delimiter_depth(&mut self, kind: TokenKind)
        requires
            old(self).delimiter_depth < u32::MAX,
        ensures
            *final(self) == old(self).with_depth_of(kind),
    {
        if is_opening_delimiter(kind) {
            self.delimiter_depth = self.delimiter_depth + 1;
        } else if is_closing_delimiter(kind) {
            self.delimiter_depth = self.delimiter_depth.saturating_sub(1);
        }
    }
}

/// The header after reading `tokens` in order, and whether the last of them was reported as the
/// suite colon.
pub open spec fn read_header(header: DefinitionHeader, tokens: Seq<Token>, src: Seq<u8>) -> (
    DefinitionHeader,
    bool,
)
    decreases tokens.len(),
{
    if tokens.len() == 0 {
        (header, false)
    } else {
        read_header(header, tokens.drop_last(), src).0.after(tokens.last(), src)
    }
}

/// The first name token of `tokens`, if any.
pub open spec fn first_name(tokens: Seq<Token>) -> Option<Token>
    decreases tokens.len(),
{
    if tokens.len() == 0 {
        None
    } else if first_name(tokens.drop_last()) is Some {
        first_name(tokens.drop_last())
    } else if tokens.last().kind == TokenKind::Name {
        Some(tokens.last())
    } else {
        None
    }
}

/// Reading tokens never changes what a header defines nor where it stands, and it remembers
/// whether its name, the first name token read, is `__init__`.
proof fn lemma_read_header_name(header: DefinitionHeader, tokens: Seq<Token>, src: Seq<u8>)
    requires
        !header.name_seen,
    ensures
        read_header(header, tokens, src).0.kind == header.kind,
        read_header(header, tokens, src).0.parent_scope == header.parent_scope,
        read_header(header, tokens, src).0.name_seen == (first_name(tokens) is Some),
        read_header(header, tokens, src).0.is_init == (if first_name(tokens) is Some {
            let name = first_name(tokens)->0;
            src.subrange(name.start as int, name.end as int) == init_name()
        } else {
            header.is_init
        }),
    decreases tokens.len(),
{
    if tokens.len() > 0 {
        lemma_read_header_name(header, tokens.drop_last(), src);
    }
}

/// Only `__init__` directly in a class keeps its implementation: a function header read from its
/// `def` is entered as a function scope exactly when it stands in a class and its name token is
/// `__init__`; every other function is pruned, whatever its parameters and annotations; a class
/// header is always entered as a class scope.
pub proof fn lemma_only_class_init_is_entered(parent: Scope, tokens: Seq<Token>, src: Seq<u8>)
    ensures
        read_header(DefinitionHeader::opened(DefinitionKind::Function, parent), tokens, src).0.action()
            == (if parent == Scope::Class && first_name(tokens) is Some && src.subrange(
            first_name(tokens)->0.start as int,
            first_name(tokens)->0.end as int,
        ) == init_name() {
            SuiteAction::Enter(Scope::Function)
        } else {
            SuiteAction::Prune
        }),
        read_header(DefinitionHeader::opened(DefinitionKind::Class, parent), tokens, src).0.action()
            == SuiteAction::Enter(Scope::Class),
{
    lemma_read_header_name(DefinitionHeader::opened(DefinitionKind::Function, parent), tokens, src);
    lemma_read_header_name(DefinitionHeader::opened(DefinitionKind::Class, parent), tokens, src);
}

/// A token that may stand in a plain return annotation: no `lambda`, bracket or colon.
pub open spec fn plain_annotation_token(kind: TokenKind) -> bool {
    kind != TokenKind::Lambda && !opens_delimiter(kind) && !closes_delimiter(kind) && kind
        != TokenKind::Colon
}

/// Reading plain annotation tokens after a closed parameter list keeps the header at bracket
/// depth 0 with the same lambda colons pending, and reports no colon.
proof fn lemma_read_plain_annotation(header: DefinitionHeader, tokens: Seq<Token>, src: Seq<u8>)
    requires
        header.kind == DefinitionKind::Function,
        header.parameters_closed,
        header.delimiter_depth == 0,
        forall|i: int| 0 <= i < tokens.len() ==> plain_annotation_token(#[trigger] tokens[i].kind),
    ensures
        read_header(header, tokens, src).0.kind == DefinitionKind::Function,
        read_header(header, tokens, src).0.parameters_closed,
        read_header(header, tokens, src).0.delimiter_depth == 0,
        read_header(header, tokens, src).0.pending_lambda_colons == header.pending_lambda_colons,
        header.return_annotation ==> read_header(header, tokens, src).0.return_annotation,
        !read_header(header, tokens, src).1,
    decreases tokens.len(),
{
    if tokens.len() > 0 {
        let rest = tokens.drop_last();
        assert forall|i: int| 0 <= i < rest.len() implies plain_annotation_token(
            #[trigger] rest[i].kind,
        ) by {
            assert(rest[i] == tokens[i]);
        }
        lemma_read_plain_annotation(header, rest, src);
        assert(plain_annotation_token(tokens[tokens.len() - 1].kind));
    }
}

/// After the parameter list of a `def` has closed, with no bracket open and no `lambda` in the
/// return annotation, the first colon ends the header: a header reading a return annotation such
/// as `-> int` and then `:` reports that colon as its suite colon, and no token before it.
pub proof fn lemma_colon_after_plain_annotation(
    header: DefinitionHeader,
    tokens: Seq<Token>,
    src: Seq<u8>,
)
    requires
        header.kind == DefinitionKind::Function,
        header.parameters_closed,
        header.delimiter_depth == 0,
        header.pending_lambda_colons == 0,
        tokens.len() > 0,
        tokens.last().kind == TokenKind::Colon,
        forall|i: int|
            0 <= i < tokens.len() - 1 ==> plain_annotation_token(#[trigger] tokens[i].kind),
    ensures
        read_header(header, tokens, src).1,
        forall|k: int| 0 <= k < tokens.len() ==> !(#[trigger] read_header(header, tokens.take(k), src)).1,
{
    let rest = tokens.drop_last();
    assert forall|i: int| 0 <= i < rest.len() implies plain_annotation_token(#[trigger] rest[i].kind) by {
        assert(rest[i] == tokens[i]);
    }
    lemma_read_plain_annotation(header, rest, src);
    assert forall|k: int| 0 <= k < tokens.len() implies !(#[trigger] read_header(
        header,
        tokens.take(k),
        src,
    )).1 by {
        let prefix = tokens.take(k);
        assert forall|i: int| 0 <= i < prefix.len() implies plain_annotation_token(
            #[trigger] prefix[i].kind,
        ) by {
            assert(prefix[i] == tokens[i]);
        }
        lemma_read_plain_annotation(header, prefix, src);
    }
}

/// Reading `first` and then `rest` is reading `rest` from where `first` left the header.
proof fn lemma_read_header_split(
    header: DefinitionHeader,
    first: Seq<Token>,
    rest: Seq<Token>,
    src: Seq<u8>,
)
    requires
        rest.len() > 0,
    ensures
        read_header(header, first + rest, src) == read_header(
            read_header(header, first, src).0,
            rest,
            src,
        ),
    decreases rest.len(),
{
    assert((first + rest).drop_last() =~= first + rest.drop_last());
    assert((first + rest).last() == rest.last());
    if rest.len() > 1 {
        lemma_read_header_split(header, first, rest.drop_last(), src);
    } else {
        assert(rest.drop_last() =~= Seq::<Token>::empty());
        assert(first + rest.drop_last() =~= first);
        reveal_with_fuel(read_header, 2);
    }
}

/// The colon of a `lambda` in a return annotation is not the suite colon: after the parameter
/// list, `->`, then `lambda`, plain tokens and its colon, the header goes on, and the colon
/// after the lambda's body and further plain tokens ends it.
pub proof fn lemma_lambda_colon_in_return_annotation(
    header: DefinitionHeader,
    arrow: Token,
    lambda: Token,
    parameters: Seq<Token>,
    lambda_colon: Token,
    lambda_body: Seq<Token>,
    colon: Token,
    src: Seq<u8>,
)
    requires
        header.kind == DefinitionKind::Function,
        header.name_seen,
        header.parameters_closed,
        header.delimiter_depth == 0,
        header.pending_lambda_colons == 0,
        arrow.kind == TokenKind::Rarrow,
        lambda.kind == TokenKind::Lambda,
        lambda_colon.kind == TokenKind::Colon,
        colon.kind == TokenKind::Colon,
        forall|i: int|
            0 <= i < parameters.len() ==> plain_annotation_token(#[trigger] parameters[i].kind),
        forall|i: int|
            0 <= i < lambda_body.len() ==> plain_annotation_token(#[trigger] lambda_body[i].kind),
    ensures
        !read_header(header, seq![arrow, lambda] + parameters + seq![lambda_colon], src).1,
        read_header(
            header,
            seq![arrow, lambda] + parameters + seq![lambda_colon] + lambda_body + seq![colon],
            src,
        ).1,
{
    let head = seq![arrow, lambda];
    assert(head.drop_last() =~= seq![arrow]);
    assert(seq![arrow].drop_last() =~= Seq::<Token>::empty());
    let after_head = read_header(header, head, src).0;
    assert(read_header(header, head, src) == header.after(arrow, src).0.after(lambda, src)) by {
        reveal_with_fuel(read_header, 3);
    }
    assert(after_head.pending_lambda_colons == 1);
    lemma_read_plain_annotation(after_head, parameters, src);
    let after_parameters = read_header(after_head, parameters, src).0;
    assert(seq![lambda_colon].drop_last() =~= Seq::<Token>::empty());
    assert(read_header(after_parameters, seq![lambda_colon], src) == after_parameters.after(
        lambda_colon,
        src,
    )) by {
        reveal_with_fuel(read_header, 2);
    }
    if parameters.len() > 0 {
        lemma_read_header_split(header, head, parameters, src);
    } else {
        assert(head + parameters =~= head);
    }
    lemma_read_header_split(header, head + parameters, seq![lambda_colon], src);
    let after_lambda = after_parameters.after(lambda_colon, src).0;
    assert(after_lambda.pending_lambda_colons == 0);
    lemma_read_plain_annotation(after_lambda, lambda_body, src);
    let after_body = read_header(after_lambda, lambda_body, src).0;
    assert(seq![colon].drop_last() =~= Seq::<Token>::empty());
    assert(read_header(after_body, seq![colon], src) == after_body.after(colon, src)) by {
        reveal_with_fuel(read_header, 2);
    }
    let prefix = head + parameters + seq![lambda_colon];
    if lambda_body.len() > 0 {
        lemma_read_header_split(header, prefix, lambda_body, src);
    } else {
        assert(prefix + lambda_body =~= prefix);
    }
    lemma_read_header_split(header, prefix + lambda_body, seq![colon], src);
}

/// A bracket-free token leaves a header whose name is read and that is inside brackets as it is.
proof fn lemma_read_inside_brackets(header: DefinitionHeader, tokens: Seq<Token>, src: Seq<u8>)
    requires
        header.name_seen,
        header.delimiter_depth > 0,
        forall|i: int|
            0 <= i < tokens.len() ==> !opens_delimiter(#[trigger] tokens[i].kind)
                && !closes_delimiter(tokens[i].kind),
    ensures
        read_header(header, tokens, src) == (header, false),
    decreases tokens.len(),
{
    if tokens.len() > 0 {
        let rest = tokens.drop_last();
        assert forall|i: int| 0 <= i < rest.len() implies !opens_delimiter(#[trigger] rest[i].kind)
            && !closes_delimiter(rest[i].kind) by {
            assert(rest[i] == tokens[i]);
        }
        lemma_read_inside_brackets(header, rest, src);
        let last = tokens[tokens.len() - 1];
        assert(!opens_delimiter(last.kind) && !closes_delimiter(last.kind));
    }
}

/// A colon inside the brackets of a header never ends it: a `class` header with its base
/// classes, or a `def` header with its parameter list, that reads `(`, tokens without brackets
/// (the colons of annotations and slices included), `)` and `:` ends at that last colon and at no
/// token before it.
pub proof fn lemma_header_ends_after_brackets(
    header: DefinitionHeader,
    lpar: Token,
    inner: Seq<Token>,
    rpar: Token,
    colon: Token,
    src: Seq<u8>,
)
    requires
        header.name_seen,
        header.delimiter_depth == 0,
        header.pending_lambda_colons == 0,
        header.kind == DefinitionKind::Class || !header.parameters_started,
        lpar.kind == TokenKind::Lpar,
        rpar.kind == TokenKind::Rpar,
        colon.kind == TokenKind::Colon,
        forall|i: int|
            0 <= i < inner.len() ==> !opens_delimiter(#[trigger] inner[i].kind)
                && !closes_delimiter(inner[i].kind),
    ensures
        forall|k: int|
            0 <= k <= inner.len() ==> !(#[trigger] read_header(
                header,
                seq![lpar] + inner.take(k),
                src,
            )).1,
        !read_header(header, seq![lpar] + inner + seq![rpar], src).1,
        read_header(header, seq![lpar] + inner + seq![rpar, colon], src).1,
{
    assert(seq![lpar].drop_last() =~= Seq::<Token>::empty());
    assert(read_header(header, seq![lpar], src) == header.after(lpar, src)) by {
        reveal_with_fuel(read_header, 2);
    }
    let opened = header.after(lpar, src).0;
    assert(opened.delimiter_depth == 1);
    assert forall|k: int| 0 <= k <= inner.len() implies !(#[trigger] read_header(
        header,
        seq![lpar] + inner.take(k),
        src,
    )).1 && read_header(header, seq![lpar] + inner.take(k), src).0 == opened by {
        let part = inner.take(k);
        assert forall|i: int| 0 <= i < part.len() implies !opens_delimiter(#[trigger] part[i].kind)
            && !closes_delimiter(part[i].kind) by {
            assert(part[i] == inner[i]);
        }
        lemma_read_inside_brackets(opened, part, src);
        if k > 0 {
            lemma_read_header_split(header, seq![lpar], part, src);
        } else {
            assert(seq![lpar] + part =~= seq![lpar]);
        }
    }
    assert(inner.take(inner.len() as int) =~= inner);
    assert(read_header(header, seq![lpar] + inner, src).0 == opened);
    lemma_read_header_split(header, seq![lpar] + inner, seq![rpar], src);
    assert(seq![rpar].drop_last() =~= Seq::<Token>::empty());
    assert(read_header(opened, seq![rpar], src) == opened.after(rpar, src)) by {
        reveal_with_fuel(read_header, 2);
    }
    lemma_read_header_split(header, seq![lpar] + inner, seq![rpar, colon], src);
    assert(seq![rpar, colon].drop_last() =~= seq![rpar]);
    assert(read_header(opened, seq![rpar, colon], src) == opened.after(rpar, src).0.after(
        colon,
        src,
    )) by {
        reveal_with_fuel(read_header, 3);
    }
    assert(seq![lpar] + inner + seq![rpar, colon] =~= (seq![lpar] + inner) + seq![rpar, colon]);
}

} // verus!
