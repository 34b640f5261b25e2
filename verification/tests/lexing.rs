use prune_source::lexing::lex_module;
use prune_source::token::TokenKind;

#[test]
fn lexes_a_definition_into_kinds_and_ranges() {
    let tokens = lex_module("def f(x): pass\n");
    let kinds: Vec<TokenKind> = tokens.iter().map(|token| token.kind).collect();
    assert_eq!(
        kinds,
        vec![
            TokenKind::Def,
            TokenKind::Name,
            TokenKind::Lpar,
            TokenKind::Name,
            TokenKind::Rpar,
            TokenKind::Colon,
            TokenKind::Other,
            TokenKind::Newline,
        ]
    );
    assert_eq!((tokens[0].start, tokens[0].end), (0, 3));
    assert_eq!((tokens[1].start, tokens[1].end), (4, 5));
    assert_eq!((tokens[6].start, tokens[6].end), (10, 14));
    assert_eq!((tokens[7].start, tokens[7].end), (14, 15));
}

#[test]
fn marks_byte_strings_only() {
    let tokens = lex_module("b'x'\n'y'\n");
    assert_eq!(tokens[0].kind, TokenKind::String);
    assert!(tokens[0].byte_string);
    assert_eq!(tokens[2].kind, TokenKind::String);
    assert!(!tokens[2].byte_string);
    assert!(!tokens[1].byte_string);
}

#[test]
fn lexes_layout_tokens() {
    let tokens = lex_module("if x:\n    # note\n    y\n");
    let kinds: Vec<TokenKind> = tokens.iter().map(|token| token.kind).collect();
    assert!(kinds.contains(&TokenKind::Indent));
    assert!(kinds.contains(&TokenKind::Dedent));
    assert!(kinds.contains(&TokenKind::Comment));
    assert!(kinds.contains(&TokenKind::NonLogicalNewline));
    let comment = tokens.iter().find(|token| token.kind == TokenKind::Comment).unwrap();
    assert_eq!((comment.start, comment.end), (10, 16));
}

#[test]
fn ranges_are_byte_offsets() {
    let tokens = lex_module("é = 1\n");
    assert_eq!(tokens[0].kind, TokenKind::Name);
    assert_eq!((tokens[0].start, tokens[0].end), (0, 2));
    assert_eq!((tokens[1].start, tokens[1].end), (3, 4));
}
