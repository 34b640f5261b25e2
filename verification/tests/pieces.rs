use prune_source::body::BodyEdit;
use prune_source::collector::{collect_edits, BodyCollector};
use prune_source::edits::{apply_edits, apply_edits_to_bytes, edits_fit_source, is_blank_range};
use prune_source::lexing::lex_module;
use prune_source::text::{copy_newlines, copy_range, line_start, physical_line_end};
use prune_source::token::{Token, TokenKind};
use prune_source::{prune_lexed, tokens_fit};

#[test]
fn finds_line_bounds() {
    let source = b"ab\ncd\r\nef";
    assert_eq!(line_start(source, 0), 0);
    assert_eq!(line_start(source, 2), 0);
    assert_eq!(line_start(source, 3), 3);
    assert_eq!(line_start(source, 5), 3);
    assert_eq!(line_start(source, 8), 7);
    assert_eq!(physical_line_end(source, 0), 2);
    assert_eq!(physical_line_end(source, 3), 5);
    assert_eq!(physical_line_end(source, 6), 6);
    assert_eq!(physical_line_end(source, 7), 9);
    assert_eq!(physical_line_end(source, 9), 9);
}

#[test]
fn copies_ranges_and_newlines() {
    let source = b"a\r\nb\nc";
    let mut output = b"x".to_vec();
    copy_newlines(&mut output, source, 0, 6);
    assert_eq!(output, b"x\r\n\n".to_vec());
    copy_range(&mut output, source, 3, 6);
    assert_eq!(output, b"x\r\n\nb\nc".to_vec());
    assert!(is_blank_range(b" \t\x0cx", 0, 3));
    assert!(!is_blank_range(b" \t\x0cx", 0, 4));
}

#[test]
fn collects_one_edit_per_indented_body() {
    let source = "def f():\n    x = 1\n";
    let tokens = lex_module(source);
    let edits = collect_edits(source.as_bytes(), &tokens);
    assert_eq!(
        edits,
        vec![BodyEdit { start: 13, end: 18, indent_start: 9, indent_end: 13, inline: false }]
    );
}

#[test]
fn collects_inline_bodies_after_their_docstring() {
    let source = "def g(): \"doc\"; return 1\n";
    let tokens = lex_module(source);
    let edits = collect_edits(source.as_bytes(), &tokens);
    assert_eq!(
        edits,
        vec![BodyEdit { start: 16, end: 24, indent_start: 0, indent_end: 9, inline: true }]
    );
}

#[test]
fn applies_an_edit_in_place_on_one_line() {
    let source = "def f():\n    x = 1\n";
    let edits = vec![BodyEdit { start: 13, end: 18, indent_start: 9, indent_end: 13, inline: false }];
    assert!(edits_fit_source(source.as_bytes(), &edits));
    assert_eq!(apply_edits(source, edits), "def f():\n    pass\n");
}

#[test]
fn applies_a_multiline_edit_on_its_last_line() {
    let source = "def f():\n    x = (\n        1\n    )\n";
    let edits = vec![BodyEdit { start: 13, end: 34, indent_start: 9, indent_end: 13, inline: false }];
    assert!(edits_fit_source(source.as_bytes(), &edits));
    assert_eq!(apply_edits(source, edits), "def f():\n\n\n    pass\n");
}

#[test]
fn keeps_text_before_a_multiline_edit_on_its_line() {
    let source = "def f(): x = (\n  1)\ny = 2\n";
    let edits = vec![BodyEdit { start: 9, end: 18, indent_start: 0, indent_end: 9, inline: true }];
    assert!(edits_fit_source(source.as_bytes(), &edits));
    assert_eq!(apply_edits_to_bytes(source.as_bytes(), &edits), b"def f(): pass\n\ny = 2\n".to_vec());
}

#[test]
fn refuses_edits_that_overlap() {
    let source = "def f(): x\n";
    let edits = vec![
        BodyEdit { start: 9, end: 10, indent_start: 0, indent_end: 9, inline: true },
        BodyEdit { start: 9, end: 10, indent_start: 0, indent_end: 9, inline: true },
    ];
    assert!(!edits_fit_source(source.as_bytes(), &edits));
}

#[test]
fn refuses_edits_inside_a_character() {
    let source = "def f(): é\n";
    let edits = vec![BodyEdit { start: 10, end: 11, indent_start: 0, indent_end: 9, inline: true }];
    assert!(!edits_fit_source(source.as_bytes(), &edits));
    let edits = vec![BodyEdit { start: 9, end: 11, indent_start: 0, indent_end: 9, inline: true }];
    assert!(edits_fit_source(source.as_bytes(), &edits));
    assert_eq!(apply_edits(source, edits), "def f(): pass\n");
}

#[test]
fn refuses_tokens_outside_the_source() {
    let source = "x\n";
    let inside = vec![Token { kind: TokenKind::Name, start: 0, end: 1, byte_string: false }];
    let outside = vec![Token { kind: TokenKind::Name, start: 1, end: 3, byte_string: false }];
    assert!(tokens_fit(source.as_bytes(), &inside));
    assert!(!tokens_fit(source.as_bytes(), &outside));
    assert_eq!(prune_lexed(source, &outside), None);
}

#[test]
fn prunes_from_hand_made_tokens() {
    let source = "def f(): x\n";
    let token = |kind, start, end| Token { kind, start, end, byte_string: false };
    let tokens = vec![
        token(TokenKind::Def, 0, 3),
        token(TokenKind::Name, 4, 5),
        token(TokenKind::Lpar, 5, 6),
        token(TokenKind::Rpar, 6, 7),
        token(TokenKind::Colon, 7, 8),
        token(TokenKind::Name, 9, 10),
        token(TokenKind::Newline, 10, 11),
    ];
    assert_eq!(prune_lexed(source, &tokens), Some("def f(): pass\n".to_string()));
}

#[test]
fn refuses_tokens_whose_edits_overlap() {
    let source = "def f(): x\n";
    let token = |kind, start, end| Token { kind, start, end, byte_string: false };
    let once = vec![
        token(TokenKind::Def, 0, 3),
        token(TokenKind::Name, 4, 5),
        token(TokenKind::Lpar, 5, 6),
        token(TokenKind::Rpar, 6, 7),
        token(TokenKind::Colon, 7, 8),
        token(TokenKind::Name, 9, 10),
        token(TokenKind::Newline, 10, 11),
    ];
    let mut twice = once.clone();
    twice.extend(once.iter().copied());
    assert_eq!(collect_edits(source.as_bytes(), &twice).len(), 2);
    assert_eq!(prune_lexed(source, &twice), None);
}

#[test]
fn applies_an_edit_whose_indentation_is_not_a_line_start() {
    let source = "def f():\n    x = (\n        1)\n";
    let edits = vec![BodyEdit { start: 13, end: 29, indent_start: 13, indent_end: 13, inline: false }];
    assert!(edits_fit_source(source.as_bytes(), &edits));
    assert_eq!(apply_edits(source, edits), "def f():\n\npass\n");
}

#[test]
fn keeps_scopes_nested_while_reading() {
    let source = "class A:\n    class B:\n        def __init__(self):\n            x = 1\n";
    let tokens = lex_module(source);
    let mut collector = BodyCollector::new(source.as_bytes());
    let mut deepest = 0;
    for token in tokens.iter() {
        collector.consume(*token);
        let depths: Vec<u32> = collector.scopes.iter().map(|frame| frame.depth).collect();
        assert!(depths.windows(2).all(|pair| pair[0] < pair[1]));
        assert!(depths.iter().all(|depth| 1 <= *depth && *depth <= collector.indentation_depth));
        deepest = deepest.max(depths.len());
        let open = [
            collector.header.is_some(),
            collector.pending_suite.is_some(),
            collector.function_body.is_some(),
        ];
        assert!(open.iter().filter(|flag| **flag).count() <= 1);
    }
    assert_eq!(deepest, 3);
    assert!(collector.finish().is_empty());
}
