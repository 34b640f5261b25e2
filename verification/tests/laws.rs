use prune_source::collector::collect_edits;
use prune_source::lexing::lex_module;
use prune_source::prune;

fn newline_bytes(text: &str) -> Vec<u8> {
    text.bytes().filter(|byte| *byte == b'\r' || *byte == b'\n').collect()
}

#[test]
fn nothing_to_prune_without_def() {
    assert_eq!(prune("x = 1\nclass C:\n    y = 2\n"), None);
    assert_eq!(prune(""), None);
}

#[test]
fn nothing_to_prune_in_docstring_only_functions() {
    assert_eq!(prune("def f():\n    \"doc\"\n"), None);
    assert_eq!(prune("def f(): \"doc\"\n"), None);
}

#[test]
fn keeps_newline_bytes_of_mixed_line_endings() {
    let source = "def f():\r\n    a = (\n        1\r    )\n    return a\r\nz = 3\n";
    let output = prune(source).expect("prunable");
    assert_eq!(newline_bytes(&output), newline_bytes(source));
    assert_eq!(output, "def f():\r\n\n\r\n    pass\r\nz = 3\n");
}

#[test]
fn keeps_non_ascii_text() {
    let source = "def f():\n    return 'é'\nπ = 1\n";
    assert_eq!(prune(source), Some("def f():\n    pass\nπ = 1\n".to_string()));
}

#[test]
fn edits_come_in_source_order() {
    let source = "def f():\n    a = 1\ndef g(): b = 2\nclass C:\n    def h(self):\n        c = 3\n";
    let tokens = lex_module(source);
    let edits = collect_edits(source.as_bytes(), &tokens);
    assert_eq!(edits.len(), 3);
    for pair in edits.windows(2) {
        assert!(pair[0].end <= pair[1].start);
        assert!(pair[0].start < pair[1].start);
    }
    for edit in &edits {
        assert!(edit.indent_end <= edit.start && edit.start < edit.end);
    }
}
