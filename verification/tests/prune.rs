use prune_source::prune;

fn pruned(source: &str) -> String {
    prune(source).expect("source should contain a prunable function")
}

#[test]
fn strips_regular_function_implementation_but_keeps_docstring_and_lines() {
    let source = "def f():\n\t\"doc\"\n\tvalue = (\n\t\t1\n\t)\n";
    let output = pruned(source);
    assert_eq!(output, "def f():\n\t\"doc\"\n\n\n\tpass\n");
    assert_eq!(output.lines().count(), source.lines().count());
    assert!(!output.contains("value"));
}

#[test]
fn recognizes_parenthesized_and_concatenated_docstrings() {
    let source = "def f():\n    (\n        \"first\"  # retained\n        r\"second\"\n    )\n    implementation = 1\n";
    let output = pruned(source);
    assert!(output.contains("\"first\""));
    assert!(output.contains("r\"second\""));
    assert!(output.contains("    pass"));
    assert!(!output.contains("implementation"));
}

#[test]
fn does_not_treat_bytes_or_string_expressions_as_docstrings() {
    for source in [
        "def f():\n    b\"not a docstring\"\n    implementation = 1\n",
        "def f():\n    \"not a docstring\".upper()\n    implementation = 1\n",
        "def f():\n    (\"not a docstring\",)\n    implementation = 1\n",
        "def f():\n    \"not a docstring\"(\"argument\")\n    implementation = 1\n",
    ] {
        let output = pruned(source);
        assert!(!output.contains("not a docstring"));
        assert!(!output.contains("implementation"));
    }
}

#[test]
fn keeps_class_init_implementation() {
    let source = "class C:\n    def __init__(self):\n        self.value = 1\n";
    assert_eq!(prune(source), None);
}

#[test]
fn strips_nested_functions_inside_init() {
    let source = "class C:\n    def __init__(self):\n        def nested():\n            implementation = 1\n        self.value = 1\n";
    let output = pruned(source);
    assert!(output.contains("            pass"));
    assert!(output.contains("        self.value = 1"));
}

#[test]
fn respects_semantic_scope_through_control_flow_and_nested_classes() {
    let source = "class Outer:\n    if enabled:\n        def __init__(self):\n            self.kept = 1\n    def method(self):\n        removed = 1\n    def __init__(self):\n        class Inner:\n            def __init__(self):\n                self.also_kept = 1\n            def method(self):\n                also_removed = 1\n";
    let output = pruned(source);
    assert!(output.contains("self.kept = 1"));
    assert!(output.contains("self.also_kept = 1"));
    assert!(!output.contains("removed = 1"));
    assert!(!output.contains("also_removed = 1"));
}

#[test]
fn strips_one_line_function_bodies_and_preserves_inline_docstrings() {
    let source = "def f(): value = 1; return value\ndef g(): \"doc\"; return 1  # comment\nnext_value = 2\n";
    let output = pruned(source);
    assert!(output.starts_with("def f(): pass"));
    assert!(output.contains("def g(): \"doc\"; pass"));
    assert!(output.ends_with("next_value = 2\n"));
    assert_eq!(output.lines().count(), source.lines().count());
}

#[test]
fn strips_inline_suite_with_explicit_line_continuation() {
    let source = "def f(): return first or \\\n    second\nnext_value = 2\n";
    let output = pruned(source);
    assert!(output.starts_with("def f(): pass"));
    assert_eq!(output.matches("def f(): pass").count(), 1);
    assert!(output.ends_with("next_value = 2\n"));
}

#[test]
fn finds_suite_colon_after_lambda_return_annotation() {
    let source = "def f() -> lambda: int: value: int = 1\ndef g(x=f\"{value:>{width}}\"):\n    implementation = 1\n";
    let output = pruned(source);
    assert!(output.starts_with("def f() -> lambda: int: pass"));
    assert!(output.contains("def g(x=f\"{value:>{width}}\"):\n    pass"));
}

#[test]
fn preserves_comments_outside_statement_ranges() {
    let source = "def f():\n    # before docstring\n    \"doc\"\n    # between\n    implementation = 1  # erased with statement\n    # trailing\nnext_value = 2\n";
    let output = pruned(source);
    assert!(output.contains("# before docstring"));
    assert!(output.contains("# between"));
    assert!(output.contains("# trailing"));
    assert!(!output.contains("erased with statement"));
}

#[test]
fn preserves_crlf_newlines() {
    let source = "def f():\r\n    value = 1\r\n    return value\r\n";
    let output = pruned(source);
    assert_eq!(output.matches("\r\n").count(), 3);
    assert_eq!(output.replace("\r\n", "").matches('\n').count(), 0);
}

#[test]
fn preserves_carriage_return_newlines() {
    let source = "def f():\r    value = 1\r    return value\r";
    let output = pruned(source);
    assert_eq!(output.matches('\r').count(), 3);
    assert!(!output.contains('\n'));
    assert!(output.contains("    pass"));
}
