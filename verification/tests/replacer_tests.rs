use oa_coder::replacers::{
    block_anchor_replacer, context_aware_replacer, escape_normalized_replacer,
    indentation_flexible_replacer, line_trimmed_replacer, multi_occurrence_replacer,
    simple_replacer, trimmed_boundary_replacer, whitespace_normalized_replacer,
};

// -- Layer 1: exact --
#[test]
fn test_simple_exact_match() {
    let candidates = simple_replacer("hello world", "world");
    assert_eq!(candidates, vec!["world"]);
}

#[test]
fn test_simple_empty_find() {
    // No layer ever emits an empty candidate.
    let candidates = simple_replacer("hello world", "");
    assert!(candidates.is_empty());
}

// -- Layer 2: line-trimmed --
#[test]
fn test_line_trimmed_whitespace_diff() {
    let content = "  function foo() {\n    return 1;\n  }";
    let find = "function foo() {\n  return 1;\n}";
    let candidates = line_trimmed_replacer(content, find);
    assert_eq!(candidates.len(), 1);
    assert_eq!(candidates[0], content);
}

#[test]
fn test_line_trimmed_no_match() {
    let content = "function foo() {\n  return 1;\n}";
    let find = "function bar() {\n  return 2;\n}";
    let candidates = line_trimmed_replacer(content, find);
    assert!(candidates.is_empty());
}

#[test]
fn test_line_trimmed_trailing_newline() {
    let content = "line1\nline2\nline3";
    let find = "line1\nline2\n"; // trailing newline
    let candidates = line_trimmed_replacer(content, find);
    assert_eq!(candidates.len(), 1);
    assert_eq!(candidates[0], "line1\nline2");
}

// -- Layer 3: block-anchor --
#[test]
fn test_block_anchor_exact() {
    let content = "start\n  middle1\n  middle2\nend\nother";
    let find = "start\nmiddle1\nmiddle2\nend";
    let candidates = block_anchor_replacer(content, find);
    assert_eq!(candidates.len(), 1);
    assert!(candidates[0].starts_with("start"));
    assert!(candidates[0].ends_with("end"));
}

#[test]
fn test_block_anchor_too_few_lines() {
    let content = "hello\nworld";
    let find = "hello\nworld";
    let candidates = block_anchor_replacer(content, find);
    assert!(candidates.is_empty()); // Need at least 3 lines.
}

#[test]
fn test_block_anchor_trailing_newline() {
    // A trailing empty search line changes nothing.
    let content = "start\n  middle1\n  middle2\nend\nother";
    let with_nl = block_anchor_replacer(content, "start\nmiddle1\nmiddle2\nend\n");
    let without = block_anchor_replacer(content, "start\nmiddle1\nmiddle2\nend");
    assert_eq!(with_nl, without);
}

#[test]
fn test_block_anchor_needs_three_after_drop() {
    // Two lines plus a trailing line break are still too few.
    let candidates = block_anchor_replacer("a\nx\nb", "a\nb\n");
    assert!(candidates.is_empty());
}

// -- Layer 4: whitespace-normalized --
#[test]
fn test_whitespace_normalized_single_line() {
    let content = "let   x   =   1;";
    let find = "let x = 1;";
    let candidates = whitespace_normalized_replacer(content, find);
    assert!(!candidates.is_empty());
}

#[test]
fn test_whitespace_normalized_multiline() {
    let content = "if  (true)  {\n    return  1;\n}";
    let find = "if (true) {\n  return 1;\n}";
    let candidates = whitespace_normalized_replacer(content, find);
    assert!(!candidates.is_empty());
}

#[test]
fn test_whitespace_normalized_escapes_metacharacters() {
    // The pattern path must treat tokens literally: "(", ")" and "+" are
    // regex metacharacters and have to be escaped to match themselves.
    let content = "let y = foo(x)  +  bar;";
    let find = "foo(x) + bar";
    let candidates = whitespace_normalized_replacer(content, find);
    assert_eq!(candidates, vec!["foo(x)  +  bar"]);
}

// -- Layer 5: indentation-flexible --
#[test]
fn test_indentation_flexible() {
    let content = "    function test() {\n        return 1;\n    }";
    let find = "function test() {\n    return 1;\n}";
    let candidates = indentation_flexible_replacer(content, find);
    assert_eq!(candidates.len(), 1);
    assert_eq!(candidates[0], content);
}

#[test]
fn test_indentation_flexible_mid_scalar_fallback() {
    // The search string's first line is indented with an ideographic space
    // (three bytes); the common indent of one byte lands inside it, so that
    // line falls back to a left trim and still matches.
    let content = "  foo\n  bar";
    let find = "\u{3000}foo\n bar";
    let candidates = indentation_flexible_replacer(content, find);
    assert_eq!(candidates, vec![content]);
}

// -- Layer 6: escape-normalized --
#[test]
fn test_escape_normalized_direct() {
    // Content has a literal newline; find uses the escape sequence \n.
    let content = "console.log(\"hello\nworld\")";
    let find = "console.log(\"hello\\nworld\")";
    let candidates = escape_normalized_replacer(content, find);
    assert!(!candidates.is_empty());
}

#[test]
fn test_escape_normalized_identical() {
    // Both content and find are identical — direct match via unescaping.
    let content = "hello world";
    let find = "hello world";
    let candidates = escape_normalized_replacer(content, find);
    assert!(!candidates.is_empty());
}

// -- Layer 7: trimmed-boundary --
#[test]
fn test_trimmed_boundary() {
    let content = "function test() {}";
    let find = "\n  function test() {}  \n";
    let candidates = trimmed_boundary_replacer(content, find);
    assert!(!candidates.is_empty());
}

#[test]
fn test_trimmed_boundary_already_trimmed() {
    let candidates = trimmed_boundary_replacer("hello", "hello");
    assert!(candidates.is_empty()); // Already trimmed, skip.
}

// -- Layer 8: context-aware --
#[test]
fn test_context_aware_exact() {
    let content = "function foo() {\n  let x = 1;\n  return x;\n}";
    let find = "function foo() {\n  let x = 1;\n  return x;\n}";
    let candidates = context_aware_replacer(content, find);
    assert_eq!(candidates.len(), 1);
}

#[test]
fn test_context_aware_with_diff() {
    let content = "function foo() {\n  let x = 1;\n  let y = 2;\n  return x + y;\n}";
    let find = "function foo() {\n  let x = 1;\n  let y = 2;\n  return x + y;\n}";
    let candidates = context_aware_replacer(content, find);
    assert_eq!(candidates.len(), 1);
}

#[test]
fn test_context_aware_too_few_lines() {
    let candidates = context_aware_replacer("a\nb", "a\nb");
    assert!(candidates.is_empty());
}

#[test]
fn test_context_aware_trailing_newline() {
    let content = "fn f() {\n  a();\n  b();\n}";
    let with_nl = context_aware_replacer(content, "fn f() {\n  a();\n  b();\n}\n");
    let without = context_aware_replacer(content, "fn f() {\n  a();\n  b();\n}");
    assert_eq!(with_nl, without);
}

// -- Layer 9: multi-occurrence --
#[test]
fn test_multi_occurrence() {
    let content = "aaa bbb aaa ccc aaa";
    let find = "aaa";
    let candidates = multi_occurrence_replacer(content, find);
    assert_eq!(candidates.len(), 3);
}

#[test]
fn test_multi_occurrence_non_overlapping() {
    // Occurrences are counted left to right without overlap.
    let candidates = multi_occurrence_replacer("aaaa", "aa");
    assert_eq!(candidates.len(), 2);
}
