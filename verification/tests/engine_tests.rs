use oa_coder::engine::replace;

#[test]
fn test_replace_exact() {
    let result = replace("hello world", "world", "rust", false);
    assert_eq!(result, Some("hello rust".to_owned()));
}

#[test]
fn test_replace_no_match() {
    let result = replace("hello world", "missing", "rust", false);
    assert_eq!(result, None);
}

#[test]
fn test_replace_all() {
    let result = replace("aaa bbb aaa", "aaa", "ccc", true);
    assert_eq!(result, Some("ccc bbb ccc".to_owned()));
}

#[test]
fn test_replace_ambiguous_skips() {
    // "aaa" appears twice; without replace-all every candidate is ambiguous,
    // so nothing commits.
    let result = replace("aaa bbb aaa", "aaa", "ccc", false);
    assert_eq!(result, None);
}

#[test]
fn test_replace_with_trimmed_whitespace() {
    let content = "  function foo() {\n    return 1;\n  }";
    let find = "function foo() {\n  return 1;\n}";
    let new = "function bar() {\n  return 2;\n}";
    let result = replace(content, find, new, false);
    assert!(result.is_some());
}

#[test]
fn test_replace_line_trimmed_exact_result() {
    // The line-trimmed layer matches the whole content, so the result is the
    // replacement text itself.
    let content = "  function foo() {\n    return 1;\n  }";
    let find = "function foo() {\n  return 1;\n}";
    let new = "function bar() {\n  return 2;\n}";
    let result = replace(content, find, new, false);
    assert_eq!(result, Some(new.to_owned()));
}

#[test]
fn test_replace_nonexistent_token() {
    let result = replace("hello world", "nonexistent-token-xyz", "x", false);
    assert_eq!(result, None);
    let result2 = replace("fn main() {\n  run();\n}", "nonexistent-token-xyz", "x", false);
    assert_eq!(result2, None);
}

#[test]
fn test_replace_self_is_identity() {
    // With the replacement equal to the search string and a unique match,
    // the content comes back unchanged.
    let content = "alpha beta gamma";
    let result = replace(content, "beta", "beta", false);
    assert_eq!(result, Some(content.to_owned()));
    let result_all = replace("x y x", "x", "x", true);
    assert_eq!(result_all, Some("x y x".to_owned()));
}

#[test]
fn test_replace_block_anchor_region() {
    // The anchored region keeps its inner indentation; only that region is
    // replaced.
    let content = "start\n  middle1\n  middle2\nend\nother";
    let find = "start\nmiddle1\nmiddle2\nend";
    let result = replace(content, find, "REPLACED", false);
    assert_eq!(result, Some("REPLACED\nother".to_owned()));
}

#[test]
fn test_replace_escape_normalized() {
    // The search string encodes a newline as a backslash escape; the content
    // holds the literal newline.
    let content = "console.log(\"hello\nworld\")";
    let find = "console.log(\"hello\\nworld\")";
    let result = replace(content, find, "done()", false);
    assert_eq!(result, Some("done()".to_owned()));
}

#[test]
fn test_replace_first_unique_occurrence() {
    // A unique exact occurrence commits via the first layer and replaces
    // only that region.
    let result = replace("one two three two", "three", "3", false);
    assert_eq!(result, Some("one two 3 two".to_owned()));
}

#[test]
fn test_replace_all_overlapping_counts() {
    // Non-overlapping occurrences are replaced left to right.
    let result = replace("aaaa", "aa", "b", true);
    assert_eq!(result, Some("bb".to_owned()));
}

#[test]
fn test_replace_empty_search_no_match() {
    // An empty search string yields no candidates and no match.
    let result = replace("hello", "", "x", false);
    assert_eq!(result, None);
}

#[test]
fn test_replace_empty_content() {
    assert_eq!(replace("", "x", "y", false), None);
    assert_eq!(replace("", "x", "y", true), None);
}
