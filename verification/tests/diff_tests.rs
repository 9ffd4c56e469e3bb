use oa_coder::diff::unified_diff;

#[test]
fn test_no_diff() {
    let result = unified_diff("test.rs", "hello\n", "hello\n");
    // No changes should produce an empty or minimal diff.
    assert!(!result.contains('+') || !result.contains('-'));
}

#[test]
fn test_simple_diff() {
    let old = "line1\nline2\nline3\n";
    let new = "line1\nmodified\nline3\n";
    let result = unified_diff("test.rs", old, new);
    assert!(result.contains("-line2"));
    assert!(result.contains("+modified"));
}
