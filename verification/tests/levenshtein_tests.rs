use oa_coder::levenshtein::{distance, similarity_scaled, SIMILARITY_SCALE};

#[test]
fn test_identical() {
    assert_eq!(distance("hello", "hello"), 0);
    assert_eq!(similarity_scaled("hello", "hello"), SIMILARITY_SCALE);
}

#[test]
fn test_empty() {
    assert_eq!(distance("", "abc"), 3);
    assert_eq!(distance("abc", ""), 3);
    assert_eq!(distance("", ""), 0);
}

#[test]
fn test_single_edit() {
    assert_eq!(distance("kitten", "sitten"), 1); // substitution
    assert_eq!(distance("cat", "cats"), 1); // insertion
    assert_eq!(distance("cats", "cat"), 1); // deletion
}

#[test]
fn test_classic() {
    assert_eq!(distance("kitten", "sitting"), 3);
}

#[test]
fn test_similarity_range() {
    let s = similarity_scaled("hello", "world");
    assert!(s <= SIMILARITY_SCALE);
}

#[test]
fn test_distance_symmetric() {
    assert_eq!(distance("abcd", "xyz"), distance("xyz", "abcd"));
    assert_eq!(distance("kitten", "sitting"), distance("sitting", "kitten"));
}

#[test]
fn test_size_capped_inputs() {
    // Inputs over the cap return max(m, n) without computing the table.
    let a = "a".repeat(20000);
    let b = "ab";
    assert_eq!(distance(&a, b), 20000);
    assert_eq!(distance(b, &a), 20000);
    // Even between identical oversized inputs the pessimistic bound is used.
    assert_eq!(distance(&a, &a), 20000);
}

#[test]
fn test_length_quick_reject() {
    // The length difference alone forces the pessimistic bound.
    assert_eq!(distance("aaaaaaaaaa", "aaaaa"), 10);
}
