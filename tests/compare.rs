use hangman::text::{compare_str, compare_vec};

#[test]
fn test_compare_str() {
    assert!(compare_str("t__t", "test"));
    assert!(!compare_str("t__t", "max"));
    assert!(!compare_str("t__t", "naur"));
}

#[test]
fn test_compare_vec() {
    assert!(compare_vec("test", &vec![Some('t'), None, None, Some('t')]));
    assert!(!compare_vec("test", &vec![Some('t'), None, Some('t')]));
    assert!(!compare_vec("test", &vec![Some('s'), None, None, Some('t')]));
}

#[test]
fn compare_str_blank_admits_alphanumeric_only() {
    assert!(!compare_str("a", "_"));
    assert!(!compare_str("test", "t__t"));
    assert!(!compare_str("_", "-"));
    assert!(compare_str("__", "a1"));
    assert!(compare_str("_-_", "a-b"));
    assert!(compare_str("", ""));
}

#[test]
fn compare_vec_unknown_admits_alphanumeric_only() {
    assert!(!compare_vec("-", &vec![None]));
    assert!(!compare_vec("_", &vec![Some('a')]));
    assert!(compare_vec("é1", &vec![None, None]));
}
