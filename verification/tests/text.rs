use lightningllm::text::{contains, is_aligned, same_text, split_at_first, split_tail};

#[test]
fn equal_texts() {
    assert!(same_text("", ""));
    assert!(same_text("né", "né"));
    assert!(!same_text("né", "ne"));
    assert!(!same_text("a", "ab"));
}

#[test]
fn first_occurrence() {
    assert_eq!(split_at_first("a--b--c", "--"), Some(("a", "b--c")));
    assert_eq!(split_at_first("--", "--"), Some(("", "")));
    assert_eq!(split_at_first("né-à", "-"), Some(("né", "à")));
    assert_eq!(split_at_first("aaab", "ab"), Some(("aa", "")));
    assert_eq!(split_at_first("abc", "abcd"), None);
    assert_eq!(split_at_first("", "a"), None);
    assert!(contains("xé", "é"));
    assert!(!contains("xè", "é"));
}

#[test]
fn endings() {
    assert_eq!(split_tail("abcdef", 2), ("abcd", "ef"));
    assert_eq!(split_tail("abc", 3), ("", "abc"));
    assert_eq!(split_tail("abc", 9), ("", "abc"));
    assert_eq!(split_tail("abc", 0), ("abc", ""));
    assert_eq!(split_tail("aé", 2), ("a", "é"));
    assert!(is_aligned("aé", 2));
    assert!(!is_aligned("aé", 1));
    assert!(is_aligned("é", 5));
    assert!(is_aligned("", 0));
}
