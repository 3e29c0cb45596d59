use x402_router::text::{sort_strings, str_eq, str_le, strip_leading, strip_trailing};

#[test]
fn string_comparison_is_exact() {
    assert!(str_eq("abc", "abc"));
    assert!(str_eq("", ""));
    assert!(!str_eq("abc", "abd"));
    assert!(!str_eq("abc", "ab"));
    assert!(!str_eq("abc", "ABC"));
}

#[test]
fn leading_strip_removes_all_leading_occurrences() {
    assert_eq!(strip_leading("///fox", '/'), "fox");
    assert_eq!(strip_leading("fox", '/'), "fox");
    assert_eq!(strip_leading("", '/'), "");
    assert_eq!(strip_leading("///", '/'), "");
    assert_eq!(strip_leading("/a/b/", '/'), "a/b/");
}

#[test]
fn lexicographic_comparison() {
    assert!(str_le("a", "b"));
    assert!(!str_le("b", "a"));
    assert!(str_le("abc", "abc"));
    assert!(str_le("ab", "abc"));
    assert!(!str_le("abc", "ab"));
    assert!(str_le("", "a"));
    assert!(str_le("Z", "a"));
}

#[test]
fn sorting_orders_and_keeps_every_string() {
    let v = vec![
        "/owl".to_string(),
        "/fox".to_string(),
        "/bat".to_string(),
        "/fox".to_string(),
    ];
    let sorted = sort_strings(v);
    assert_eq!(
        sorted,
        vec!["/bat".to_string(), "/fox".to_string(), "/fox".to_string(), "/owl".to_string()]
    );
}

#[test]
fn trailing_strip_removes_all_trailing_occurrences() {
    assert_eq!(strip_trailing("https://x//", '/'), "https://x");
    assert_eq!(strip_trailing("https://x", '/'), "https://x");
    assert_eq!(strip_trailing("", '/'), "");
    assert_eq!(strip_trailing("/a/b", 'b'), "/a/");
}
