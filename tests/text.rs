use sukkiri::text::{contains, same_text, split_lines, starts_with};

#[test]
fn lines_split_like_std() {
    let samples = [
        "", "a", "a\n", "a\nb", "a\r\nb\r\n", "\n", "\n\n", "a\r", "a\rb\n", "\r\n", "x\n\ny", "é\r\nü",
    ];
    for s in samples {
        let expected: Vec<String> = s.lines().map(|l| l.to_string()).collect();
        assert_eq!(split_lines(s), expected, "input {s:?}");
    }
}

#[test]
fn text_comparisons() {
    assert!(starts_with("/a/b", "/a"));
    assert!(!starts_with("/a", "/a/b"));
    assert!(contains("xx/Library/Caches/Firefox/yy", "Library/Caches/Firefox"));
    assert!(!contains("Fire", "Firefox"));
    assert!(same_text("abc", "abc"));
    assert!(!same_text("abc", "abd"));
}
