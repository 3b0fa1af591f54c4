use obs_bot::text::{contains, lex_le_str, split_lines, starts_with, trim, trim_end_char};

#[test]
fn split_lines_follows_str_lines() {
    for s in ["", "\n", "a", "a\n", "a\r\nb\n", "a\n\nb", "x\r", "a\r\n\r\n", "\n\nz"] {
        let expected: Vec<String> = s.lines().map(|l| l.to_string()).collect();
        assert_eq!(split_lines(s), expected, "lines of {:?}", s);
    }
}

#[test]
fn trim_removes_unicode_whitespace() {
    assert_eq!(trim("  a b \t\n"), "a b");
    assert_eq!(trim("\u{3000}x\u{a0}"), "x");
    assert_eq!(trim("   "), "");
    assert_eq!(trim_end_char("12##", '#'), "12");
}

#[test]
fn substring_and_prefix_tests() {
    assert!(contains("https://build.example.org/package/show/a/b", "example.org/package/"));
    assert!(!contains("example.org/request/1", "example.org/package/"));
    assert!(contains("abc", ""));
    assert!(starts_with("unsub x", "unsub"));
    assert!(!starts_with("uns", "unsub"));
}

#[test]
fn lexicographic_order_matches_str() {
    for (a, b) in [("a", "b"), ("12", "123"), ("123", "2"), ("", "x"), ("b", "a"), ("é", "z"), ("same", "same")] {
        assert_eq!(lex_le_str(a, b), a <= b, "{} <= {}", a, b);
    }
}
