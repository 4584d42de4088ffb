use deemenu::order::str_lt;
use deemenu::text::{
    contains_str, has_whitespace, is_whitespace_char, starts_with_str, trim_start_str, trim_str,
};

#[test]
fn whitespace_matches_std_for_every_char() {
    for u in 0..=0x10FFFFu32 {
        if let Some(c) = char::from_u32(u) {
            assert_eq!(is_whitespace_char(c), c.is_whitespace(), "U+{:04X}", u);
        }
    }
}

#[test]
fn trim_matches_std() {
    for t in ["", "   ", " a ", "\ta b\n", "\u{3000}x\u{85}", "abc", " sudo  vim "] {
        assert_eq!(trim_str(t), t.trim());
        assert_eq!(trim_start_str(t), t.trim_start());
    }
}

#[test]
fn prefix_and_contains() {
    assert!(starts_with_str("sudo vim", "sudo "));
    assert!(!starts_with_str("sudo", "sudo "));
    assert!(starts_with_str("x", ""));
    assert!(contains_str("firefox", "fox"));
    assert!(contains_str("firefox", ""));
    assert!(!contains_str("fox", "firefox"));
    assert!(!contains_str("firefox", "foxy"));
    assert!(has_whitespace("ls -la"));
    assert!(!has_whitespace("ls"));
}

#[test]
fn byte_order_matches_std() {
    let words = ["", "a", "ab", "b", "B", "é", "z", "aa", "\u{10000}", "\u{FFFF}"];
    for a in words {
        for b in words {
            assert_eq!(str_lt(a, b), a < b, "{:?} {:?}", a, b);
        }
    }
}
