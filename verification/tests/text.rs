//! Text operations, against those of the standard library.

use roomeq_temporal::order::sort;
use roomeq_temporal::text::{
    characters, comes_before, contains_text, decimal_text, digit_text, is_white_space, join,
    same_text, split, strip_prefix, trim,
};

#[test]
fn splitting_keeps_empty_pieces() {
    for s in ["", "/", "a", "a/b", "/a", "a/", "a//b", "positions/MLP/FL/impulse_response"] {
        let expected: Vec<&str> = s.split('/').collect();
        assert_eq!(split(s, '/'), expected, "{s:?}");
    }
}

#[test]
fn trimming_removes_unicode_white_space() {
    for s in ["", " ", "abc", " abc\n", "\t a b \r\n", "\u{a0}x\u{2003}", "\u{3000}\u{85}"] {
        assert_eq!(trim(s), s.trim(), "{s:?}");
    }
    for c in 0..=0x3_0000_u32 {
        if let Some(c) = char::from_u32(c) {
            assert_eq!(is_white_space(c), c.is_whitespace(), "{c:?}");
        }
    }
}

#[test]
fn decimal_digits_have_no_leading_zeros() {
    for n in [0, 7, 10, 256, 1_000_000, u64::MAX] {
        assert_eq!(decimal_text(n), n.to_string());
    }
    assert_eq!(digit_text(9), "9");
    assert_eq!(digit_text(15), "f");
}

#[test]
fn prefixes_are_stripped_once() {
    assert_eq!(strip_prefix("ir_sha256=ab", "ir_sha256="), Some("ab"));
    assert_eq!(strip_prefix("ir_sha256", "ir_sha256="), None);
    assert_eq!(strip_prefix("xir_sha256=", "ir_sha256="), None);
    assert_eq!(strip_prefix("\u{e9}\u{e9}a", "\u{e9}"), Some("\u{e9}a"));
}

#[test]
fn joining_and_searching() {
    let parts = vec!["a".to_owned(), String::new(), "b".to_owned()];
    assert_eq!(join(&parts, "; "), "a; ; b");
    assert_eq!(join(&Vec::new(), "; "), "");
    assert!(contains_text(&parts, ""));
    assert!(!contains_text(&parts, "c"));
    assert!(same_text("L", "L"));
    assert!(!same_text("L", "l"));
}

#[test]
fn sorting_is_stable_and_by_code_point() {
    let keys = ["b", "a", "", "ab", "a", "\u{e9}", "Z", "b"];
    let lists: Vec<Vec<char>> = keys.iter().map(|key| characters(key)).collect();
    let mut expected: Vec<usize> = (0..keys.len()).collect();
    expected.sort_by_key(|i| keys[*i]);
    assert_eq!(sort(&lists), expected);
    for a in keys {
        for b in keys {
            assert_eq!(comes_before(&characters(a), &characters(b)), a < b);
        }
    }
}
