use rpow2_authorized_miner::text::{
    chars_contain, chars_equal, is_blank, is_white_space_char, u64_to_decimal,
};

#[test]
fn white_space_matches_std() {
    for code in 0u32..=0x10FFFF {
        if let Some(c) = char::from_u32(code) {
            assert_eq!(is_white_space_char(c), c.is_whitespace(), "U+{code:04X}");
        }
    }
}

#[test]
fn decimal_matches_std() {
    for n in [0u64, 7, 10, 99, 100, 12345, u64::MAX - 1, u64::MAX] {
        assert_eq!(u64_to_decimal(n), n.to_string());
    }
}

#[test]
fn text_comparisons() {
    assert!(chars_equal("abc", "abc"));
    assert!(!chars_equal("abc", "abd"));
    assert!(!chars_equal("abc", "ab"));
    assert!(chars_contain("pre-staging-1", "staging"));
    assert!(chars_contain("abc", ""));
    assert!(!chars_contain("stag", "staging"));
    assert!(is_blank(" \u{3000}\n"));
    assert!(!is_blank(" x "));
}
