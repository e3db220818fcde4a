use irisc_asm::text::{
    chars_of, is_whitespace, parse_u64, split_once_pair, split_once_str, split_str,
    str_eq, strip_prefix_str, trim_str,
};

#[test]
fn trimming_matches_the_standard_library() {
    for text in ["", " ", "a", " a ", "\t a b \r\n", "\u{a0}x\u{3000}", "\u{200b}x", "  \u{e9} "] {
        assert_eq!(trim_str(text), text.trim(), "{:?}", text);
    }
    for code in 0..0x3100u32 {
        if let Some(c) = char::from_u32(code) {
            assert_eq!(is_whitespace(c), c.is_whitespace(), "{:x}", code);
        }
    }
}

#[test]
fn splitting_matches_the_standard_library() {
    for text in ["", ",", "a", "a,b", ",a,,b,", "\u{e9},\u{4e2d}\u{6587},z"] {
        assert_eq!(
            split_str(text, ','),
            text.split(',').collect::<Vec<_>>(),
            "{:?}",
            text
        );
        assert_eq!(split_once_str(text, ','), text.split_once(','), "{:?}", text);
    }
    for text in ["", ".", "..", "a..b", "a.b..c", "a...b", "..", "a..", "\u{e9}..\u{e9}"] {
        assert_eq!(split_once_pair(text, '.'), text.split_once(".."), "{:?}", text);
    }
}

#[test]
fn prefixes_and_equality() {
    assert_eq!(strip_prefix_str("0x10", "0x"), Some("10"));
    assert_eq!(strip_prefix_str("0x", "0x"), Some(""));
    assert_eq!(strip_prefix_str("0", "0x"), None);
    assert_eq!(strip_prefix_str("10x", "0x"), None);
    assert_eq!(strip_prefix_str("abc", ""), Some("abc"));
    assert!(str_eq("abc", "abc"));
    assert!(!str_eq("abc", "abd"));
    assert!(!str_eq("abc", "ab"));
    assert!(str_eq("", ""));
    assert_eq!(chars_of("a\u{e9}z"), vec!['a', '\u{e9}', 'z']);
}

#[test]
fn digits_match_the_standard_library() {
    for text in ["", "0", "12", "0012", "ff", "FF", "fg", "1 ", " 1", "1_0",
        "18446744073709551615", "18446744073709551616", "ffffffffffffffff",
        "10000000000000000", "\u{661}"] {
        for radix in [10u32, 16] {
            assert_eq!(
                parse_u64(text, radix),
                u64::from_str_radix(text, radix).ok(),
                "{:?} {}",
                text,
                radix
            );
        }
    }
}

#[test]
fn digits_take_no_sign() {
    for text in ["+0", "-0", "+", "-", "+12", "-12", "++1", "+ff"] {
        assert_eq!(parse_u64(text, 10), None, "{:?}", text);
        assert_eq!(parse_u64(text, 16), None, "{:?}", text);
    }
}
