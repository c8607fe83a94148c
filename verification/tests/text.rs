use pyrunner::text::{char_utf8_len, join_strings, str_less, trimmed, u64_string, white_space};

#[test]
fn white_space_matches_std_for_every_char() {
    for u in 0u32..=0x10FFFF {
        if let Some(c) = char::from_u32(u) {
            assert_eq!(white_space(c), c.is_whitespace(), "U+{u:04X}");
            assert_eq!(char_utf8_len(c), c.len_utf8(), "U+{u:04X}");
        }
    }
}

#[test]
fn string_order_matches_std() {
    let samples = ["", "a", "ab", "b", "B", "é", "z", "2024-01-01", "2024-01-01T00", "\u{10000}", "\u{ffff}"];
    for a in samples {
        for b in samples {
            assert_eq!(str_less(a, b), a < b, "{a:?} < {b:?}");
        }
    }
}

#[test]
fn trim_join_and_decimal_behave_like_std() {
    assert_eq!(trimmed("\u{3000} x y \t\n"), "x y");
    assert_eq!(join_strings(&["a".to_string(), "".to_string(), "b".to_string()], ", "), "a, , b");
    assert_eq!(u64_string(0), "0");
    assert_eq!(u64_string(18446744073709551615), "18446744073709551615");
}

#[test]
fn word_and_alphanumeric_characters_are_never_white_space() {
    for u in 0u32..=0x10FFFF {
        if let Some(c) = char::from_u32(u) {
            if c.is_whitespace() {
                assert!(!regex_syntax::is_word_character(c), "{u:#x}");
                assert!(!c.is_alphanumeric(), "{u:#x}");
            }
        }
    }
}
