use conventional_commit::chars::{char_is_alphanumeric, char_is_whitespace};

#[test]
fn ascii_whitespace_is_space_and_tab_to_carriage_return() {
    for code in 0u8..128 {
        let c = code as char;
        let expected = matches!(c, ' ' | '\t' | '\n' | '\u{b}' | '\u{c}' | '\r');
        assert_eq!(char_is_whitespace(c), expected, "{:?}", c);
    }
}

#[test]
fn ascii_alphanumerics_are_letters_and_digits() {
    for code in 0u8..128 {
        let c = code as char;
        let expected = matches!(c, 'a'..='z' | 'A'..='Z' | '0'..='9');
        assert_eq!(char_is_alphanumeric(c), expected, "{:?}", c);
    }
}

#[test]
fn header_delimiters_are_in_neither_class() {
    for c in ['(', ')', '!', ':'] {
        assert!(!char_is_whitespace(c));
        assert!(!char_is_alphanumeric(c));
    }
    assert!(char_is_whitespace('\n'));
    assert!(!char_is_alphanumeric('\n'));
}

#[test]
fn classes_agree_with_the_standard_library_everywhere() {
    for code in 0u32..=0x10ffff {
        if let Some(c) = char::from_u32(code) {
            assert_eq!(char_is_whitespace(c), c.is_whitespace(), "{:?}", c);
            assert_eq!(char_is_alphanumeric(c), c.is_alphanumeric(), "{:?}", c);
        }
    }
}

#[test]
fn unicode_whitespace_beyond_ascii() {
    for c in ['\u{85}', '\u{a0}', '\u{1680}', '\u{2003}', '\u{2028}', '\u{2029}', '\u{3000}'] {
        assert!(char_is_whitespace(c), "{:?}", c);
    }
    for c in ['\u{200b}', 'é', '越', '\u{feff}'] {
        assert!(!char_is_whitespace(c), "{:?}", c);
    }
}

#[test]
fn unicode_alphanumerics_beyond_ascii() {
    for c in ['é', 'ß', 'Ω', 'ж', '藏', '٣', '৬', '¾', '①'] {
        assert!(char_is_alphanumeric(c), "{:?}", c);
    }
    for c in ['—', '€', '💥', '\u{a0}', '¿'] {
        assert!(!char_is_alphanumeric(c), "{:?}", c);
    }
}
