use tsql::text::{
    chars_of, eq_ignore_ascii_case, find_char, is_white_space, same_chars, split_once,
    split_whitespace, string_of, strip_prefix, to_ascii_lower, trim, trim_end, trim_start,
    CharClass,
};

fn owned(s: &[char]) -> String {
    s.iter().collect()
}

#[test]
fn white_space_is_the_unicode_property() {
    for c in '\0'..=char::MAX {
        assert_eq!(is_white_space(c), c.is_whitespace(), "{:?}", c);
    }
}

#[test]
fn ascii_lower_case_leaves_other_letters_alone() {
    for c in '\0'..=char::MAX {
        assert_eq!(to_ascii_lower(c), c.to_ascii_lowercase());
    }
}

#[test]
fn comparison_ignores_ascii_case_only() {
    assert!(eq_ignore_ascii_case("SslMode", "sslmode"));
    assert!(!eq_ignore_ascii_case("sslmod", "sslmode"));
    assert!(!eq_ignore_ascii_case("\u{c9}", "\u{e9}"));
    assert!(eq_ignore_ascii_case("", ""));
}

#[test]
fn characters_round_trip() {
    let s = "na\u{ef}ve \u{1f980}";
    let cs = chars_of(s);
    assert_eq!(cs.len(), 7);
    assert_eq!(string_of(&cs), s);
    assert!(same_chars(&cs, &chars_of(s)));
    assert!(!same_chars(&cs, &chars_of("naive")));
}

#[test]
fn trimming_matches_std() {
    for s in ["", "  ", " a b ", "\u{a0}x\u{3000}", "a", ";;a;;", "((", "(a("] {
        let cs = chars_of(s);
        assert_eq!(owned(trim(&cs, CharClass::WhiteSpace)), s.trim());
        assert_eq!(owned(trim_start(&cs, CharClass::WhiteSpace)), s.trim_start());
        assert_eq!(owned(trim_end(&cs, CharClass::Is(';'))), s.trim_end_matches(';'));
        assert_eq!(owned(trim(&cs, CharClass::Is('('))), s.trim_matches('('));
    }
}

#[test]
fn splitting_matches_std() {
    for s in ["", " ", "a", " a  b\tc\n", "a=b", "=", "a==b", "\u{2003}x\u{85}y"] {
        let cs = chars_of(s);
        let words: Vec<String> = split_whitespace(&cs).iter().map(|w| owned(w)).collect();
        let expected: Vec<String> = s.split_whitespace().map(|w| w.to_string()).collect();
        assert_eq!(words, expected);
        let halves = split_once(&cs, '=').map(|(a, b)| (owned(a), owned(b)));
        let expected = s.split_once('=').map(|(a, b)| (a.to_string(), b.to_string()));
        assert_eq!(halves, expected);
    }
}

#[test]
fn prefixes_and_positions() {
    let cs = chars_of("table:a:b");
    assert_eq!(strip_prefix(&cs, "table:").map(owned), Some("a:b".to_string()));
    assert_eq!(strip_prefix(&cs, "schema:"), None);
    assert_eq!(strip_prefix(&chars_of("tab"), "table:"), None);
    assert_eq!(find_char(&cs, ':'), Some(5));
    assert_eq!(find_char(&cs, ';'), None);
}
