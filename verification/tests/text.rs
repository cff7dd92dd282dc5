use chatbot::text::{
    bytes_in, chars_of, decimal_text, joined, listed, same, space, starts, text_before, text_of,
    trimmed,
};

#[test]
fn whitespace_is_what_the_standard_library_says() {
    let mut code: u32 = 0;
    while code <= 0x10ffff {
        if let Some(c) = char::from_u32(code) {
            assert_eq!(space(c), c.is_whitespace(), "{code:x}");
        }
        code += 1;
    }
}

#[test]
fn trimming_is_what_the_standard_library_says() {
    for s in ["", " ", "a", " a ", "\n\na b\t", "\u{3000}日本 語\u{2028}", "\u{200b} x"] {
        assert_eq!(trimmed(s), s.trim());
    }
}

#[test]
fn texts_are_taken_apart_and_put_together() {
    let v = chars_of("aß日\u{1f600}");
    assert_eq!(v, vec!['a', 'ß', '日', '\u{1f600}']);
    assert_eq!(text_of(&v, 1, 4), "ß日\u{1f600}");
    assert_eq!(text_of(&v, 2, 2), "");
    assert_eq!(bytes_in("aß日\u{1f600}"), 10);
    assert!(same("aß", "aß"));
    assert!(!same("aß", "as"));
    assert!(starts("~/x", "~/"));
    assert!(!starts("~", "~/"));
}

#[test]
fn lists_are_searched_and_joined() {
    let list = vec!["a".to_string(), "b c".to_string()];
    assert!(listed(&list, "b c"));
    assert!(!listed(&list, "b"));
    assert_eq!(joined(&list, ", "), "a, b c");
    assert_eq!(joined(&Vec::new(), ", "), "");
}

#[test]
fn texts_are_ordered_like_strings() {
    let words = ["", "a", "ab", "b", "ß", "日", "\u{ffff}", "\u{1f600}", "A"];
    for a in words {
        for b in words {
            assert_eq!(text_before(a, b), a < b, "{a} {b}");
        }
    }
}

#[test]
fn numbers_are_written_in_decimal() {
    for n in [0usize, 7, 10, 99, 100, 4001, 1234567890, usize::MAX] {
        assert_eq!(decimal_text(n), n.to_string());
    }
}
