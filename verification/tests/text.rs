use rime_user_dict_sync::text::{
    decimal_text, is_blank, is_white, join_texts, replace_char, same_ignoring_case, split_text,
    split_text_first, split_text_last, strip_text_end, strip_text_start, text_lines,
    to_ascii_lower, trim_text, trim_text_end,
};

#[test]
fn white_space_is_that_of_the_standard_library() {
    for code in 0..=0x10ffffu32 {
        if let Some(c) = char::from_u32(code) {
            assert_eq!(is_white(c), c.is_whitespace(), "{code:x}");
        }
    }
}

#[test]
fn lines_are_those_of_the_standard_library() {
    for text in ["", "\n", "a", "a\n", "a\r\nb", "a\n\nb\n", "a\r", "\r\n", "a\n\r\n", "a\r\r\nb"] {
        assert_eq!(text_lines(text), text.lines().collect::<Vec<_>>(), "{text:?}");
    }
}

#[test]
fn trimming_and_splitting_agree_with_the_standard_library() {
    for text in ["", " ", " a ", "\u{3000}a b\t", "a", "//a//", "a/b/", "/union/x/union/"] {
        assert_eq!(trim_text(text), text.trim());
        assert_eq!(trim_text_end(text), text.trim_end());
        assert_eq!(is_blank(text), text.trim().is_empty());
        assert_eq!(strip_text_end(text, '/'), text.trim_end_matches('/'));
        assert_eq!(strip_text_start(text, '/'), text.trim_start_matches('/'));
        assert_eq!(split_text(text, '/'), text.split('/').collect::<Vec<_>>());
        assert_eq!(join_texts(&split_text(text, '/'), "/"), text);
        assert_eq!(replace_char(text, '/', "::"), text.replace('/', "::"));
        let owned = |pair: Option<(&str, &str)>| pair.map(|(a, b)| (a.to_owned(), b.to_owned()));
        assert_eq!(split_text_first(text, "/"), owned(text.split_once("/")));
        assert_eq!(split_text_last(text, "/"), owned(text.rsplit_once("/")));
        assert_eq!(split_text_last(text, "/union/"), owned(text.rsplit_once("/union/")));
    }
}

#[test]
fn case_counts_only_outside_ascii() {
    assert!(same_ignoring_case("WebDAV", "wEBdav"));
    assert!(!same_ignoring_case("É", "é"));
    assert_eq!(to_ascii_lower("AbÉ"), "abÉ");
}

#[test]
fn numbers_are_written_in_decimal() {
    assert_eq!(decimal_text(0), "0");
    assert_eq!(decimal_text(10), "10");
    assert_eq!(decimal_text(u64::MAX), u64::MAX.to_string());
}
