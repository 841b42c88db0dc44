use engine_core::matching::{find_spelled, replace_spelled_text, spelled_len_at};
use engine_core::text::{
    chars_eq, chars_of, contains_char, is_number_separator, is_whitespace, push_text, push_u64,
    push_usize, string_of, text_eq, trim_chars,
};

fn v(s: &str) -> Vec<char> {
    s.chars().collect()
}

#[test]
fn text_round_trip() {
    assert_eq!(chars_of("héllo"), v("héllo"));
    assert_eq!(string_of(&v("héllo")), "héllo");
    assert!(text_eq("abc", "abc"));
    assert!(!text_eq("abc", "abd"));
    assert!(chars_eq(&v(""), &v("")));
    assert!(contains_char(&v("a@b"), '@'));
    assert!(!contains_char(&v("ab"), '@'));
}

#[test]
fn substring_search() {
    assert!(find_spelled(&v("hello world"), &v("o w"), false));
    assert!(!find_spelled(&v("hello"), &v("world"), false));
    assert!(find_spelled(&v("abc"), &v(""), false));
    assert!(!find_spelled(&v("ab"), &v("abc"), false));
}

#[test]
fn replace_is_leftmost_non_overlapping() {
    assert_eq!(string_of(&replace_spelled_text(&v("aaaa"), &v("aa"), false, &v("b"))), "bb");
    assert_eq!(string_of(&replace_spelled_text(&v("aaa"), &v("aa"), false, &v("b"))), "ba");
    assert_eq!(string_of(&replace_spelled_text(&v("xyz"), &v("q"), false, &v("b"))), "xyz");
    assert_eq!("aaa".replace("aa", "b"), "ba");
}

#[test]
fn numbers_are_matched_as_written() {
    let digits = v("0123456789");
    assert_eq!(spelled_len_at(&v("012-345 6789!"), &digits, 0, true), Some(12));
    assert_eq!(spelled_len_at(&v("012-345 6789"), &digits, 0, false), None);
    assert_eq!(spelled_len_at(&v("(012) 345-6789"), &digits, 0, true), None);
    assert_eq!(spelled_len_at(&v("(012) 345-6789"), &digits, 1, true), Some(13));
    // A line break as JSON writes it, and a vertical tab.
    assert_eq!(spelled_len_at(&v("0123\\n456789"), &digits, 0, true), Some(12));
    assert_eq!(spelled_len_at(&v("0123\\u000b456789"), &digits, 0, true), Some(16));
    // A separator never opens a match.
    assert_eq!(spelled_len_at(&v(" 0123456789"), &digits, 0, true), None);
    assert_eq!(
        string_of(&replace_spelled_text(&v("call 012-345 6789."), &digits, true, &v("[REDACTED]"))),
        "call [REDACTED]."
    );
}

#[test]
fn quotes_are_matched_as_json_escapes_them() {
    let id = v("\"S1234567D\"");
    assert_eq!(spelled_len_at(&v("\\\"S1234567D\\\""), &id, 0, false), Some(13));
    assert_eq!(spelled_len_at(&v("\"S1234567D\""), &id, 0, false), Some(11));
}

#[test]
fn whitespace_agrees_with_std() {
    for u in 0u32..=0x10FFFF {
        if let Some(c) = char::from_u32(u) {
            assert_eq!(is_whitespace(c), c.is_whitespace(), "U+{:04X}", u);
        }
    }
    assert!(is_number_separator('-') && is_number_separator('(') && is_number_separator(')'));
    assert!(is_number_separator('\u{3000}') && !is_number_separator('['));
}

#[test]
fn trim_unicode_whitespace() {
    assert_eq!(string_of(&trim_chars(&v(" \t a b \n"))), "a b");
    assert_eq!(string_of(&trim_chars(&v("\u{3000}x\u{a0}"))), "x");
    assert_eq!(string_of(&trim_chars(&v("   "))), "");
}

#[test]
fn decimal_formatting() {
    let mut s = String::new();
    push_usize(&mut s, 0);
    push_text(&mut s, ",");
    push_usize(&mut s, 1234567);
    push_text(&mut s, ",");
    push_u64(&mut s, u64::MAX);
    assert_eq!(s, format!("0,1234567,{}", u64::MAX));
}
