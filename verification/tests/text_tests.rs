use takeout_meta::text::{is_white_space_char, trim};
use std::path::Path;
use takeout_meta::file_name::{extension, file_stem};
use takeout_meta::text::{
    byte_len, decimal_i64, decimal_u64, ends_with, eq_ignore_ascii_case, join, parse_i64,
    prefix_at_byte, rfind_char, str_eq, truncate_bytes,
};

#[test]
fn truncate_ascii() {
    assert_eq!(truncate_bytes("abcdef", 3), "abc");
    assert_eq!(truncate_bytes("abcdef", 6), "abcdef");
    assert_eq!(truncate_bytes("abcdef", 100), "abcdef");
    assert_eq!(truncate_bytes("abcdef", 0), "");
}

#[test]
fn truncate_keeps_whole_characters() {
    // each of these characters takes three bytes
    assert_eq!(truncate_bytes("あいう", 4), "あ");
    assert_eq!(truncate_bytes("あいう", 5), "あ");
    assert_eq!(truncate_bytes("あいう", 6), "あい");
    assert_eq!(truncate_bytes("あいう", 2), "");
    assert_eq!(truncate_bytes("aé", 2), "a");
    assert_eq!(truncate_bytes("aé", 3), "aé");
}

#[test]
fn byte_lengths() {
    assert_eq!(byte_len("abc"), 3);
    assert_eq!(byte_len("é"), 2);
    assert_eq!(byte_len("あ"), 3);
    assert_eq!(byte_len("😀"), 4);
    assert_eq!(byte_len(""), 0);
}

#[test]
fn prefix_at_byte_boundaries() {
    assert_eq!(prefix_at_byte("aéb", 1), Some("a"));
    assert_eq!(prefix_at_byte("aéb", 2), None);
    assert_eq!(prefix_at_byte("aéb", 3), Some("aé"));
    assert_eq!(prefix_at_byte("aéb", 4), Some("aéb"));
    assert_eq!(prefix_at_byte("aéb", 0), Some(""));
    assert_eq!(prefix_at_byte("aéb", 9), None);
}

#[test]
fn parse_i64_accepts_what_std_accepts() {
    let cases = [
        "0", "123", "-5", "+7", "", "-", "+", "12a", " 1", "1 ", "--1", "+-1",
        "9223372036854775807", "9223372036854775808", "-9223372036854775808",
        "-9223372036854775809", "000042", "99999999999999999999999", "١٢", "1700000000",
    ];
    for c in cases {
        assert_eq!(parse_i64(c), c.parse::<i64>().ok(), "input {:?}", c);
    }
}

#[test]
fn parse_i64_values() {
    assert_eq!(parse_i64("1600000000"), Some(1600000000));
    assert_eq!(parse_i64("-9223372036854775808"), Some(i64::MIN));
    assert_eq!(parse_i64("9223372036854775808"), None);
    assert_eq!(parse_i64(""), None);
}

#[test]
fn decimals_match_display() {
    for n in [0u64, 1, 9, 10, 11, 99, 100, 4294967295, u64::MAX] {
        assert_eq!(decimal_u64(n), n.to_string());
    }
    for i in [0i64, -1, 7, -10, 12345, i64::MIN, i64::MAX] {
        assert_eq!(decimal_i64(i), i.to_string());
    }
}

#[test]
fn string_predicates() {
    assert!(str_eq("abc", "abc"));
    assert!(!str_eq("abc", "abd"));
    assert!(!str_eq("abc", "ab"));
    assert!(ends_with("photo-edited", "-edited"));
    assert!(!ends_with("edited", "-edited"));
    assert!(ends_with("x", ""));
    assert!(eq_ignore_ascii_case("JSON", "json"));
    assert!(eq_ignore_ascii_case("JsOn", "jSoN"));
    assert!(!eq_ignore_ascii_case("jsoN", "jso"));
    assert!(!eq_ignore_ascii_case("É", "é"));
    assert_eq!(rfind_char("a.b.c", '.'), Some(3));
    assert_eq!(rfind_char("abc", '.'), None);
    assert_eq!(join("ab", "cd"), "abcd");
}

#[test]
fn stems_and_extensions_follow_path() {
    let names = [
        "photo.jpg", "photo.tar.gz", ".bashrc", ".a.b", "noext", "a.", "...", "..", ".", "",
        "IMG_0001-edited.JPG", "x.y.",
    ];
    for n in names {
        let p = Path::new(n);
        assert_eq!(extension(n), p.extension().and_then(|e| e.to_str()), "extension of {:?}", n);
        assert_eq!(file_stem(n), p.file_stem().and_then(|e| e.to_str()), "stem of {:?}", n);
    }
}

#[test]
fn trim_matches_std() {
    for v in 0u32..0x110000 {
        if let Some(c) = char::from_u32(v) {
            assert_eq!(is_white_space_char(c), c.is_whitespace(), "U+{:04X}", v);
        }
    }
    for s in ["  error text \n", "\t\n", "", "x", " \u{3000}a b\u{85}", "\u{200B}x\u{200B}", "a\u{2029}"] {
        assert_eq!(trim(s), s.trim(), "{:?}", s);
    }
}
