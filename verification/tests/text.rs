use tango_bridge::text::{
    ascii_lowercase, chars_of, parse_u64, push_decimal, push_replaced, split_chars, string_of, text_eq, text_ordered,
    trimmed,
};

#[test]
fn white_space_is_trimmed_as_unicode_has_it() {
    for code in 0..=0x10ffffu32 {
        if let Some(c) = char::from_u32(code) {
            let kept = trimmed(&format!("{c}x{c}"));
            assert_eq!(kept.chars().count() == 1, c.is_whitespace(), "{:x}", code);
        }
    }
    for s in ["", " ", "a", " a", "a ", " a b ", "\u{2003}a\u{3000}b\n", "\t\r\n", "\u{200b}a"] {
        assert_eq!(trimmed(s), s.trim());
    }
}

#[test]
fn numbers_are_read_as_they_are_written() {
    for n in [0, 1, 9, 10, 99, 100, 255, 7003, 86_400, u64::MAX - 1, u64::MAX] {
        let mut out = String::new();
        push_decimal(&mut out, n);
        assert_eq!(out, n.to_string());
        assert_eq!(parse_u64(&out), Some(n));
    }
}

#[test]
fn numbers_are_read_like_the_standard_library_does() {
    for s in [
        "", "0", "00", "+0", "+", "-0", "1", "001", "18446744073709551615", "18446744073709551616",
        "99999999999999999999999", " 1", "1 ", "1a", "a", "٣", "+18446744073709551615",
    ] {
        assert_eq!(parse_u64(s), s.parse::<u64>().ok(), "{}", s);
    }
}

#[test]
fn only_ascii_letters_are_made_small() {
    for s in ["", "ABCxyz", "ÄÖÜ", "A-Z[]@`{", "İK"] {
        assert_eq!(ascii_lowercase(s), s.to_ascii_lowercase());
    }
}

#[test]
fn texts_are_ordered_like_the_standard_library_does() {
    let texts = ["", "a", "aa", "ab", "b", "B", "directory", "file", "é", "\u{ffff}", "\u{10000}", "a\u{0}"];
    for a in texts {
        for b in texts {
            assert_eq!(text_ordered(a, b), a <= b, "{} {}", a, b);
            assert_eq!(text_eq(a, b), a == b);
        }
    }
}

#[test]
fn characters_are_replaced() {
    let mut out = "x".to_string();
    push_replaced(&mut out, "a\\b\\\\c/", '\\', '/');
    assert_eq!(out, "xa/b//c/");
}

#[test]
fn texts_are_split_like_the_standard_library_does() {
    for s in ["", "/", "a", "a/b", "//", "/a//b/", "é/ü"] {
        let pieces: Vec<String> =
            split_chars(&chars_of(s), '/').iter().map(|p| string_of(p, 0, p.len())).collect();
        let expected: Vec<String> = s.split('/').map(str::to_string).collect();
        assert_eq!(pieces, expected);
        assert_eq!(pieces.join("/"), s);
    }
}
