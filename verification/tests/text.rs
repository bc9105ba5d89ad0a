use iomon::text::{
    chars_of, code, decimal_of, fields_of, find_char, find_last, is_control, is_digit, is_space, joined,
    lines_of, parse_signed, parse_unsigned, push_left, push_right, rsplit_once, same_text, split_once,
    starts_with, string_of, trim, words_of,
};

fn chars(s: &str) -> Vec<char> {
    s.chars().collect()
}

fn strings(v: &[&[char]]) -> Vec<String> {
    v.iter().map(|s| s.iter().collect()).collect()
}

const TEXTS: [&str; 12] = [
    "",
    "\n",
    "a",
    "a\nb\r\nc\r",
    "a\r\n\r\nb\n\n",
    "  x  y\tz \u{3000}w\u{a0}",
    ":a::b:",
    "中文 字\u{2028}行",
    "\r",
    "\r\n",
    "a b=c&d=e?f",
    "   ",
];

#[test]
fn characters_have_their_kinds() {
    for u in 0..0x11_0000u32 {
        if let Some(c) = char::from_u32(u) {
            assert_eq!(is_space(c), c.is_whitespace(), "{:x}", u);
            assert_eq!(is_control(c), c.is_control(), "{:x}", u);
            assert_eq!(is_digit(c), c.is_ascii_digit(), "{:x}", u);
            assert_eq!(code(c), u);
        }
    }
}

#[test]
fn lines_words_and_fields_match_the_library() {
    for t in TEXTS {
        let cs = chars(t);
        assert_eq!(strings(&lines_of(&cs)), t.lines().collect::<Vec<_>>(), "{:?}", t);
        assert_eq!(strings(&words_of(&cs)), t.split_whitespace().collect::<Vec<_>>(), "{:?}", t);
        for sep in [':', '&', '\n', ' '] {
            assert_eq!(strings(&fields_of(&cs, sep)), t.split(sep).collect::<Vec<_>>(), "{:?}", t);
        }
        assert_eq!(trim(&cs).iter().collect::<String>(), t.trim(), "{:?}", t);
    }
}

#[test]
fn finding_matches_the_library() {
    for t in TEXTS {
        let cs = chars(t);
        for c in [':', 'a', '=', '中'] {
            let own = split_once(&cs, c).map(|(a, b)| (a.iter().collect::<String>(), b.iter().collect::<String>()));
            assert_eq!(own, t.split_once(c).map(|(a, b)| (a.to_string(), b.to_string())));
            let own = rsplit_once(&cs, c).map(|(a, b)| (a.iter().collect::<String>(), b.iter().collect::<String>()));
            assert_eq!(own, t.rsplit_once(c).map(|(a, b)| (a.to_string(), b.to_string())));
        }
    }
    let cs = chars("abcabc");
    assert_eq!(find_char(&cs, 'b', 0), 1);
    assert_eq!(find_char(&cs, 'b', 2), 4);
    assert_eq!(find_char(&cs, 'x', 0), 6);
    assert_eq!(find_last(&cs, 'b'), Some(4));
    assert_eq!(find_last(&cs, 'x'), None);
    assert!(starts_with(&cs, "abc"));
    assert!(!starts_with(&cs, "abd"));
    assert!(!starts_with(&cs, "abcabca"));
    assert!(starts_with(&cs, ""));
    assert!(same_text(&cs, "abcabc"));
    assert!(!same_text(&cs, "abcab"));
}

#[test]
fn numbers_match_the_library() {
    for t in [
        "", "+", "-", "0", "+0", "-0", "007", "12a", "18446744073709551615", "18446744073709551616",
        "99999999999999999999999999", "-9223372036854775808", "9223372036854775807", "-9223372036854775809",
        "9223372036854775808", "--1", "+-1", " 1", "１２", "4294967295", "4294967296", "-17",
    ] {
        let cs = chars(t);
        assert_eq!(parse_unsigned(&cs, u64::MAX), t.parse::<u64>().ok(), "{:?}", t);
        assert_eq!(parse_unsigned(&cs, u32::MAX as u64), t.parse::<u32>().ok().map(u64::from), "{:?}", t);
        assert_eq!(parse_unsigned(&cs, u16::MAX as u64), t.parse::<u16>().ok().map(u64::from), "{:?}", t);
        assert_eq!(parse_signed(&cs), t.parse::<i64>().ok(), "{:?}", t);
    }
}

#[test]
fn decimal_numbers_read_back() {
    for n in [0u64, 9, 10, 99, 100, 1234567890, u64::MAX] {
        let text = decimal_of(n);
        assert_eq!(text, n.to_string());
        assert_eq!(parse_unsigned(&chars(&text), u64::MAX), Some(n));
    }
}

#[test]
fn columns_match_the_library() {
    for s in ["", "ab", "中文字", "abcdefgh"] {
        for w in [0usize, 1, 3, 5, 12] {
            let mut r = String::from("|");
            push_right(&mut r, s, w);
            assert_eq!(r, format!("|{:>w$}", s, w = w));
            let mut l = String::from("|");
            push_left(&mut l, s, w);
            assert_eq!(l, format!("|{:<w$}", s, w = w));
        }
    }
}

#[test]
fn strings_and_characters() {
    let s = "a中\u{10ffff}\0";
    assert_eq!(chars_of(s), chars(s));
    assert_eq!(string_of(&chars(s)), s);
    assert_eq!(joined("a", "中"), "a中");
}
