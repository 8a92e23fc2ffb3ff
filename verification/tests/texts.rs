use radio_bridge::text::{
    before_last, chars_of, contains, find_from, parse_u32, parse_u64, push_decimal, replace_all,
    same_text, starts_with, text_between, to_decimal, trim, trim_prefixes, trim_suffixes,
};

fn chars(s: &str) -> Vec<char> {
    s.chars().collect()
}

fn string(c: &[char]) -> String {
    c.iter().collect()
}

#[test]
fn characters_are_taken_apart_and_put_together() {
    let c = chars_of("aé—😀");
    assert_eq!(c, ['a', 'é', '—', '😀']);
    assert_eq!(text_between(&c, 1, 3), "é—");
    assert_eq!(text_between(&c, 2, 2), "");
}

#[test]
fn numbers_are_written_and_read() {
    for n in [0u64, 7, 10, 99, 100, 4_294_967_295, 4_294_967_296, u64::MAX] {
        assert_eq!(to_decimal(n), n.to_string());
        assert_eq!(parse_u64(&chars(&to_decimal(n))), Some(n));
        assert_eq!(parse_u32(&chars(&to_decimal(n))), u32::try_from(n).ok());
    }
    let mut s = "n=".to_string();
    push_decimal(&mut s, 305);
    assert_eq!(s, "n=305");
    for s in ["", "+", "-1", "1x", " 1", "18446744073709551616", "99999999999999999999", "１"] {
        assert_eq!(parse_u64(&chars(s)), s.parse::<u64>().ok());
        assert_eq!(parse_u64(&chars(s)), None);
    }
    assert_eq!(parse_u64(&chars("+042")), Some(42));
}

#[test]
fn texts_are_searched() {
    let s = chars("abcabc");
    assert_eq!(find_from(&s, &chars("ca"), 0), Some(2));
    assert_eq!(find_from(&s, &chars("bc"), 2), Some(4));
    assert_eq!(find_from(&s, &chars("bc"), 5), None);
    assert_eq!(find_from(&s, &chars(""), 6), Some(6));
    assert_eq!(find_from(&s, &chars(""), 7), None);
    assert!(contains("abc", "bc"));
    assert!(!contains("abc", "bd"));
    assert!(contains("", ""));
    assert!(starts_with("abc", "ab"));
    assert!(!starts_with("abc", "b"));
    assert!(!starts_with("a", "ab"));
    assert!(same_text("é", "é"));
    assert!(!same_text("e", "é"));
    assert!(!same_text("e", "ee"));
}

#[test]
fn texts_are_cut() {
    assert_eq!(before_last(&chars("10.0.0.7"), '.').map(string), Some("10.0.0".to_string()));
    assert_eq!(before_last(&chars(".x"), '.').map(string), Some(String::new()));
    assert_eq!(before_last(&chars("x"), '.').map(string), None);
    for s in ["", "  ", " \t a b\u{a0}\r\n", "\u{3000}x\u{2003}", "x", "\u{200b}x", "\u{180e}y"] {
        assert_eq!(string(trim(&chars(s))), s.trim());
    }
    for c in (0..0x11_0000u32).filter_map(char::from_u32) {
        if c.is_whitespace() {
            assert!(trim(&[c]).is_empty(), "{c:?}");
        } else if (c as u32) < 0x4000 {
            assert_eq!(trim(&[c]).len(), 1, "{c:?}");
        }
    }
    for s in ["|-- |-- x", "|--x", "x|-- ", ""] {
        assert_eq!(string(trim_prefixes(&chars(s), "|-- ")), s.trim_start_matches("|-- "));
    }
    for s in ["7.ts", "7.ts.ts", ".ts", "7.tst", "ts", ""] {
        assert_eq!(string(trim_suffixes(&chars(s), ".ts")), s.trim_end_matches(".ts"));
    }
}

#[test]
fn texts_are_replaced() {
    for (s, part, with) in [
        ("a.b.c", ".", "--"),
        ("aaaa", "aa", "b"),
        ("aaa", "aa", "aaa"),
        ("xyz", "q", "r"),
        ("", "q", "r"),
        ("http://a http://b", "http://", "x://"),
    ] {
        assert_eq!(replace_all(s, part, with), s.replace(part, with));
    }
}
