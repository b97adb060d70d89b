use forsaken_mail::text::{
    append, append_str, blank, canonical_chars, chars_of, clone_texts, contains_text, decimal_of,
    digits_from, equal, find_char, has_prefix, is_whitespace, join_with, leading_len, parse_i64,
    parse_usize, rfind_char, slice, split_on, split_words, strip_end, strip_start, text_of,
    to_lower_char, to_lowercase, to_upper_char, to_uppercase, trim, CharClass,
};

fn chars(s: &str) -> Vec<char> {
    s.chars().collect()
}

fn text(v: &[char]) -> String {
    v.iter().collect()
}

fn texts(v: &[Vec<char>]) -> Vec<String> {
    v.iter().map(|p| text(p)).collect()
}

const SAMPLES: [&str; 14] = [
    "",
    " ",
    "a",
    "  a b  ",
    "\t\r\n x \u{a0}\u{2003}",
    "\u{3000}wide\u{3000}",
    "a,b,,c",
    ",",
    "//a/./b/../c//",
    "Hello World",
    "MiXeD \u{c9}cole",
    "one\ttwo\nthree   four",
    "<<x>>",
    "\u{1680}\u{85}",
];

#[test]
fn whitespace_is_what_std_calls_whitespace() {
    for n in 0..=0x10FFFFu32 {
        if let Some(c) = char::from_u32(n) {
            assert_eq!(is_whitespace(c), c.is_whitespace(), "U+{n:04X}");
        }
    }
}

#[test]
fn case_of_a_character_is_ascii_case() {
    for n in 0..=0x10FFFFu32 {
        if let Some(c) = char::from_u32(n) {
            assert_eq!(to_lower_char(c), c.to_ascii_lowercase());
            assert_eq!(to_upper_char(c), c.to_ascii_uppercase());
        }
    }
}

#[test]
fn chars_and_text_are_inverse() {
    for s in SAMPLES {
        assert_eq!(chars_of(s), chars(s));
        assert_eq!(text_of(&chars(s)), s);
    }
}

#[test]
fn trim_agrees_with_std() {
    for s in SAMPLES {
        assert_eq!(text(&trim(&chars(s))), s.trim(), "{s:?}");
        assert_eq!(
            text(&strip_start(&chars(s), CharClass::Whitespace)),
            s.trim_start()
        );
        assert_eq!(text(&strip_end(&chars(s), CharClass::Whitespace)), s.trim_end());
    }
}

#[test]
fn strip_removes_every_character_of_the_class() {
    assert_eq!(text(&strip_start(&chars("///a/"), CharClass::Only('/'))), "a/");
    assert_eq!(text(&strip_end(&chars("/a///"), CharClass::Only('/'))), "/a");
    assert_eq!(text(&strip_end(&chars("DATA\r\n"), CharClass::LineBreak)), "DATA");
    assert_eq!(text(&strip_end(&chars("x\n\r\n\n"), CharClass::LineBreak)), "x");
    assert_eq!(text(&strip_end(&chars("x \n"), CharClass::LineBreak)), "x ");
}

#[test]
fn case_of_text_agrees_with_std() {
    for s in SAMPLES {
        assert_eq!(text(&to_lowercase(&chars(s))), s.to_ascii_lowercase());
        assert_eq!(text(&to_uppercase(&chars(s))), s.to_ascii_uppercase());
        assert_eq!(text(&canonical_chars(&chars(s))), s.trim().to_ascii_lowercase());
    }
}

#[test]
fn find_gives_first_and_last_index() {
    assert_eq!(find_char(&chars("a@b@c"), '@'), 1);
    assert_eq!(find_char(&chars("abc"), '@'), 3);
    assert_eq!(find_char(&chars(""), '@'), 0);
    assert_eq!(rfind_char(&chars("a@b@c"), '@'), Some(3));
    assert_eq!(rfind_char(&chars("abc"), '@'), None);
    assert_eq!(rfind_char(&chars("@"), '@'), Some(0));
}

#[test]
fn split_agrees_with_std() {
    for s in SAMPLES {
        for sep in [',', '/', ' '] {
            let expected: Vec<String> = s.split(sep).map(|p| p.to_string()).collect();
            assert_eq!(texts(&split_on(&chars(s), sep)), expected, "{s:?} {sep:?}");
        }
    }
}

#[test]
fn words_agree_with_std() {
    for s in SAMPLES {
        let expected: Vec<String> = s.split_whitespace().map(|p| p.to_string()).collect();
        assert_eq!(texts(&split_words(&chars(s))), expected, "{s:?}");
    }
}

#[test]
fn join_puts_the_separator_between_neighbours() {
    let parts = vec![chars("a"), chars(""), chars("bc")];
    assert_eq!(text(&join_with(&parts, &chars(", "))), "a, , bc");
    assert_eq!(text(&join_with(&vec![chars("solo")], &chars("/"))), "solo");
    assert_eq!(text(&join_with(&Vec::new(), &chars("/"))), "");
}

#[test]
fn decimal_agrees_with_std() {
    for n in [0usize, 7, 9, 10, 11, 99, 100, 250, 552, 1024, 10485760, usize::MAX] {
        assert_eq!(text(&decimal_of(n)), n.to_string());
    }
}

#[test]
fn parse_usize_agrees_with_std() {
    let max = usize::MAX.to_string();
    let over = format!("{max}0");
    let next = format!("{}", usize::MAX as u128 + 1);
    for s in [
        "", "0", "+0", "-0", "+", "-", "12", "+12", "-12", "012", "1 2", " 12", "12 ", "1_2", "٣",
        "0x10", "18446744073709551615", "18446744073709551616", "99999999999999999999999999999",
        max.as_str(), over.as_str(), next.as_str(),
    ] {
        assert_eq!(parse_usize(&chars(s)), s.parse::<usize>().ok(), "{s:?}");
    }
}

#[test]
fn parse_i64_agrees_with_std() {
    for s in [
        "", "0", "+0", "-0", "+", "-", "--1", "+-1", "12", "+12", "-12", "1440", "1 2",
        "9223372036854775807", "9223372036854775808", "-9223372036854775808",
        "-9223372036854775809", "+9223372036854775807", "99999999999999999999999999999",
        "-99999999999999999999999999999", "1e3", "1.0",
    ] {
        assert_eq!(parse_i64(&chars(s)), s.parse::<i64>().ok(), "{s:?}");
    }
}

#[test]
fn small_helpers_do_what_their_names_say() {
    let mut v = chars("ab");
    append(&mut v, &chars("cd"));
    append_str(&mut v, "\u{e9}f");
    assert_eq!(text(&v), "abcd\u{e9}f");
    assert_eq!(text(&slice(&v, 1, 4)), "bcd");
    assert_eq!(text(&slice(&v, 3, 3)), "");
    assert!(equal(&chars("abc"), &chars("abc")));
    assert!(!equal(&chars("abc"), &chars("abd")));
    assert!(!equal(&chars("abc"), &chars("ab")));
    assert!(has_prefix(&chars("FROM:<a>"), &chars("FROM:")));
    assert!(has_prefix(&chars("x"), &chars("")));
    assert!(!has_prefix(&chars("FRO"), &chars("FROM:")));
    assert!(!has_prefix(&chars("TO:<a>"), &chars("FROM:")));
    assert!(blank(&chars("")));
    assert!(blank(&chars(" \t\r\n\u{a0}")));
    assert!(!blank(&chars(" x ")));
    assert_eq!(leading_len(&chars("  x "), CharClass::Whitespace), 2);
    assert_eq!(leading_len(&chars("///"), CharClass::Only('/')), 3);
    let list = vec!["a".to_string(), "bc".to_string()];
    assert!(contains_text(&list, &chars("bc")));
    assert!(!contains_text(&list, &chars("b")));
    assert_eq!(clone_texts(&list), list);
    assert_eq!(digits_from(&chars("x123"), 1, 1000), Some(123));
    assert_eq!(digits_from(&chars("x123"), 1, 122), None);
    assert_eq!(digits_from(&chars("x123"), 4, 1000), None);
    assert_eq!(digits_from(&chars("12a"), 0, 1000), None);
}
