use model_gateway::text::edit::{
    is_whitespace, replace, strip_prefix, strip_suffix, trim, trim_end, trim_end_of, trim_start,
};
use model_gateway::text::encoding::width;
use model_gateway::text::number::parse_integer;
use model_gateway::text::search::{ends_with, find, has, rfind, same, starts_with};

const TEXTS: [&str; 9] = [
    "", "a", "abab", " \u{3000}a b\u{a0}\n", "äöäö", "｜▁｜▁", "aaa", "\u{1f600}x\u{1f600}", "\t\n",
];

const PATTERNS: [&str; 7] = ["a", "ab", "aa", "ä", "▁", "｜▁", "\u{1f600}"];

#[test]
fn searching_agrees_with_the_standard_library() {
    for s in TEXTS {
        for p in PATTERNS {
            assert_eq!(find(s, p), s.find(p), "{s:?} {p:?}");
            assert_eq!(rfind(s, p), s.rfind(p), "{s:?} {p:?}");
            assert_eq!(has(s, p), s.contains(p), "{s:?} {p:?}");
            assert_eq!(starts_with(s, p), s.starts_with(p), "{s:?} {p:?}");
            assert_eq!(ends_with(s, p), s.ends_with(p), "{s:?} {p:?}");
            assert_eq!(same(s, p), s == p, "{s:?} {p:?}");
        }
        assert!(starts_with(s, "") && ends_with(s, "") && same(s, s));
    }
}

#[test]
fn editing_agrees_with_the_standard_library() {
    for s in TEXTS {
        assert_eq!(trim(s), s.trim());
        assert_eq!(trim_start(s), s.trim_start());
        assert_eq!(trim_end(s), s.trim_end());
        for p in PATTERNS {
            assert_eq!(strip_prefix(s, p), s.strip_prefix(p));
            assert_eq!(strip_suffix(s, p), s.strip_suffix(p));
            assert_eq!(trim_end_of(s, p), s.trim_end_matches(p));
            assert_eq!(replace(s, p, "-"), s.replace(p, "-"));
            assert_eq!(replace(s, p, ""), s.replace(p, ""));
        }
    }
}

#[test]
fn characters_agree_with_the_standard_library() {
    for c in '\u{0}'..=char::MAX {
        assert_eq!(is_whitespace(c), c.is_whitespace(), "{c:?}");
        assert_eq!(width(c), c.len_utf8(), "{c:?}");
    }
}

#[test]
fn integers_agree_with_the_standard_library() {
    for text in [
        "", "-", "+", "0", "-0", "+7", "007", "-12", "12a", " 1", "1 ", "--1", "+-1", "１",
        "9223372036854775807", "9223372036854775808", "-9223372036854775808",
        "-9223372036854775809", "99999999999999999999999999999999999999999999999999999999",
        "000000000000000000000000000000000000000000000000000000000000000000000000000000000042",
    ] {
        assert_eq!(parse_integer(text), text.parse::<i64>().ok(), "{text:?}");
    }
}
