//! Text, searching and sorting.

use npb::order::{le, sort_texts};
use npb::search::{
    contains, contains_char, find, replace, split, split_lines, split_once, split_words,
    starts_with, strip_prefix, strip_suffix, to_lower, trim,
};
use npb::text::{contains_text, join, parse_u64, push_decimal, push_right_aligned};

fn strings(v: &[&str]) -> Vec<String> {
    v.iter().map(|s| s.to_string()).collect()
}

#[test]
fn text_is_searched_as_std_does() {
    for s in ["", "a", "aXbXc", "XX", "héllo wörld", "aaab"] {
        for p in ["", "X", "aab", "ö", "zz"] {
            assert_eq!(contains(s, p), s.contains(p), "{s:?} {p:?}");
            assert_eq!(starts_with(s, p), s.starts_with(p));
            assert_eq!(strip_prefix(s, p), s.strip_prefix(p));
            assert_eq!(strip_suffix(s, p), s.strip_suffix(p));
            assert_eq!(split_once(s, p), s.split_once(p), "{s:?} {p:?}");
            assert_eq!(find(s, p).is_some(), s.find(p).is_some());
            if !p.is_empty() {
                assert_eq!(replace(s, p, "--"), s.replace(p, "--"));
            }
        }
        assert_eq!(contains_char(s, 'X'), s.contains('X'));
        assert_eq!(
            split(s, 'X'),
            s.split('X').map(str::to_string).collect::<Vec<_>>()
        );
    }
}

#[test]
fn text_is_split_and_trimmed_as_std_does() {
    for s in ["", " ", "a b", "  a\tb \n", "x\r\ny\n", "\n\n", "a\rb", "\u{3000}x\u{a0}"] {
        assert_eq!(trim(s), s.trim(), "{s:?}");
        assert_eq!(
            split_words(s),
            s.split_whitespace().map(str::to_string).collect::<Vec<_>>()
        );
        assert_eq!(
            split_lines(s),
            s.lines().map(str::to_string).collect::<Vec<_>>(),
            "{s:?}"
        );
        assert_eq!(to_lower(s), s.to_ascii_lowercase());
    }
    assert_eq!(to_lower("ABC-É"), "abc-É");
}

#[test]
fn numbers_are_read_and_written_as_std_does() {
    for s in ["", "0", "007", "+5", "-5", "12a", "18446744073709551615", "18446744073709551616", "+"] {
        assert_eq!(parse_u64(s), s.parse().ok(), "{s:?}");
    }
    for n in [0, 9, 10, 12345, u64::MAX] {
        let mut out = String::new();
        push_decimal(&mut out, n);
        assert_eq!(out, n.to_string());
        let mut out = String::new();
        push_right_aligned(&mut out, &n.to_string(), 6, ' ');
        assert_eq!(out, format!("{n:>6}"));
    }
}

#[test]
fn lists_are_joined_and_searched() {
    assert_eq!(join(&strings(&["a", "", "c"]), ", "), "a, , c");
    assert_eq!(join(&[], ", "), "");
    assert!(contains_text(&strings(&["a", "b"]), "b"));
    assert!(!contains_text(&strings(&["a", "b"]), "c"));
}

#[test]
fn texts_sort_as_std_sorts_them() {
    let words = ["b", "a", "", "ab", "B", "é", "z", "a", "𝄞", "\u{ffff}", "aé"];
    let mut want = strings(&words);
    want.sort();
    assert_eq!(sort_texts(strings(&words)), want);
    for a in words {
        for b in words {
            assert_eq!(le(a, b), a <= b, "{a:?} {b:?}");
        }
    }
}
