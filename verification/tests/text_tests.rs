use fenn::text::{
    chars_of, has_suffix, holds_at, lines_of, replace_chars, string_of, trim_chars, Strip,
};

fn lines(s: &str) -> Vec<String> {
    lines_of(s).iter().map(|l| l.iter().collect()).collect()
}

fn trim(s: &str, kind: Strip) -> String {
    trim_chars(&s.chars().collect(), kind).iter().collect()
}

#[test]
fn lines_match_the_standard_splitting() {
    for s in ["", "a", "a\n", "a\nb", "a\r\nb\r\n", "\n", "\n\n", "a\n\nb", "a\r", "a\r\n\rb\r", "x\r\r\n", "é\nß"] {
        let expected: Vec<String> = s.lines().map(|l| l.to_string()).collect();
        assert_eq!(lines(s), expected);
    }
}

#[test]
fn lines_of_concrete_text() {
    assert_eq!(lines("one\r\ntwo\n\nthree"), vec!["one", "two", "", "three"]);
    assert!(lines("").is_empty());
}

#[test]
fn white_space_trim_matches_the_standard_one() {
    for s in ["", " ", "  a b  ", "\t\n x \r\n", "\u{a0}y\u{3000}", "\u{2003}z\u{85}", "a", " \u{feff}a ", "\u{1680}\u{2028}\u{2029}\u{202f}\u{205f}q\u{b}\u{c}"] {
        assert_eq!(trim(s, Strip::Space), s.trim());
    }
}

#[test]
fn quote_trim_strips_every_outer_quote() {
    assert_eq!(trim("\"a b\"", Strip::Quote), "a b");
    assert_eq!(trim("\"\"a\"b\"\"", Strip::Quote), "a\"b");
    assert_eq!(trim("\"\"", Strip::Quote), "");
    assert_eq!(trim(" \"a\"", Strip::Quote), " \"a");
}

#[test]
fn chars_and_strings_round_trip() {
    for s in ["", "abc", "né/日本\\x"] {
        let chars = chars_of(s);
        assert_eq!(chars, s.chars().collect::<Vec<char>>());
        assert_eq!(string_of(&chars), s);
    }
}

#[test]
fn replace_matches_the_standard_one() {
    let v = |s: &str| s.chars().collect::<Vec<char>>();
    for (s, from, to) in [
        ("a.exe.b.exe", ".exe", ".bin"),
        ("aaaa", "aa", "b"),
        ("aaa", "aa", "b"),
        ("abc", "x", "y"),
        ("", "x", "y"),
        ("xyx", "x", ""),
        ("ababab", "ab", "abab"),
        ("a", "abc", "z"),
    ] {
        let got: String = replace_chars(&v(s), &v(from), &v(to)).iter().collect();
        assert_eq!(got, s.replace(from, to));
        assert_eq!(has_suffix(&v(s), &v(from)), s.ends_with(from));
    }
    assert!(holds_at(&v("hello"), &v("ll"), 2));
    assert!(!holds_at(&v("hello"), &v("ll"), 3));
    assert!(holds_at(&v("hello"), &v(""), 5));
    assert!(!holds_at(&v("hello"), &v("lo!"), 3));
}
