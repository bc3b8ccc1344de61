use md_html::text::{
    chars_of, decimal_chars, escape_lt_chars, is_whitespace, range_ends_with, range_starts_with,
    split_lines, split_range, string_of_range, trim_bounds,
};

fn chars(s: &str) -> Vec<char> {
    s.chars().collect()
}

fn strings(v: &[&str]) -> Vec<String> {
    v.iter().map(|s| s.to_string()).collect()
}

#[test]
fn chars_of_keeps_every_character() {
    assert_eq!(chars_of("a \u{e9}\u{3000}b"), vec!['a', ' ', '\u{e9}', '\u{3000}', 'b']);
    assert_eq!(chars_of(""), Vec::<char>::new());
}

#[test]
fn string_of_range_cuts() {
    let s = chars("hello world");
    assert_eq!(string_of_range(&s, 6, 11), "world");
    assert_eq!(string_of_range(&s, 3, 3), "");
}

#[test]
fn whitespace_is_unicode_whitespace() {
    for c in [' ', '\t', '\n', '\r', '\u{b}', '\u{c}', '\u{85}', '\u{a0}', '\u{1680}', '\u{2000}',
        '\u{200a}', '\u{2028}', '\u{2029}', '\u{202f}', '\u{205f}', '\u{3000}'] {
        assert!(is_whitespace(c), "{:?}", c);
    }
    for c in ['a', '-', '\u{200b}', '\u{feff}', '_', '\u{1f}'] {
        assert!(!is_whitespace(c), "{:?}", c);
    }
    for c in (0u32..0x3100).filter_map(char::from_u32) {
        assert_eq!(is_whitespace(c), c.is_whitespace(), "{:?}", c);
    }
}

#[test]
fn trim_bounds_match_str_trim() {
    for s in ["  a b  ", "", "   ", "x", "\t\u{3000}```\u{a0} ", "a  "] {
        let c = chars(s);
        let (start, end) = trim_bounds(&c);
        assert_eq!(string_of_range(&c, start, end), s.trim());
    }
}

#[test]
fn prefixes_and_suffixes_of_a_range() {
    let s = chars("xx$$ a $$yy");
    assert!(range_starts_with(&s, 2, 9, &chars("$$")));
    assert!(!range_starts_with(&s, 0, 9, &chars("$$")));
    assert!(range_ends_with(&s, 2, 9, &chars("$$")));
    assert!(!range_ends_with(&s, 2, 11, &chars("$$")));
    assert!(!range_starts_with(&s, 2, 3, &chars("$$")));
    assert!(range_starts_with(&s, 4, 4, &chars("")));
}

#[test]
fn split_range_keeps_empty_pieces() {
    let s = chars("|a||b c|");
    let pieces = split_range(&s, 1, 7, '|');
    assert_eq!(pieces, vec![chars("a"), chars(""), chars("b c")]);
    let pieces = split_range(&s, 0, 0, '|');
    assert_eq!(pieces, vec![chars("")]);
    let pieces = split_range(&s, 0, 8, '|');
    assert_eq!(pieces, vec![chars(""), chars("a"), chars(""), chars("b c"), chars("")]);
}

#[test]
fn split_lines_matches_str_lines() {
    for text in ["a\r\nb\n\nc\n", "a\r", "", "\n", "\n\n", "one", "x\r\n\r\n", "a\rb\nc"] {
        let expected: Vec<String> = text.lines().map(|l| l.to_string()).collect();
        assert_eq!(split_lines(text), expected, "{:?}", text);
    }
    assert_eq!(split_lines("a\r\nb\n\nc\n"), strings(&["a", "b", "", "c"]));
    assert_eq!(split_lines("a\r"), strings(&["a\r"]));
    assert_eq!(split_lines(""), Vec::<String>::new());
    assert_eq!(split_lines("\n"), strings(&[""]));
}

#[test]
fn lines_hold_no_newline() {
    for text in ["a\nb\n\nc", "\n\n\n", "x\r\ny"] {
        for line in split_lines(text) {
            assert!(!line.contains('\n'));
        }
    }
}

#[test]
fn decimal_numerals() {
    assert_eq!(decimal_chars(0), chars("0"));
    assert_eq!(decimal_chars(7), chars("7"));
    assert_eq!(decimal_chars(10), chars("10"));
    assert_eq!(decimal_chars(2024), chars("2024"));
    assert_eq!(decimal_chars(u32::MAX), chars("4294967295"));
}

#[test]
fn escape_lt_replaces_every_lt() {
    assert_eq!(escape_lt_chars(&chars("a<b<<c")), chars("a\\lt b\\lt \\lt c"));
    assert_eq!(escape_lt_chars(&chars("no tags")), chars("no tags"));
    assert_eq!(escape_lt_chars(&chars("")), chars(""));
    let out = escape_lt_chars(&chars("<<x>"));
    assert!(!out.contains(&'<'));
}

#[test]
fn escape_lt_of_a_concatenation() {
    let a = chars("x<y");
    let b = chars("<z");
    let mut ab = a.clone();
    ab.extend(b.iter());
    let mut expected = escape_lt_chars(&a);
    expected.extend(escape_lt_chars(&b));
    assert_eq!(escape_lt_chars(&ab), expected);
}

#[test]
fn trimming_twice_is_trimming_once() {
    for s in ["  a  ", "\u{3000} b\t", "", " "] {
        let c = chars(s);
        let (start, end) = trim_bounds(&c);
        let once: Vec<char> = c[start..end].to_vec();
        let (s2, e2) = trim_bounds(&once);
        assert_eq!((s2, e2), (0, once.len()));
    }
}
