use imagespin::chars::{
    count_leading_white, find_char, find_last, from_chars, has_prefix, push_decimal,
    push_signed, split_lines, to_chars, white,
};

fn text(v: &[char]) -> String {
    from_chars(v)
}

#[test]
fn lines_split_like_str_lines() {
    let s = to_chars("foo\r\nbar\n\nbaz\r");
    let got: Vec<String> = split_lines(&s).iter().map(|l| text(l)).collect();
    assert_eq!(got, ["foo", "bar", "", "baz\r"]);
    assert!(split_lines(&to_chars("")).is_empty());
    assert_eq!(split_lines(&to_chars("\n")).len(), 1);
}

#[test]
fn numbers_are_written_in_decimal() {
    let mut v = Vec::new();
    push_decimal(&mut v, 0);
    v.push(' ');
    push_decimal(&mut v, 1234567890123);
    v.push(' ');
    push_signed(&mut v, -42);
    v.push(' ');
    push_signed(&mut v, i64::MIN);
    assert_eq!(text(&v), "0 1234567890123 -42 -9223372036854775808");
}

#[test]
fn searching_finds_the_last_match_and_the_first_char() {
    let s = to_chars("a \"turns\": 1, \"turns\": 2");
    assert_eq!(find_last(&s, &to_chars("\"turns\":")), Some(14));
    assert_eq!(find_last(&s, &to_chars("zzz")), None);
    assert_eq!(find_char(&s, ',', 0), Some(12));
    assert_eq!(find_char(&s, ',', 13), None);
    assert!(has_prefix(&s, &to_chars("a \"t")));
    assert!(!has_prefix(&to_chars("a"), &to_chars("ab")));
}

#[test]
fn white_space_is_unicodes() {
    assert_eq!(count_leading_white(&to_chars(" \t\u{3000}x ")), 3);
    assert!(white('\u{85}'));
    assert!(!white('x'));
    assert!(!white('\u{200B}'));
    for c in ['\t', '\n', '\r', ' ', '\u{A0}', '\u{2028}', 'a', '\u{FEFF}'] {
        assert_eq!(white(c), c.is_whitespace(), "{c:?}");
    }
}
