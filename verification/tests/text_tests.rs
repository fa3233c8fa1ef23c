use allmux::text::{
    chars_of, contains_string, is_whitespace, join_strings, join_strs, lex_less,
    parse_u64, sort_strings, split_char, split_lines, split_words, str_contains, str_eq,
    trim_end_str, trim_str, u64_to_decimal,
};

#[test]
fn whitespace_agrees_with_std_for_every_char() {
    for u in 0u32..=0x10FFFF {
        if let Some(c) = char::from_u32(u) {
            assert_eq!(is_whitespace(c), c.is_whitespace(), "code point {u:#x}");
        }
    }
}

#[test]
fn trim_agrees_with_std() {
    for s in ["", "  ", " a ", "\u{3000}x y\u{2029}", "\tab\r\n", "a", "\u{85}q"] {
        assert_eq!(trim_str(s), s.trim());
        assert_eq!(trim_end_str(s), s.trim_end());
    }
}

#[test]
fn lines_agree_with_std() {
    for s in [
        "", "a", "a\n", "a\nb", "a\r\nb\r\n", "\n", "\n\n", "a\r", "x\r\ry\n", "a\n\nb",
    ] {
        let expected: Vec<String> = s.lines().map(String::from).collect();
        assert_eq!(split_lines(s), expected, "input {s:?}");
    }
}

#[test]
fn words_agree_with_std() {
    for s in ["", "  ", "Host  web  extra", "\tHostName\u{a0}x", "a", " a b "] {
        let expected: Vec<String> = s.split_whitespace().map(String::from).collect();
        assert_eq!(split_words(s), expected, "input {s:?}");
    }
}

#[test]
fn split_char_keeps_empty_pieces() {
    assert_eq!(split_char("a\tb\t", '\t'), vec!["a", "b", ""]);
    assert_eq!(split_char("", ','), vec![""]);
    assert_eq!(split_char(",1,", ','), vec!["", "1", ""]);
}

#[test]
fn parse_u64_agrees_with_std() {
    for s in [
        "0", "42", "+7", "+", "-1", "", " 1", "18446744073709551615", "18446744073709551616",
        "00012", "1a", "99999999999999999999999",
    ] {
        assert_eq!(parse_u64(s), s.parse::<u64>().ok(), "input {s:?}");
    }
}

#[test]
fn decimal_agrees_with_to_string() {
    for n in [0u64, 9, 10, 1234567890, u64::MAX] {
        assert_eq!(u64_to_decimal(n), n.to_string());
        assert_eq!(parse_u64(&u64_to_decimal(n)), Some(n));
    }
}

#[test]
fn joining() {
    assert_eq!(join_strs(&vec!["a", "b", "c"], ", "), "a, b, c");
    assert_eq!(join_strs(&vec![], "-"), "");
    assert_eq!(join_strings(&vec!["x".to_string()], "\n"), "x");
}

#[test]
fn searching_and_comparing() {
    assert!(str_contains("projects/web", "web"));
    assert!(str_contains("abc", ""));
    assert!(!str_contains("ab", "abc"));
    assert!(str_eq("é", "é"));
    assert!(!str_eq("a", "A"));
    assert!(contains_string(&vec!["x".to_string(), "y".to_string()], "y"));
    assert!(!contains_string(&vec![], "y"));
    assert_eq!(chars_of("aé"), vec!['a', 'é']);
}

#[test]
fn lexicographic_order_agrees_with_string_order() {
    let samples = ["", "a", "b", "ab", "a\u{1}", "é", "z", "Z", "a\tb"];
    for x in samples {
        for y in samples {
            assert_eq!(lex_less(&chars_of(x), &chars_of(y)), x < y, "{x:?} < {y:?}");
        }
    }
}

#[test]
fn sorting_strings_gives_std_sort() {
    let input: Vec<String> = ["pear", "apple", "Zebra", "éclair", "app"]
        .iter()
        .map(|s| s.to_string())
        .collect();
    let mut expected = input.clone();
    expected.sort();
    assert_eq!(sort_strings(input), expected);
}
