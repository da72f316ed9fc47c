use concurrent_pqueue::text::{chars_of, parse_integer, separates, spells, split, write_decimal};

fn chars(text: &str) -> Vec<char> {
    text.chars().collect()
}

fn words_of(text: &str) -> Vec<String> {
    let all = chars(text);
    split(&all).iter().map(|span| all[span.0..span.1].iter().collect()).collect()
}

fn integer(text: &str) -> Option<i64> {
    let all = chars(text);
    parse_integer(&all, 0, all.len())
}

fn written(n: i64) -> String {
    let mut out = String::new();
    write_decimal(&mut out, n);
    out
}

#[test]
fn chars_of_gives_each_character() {
    assert_eq!(chars_of(""), Vec::<char>::new());
    assert_eq!(chars_of("a\u{e9}\u{1F600}z"), vec!['a', '\u{e9}', '\u{1F600}', 'z']);
}

#[test]
fn five_characters_separate_words() {
    for c in [' ', '\t', '\n', '\x0C', '\r'] {
        assert!(separates(c));
    }
    for c in ['a', '0', '-', '\x0B', '\0', '\u{a0}', '\u{2003}', '\u{85}'] {
        assert!(!separates(c));
    }
}

#[test]
fn split_finds_the_longest_runs() {
    assert_eq!(words_of(""), Vec::<String>::new());
    assert_eq!(words_of(" \t\r\n"), Vec::<String>::new());
    assert_eq!(words_of("one"), vec!["one"]);
    assert_eq!(words_of("one two"), vec!["one", "two"]);
    assert_eq!(words_of("  one \t\t two\r\nthree  "), vec!["one", "two", "three"]);
    assert_eq!(words_of("a\x0Bb c"), vec!["a\x0Bb", "c"]);
    assert_eq!(split(&chars(" ab  c")), vec![(1, 3), (5, 6)]);
}

#[test]
fn splitting_agrees_with_the_standard_library() {
    for text in ["", "a", " a", "a ", "UPDATE  x\t-5", "\r\n\tx\x0Cy z ", "caf\u{e9} au lait"] {
        let expected: Vec<String> = text.split_ascii_whitespace().map(str::to_string).collect();
        assert_eq!(words_of(text), expected, "{:?}", text);
    }
}

#[test]
fn spells_ignores_the_case_of_letters() {
    let all = chars("xx uPdAtE yy");
    assert!(spells(&all, 3, 9, "UPDATE"));
    assert!(spells(&all, 3, 9, "update"));
    assert!(!spells(&all, 3, 8, "UPDATE"));
    assert!(!spells(&all, 2, 9, "UPDATE"));
    assert!(!spells(&all, 3, 9, "UPDATA"));
    assert!(spells(&all, 3, 3, ""));
    assert!(!spells(&chars("@"), 0, 1, "`"));
    assert!(!spells(&chars("["), 0, 1, "{"));
    assert!(!spells(&chars("K"), 0, 1, "\u{212A}"));
}

#[test]
fn spelling_agrees_with_the_standard_library() {
    for (a, b) in [("Next", "NEXT"), ("next", "NEXT"), ("n\u{e9}xt", "N\u{c9}XT"), ("a_b", "A?B"), ("", ""), ("a", "")] {
        let all = chars(a);
        assert_eq!(spells(&all, 0, all.len(), b), a.eq_ignore_ascii_case(b), "{} {}", a, b);
    }
}

#[test]
fn integers_are_read_with_or_without_a_sign() {
    assert_eq!(integer("0"), Some(0));
    assert_eq!(integer("42"), Some(42));
    assert_eq!(integer("-42"), Some(-42));
    assert_eq!(integer("+42"), Some(42));
    assert_eq!(integer("000123"), Some(123));
    assert_eq!(integer("9223372036854775807"), Some(i64::MAX));
    assert_eq!(integer("-9223372036854775808"), Some(i64::MIN));
    assert_eq!(integer("-9223372036854775807"), Some(i64::MIN + 1));
}

#[test]
fn what_is_no_integer_is_not_read() {
    for text in ["", "+", "-", "+-1", "1+", "a", "1a", " 1", "1 ", "1.0", "9223372036854775808", "-9223372036854775809", "18446744073709551616", "99999999999999999999999"] {
        assert_eq!(integer(text), None, "{:?}", text);
    }
}

#[test]
fn a_part_of_the_characters_can_be_read() {
    let all = chars("UPDATE a -15 ");
    assert_eq!(parse_integer(&all, 9, 12), Some(-15));
    assert_eq!(parse_integer(&all, 10, 12), Some(15));
    assert_eq!(parse_integer(&all, 9, 10), None);
    assert_eq!(parse_integer(&all, 9, 13), None);
    assert_eq!(parse_integer(&all, 5, 5), None);
}

#[test]
fn reading_agrees_with_the_standard_library() {
    for text in ["7", "-7", "+7", "0007", "-0", "+0", "1_0", "0x1", "\u{0663}", "9223372036854775807", "9223372036854775808", "-9223372036854775808", "-9223372036854775809"] {
        assert_eq!(integer(text), text.parse::<i64>().ok(), "{:?}", text);
    }
}

#[test]
fn numbers_are_written_in_base_ten() {
    assert_eq!(written(0), "0");
    assert_eq!(written(7), "7");
    assert_eq!(written(10), "10");
    assert_eq!(written(-1), "-1");
    assert_eq!(written(-120), "-120");
    assert_eq!(written(1002003), "1002003");
    assert_eq!(written(i64::MAX), "9223372036854775807");
    assert_eq!(written(i64::MIN), "-9223372036854775808");
}

#[test]
fn writing_goes_behind_what_is_there() {
    let mut out = "score:".to_string();
    write_decimal(&mut out, -35);
    write_decimal(&mut out, 4);
    assert_eq!(out, "score:-354");
}

#[test]
fn what_is_written_is_read_back() {
    for n in [0, 1, -1, 99, -100, 123456789, i64::MAX, i64::MIN] {
        assert_eq!(integer(&written(n)), Some(n));
    }
}
