use dag::text::{chars_of, is_space_char, parse_integer, read_integers, split_words};

fn chars(s: &str) -> Vec<char> {
    s.chars().collect()
}

fn words_as_strings(s: &str) -> Vec<String> {
    split_words(&chars(s)).into_iter().map(|w| w.into_iter().collect()).collect()
}

#[test]
fn chars_of_keeps_every_character_in_order() {
    assert_eq!(chars_of("a b\u{3000}c"), vec!['a', ' ', 'b', '\u{3000}', 'c']);
    assert_eq!(chars_of(""), Vec::<char>::new());
}

#[test]
fn white_space_is_the_unicode_property() {
    for code in 0u32..0x11_0000 {
        if let Some(c) = char::from_u32(code) {
            assert_eq!(is_space_char(c), c.is_whitespace(), "U+{:04X}", code);
        }
    }
}

#[test]
fn parse_integer_reads_plain_digits() {
    assert_eq!(parse_integer(&chars("0")), Some(0));
    assert_eq!(parse_integer(&chars("7")), Some(7));
    assert_eq!(parse_integer(&chars("1234567890")), Some(1234567890));
    assert_eq!(parse_integer(&chars("007")), Some(7));
}

#[test]
fn parse_integer_reads_a_sign() {
    assert_eq!(parse_integer(&chars("-1")), Some(-1));
    assert_eq!(parse_integer(&chars("+1")), Some(1));
    assert_eq!(parse_integer(&chars("-0")), Some(0));
    assert_eq!(parse_integer(&chars("-42")), Some(-42));
}

#[test]
fn parse_integer_rejects_what_is_no_integer() {
    for word in ["", "+", "-", "--1", "+-1", "1-", "12a", "a12", "1 2", " 1", "1.0", "0x10", "1_000", "١"] {
        assert_eq!(parse_integer(&chars(word)), None, "{:?}", word);
    }
}

#[test]
fn parse_integer_covers_the_whole_range() {
    assert_eq!(
        parse_integer(&chars("170141183460469231731687303715884105727")),
        Some(i128::MAX)
    );
    assert_eq!(
        parse_integer(&chars("-170141183460469231731687303715884105728")),
        Some(i128::MIN)
    );
    assert_eq!(parse_integer(&chars("170141183460469231731687303715884105728")), None);
    assert_eq!(parse_integer(&chars("-170141183460469231731687303715884105729")), None);
    assert_eq!(parse_integer(&chars("999999999999999999999999999999999999999999")), None);
    assert_eq!(
        parse_integer(&chars("0000000000000000000000000000000000000000000000000012")),
        Some(12)
    );
}

#[test]
fn parse_integer_agrees_with_the_standard_parser() {
    for word in [
        "0", "-0", "+0", "5", "-5", "+5", "", "+", "-", "abc", "12x", "340282366920938463463374607431768211455",
        "170141183460469231731687303715884105727", "-170141183460469231731687303715884105728",
        "170141183460469231731687303715884105728", "00017", "-00017", "1e3",
    ] {
        assert_eq!(parse_integer(&chars(word)), word.parse::<i128>().ok(), "{:?}", word);
    }
}

#[test]
fn split_words_finds_the_runs_between_white_space() {
    assert_eq!(words_as_strings("1 2"), vec!["1", "2"]);
    assert_eq!(words_as_strings("  12\t-3  "), vec!["12", "-3"]);
    assert_eq!(words_as_strings("abc"), vec!["abc"]);
    assert_eq!(words_as_strings("a\u{a0}b\u{2003}c\r\n"), vec!["a", "b", "c"]);
}

#[test]
fn split_words_of_blank_text_is_empty() {
    assert_eq!(words_as_strings(""), Vec::<String>::new());
    assert_eq!(words_as_strings("   \t "), Vec::<String>::new());
}

#[test]
fn split_words_agrees_with_the_standard_splitter() {
    for line in ["", " ", "1", " 1", "1 ", "1 2 3", "a\tb\nc", "x\u{3000}y", "\u{85}q\u{1680}", "  many   spaces here  "] {
        let expected: Vec<String> = line.split_whitespace().map(|w| w.to_string()).collect();
        assert_eq!(words_as_strings(line), expected, "{:?}", line);
    }
}

#[test]
fn read_integers_reads_every_word() {
    assert_eq!(read_integers("3"), Some(vec![3]));
    assert_eq!(read_integers("-1 -1"), Some(vec![-1, -1]));
    assert_eq!(read_integers("  10\t+20   -30 "), Some(vec![10, 20, -30]));
    assert_eq!(read_integers(""), Some(vec![]));
    assert_eq!(read_integers("   "), Some(vec![]));
}

#[test]
fn read_integers_fails_on_one_bad_word() {
    assert_eq!(read_integers("1 x"), None);
    assert_eq!(read_integers("x 1"), None);
    assert_eq!(read_integers("1 2.5"), None);
    assert_eq!(read_integers("1 170141183460469231731687303715884105728"), None);
}
