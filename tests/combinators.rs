use json_parser::{
    Parser, left, match_digit_chars, match_until_double_quote, match_whitespace_char, or,
    product, quoted_string_literal, right, str_parser, zero_or_more,
};

#[test]
fn test_str_parser() {
    let parse_hello = str_parser("Hello");

    assert_eq!(Ok(("", "Hello")), parse_hello.parse("Hello"));
    assert_eq!(Err("Yello"), parse_hello.parse("Yello"));
    assert_eq!(Ok((" Jello", "Hello")), parse_hello.parse("Hello Jello"));
}

#[test]
fn test_parser_or() {
    let parse_hello = str_parser("Hello");
    let parse_goodbye = str_parser("Goodbye");
    let parse_or = or(parse_hello, parse_goodbye);

    assert_eq!(Err(""), parse_or.parse(""));
    assert_eq!(Ok(("", "Hello")), parse_or.parse("Hello"));
    assert_eq!(Ok(("", "Goodbye")), parse_or.parse("Goodbye"));
    assert_eq!(Ok((" Goodbye", "Hello")), parse_or.parse("Hello Goodbye"));
}

#[test]
fn test_parser_product() {
    let p1 = product(str_parser("Goodbye"), str_parser(" Adieu"));
    let p2 = product(str_parser("Hello"), str_parser(" Adieu"));
    let p3 = product(str_parser("Hello"), str_parser(" Goodbye"));

    assert_eq!(Err(""), p1.parse(""));
    assert_eq!(Err(""), p2.parse(""));
    assert_eq!(Err(""), p3.parse(""));

    assert_eq!(Err("Hello Adieu"), p1.parse("Hello Adieu"));
    assert_eq!(Err(" Goodbye"), p2.parse("Hello Goodbye"));
    assert_eq!(Ok(("", ("Hello", " Goodbye"))), p3.parse("Hello Goodbye"));
}

#[test]
fn test_parser_quoted_str_literal() {
    let parse_quoted_hello = quoted_string_literal(str_parser("Hello"));

    assert_eq!(Err(""), parse_quoted_hello.parse(""));
    assert_eq!(Err(""), parse_quoted_hello.parse("\"Hello"));
    assert_eq!(Err("Hello\""), parse_quoted_hello.parse("Hello\""));

    assert_eq!(Ok(("", "Hello")), parse_quoted_hello.parse("\"Hello\""));
}

#[test]
fn test_zero_or_more() {
    let p1 = zero_or_more(str_parser(" "));
    let p2 = zero_or_more(str_parser("ab"));

    assert_eq!(Ok(("", vec![])), p1.parse(""));
    assert_eq!(Ok(("", vec![" "])), p1.parse(" "));
    assert_eq!(Ok(("", vec![" ", " ", " ", " "])), p1.parse("    "));
    assert_ne!(Ok(("", vec![])), p1.parse(" "));

    assert_eq!(Ok(("", vec![])), p2.parse(""));
    assert_eq!(Ok(("", vec!["ab"])), p2.parse("ab"));
    assert_eq!(Ok(("", vec!["ab", "ab", "ab", "ab"])), p2.parse("abababab"));
}

#[test]
fn test_left() {
    let parser = product(str_parser("Hello"), str_parser(" Goodbye"));
    let p = left(parser);

    assert_eq!(Err(""), p.parse(""));
    assert_eq!(Ok(("", "Hello")), p.parse("Hello Goodbye"));
    assert_eq!(Ok((" Again", "Hello")), p.parse("Hello Goodbye Again"));
}

#[test]
fn test_right() {
    let parser = product(str_parser("Hello"), str_parser(" Goodbye"));
    let p = right(parser);

    assert_eq!(Err(""), p.parse(""));
    assert_eq!(Ok(("", " Goodbye")), p.parse("Hello Goodbye"));
    assert_eq!(Ok((" Again", " Goodbye")), p.parse("Hello Goodbye Again"));
}

#[test]
fn test_match_whitespace_char() {
    assert_eq!(Ok(("abc", "")), match_whitespace_char("abc"));
    assert_eq!(Ok(("abc", " ")), match_whitespace_char(" abc"));

    assert_eq!(Ok(("", "")), match_whitespace_char(""));
    assert_eq!(Ok(("", "\n")), match_whitespace_char("\n"));
    assert_eq!(Ok(("", "\t")), match_whitespace_char("\t"));
    assert_eq!(Ok(("", "    ")), match_whitespace_char("    "));
}

#[test]
fn test_match_until_double_quote() {
    assert_eq!(Ok(("", "")), match_until_double_quote(""));
    assert_eq!(Ok(("\"abc", "")), match_until_double_quote("\"abc"));
    assert_eq!(Ok(("\"", "abc")), match_until_double_quote("abc\""));
    assert_eq!(Ok(("\" 456", "abc 123 ")), match_until_double_quote("abc 123 \" 456"));
    assert_eq!(Ok(("\" 456", "abc -+= 123 ")), match_until_double_quote("abc -+= 123 \" 456"));
}

#[test]
fn test_match_digits_chars() {
    assert_eq!(Err("abc"), match_digit_chars("abc"));
    assert_eq!(Err(""), match_digit_chars(""));

    assert_eq!(Ok(("", "123")), match_digit_chars("123"));
    assert_eq!(Ok(("", "12.34")), match_digit_chars("12.34"));
}

#[test]
fn literal_consumes_exactly_its_text() {
    let p = str_parser("ab");
    assert_eq!(Ok(("cd", "ab")), p.parse("abcd"));
    assert_eq!(Err("Abcd"), p.parse("Abcd"));
    assert_eq!(Err("a"), p.parse("a"));
}

#[test]
fn repetition_without_a_match_keeps_the_input() {
    let p = zero_or_more(str_parser("x"));
    assert_eq!(Ok(("abc", vec![])), p.parse("abc"));
    assert_eq!(Ok(("ab", vec!["x", "x"])), p.parse("xxab"));
}

#[test]
fn repetition_stops_at_a_match_that_consumes_nothing() {
    let p = zero_or_more(str_parser(""));
    assert_eq!(Ok(("abc", vec![])), p.parse("abc"));
}

#[test]
fn alternation_retries_from_the_original_input() {
    let p = or(str_parser("ab"), str_parser("ac"));
    assert_eq!(Ok(("", "ac")), p.parse("ac"));
    assert_eq!(Err("ad"), p.parse("ad"));
}

#[test]
fn whitespace_run_on_empty_and_mixed_input() {
    assert_eq!(Ok(("", "")), match_whitespace_char(""));
    assert_eq!(Ok(("x", "\n\t  ")), match_whitespace_char("\n\t  x"));
    assert_eq!(Ok(("a", "\u{3000}\r")), match_whitespace_char("\u{3000}\ra"));
}

#[test]
fn digit_run_forms() {
    assert_eq!(Err("abc"), match_digit_chars("abc"));
    assert_eq!(Err(""), match_digit_chars(""));
    assert_eq!(Ok(("", "12.")), match_digit_chars("12."));
    assert_eq!(Ok(("x", "7")), match_digit_chars("7x"));
    assert_eq!(Ok((".5", "3.14")), match_digit_chars("3.14.5"));
    assert_eq!(Err(".5"), match_digit_chars(".5"));
}

#[test]
fn quoted_keeps_backslashes_literally() {
    let p = quoted_string_literal(str_parser("a\\n"));
    assert_eq!(Ok((" rest", "a\\n")), p.parse("\"a\\n\" rest"));
}
