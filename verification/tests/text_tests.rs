use streaks::text::{
    chars_of, line_places, parse_u32, push_decimal, same_chars, split_places, split_text,
};
use streaks::NumberError;

fn pieces_of(text: &str, sep: char) -> Vec<String> {
    let chars = chars_of(text);
    split_places(&chars, sep)
        .into_iter()
        .map(|(from, to)| chars[from..to].iter().collect())
        .collect()
}

fn lines_of(text: &str) -> Vec<String> {
    let chars = chars_of(text);
    line_places(&chars).into_iter().map(|(from, to)| chars[from..to].iter().collect()).collect()
}

fn decimal_of(n: u32) -> String {
    let mut out = String::new();
    push_decimal(&mut out, n);
    out
}

#[test]
fn chars_of_gives_every_character() {
    assert_eq!(chars_of("aé,"), vec!['a', 'é', ',']);
    assert_eq!(chars_of(""), Vec::<char>::new());
}

#[test]
fn same_chars_compares_whole_runs() {
    assert!(same_chars(&chars_of("gym"), &chars_of("gym")));
    assert!(!same_chars(&chars_of("gym"), &chars_of("gyms")));
    assert!(!same_chars(&chars_of("gym"), &chars_of("gum")));
}

#[test]
fn split_gives_one_piece_more_than_separators() {
    assert_eq!(pieces_of("a,b,c", ','), vec!["a", "b", "c"]);
    assert_eq!(pieces_of("", ','), vec![""]);
    assert_eq!(pieces_of(",", ','), vec!["", ""]);
    assert_eq!(pieces_of("a,", ','), vec!["a", ""]);
    assert_eq!(pieces_of(",a,,b", ','), vec!["", "a", "", "b"]);
    assert_eq!(pieces_of("abc", ','), vec!["abc"]);
}

#[test]
fn lines_end_at_line_feeds() {
    assert_eq!(lines_of("a\nb"), vec!["a", "b"]);
    assert_eq!(lines_of("a\nb\n"), vec!["a", "b"]);
    assert_eq!(lines_of(""), Vec::<String>::new());
    assert_eq!(lines_of("\n"), vec![""]);
    assert_eq!(lines_of("a\n\nb"), vec!["a", "", "b"]);
}

#[test]
fn lines_lose_the_carriage_return_before_a_line_feed() {
    assert_eq!(lines_of("a\r\nb\r\n"), vec!["a", "b"]);
    assert_eq!(lines_of("a\r\nb\r"), vec!["a", "b\r"]);
    assert_eq!(lines_of("a\r\r\nb"), vec!["a\r", "b"]);
}

#[test]
fn lines_agree_with_std() {
    for text in ["", "\n", "a", "a\n", "a\r\n", "a\r", "\r\n\r\n", "x\ny\r\nz", "\r", "a\n\r"] {
        let expected: Vec<String> = text.lines().map(|l| l.to_string()).collect();
        assert_eq!(lines_of(text), expected);
    }
}

#[test]
fn numbers_are_read_from_digits() {
    assert_eq!(parse_u32("0"), Ok(0));
    assert_eq!(parse_u32("42"), Ok(42));
    assert_eq!(parse_u32("007"), Ok(7));
    assert_eq!(parse_u32("+5"), Ok(5));
    assert_eq!(parse_u32("4294967295"), Ok(4294967295));
}

#[test]
fn an_empty_text_is_no_number() {
    assert_eq!(parse_u32(""), Err(NumberError::Empty));
}

#[test]
fn a_text_with_other_characters_is_no_number() {
    assert_eq!(parse_u32("+"), Err(NumberError::InvalidDigit));
    assert_eq!(parse_u32("-"), Err(NumberError::InvalidDigit));
    assert_eq!(parse_u32("-1"), Err(NumberError::InvalidDigit));
    assert_eq!(parse_u32(" 5"), Err(NumberError::InvalidDigit));
    assert_eq!(parse_u32("5 "), Err(NumberError::InvalidDigit));
    assert_eq!(parse_u32("1x"), Err(NumberError::InvalidDigit));
    assert_eq!(parse_u32("++1"), Err(NumberError::InvalidDigit));
    assert_eq!(parse_u32("٣"), Err(NumberError::InvalidDigit));
}

#[test]
fn a_number_beyond_32_bits_is_too_large() {
    assert_eq!(parse_u32("4294967296"), Err(NumberError::TooLarge));
    assert_eq!(parse_u32("99999999999"), Err(NumberError::TooLarge));
}

#[test]
fn the_first_character_that_fails_decides() {
    assert_eq!(parse_u32("99999999999x"), Err(NumberError::TooLarge));
    assert_eq!(parse_u32("9x99999999999"), Err(NumberError::InvalidDigit));
}

#[test]
fn numbers_agree_with_std() {
    for text in ["", "+", "-", "0", "+0", "12", "0012", "4294967295", "4294967296", "1 ", "a"] {
        assert_eq!(parse_u32(text).ok(), text.parse::<u32>().ok());
    }
}

#[test]
fn numbers_are_written_in_decimal() {
    assert_eq!(decimal_of(0), "0");
    assert_eq!(decimal_of(7), "7");
    assert_eq!(decimal_of(10), "10");
    assert_eq!(decimal_of(6021), "6021");
    assert_eq!(decimal_of(u32::MAX), "4294967295");
}

#[test]
fn decimal_is_appended() {
    let mut out = String::from("n=");
    push_decimal(&mut out, 305);
    assert_eq!(out, "n=305");
}

#[test]
fn written_numbers_are_read_back() {
    for n in [0u32, 1, 9, 10, 99, 100, 65535, 4294967294, u32::MAX] {
        assert_eq!(parse_u32(&decimal_of(n)), Ok(n));
    }
}

#[test]
fn split_text_gives_the_pieces_themselves() {
    assert_eq!(split_text("gym,1,,é", ','), vec!["gym", "1", "", "é"]);
    assert_eq!(split_text("", ','), vec![""]);
    for text in ["", ",", "a", "a,b", ",,", "a,,b,"] {
        let expected: Vec<String> = text.split(',').map(|p| p.to_string()).collect();
        assert_eq!(split_text(text, ','), expected);
    }
}
