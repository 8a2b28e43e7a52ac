use macho_link::sorting::bytes_at_most;
use macho_link::sorting::sort_by_text;
use macho_link::sorting::sort_strings;
use macho_link::sorting::stable_order;
use macho_link::strings::is_white_space;
use macho_link::strings::parse_number;
use macho_link::strings::split;
use macho_link::strings::trim;
use macho_link::strings::NumberError;
use macho_link::text::append_decimal;
use macho_link::text::append_hex;
use macho_link::text::append_padded;
use macho_link::text::append_signed;
use macho_link::text::append_upper_hex;
use macho_link::text::same_text;

fn chars(text: &str) -> Vec<char> {
    text.chars().collect()
}

fn strings(input: &[&str]) -> Vec<String> {
    input.iter().map(|s| s.to_string()).collect()
}

#[test]
fn numbers_are_written() {
    let mut text = String::new();
    append_decimal(&mut text, u64::MAX);
    text.push(' ');
    append_hex(&mut text, 0xabc0);
    text.push(' ');
    append_upper_hex(&mut text, 0xabc0);
    text.push(' ');
    append_signed(&mut text, i64::MIN);
    text.push(' ');
    append_decimal(&mut text, 0);
    append_padded(&mut text, &"7".to_owned(), 3, ' ');
    assert_eq!(
        text,
        "18446744073709551615 abc0 ABC0 -9223372036854775808 0  7"
    );
}

#[test]
fn numbers_are_parsed() {
    assert_eq!(parse_number(&chars("65535"), 10, 0xffff), Ok(65535));
    assert_eq!(
        parse_number(&chars("65536"), 10, 0xffff),
        Err(NumberError::TooLarge)
    );
    assert_eq!(parse_number(&chars("fF"), 16, 0xff), Ok(0xff));
    assert_eq!(parse_number(&chars(""), 10, 9), Err(NumberError::Empty));
    assert_eq!(
        parse_number(&chars("1a"), 10, 99),
        Err(NumberError::InvalidDigit)
    );
}

#[test]
fn texts_are_compared_and_cut() {
    assert!(same_text("a", "a"));
    assert!(!same_text("a", "ab"));
    assert_eq!(trim(&chars(" \ta b\u{a0}")), chars("a b"));
    assert!(is_white_space('\u{2003}'));
    assert!(!is_white_space('x'));
    assert_eq!(
        split(&chars("a..b"), '.'),
        [chars("a"), chars(""), chars("b")]
    );
}

#[test]
fn texts_are_sorted_by_their_bytes() {
    assert_eq!(
        sort_strings(strings(&["b", "a\u{e9}", "az", "a"])),
        ["a", "az", "a\u{e9}", "b"]
    );
    // What is equal keeps its order.
    assert_eq!(
        sort_by_text(vec![1, 2, 3], &strings(&["b", "a", "a"])),
        [2, 3, 1]
    );
    assert_eq!(stable_order(&vec![3_u64, 1, 3, 0]), [3, 1, 0, 2]);
    assert!(bytes_at_most(b"ab", b"abc"));
    assert!(!bytes_at_most(b"b", b"abc"));
}
