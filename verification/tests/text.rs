use calculator::lexer::{scan_match, Class};
use calculator::radix::{parse_unsigned, to_digit, IntErrorKind};
use calculator::text::{chars_of, is_pair, is_single, is_triple};
use calculator::traits::split_at_first_non_digit;

fn chars(s: &str) -> Vec<char> {
    s.chars().collect()
}

fn number(s: &str, radix: u32, max: u32) -> Result<u32, IntErrorKind> {
    parse_unsigned(&chars(s), radix, max)
}

#[test]
fn digits_of_each_radix() {
    assert_eq!(to_digit('0', 2), Some(0));
    assert_eq!(to_digit('1', 2), Some(1));
    assert_eq!(to_digit('2', 2), None);
    assert_eq!(to_digit('9', 10), Some(9));
    assert_eq!(to_digit('a', 10), None);
    assert_eq!(to_digit('a', 16), Some(10));
    assert_eq!(to_digit('F', 16), Some(15));
    assert_eq!(to_digit('g', 16), None);
    assert_eq!(to_digit('z', 36), Some(35));
    assert_eq!(to_digit('Z', 36), Some(35));
    assert_eq!(to_digit(' ', 36), None);
    assert_eq!(to_digit('_', 36), None);
    assert_eq!(to_digit('é', 36), None);
}

#[test]
fn numbers_in_a_radix() {
    assert_eq!(number("ff", 16, 0xff), Ok(255));
    assert_eq!(number("FF", 16, 0xff), Ok(255));
    assert_eq!(number("0", 10, 0xff), Ok(0));
    assert_eq!(number("+7", 10, 0xff), Ok(7));
    assert_eq!(number("0000000000000255", 10, 0xff), Ok(255));
    assert_eq!(number("101", 2, 0xff), Ok(5));
    assert_eq!(number("zz", 36, u32::MAX), Ok(1295));
    assert_eq!(number("4294967295", 10, u32::MAX), Ok(u32::MAX));
    assert_eq!(number("ffffffff", 16, u32::MAX), Ok(u32::MAX));
    assert_eq!(number("ffff", 16, 0xffff), Ok(65535));
}

#[test]
fn numbers_that_are_none() {
    assert_eq!(number("", 10, 0xff), Err(IntErrorKind::Empty));
    assert_eq!(number("+", 10, 0xff), Err(IntErrorKind::InvalidDigit));
    assert_eq!(number("-", 10, 0xff), Err(IntErrorKind::InvalidDigit));
    assert_eq!(number("-1", 10, 0xff), Err(IntErrorKind::InvalidDigit));
    assert_eq!(number("++1", 10, 0xff), Err(IntErrorKind::InvalidDigit));
    assert_eq!(number("1 ", 10, 0xff), Err(IntErrorKind::InvalidDigit));
    assert_eq!(number("1_0", 10, 0xff), Err(IntErrorKind::InvalidDigit));
    assert_eq!(number("12", 2, 0xff), Err(IntErrorKind::InvalidDigit));
    assert_eq!(number("25x", 10, 0xff), Err(IntErrorKind::InvalidDigit));
    assert_eq!(number("256", 10, 0xff), Err(IntErrorKind::PosOverflow));
    assert_eq!(number("9999x", 10, 0xff), Err(IntErrorKind::PosOverflow));
    assert_eq!(number("99x9", 10, 0xff), Err(IntErrorKind::InvalidDigit));
    assert_eq!(number("10000", 16, 0xffff), Err(IntErrorKind::PosOverflow));
    assert_eq!(number("4294967296", 10, u32::MAX), Err(IntErrorKind::PosOverflow));
    assert_eq!(number("100000000", 16, u32::MAX), Err(IntErrorKind::PosOverflow));
}

#[test]
fn numbers_agree_with_the_standard_library() {
    for text in ["", "+", "-", "0", "7f", "80", "ff", "100", "+ff", "-1", "fg", "0fF", "00000ff"] {
        let ours = number(text, 16, 0xff).ok();
        let theirs = u8::from_str_radix(text, 16).ok().map(u32::from);
        assert_eq!(ours, theirs);
    }
    for text in ["1111111111111111", "10000000000000000", "2", "+101", "01"] {
        let ours = number(text, 2, 0xffff).ok();
        let theirs = u16::from_str_radix(text, 2).ok().map(u32::from);
        assert_eq!(ours, theirs);
    }
}

#[test]
fn suffix_is_split_at_the_first_i_or_u() {
    assert_eq!(split_at_first_non_digit("ffi16"), ("ff", "i16"));
    assert_eq!(split_at_first_non_digit("ffu8"), ("ff", "u8"));
    assert_eq!(split_at_first_non_digit("1010"), ("1010", ""));
    assert_eq!(split_at_first_non_digit("u8"), ("", "u8"));
    assert_eq!(split_at_first_non_digit(""), ("", ""));
    assert_eq!(split_at_first_non_digit("i"), ("", "i"));
    assert_eq!(split_at_first_non_digit("12ui8"), ("12", "ui8"));
    assert_eq!(split_at_first_non_digit("éi8"), ("é", "i8"));
}

#[test]
fn characters_of_a_text() {
    assert_eq!(chars_of(""), Vec::<char>::new());
    assert_eq!(chars_of("a+b"), vec!['a', '+', 'b']);
    assert_eq!(chars_of("é1"), vec!['é', '1']);
    assert!(is_single(&chars("e"), 'e'));
    assert!(!is_single(&chars("f"), 'e'));
    assert!(!is_single(&chars(""), 'e'));
    assert!(!is_single(&chars("ee"), 'e'));
    assert!(is_pair(&chars("pi"), 'p', 'i'));
    assert!(!is_pair(&chars("pi"), 'p', 'o'));
    assert!(!is_pair(&chars("p"), 'p', 'i'));
    assert!(!is_pair(&chars("pie"), 'p', 'i'));
    assert!(is_triple(&chars("i16"), 'i', '1', '6'));
    assert!(!is_triple(&chars("u16"), 'i', '1', '6'));
    assert!(!is_triple(&chars("i1"), 'i', '1', '6'));
}

#[test]
fn classes_of_characters() {
    assert!(Class::Digit.has('0') && Class::Digit.has('9'));
    assert!(!Class::Digit.has('a') && !Class::Digit.has('/') && !Class::Digit.has(':'));
    assert!(Class::HexDigit.has('f') && Class::HexDigit.has('F') && Class::HexDigit.has('7'));
    assert!(!Class::HexDigit.has('g') && !Class::HexDigit.has('G'));
    assert!(Class::BinaryDigit.has('0') && Class::BinaryDigit.has('1'));
    assert!(!Class::BinaryDigit.has('2'));
    assert!(Class::Letter.has('a') && Class::Letter.has('Z'));
    assert!(!Class::Letter.has('1') && !Class::Letter.has('_') && !Class::Letter.has('é'));
}

#[test]
fn length_of_the_token_at_a_place() {
    assert_eq!(scan_match(&chars("0xffi16+"), 0), 7);
    assert_eq!(scan_match(&chars("0xffi165"), 0), 7);
    assert_eq!(scan_match(&chars("0xffi1"), 0), 6);
    assert_eq!(scan_match(&chars("0xffu"), 0), 4);
    assert_eq!(scan_match(&chars("0x"), 0), 2);
    assert_eq!(scan_match(&chars("0Xg"), 0), 2);
    assert_eq!(scan_match(&chars("0b101u8"), 0), 7);
    assert_eq!(scan_match(&chars("0b2"), 0), 2);
    assert_eq!(scan_match(&chars("0b2"), 2), 1);
    assert_eq!(scan_match(&chars("0"), 0), 1);
    assert_eq!(scan_match(&chars("-12.5"), 0), 5);
    assert_eq!(scan_match(&chars("12."), 0), 2);
    assert_eq!(scan_match(&chars("12,5"), 0), 4);
    assert_eq!(scan_match(&chars("12.5.5"), 0), 4);
    assert_eq!(scan_match(&chars("1-2"), 1), 2);
    assert_eq!(scan_match(&chars("-"), 0), 1);
    assert_eq!(scan_match(&chars("- 1"), 0), 1);
    assert_eq!(scan_match(&chars("(=)"), 1), 1);
    assert_eq!(scan_match(&chars("abc1"), 0), 3);
    assert_eq!(scan_match(&chars("abc1"), 1), 2);
    assert_eq!(scan_match(&chars("i8"), 0), 1);
    assert_eq!(scan_match(&chars("&"), 0), 0);
    assert_eq!(scan_match(&chars(" 1"), 0), 0);
    assert_eq!(scan_match(&chars("."), 0), 0);
    assert_eq!(scan_match(&chars("1"), 1), 0);
    assert_eq!(scan_match(&chars(""), 0), 0);
}
