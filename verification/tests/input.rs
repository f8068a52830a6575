use threen::input::{parse_all, validate};
use threen::decimal::parse_u32;
use threen::words::{is_whitespace, split_whitespace};
use threen::{parse_and_validate, BoundPair, InputError, ParseFailure};

fn chars(s: &str) -> Vec<char> {
    s.chars().collect()
}

fn words(line: &str) -> Vec<String> {
    split_whitespace(line)
        .iter()
        .map(|w| w.iter().collect::<String>())
        .collect()
}

#[test]
fn blank_line_gives_no_pair() {
    assert!(matches!(parse_and_validate(""), Ok(None)));
    assert!(matches!(parse_and_validate("\n"), Ok(None)));
    assert!(matches!(parse_and_validate("  \t \r\n"), Ok(None)));
}

#[test]
fn zero_is_rejected() {
    assert!(matches!(parse_and_validate("5 0"), Err(InputError::ZeroError)));
    assert!(matches!(parse_and_validate("0 5"), Err(InputError::ZeroError)));
    assert!(matches!(parse_and_validate("0 0"), Err(InputError::ZeroError)));
    assert!(matches!(parse_and_validate("+0 7\n"), Err(InputError::ZeroError)));
}

#[test]
fn one_argument_is_too_few() {
    assert!(matches!(
        parse_and_validate("5"),
        Err(InputError::ArgCountError { count: 1 })
    ));
    assert!(matches!(
        parse_and_validate("0"),
        Err(InputError::ArgCountError { count: 1 })
    ));
}

#[test]
fn three_arguments_are_too_many() {
    assert!(matches!(
        parse_and_validate("5 1 3"),
        Err(InputError::ArgCountError { count: 3 })
    ));
    assert!(matches!(
        parse_and_validate("1 2 3 4 5 6 7\n"),
        Err(InputError::ArgCountError { count: 7 })
    ));
    assert!(matches!(
        parse_and_validate("0 0 0"),
        Err(InputError::ArgCountError { count: 3 })
    ));
}

#[test]
fn out_of_order_pair_is_swapped_with_a_warning() {
    assert_eq!(
        parse_and_validate("10 3").unwrap(),
        Some(BoundPair { low: 3, high: 10, reordered: true })
    );
}

#[test]
fn ordered_pair_comes_back_without_a_warning() {
    assert_eq!(
        parse_and_validate("3 10").unwrap(),
        Some(BoundPair { low: 3, high: 10, reordered: false })
    );
    assert_eq!(
        parse_and_validate("7 7").unwrap(),
        Some(BoundPair { low: 7, high: 7, reordered: false })
    );
    assert_eq!(
        parse_and_validate("  1\t\t4294967295 \r\n").unwrap(),
        Some(BoundPair { low: 1, high: u32::MAX, reordered: false })
    );
    assert_eq!(
        parse_and_validate("+100 +0200\n").unwrap(),
        Some(BoundPair { low: 100, high: 200, reordered: false })
    );
}

#[test]
fn a_word_that_is_no_number_is_a_parse_error() {
    assert!(matches!(
        parse_and_validate("abc 5"),
        Err(InputError::ParseError(ParseFailure::InvalidDigit))
    ));
    assert!(matches!(
        parse_and_validate("5 -3"),
        Err(InputError::ParseError(ParseFailure::InvalidDigit))
    ));
    assert!(matches!(
        parse_and_validate("1 4294967296"),
        Err(InputError::ParseError(ParseFailure::PosOverflow))
    ));
    assert!(matches!(
        parse_and_validate("1.5 2"),
        Err(InputError::ParseError(ParseFailure::InvalidDigit))
    ));
}

#[test]
fn a_parse_error_comes_before_the_count_and_the_zero() {
    assert!(matches!(
        parse_and_validate("1 2 x"),
        Err(InputError::ParseError(ParseFailure::InvalidDigit))
    ));
    assert!(matches!(
        parse_and_validate("x"),
        Err(InputError::ParseError(ParseFailure::InvalidDigit))
    ));
    assert!(matches!(
        parse_and_validate("0 99999999999"),
        Err(InputError::ParseError(ParseFailure::PosOverflow))
    ));
    assert!(matches!(
        parse_and_validate("99999999999 x"),
        Err(InputError::ParseError(ParseFailure::PosOverflow))
    ));
    assert!(matches!(
        parse_and_validate("x 99999999999"),
        Err(InputError::ParseError(ParseFailure::InvalidDigit))
    ));
}

#[test]
fn whitespace_is_what_the_standard_library_calls_whitespace() {
    for code in 0..=0x10ffffu32 {
        if let Some(c) = char::from_u32(code) {
            assert_eq!(is_whitespace(c), c.is_whitespace(), "U+{:04X}", code);
        }
    }
}

#[test]
fn split_gives_the_words_in_order() {
    assert_eq!(words(""), Vec::<String>::new());
    assert_eq!(words("   "), Vec::<String>::new());
    assert_eq!(words("a"), vec!["a"]);
    assert_eq!(words(" a"), vec!["a"]);
    assert_eq!(words("a "), vec!["a"]);
    assert_eq!(words("1 10"), vec!["1", "10"]);
    assert_eq!(words("\t12\u{a0}\u{3000}x\u{e9}y  \n z\r\n"), vec!["12", "x\u{e9}y", "z"]);
}

#[test]
fn split_agrees_with_the_standard_library() {
    let alphabet = [' ', '\t', '\n', 'a', '1', '+', '\u{2003}', '\u{e9}'];
    let mut line = String::new();
    let mut state: u32 = 12345;
    for round in 0..4000 {
        line.clear();
        let len = round % 9;
        for _ in 0..len {
            state = state.wrapping_mul(1664525).wrapping_add(1013904223);
            line.push(alphabet[(state >> 24) as usize % alphabet.len()]);
        }
        let expected: Vec<String> = line.split_whitespace().map(|w| w.to_string()).collect();
        assert_eq!(words(&line), expected, "{:?}", line);
    }
}

fn by_the_standard_library(token: &str) -> Result<u32, ParseFailure> {
    match token.parse::<u32>() {
        Ok(v) => Ok(v),
        Err(e) => Err(match e.kind() {
            std::num::IntErrorKind::Empty => ParseFailure::Empty,
            std::num::IntErrorKind::InvalidDigit => ParseFailure::InvalidDigit,
            std::num::IntErrorKind::PosOverflow => ParseFailure::PosOverflow,
            other => panic!("unexpected kind {:?}", other),
        }),
    }
}

#[test]
fn parse_reads_decimal_numbers() {
    assert_eq!(parse_u32(&chars("0")), Ok(0));
    assert_eq!(parse_u32(&chars("7")), Ok(7));
    assert_eq!(parse_u32(&chars("+7")), Ok(7));
    assert_eq!(parse_u32(&chars("007")), Ok(7));
    assert_eq!(parse_u32(&chars("1234567890")), Ok(1234567890));
    assert_eq!(parse_u32(&chars("4294967295")), Ok(u32::MAX));
    assert_eq!(parse_u32(&chars("00000000004294967295")), Ok(u32::MAX));
}

#[test]
fn parse_names_each_failure() {
    assert_eq!(parse_u32(&chars("")), Err(ParseFailure::Empty));
    assert_eq!(parse_u32(&chars("+")), Err(ParseFailure::InvalidDigit));
    assert_eq!(parse_u32(&chars("-")), Err(ParseFailure::InvalidDigit));
    assert_eq!(parse_u32(&chars("-1")), Err(ParseFailure::InvalidDigit));
    assert_eq!(parse_u32(&chars("++1")), Err(ParseFailure::InvalidDigit));
    assert_eq!(parse_u32(&chars("1_000")), Err(ParseFailure::InvalidDigit));
    assert_eq!(parse_u32(&chars("12a")), Err(ParseFailure::InvalidDigit));
    assert_eq!(parse_u32(&chars("\u{661}")), Err(ParseFailure::InvalidDigit));
    assert_eq!(parse_u32(&chars("4294967296")), Err(ParseFailure::PosOverflow));
    assert_eq!(parse_u32(&chars("42949672950")), Err(ParseFailure::PosOverflow));
    assert_eq!(parse_u32(&chars("4294967296x")), Err(ParseFailure::PosOverflow));
    assert_eq!(parse_u32(&chars("429496729x6")), Err(ParseFailure::InvalidDigit));
}

#[test]
fn parse_agrees_with_the_standard_library() {
    let alphabet = ['0', '1', '4', '9', '+', '-', 'x', '2', '5', '7'];
    let mut token = String::new();
    let mut state: u32 = 987654321;
    for round in 0..20000 {
        token.clear();
        let len = round % 13;
        for _ in 0..len {
            state = state.wrapping_mul(1664525).wrapping_add(1013904223);
            token.push(alphabet[(state >> 24) as usize % alphabet.len()]);
        }
        assert_eq!(parse_u32(&chars(&token)), by_the_standard_library(&token), "{:?}", token);
    }
    for v in [0u64, 1, 9, 10, 4294967294, 4294967295, 4294967296, 4294967300, 99999999999] {
        let token = v.to_string();
        assert_eq!(parse_u32(&chars(&token)), by_the_standard_library(&token));
    }
}

#[test]
fn parse_all_stops_at_the_first_failure() {
    let all = vec![chars("1"), chars("22"), chars("333")];
    assert_eq!(parse_all(&all), Ok(vec![1, 22, 333]));
    let bad = vec![chars("1"), chars("99999999999"), chars("x")];
    assert_eq!(parse_all(&bad), Err(ParseFailure::PosOverflow));
    let none: Vec<Vec<char>> = Vec::new();
    assert_eq!(parse_all(&none), Ok(Vec::new()));
}

#[test]
fn validate_orders_two_positive_numbers() {
    assert!(matches!(validate(&[]), Ok(None)));
    assert!(matches!(validate(&[4]), Err(InputError::ArgCountError { count: 1 })));
    assert!(matches!(validate(&[4, 5, 6]), Err(InputError::ArgCountError { count: 3 })));
    assert!(matches!(validate(&[0, 5]), Err(InputError::ZeroError)));
    assert!(matches!(validate(&[5, 0]), Err(InputError::ZeroError)));
    assert_eq!(
        validate(&[5, 4]).unwrap(),
        Some(BoundPair { low: 4, high: 5, reordered: true })
    );
    assert_eq!(
        validate(&[4, 5]).unwrap(),
        Some(BoundPair { low: 4, high: 5, reordered: false })
    );
}

#[test]
fn errors_come_from_what_they_wrap() {
    assert!(matches!(
        InputError::from(ParseFailure::Empty),
        InputError::ParseError(ParseFailure::Empty)
    ));
    let e = std::io::Error::new(std::io::ErrorKind::UnexpectedEof, "gone");
    match InputError::from(e) {
        InputError::IOError(inner) => assert_eq!(inner.kind(), std::io::ErrorKind::UnexpectedEof),
        other => panic!("unexpected {:?}", other),
    }
}
