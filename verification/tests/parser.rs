use fontmif::RangeError;
use fontmif::RangeSpec;
use fontmif::range_parser;

#[test]
fn single_number_yields_singleton_interval() {
    assert_eq!(range_parser("5"), Ok(RangeSpec { start: 5, end: 6 }));
    assert_eq!(range_parser("0"), Ok(RangeSpec { start: 0, end: 1 }));
    assert_eq!(range_parser("123"), Ok(RangeSpec { start: 123, end: 124 }));
    assert_eq!(range_parser("007"), Ok(RangeSpec { start: 7, end: 8 }));
}

#[test]
fn pair_yields_exact_bounds() {
    assert_eq!(range_parser("65..67"), Ok(RangeSpec { start: 65, end: 67 }));
    assert_eq!(range_parser("0..256"), Ok(RangeSpec { start: 0, end: 256 }));
    assert_eq!(range_parser("10..10"), Ok(RangeSpec { start: 10, end: 10 }));
}

#[test]
fn pair_with_end_not_above_start_is_accepted() {
    // An empty downstream iteration, not a parse error.
    assert_eq!(range_parser("7..3"), Ok(RangeSpec { start: 7, end: 3 }));
    let r = range_parser("7..3").unwrap();
    assert_eq!(r.len(), 0);
}

#[test]
fn empty_string_is_rejected() {
    assert_eq!(range_parser(""), Err(RangeError::Empty));
}

#[test]
fn leading_non_digit_is_rejected() {
    assert_eq!(range_parser("a5"), Err(RangeError::FirstNotDigit));
    assert_eq!(range_parser(".5"), Err(RangeError::FirstNotDigit));
    assert_eq!(range_parser("-1"), Err(RangeError::FirstNotDigit));
}

#[test]
fn lone_dot_is_rejected() {
    assert_eq!(range_parser("5."), Err(RangeError::ExpectedDot));
    assert_eq!(range_parser("5.6"), Err(RangeError::ExpectedDot));
}

#[test]
fn dots_without_digit_are_rejected() {
    assert_eq!(range_parser("5.."), Err(RangeError::DigitAfterDots));
    assert_eq!(range_parser("1..a"), Err(RangeError::DigitAfterDots));
}

#[test]
fn trailing_junk_is_rejected() {
    assert_eq!(range_parser("5x"), Err(RangeError::InvalidChar));
    assert_eq!(range_parser("5..6x"), Err(RangeError::InvalidChar));
    assert_eq!(range_parser("5..6..7"), Err(RangeError::InvalidChar));
}

#[test]
fn oversized_literal_is_rejected() {
    // 2^64 does not fit in a 64-bit usize; the parser must fail hard rather
    // than wrap.
    assert_eq!(
        range_parser("18446744073709551616"),
        Err(RangeError::Overflow)
    );
    // The largest usize parses, but the singleton form needs its successor.
    assert_eq!(
        range_parser("18446744073709551615"),
        Err(RangeError::Overflow)
    );
    assert_eq!(
        range_parser("0..18446744073709551615"),
        Ok(RangeSpec {
            start: 0,
            end: usize::MAX
        })
    );
}

#[test]
fn error_messages_name_the_reason() {
    assert_eq!(
        RangeError::Empty.message(),
        "Empty string is an invalid range"
    );
    assert_eq!(
        RangeError::FirstNotDigit.message(),
        "First char must be an integer"
    );
    assert_eq!(RangeError::ExpectedDot.message(), "Expected '.'");
    assert_eq!(
        RangeError::DigitAfterDots.message(),
        "Character after '.' must be a digit"
    );
    assert_eq!(RangeError::InvalidChar.message(), "Invalid char");
    assert_eq!(RangeError::Overflow.message(), "Range bound is too large");
}

#[test]
fn range_len_counts_codes() {
    assert_eq!(RangeSpec { start: 0, end: 256 }.len(), 256);
    assert_eq!(RangeSpec { start: 65, end: 67 }.len(), 2);
    assert_eq!(RangeSpec { start: 9, end: 9 }.len(), 0);
}
