use load_calc::token::decode_split;
use load_calc::token::match_separator;
use load_calc::token::match_suffix;
use load_calc::token::match_token;
use load_calc::token::parse_token;
use load_calc::token::trailing_digits;
use load_calc::token::ParseError;
use load_calc::token::Split;

fn chars(s: &str) -> Vec<char> {
    s.chars().collect()
}

fn parts(token: &str) -> (String, u32) {
    match parse_token(token) {
        Ok(p) => p,
        Err(e) => panic!("{} was refused: {}", token, e.message()),
    }
}

#[test]
fn separator_rule_splits_at_the_x() {
    assert_eq!(parts("KM18H5Ox2"), ("KM18H5O".to_string(), 2));
    assert_eq!(parts("KM18H5Ox1"), ("KM18H5O".to_string(), 1));
    assert_eq!(parts("KM18H5Ox12"), ("KM18H5O".to_string(), 12));
}

#[test]
fn suffix_rule_strips_the_trailing_digits() {
    assert_eq!(parts("KM18H5O2"), ("KM18H5O".to_string(), 2));
    assert_eq!(parts("XYZ9"), ("XYZ".to_string(), 9));
    assert_eq!(parts("AB12"), ("AB".to_string(), 12));
}

#[test]
fn separator_rule_comes_first() {
    // Both rules match; the separator rule decides.
    assert_eq!(parts("A1x3"), ("A1".to_string(), 3));
    assert_eq!(parts("ax1x2"), ("ax1".to_string(), 2));
}

#[test]
fn token_without_quantity_counts_once() {
    assert_eq!(parts("ABC"), ("ABC".to_string(), 1));
    assert_eq!(parts("KM18H5O"), ("KM18H5O".to_string(), 1));
    assert_eq!(parts("KM18H5Ox"), ("KM18H5Ox".to_string(), 1));
    assert_eq!(parts(""), ("".to_string(), 1));
}

#[test]
fn all_digit_token_is_an_identifier() {
    assert_eq!(parts("123"), ("123".to_string(), 1));
    assert_eq!(parts("5"), ("5".to_string(), 1));
    assert_eq!(parts("007"), ("007".to_string(), 1));
}

#[test]
fn lone_x_before_digits_is_an_identifier_character() {
    // The separator needs something before it; the suffix rule takes over.
    assert_eq!(parts("x2"), ("x".to_string(), 2));
    assert_eq!(parts("xx2"), ("x".to_string(), 2));
}

#[test]
fn suffix_rule_needs_letters_and_digits_only() {
    assert_eq!(parts("AB-12"), ("AB-12".to_string(), 1));
    assert_eq!(parts("A B2"), ("A B2".to_string(), 1));
    assert_eq!(parts("é2"), ("é2".to_string(), 1));
}

#[test]
fn separator_rule_takes_any_prefix() {
    assert_eq!(parts("AB-12x4"), ("AB-12".to_string(), 4));
    assert_eq!(parts("éüx2"), ("éü".to_string(), 2));
    assert_eq!(parts("a\nx2"), ("a\n".to_string(), 2));
    assert_eq!(parts("A\nBx2"), ("A\nB".to_string(), 2));
    assert_eq!(parts("\nx2"), ("\n".to_string(), 2));
    assert_eq!(parts("a\rx2"), ("a\r".to_string(), 2));
    assert_eq!(parts(" x7"), (" ".to_string(), 7));
}

#[test]
fn digits_of_other_scripts_match_and_are_no_quantity() {
    // U+0663 is the Arabic-Indic digit three.
    for token in ["Ax\u{663}", "Ax1\u{663}", "Ax\u{663}1", "A\u{663}", "A1\u{663}", "AB\u{FF11}"] {
        match parse_token(token) {
            Err(ParseError::InvalidQuantity(t)) => assert_eq!(t, token),
            other => panic!("unexpected for {:?}: {:?}", token, other),
        }
    }
    // Digits only, of whatever script: an identifier asked for once.
    assert_eq!(parts("\u{663}"), ("\u{663}".to_string(), 1));
    assert_eq!(parts("1\u{663}"), ("1\u{663}".to_string(), 1));
    assert_eq!(parts("\u{663}\u{664}"), ("\u{663}\u{664}".to_string(), 1));
    // A digit of another script is no letter or digit before the digits.
    assert_eq!(parts("\u{663}A5"), ("\u{663}A5".to_string(), 1));
    // Other numeric characters are no digits.
    assert_eq!(parts("Ax\u{B2}"), ("Ax\u{B2}".to_string(), 1));
    assert_eq!(parts("Ax\u{2167}"), ("Ax\u{2167}".to_string(), 1));
}

#[test]
fn uppercase_x_is_no_separator() {
    assert_eq!(parts("ABX2"), ("ABX".to_string(), 2));
    assert_eq!(parts("A-X2"), ("A-X2".to_string(), 1));
}

#[test]
fn leading_zeros_and_zero_quantities_are_read() {
    assert_eq!(parts("Ax007"), ("A".to_string(), 7));
    assert_eq!(parts("Ax0"), ("A".to_string(), 0));
    assert_eq!(parts("A0"), ("A".to_string(), 0));
}

#[test]
fn quantity_up_to_u32_max_is_accepted() {
    assert_eq!(parts("Ax4294967295"), ("A".to_string(), 4294967295));
    assert_eq!(parts("Ax0004294967295"), ("A".to_string(), 4294967295));
}

#[test]
fn quantity_beyond_u32_max_is_invalid() {
    match parse_token("Ax4294967296") {
        Err(ParseError::InvalidQuantity(t)) => assert_eq!(t, "Ax4294967296"),
        other => panic!("unexpected: {:?}", other),
    }
    match parse_token("A99999999999999999999999999999999999999999999") {
        Err(ParseError::InvalidQuantity(t)) => {
            assert_eq!(t, "A99999999999999999999999999999999999999999999")
        }
        other => panic!("unexpected: {:?}", other),
    }
}

#[test]
fn trailing_digits_counts_the_final_run() {
    assert_eq!(trailing_digits(&chars("")), 0);
    assert_eq!(trailing_digits(&chars("abc")), 0);
    assert_eq!(trailing_digits(&chars("a1b22")), 2);
    assert_eq!(trailing_digits(&chars("12345")), 5);
    assert_eq!(trailing_digits(&chars("a\u{663}")), 1);
    assert_eq!(trailing_digits(&chars("a1\u{663}2")), 3);
    assert_eq!(trailing_digits(&chars("a\u{B2}")), 0);
}

#[test]
fn matchers_work_in_isolation() {
    assert_eq!(
        match_separator(&chars("KM18H5Ox2")),
        Some(Split { identifier_end: 7, digits_start: 8 })
    );
    assert_eq!(match_separator(&chars("KM18H5O2")), None);
    assert_eq!(match_separator(&chars("x2")), None);
    assert_eq!(
        match_suffix(&chars("KM18H5O2")),
        Some(Split { identifier_end: 7, digits_start: 7 })
    );
    assert_eq!(
        match_suffix(&chars("KM18H5Ox2")),
        Some(Split { identifier_end: 8, digits_start: 8 })
    );
    assert_eq!(match_suffix(&chars("123")), None);
    assert_eq!(match_suffix(&chars("ABC")), None);
    assert_eq!(
        match_token(&chars("KM18H5Ox2")),
        Some(Split { identifier_end: 7, digits_start: 8 })
    );
    assert_eq!(match_token(&chars("ABC")), None);
}

#[test]
fn decode_split_reads_along_a_fitting_split() {
    let parts = decode_split("AB12", Split { identifier_end: 1, digits_start: 2 });
    match parts {
        Ok((identifier, quantity)) => {
            assert_eq!(identifier, "A");
            assert_eq!(quantity, 12);
        }
        Err(e) => panic!("refused: {}", e.message()),
    }
}

#[test]
fn decode_split_refuses_a_split_that_does_not_fit() {
    let bad = [
        Split { identifier_end: 0, digits_start: 1 },
        Split { identifier_end: 3, digits_start: 2 },
        Split { identifier_end: 2, digits_start: 4 },
        Split { identifier_end: 2, digits_start: 9 },
        Split { identifier_end: 1, digits_start: 1 },
    ];
    for split in bad {
        match decode_split("AB12", split) {
            Err(ParseError::MalformedToken(t)) => assert_eq!(t, "AB12"),
            other => panic!("unexpected: {:?}", other),
        }
    }
}

#[test]
fn decode_split_refuses_digits_of_other_scripts() {
    match decode_split("A\u{663}", Split { identifier_end: 1, digits_start: 1 }) {
        Err(ParseError::InvalidQuantity(t)) => assert_eq!(t, "A\u{663}"),
        other => panic!("unexpected: {:?}", other),
    }
    match decode_split("A\u{B2}", Split { identifier_end: 1, digits_start: 1 }) {
        Err(ParseError::MalformedToken(t)) => assert_eq!(t, "A\u{B2}"),
        other => panic!("unexpected: {:?}", other),
    }
}

#[test]
fn decode_split_refuses_a_quantity_that_is_too_large() {
    match decode_split("A4294967296", Split { identifier_end: 1, digits_start: 1 }) {
        Err(ParseError::InvalidQuantity(t)) => assert_eq!(t, "A4294967296"),
        other => panic!("unexpected: {:?}", other),
    }
}

#[test]
fn error_messages_name_the_token() {
    let invalid = ParseError::InvalidQuantity("Ax99999999999".to_string());
    assert_eq!(invalid.message(), "Qty must be integer: Ax99999999999");
    assert_eq!(invalid.token(), "Ax99999999999");
    let malformed = ParseError::MalformedToken("123".to_string());
    assert_eq!(malformed.message(), "Format error: 123");
    assert_eq!(malformed.token(), "123");
}
