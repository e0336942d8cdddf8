use sexpr_reader::sexpr::decimal::{is_digit_char, Decimal};

#[test]
fn canonical_text_drops_superfluous_zeros() {
    let cases = [
        ("2.0", "2"),
        ("2.5", "2.5"),
        ("10", "10"),
        ("007", "7"),
        ("000", "0"),
        ("0.0", "0"),
        ("00.500", "0.5"),
        ("12.340", "12.34"),
        ("100.001", "100.001"),
        ("5.55", "5.55"),
    ];
    for (text, canonical) in cases {
        assert_eq!(Decimal::from_text(text).unwrap().as_str(), canonical);
    }
}

#[test]
fn canonical_text_is_its_own_canonical_text() {
    for text in ["0", "7", "10", "0.5", "12.34", "100.001"] {
        assert_eq!(Decimal::from_text(text).unwrap().as_str(), text);
    }
}

#[test]
fn literals_of_one_number_are_equal() {
    assert_eq!(Decimal::from_text("1.50"), Decimal::from_text("01.5"));
    assert_ne!(Decimal::from_text("1.5"), Decimal::from_text("1.05"));
    assert_eq!(Decimal::from_text("1.5").unwrap().clone(), Decimal::from_text("1.5").unwrap());
}

#[test]
fn what_is_no_number_literal_is_refused() {
    for text in ["", ".", "1.", ".1", "1..2", "1.2.3", "a", "1a", "1.a", "-1", " 1", "1 ", "١"] {
        assert_eq!(Decimal::from_text(text), None);
    }
}

#[test]
fn from_chars_agrees_with_from_text() {
    let chars: Vec<char> = "012.50".chars().collect();
    assert_eq!(Decimal::from_chars(&chars), Decimal::from_text("012.50"));
    assert_eq!(Decimal::from_chars(&chars).unwrap().as_str(), "12.5");
}

#[test]
fn digits_are_the_ten_ascii_digits() {
    assert!(is_digit_char('0'));
    assert!(is_digit_char('9'));
    assert!(!is_digit_char('/'));
    assert!(!is_digit_char(':'));
    assert!(!is_digit_char('a'));
    assert!(!is_digit_char('٣'));
}
