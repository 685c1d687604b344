use pathgraph::{Cartesian, ParseCoordError};

#[test]
fn parses_parenthesised_point() {
    assert_eq!(Cartesian::parse("(3, -2)"), Ok(Cartesian::new(3, -2)));
}

#[test]
fn parses_bare_point() {
    assert_eq!(Cartesian::parse("3,-2"), Ok(Cartesian::new(3, -2)));
    assert_eq!("3,-2".parse::<Cartesian>(), Ok(Cartesian::new(3, -2)));
}

#[test]
fn parses_with_spaces_and_signs() {
    assert_eq!(Cartesian::parse("((  +17 ,\t-0 ))"), Ok(Cartesian::new(17, 0)));
    assert_eq!(Cartesian::parse("(2147483647,-2147483648)"), Ok(Cartesian::new(i32::MAX, i32::MIN)));
}

#[test]
fn ignores_text_after_second_comma() {
    assert_eq!(Cartesian::parse("1,2,3"), Ok(Cartesian::new(1, 2)));
}

#[test]
fn rejects_non_digits() {
    assert_eq!(Cartesian::parse("(a, 1)"), Err(ParseCoordError::InvalidDigit));
    assert_eq!(Cartesian::parse("(1, 2x)"), Err(ParseCoordError::InvalidDigit));
    assert_eq!(Cartesian::parse("(-, 2)"), Err(ParseCoordError::InvalidDigit));
    assert_eq!(Cartesian::parse(" (1,2)"), Err(ParseCoordError::InvalidDigit));
}

#[test]
fn rejects_empty_coordinates() {
    assert_eq!(Cartesian::parse("(,1)"), Err(ParseCoordError::Empty));
    assert_eq!(Cartesian::parse("(1,)"), Err(ParseCoordError::Empty));
    assert_eq!(Cartesian::parse(""), Err(ParseCoordError::Empty));
}

#[test]
fn rejects_out_of_range() {
    assert_eq!(Cartesian::parse("(2147483648, 0)"), Err(ParseCoordError::PosOverflow));
    assert_eq!(Cartesian::parse("(0, -2147483649)"), Err(ParseCoordError::NegOverflow));
    assert_eq!(Cartesian::parse("(99999999999x, 0)"), Err(ParseCoordError::PosOverflow));
}

#[test]
fn rejects_missing_comma() {
    assert_eq!(Cartesian::parse("(5)"), Err(ParseCoordError::MissingComma));
    assert_eq!(Cartesian::parse("(x)"), Err(ParseCoordError::InvalidDigit));
}

#[test]
fn non_ascii_whitespace_is_not_trimmed() {
    assert_eq!(Cartesian::parse("(\u{A0}3, 4)"), Err(ParseCoordError::InvalidDigit));
}
