use maze_generator::coordinate::{Coordinate, CoordinateParseError};

#[test]
fn parses_plain_pair() {
    assert_eq!(Ok(Coordinate::new(3, 4)), Coordinate::from_str("(3,4)"));
    assert_eq!(Ok(Coordinate::new(3, 4)), Coordinate::from_str("3,4"));
    assert_eq!(Ok(Coordinate::new(3, 4)), Coordinate::from_str("((3,4))"));
    assert_eq!(Ok(Coordinate::new(0, 19)), Coordinate::from_str("(0,19)"));
}

#[test]
fn accepts_leading_plus() {
    assert_eq!(Ok(Coordinate::new(7, 8)), Coordinate::from_str("+7,+8"));
}

#[test]
fn extra_pieces_after_second_comma_are_ignored() {
    assert_eq!(Ok(Coordinate::new(3, 4)), Coordinate::from_str("(3,4,9)"));
}

#[test]
fn rejects_non_digit() {
    assert_eq!(Err(CoordinateParseError::InvalidDigit), Coordinate::from_str("(a,4)"));
    // Only parentheses are trimmed, so an inner space is no digit.
    assert_eq!(Err(CoordinateParseError::InvalidDigit), Coordinate::from_str("(3, 4)"));
    assert_eq!(Err(CoordinateParseError::InvalidDigit), Coordinate::from_str(" (3,4) "));
    assert_eq!(Err(CoordinateParseError::InvalidDigit), Coordinate::from_str("(+,4)"));
}

#[test]
fn rejects_missing_component() {
    assert_eq!(Err(CoordinateParseError::Empty), Coordinate::from_str(""));
    assert_eq!(Err(CoordinateParseError::Empty), Coordinate::from_str("()"));
    assert_eq!(Err(CoordinateParseError::Empty), Coordinate::from_str("(3)"));
    assert_eq!(Err(CoordinateParseError::Empty), Coordinate::from_str("(3,)"));
    assert_eq!(Err(CoordinateParseError::Empty), Coordinate::from_str("(,4)"));
}

#[test]
fn rejects_oversized_component() {
    assert_eq!(
        Err(CoordinateParseError::Overflow),
        Coordinate::from_str("(99999999999999999999999999,1)")
    );
}
