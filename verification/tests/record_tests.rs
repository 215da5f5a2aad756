use cozad_union_find::records::{convert_connection, ConnectionError};

#[test]
fn convert_well_formed_record() {
    let connection = convert_connection("4,3").unwrap();

    assert_eq!(4, connection.a);
    assert_eq!(3, connection.b);
}

#[test]
fn convert_keeps_leading_zeros_value() {
    let connection = convert_connection("007,10").unwrap();

    assert_eq!(7, connection.a);
    assert_eq!(10, connection.b);
}

#[test]
fn convert_missing_separator() {
    assert_eq!(Err(ConnectionError::MissingSeparator), convert_connection("43"));
    assert_eq!(Err(ConnectionError::MissingSeparator), convert_connection(""));
}

#[test]
fn convert_empty_field() {
    assert_eq!(Err(ConnectionError::InvalidDigit), convert_connection(",3"));
    assert_eq!(Err(ConnectionError::InvalidDigit), convert_connection("4,"));
}

#[test]
fn convert_non_numeric_field() {
    assert_eq!(Err(ConnectionError::InvalidDigit), convert_connection("4a,3"));
    assert_eq!(Err(ConnectionError::InvalidDigit), convert_connection("4, 3"));
    assert_eq!(Err(ConnectionError::InvalidDigit), convert_connection("-4,3"));
}

#[test]
fn convert_extra_field_rejected() {
    // The split happens at the first comma, so the second field "3,5" holds a
    // character that is not a digit.
    assert_eq!(Err(ConnectionError::InvalidDigit), convert_connection("4,3,5"));
}

#[test]
fn convert_value_too_large() {
    let line = format!("{}0,1", usize::MAX);
    assert_eq!(Err(ConnectionError::Overflow), convert_connection(&line));

    let other = format!("1,{}9", usize::MAX);
    assert_eq!(Err(ConnectionError::Overflow), convert_connection(&other));
}

#[test]
fn convert_largest_value_accepted() {
    let line = format!("{},0", usize::MAX);
    let connection = convert_connection(&line).unwrap();

    assert_eq!(usize::MAX, connection.a);
    assert_eq!(0, connection.b);
}
