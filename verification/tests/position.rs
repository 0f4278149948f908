use workout_timer::{parse_from, PositionError};

#[test]
fn position_counts_from_one() {
    assert_eq!(parse_from("1.1"), Ok((0, 0, 0)));
    assert_eq!(parse_from("2.4"), Ok((1, 0, 3)));
    assert_eq!(parse_from("2/3.4"), Ok((1, 2, 3)));
    assert_eq!(parse_from("65535/65535.65535"), Ok((65534, 65534, 65534)));
}

#[test]
fn zero_stays_zero() {
    assert_eq!(parse_from("0.0"), Ok((0, 0, 0)));
    assert_eq!(parse_from("0/0.0"), Ok((0, 0, 0)));
    assert_eq!(parse_from("3/0.1"), Ok((2, 0, 0)));
}

#[test]
fn position_accepts_what_a_number_may_look_like() {
    assert_eq!(parse_from("+2/003.+4"), Ok((1, 2, 3)));
}

#[test]
fn position_without_a_dot_names_no_exercise() {
    assert_eq!(parse_from(""), Err(PositionError::MissingExercise));
    assert_eq!(parse_from("3"), Err(PositionError::MissingExercise));
    assert_eq!(parse_from("3/2"), Err(PositionError::MissingExercise));
}

#[test]
fn position_parts_must_be_numbers() {
    assert_eq!(parse_from("."), Err(PositionError::BadNumber));
    assert_eq!(parse_from(".3"), Err(PositionError::BadNumber));
    assert_eq!(parse_from("1."), Err(PositionError::BadNumber));
    assert_eq!(parse_from("1/.2"), Err(PositionError::BadNumber));
    assert_eq!(parse_from("/1.2"), Err(PositionError::BadNumber));
    assert_eq!(parse_from("a.1"), Err(PositionError::BadNumber));
    assert_eq!(parse_from("1.b"), Err(PositionError::BadNumber));
    assert_eq!(parse_from("1/c.1"), Err(PositionError::BadNumber));
    assert_eq!(parse_from("1.2.3"), Err(PositionError::BadNumber));
    assert_eq!(parse_from("1/2/3.4"), Err(PositionError::BadNumber));
    assert_eq!(parse_from("1.2/3"), Err(PositionError::BadNumber));
    assert_eq!(parse_from(" 1.1"), Err(PositionError::BadNumber));
    assert_eq!(parse_from("-1.1"), Err(PositionError::BadNumber));
    assert_eq!(parse_from("65536.1"), Err(PositionError::BadNumber));
}
