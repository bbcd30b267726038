use league_standings::parse::{parse_record, parse_score_ln};
use league_standings::record::RecordError;

#[test]
fn a_plain_line_parses() {
    let m = parse_score_ln("Lions,Tigers,3,1".to_string()).unwrap();
    assert_eq!(m.a_team, "Lions");
    assert_eq!(m.b_team, "Tigers");
    assert_eq!(m.a_score, 3);
    assert_eq!(m.b_score, 1);
}

#[test]
fn fields_behind_the_fourth_are_ignored() {
    let m = parse_record("A,B,2,0,played in rain,x").unwrap();
    assert_eq!((m.a_team.as_str(), m.b_team.as_str(), m.a_score, m.b_score), ("A", "B", 2, 0));
}

#[test]
fn names_are_taken_as_written() {
    let m = parse_record(" Real Madrid ,Bayern München,10,0").unwrap();
    assert_eq!(m.a_team, " Real Madrid ");
    assert_eq!(m.b_team, "Bayern München");
    assert_eq!(m.a_score, 10);
    let n = parse_record(",,0,0").unwrap();
    assert_eq!(n.a_team, "");
    assert_eq!(n.b_team, "");
}

#[test]
fn fewer_than_four_fields_is_malformed() {
    assert_eq!(parse_record("A,B,1").unwrap_err(), RecordError::MalformedRecord);
    assert_eq!(parse_record("A,B").unwrap_err(), RecordError::MalformedRecord);
    assert_eq!(parse_record("A").unwrap_err(), RecordError::MalformedRecord);
    assert_eq!(parse_record("").unwrap_err(), RecordError::MalformedRecord);
    assert_eq!(parse_score_ln("x,y,z".to_string()).unwrap_err(), RecordError::MalformedRecord);
}

#[test]
fn a_score_that_is_no_number_is_invalid() {
    assert_eq!(parse_record("A,B,x,1").unwrap_err(), RecordError::InvalidScore);
    assert_eq!(parse_record("A,B,1,y").unwrap_err(), RecordError::InvalidScore);
    assert_eq!(parse_record("A,B,,1").unwrap_err(), RecordError::InvalidScore);
    assert_eq!(parse_record("A,B,1,").unwrap_err(), RecordError::InvalidScore);
    assert_eq!(parse_record("A,B,-1,1").unwrap_err(), RecordError::InvalidScore);
    assert_eq!(parse_record("A,B,1, 2").unwrap_err(), RecordError::InvalidScore);
    assert_eq!(parse_record("A,B,1.5,2").unwrap_err(), RecordError::InvalidScore);
    assert_eq!(parse_record("A,B,+,2").unwrap_err(), RecordError::InvalidScore);
    assert_eq!(parse_record("A,B,1,2\r").unwrap_err(), RecordError::InvalidScore);
}

#[test]
fn a_plus_sign_and_leading_zeros_are_read() {
    let m = parse_record("A,B,+7,0003").unwrap();
    assert_eq!((m.a_score, m.b_score), (7, 3));
}

#[test]
fn the_greatest_score_is_read_and_one_more_is_not() {
    let m = parse_record("A,B,18446744073709551615,0").unwrap();
    assert_eq!(m.a_score, u64::MAX);
    assert_eq!(parse_record("A,B,18446744073709551616,0").unwrap_err(), RecordError::InvalidScore);
    assert_eq!(
        parse_record("A,B,0,99999999999999999999999999").unwrap_err(),
        RecordError::InvalidScore
    );
    let z = parse_record("A,B,000000000000000000000000000012,256").unwrap();
    assert_eq!((z.a_score, z.b_score), (12, 256));
}

#[test]
fn malformed_comes_before_invalid_score() {
    assert_eq!(parse_record("A,B,x").unwrap_err(), RecordError::MalformedRecord);
}
