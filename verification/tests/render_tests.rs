use league_standings::club_stats::ClubStats;
use league_standings::league::{league_table, LineError};
use league_standings::record::RecordError;
use league_standings::render::{
    decimal_string, header_line, render_table, row_line, signed_decimal_string,
};

fn lines(text: &[&str]) -> Vec<String> {
    text.iter().map(|l| l.to_string()).collect()
}

#[test]
fn numbers_are_written_in_decimal() {
    assert_eq!(decimal_string(0), "0");
    assert_eq!(decimal_string(7), "7");
    assert_eq!(decimal_string(10), "10");
    assert_eq!(decimal_string(1234567890), "1234567890");
    assert_eq!(decimal_string(u64::MAX), "18446744073709551615");
    for n in 0..2000u64 {
        assert_eq!(decimal_string(n), n.to_string());
    }
}

#[test]
fn signed_numbers_carry_a_minus_sign() {
    assert_eq!(signed_decimal_string(0), "0");
    assert_eq!(signed_decimal_string(-1), "-1");
    assert_eq!(signed_decimal_string(42), "42");
    assert_eq!(signed_decimal_string(-120), "-120");
    assert_eq!(signed_decimal_string(i64::MAX), "9223372036854775807");
    assert_eq!(signed_decimal_string(i64::MIN), "-9223372036854775808");
}

#[test]
fn the_header_is_fixed() {
    assert_eq!(header_line(), "Club, MP, W, D, L, GF, GA, GD, Pts");
}

#[test]
fn a_row_lists_the_figures_in_order() {
    let mut s = ClubStats::new();
    s.add_match_result(3, 1);
    s.add_match_result(1, 1);
    assert_eq!(row_line("A", &s), "A,2,1,1,0,4,2,2,4");
    let mut t = ClubStats::new();
    t.add_match_result(0, 12);
    assert_eq!(row_line("FC Down", &t), "FC Down,1,0,0,1,0,12,-12,0");
}

#[test]
fn rendering_no_rows_gives_the_header_alone() {
    let out = render_table(&Vec::new());
    assert_eq!(out, vec!["Club, MP, W, D, L, GF, GA, GD, Pts".to_string()]);
}

#[test]
fn empty_input_gives_the_header_alone() {
    assert_eq!(
        league_table(&Vec::new()).unwrap(),
        vec!["Club, MP, W, D, L, GF, GA, GD, Pts".to_string()]
    );
    assert_eq!(
        league_table(&lines(&["", ""])).unwrap(),
        vec!["Club, MP, W, D, L, GF, GA, GD, Pts".to_string()]
    );
}

#[test]
fn a_small_league_from_lines_to_table() {
    let out = league_table(&lines(&["A,B,3,1", "A,C,1,1", ""])).unwrap();
    assert_eq!(
        out,
        lines(&[
            "Club, MP, W, D, L, GF, GA, GD, Pts",
            "A,2,1,1,0,4,2,2,4",
            "C,1,0,1,0,1,1,0,1",
            "B,1,0,0,1,1,3,-2,0",
        ])
    );
}

#[test]
fn a_drawn_match_from_lines_to_table() {
    let out = league_table(&lines(&["A,B,2,2"])).unwrap();
    assert_eq!(
        out,
        lines(&["Club, MP, W, D, L, GF, GA, GD, Pts", "A,1,0,1,0,2,2,0,1", "B,1,0,1,0,2,2,0,1"])
    );
}

#[test]
fn the_table_has_one_row_per_club() {
    let input = lines(&["A,B,1,0", "B,C,2,2", "C,A,0,3", "D,A,1,1", "B,D,0,0", "A,B,2,2", "E,E,1,1"]);
    let out = league_table(&input).unwrap();
    assert_eq!(out.len(), 1 + 5);
    for club in ["A", "B", "C", "D", "E"] {
        let start = format!("{},", club);
        assert_eq!(out.iter().filter(|l| l.starts_with(&start)).count(), 1);
    }
}

#[test]
fn a_bad_line_gives_no_table() {
    assert_eq!(
        league_table(&lines(&["A,B,1,0", "A,B,1"])).unwrap_err(),
        LineError { index: 1, error: RecordError::MalformedRecord }
    );
    assert_eq!(
        league_table(&lines(&["A,B,one,0"])).unwrap_err(),
        LineError { index: 0, error: RecordError::InvalidScore }
    );
}
