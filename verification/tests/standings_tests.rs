use league_standings::club_stats::ClubStats;
use league_standings::league::{standings_from_lines, LineError};
use league_standings::rank::rank_clubs;
use league_standings::record::{MatchScore, RecordError};
use league_standings::standings::{add_match_to_standings, Standings};

fn game(a: &str, b: &str, sa: u64, sb: u64) -> MatchScore {
    MatchScore { a_team: a.to_string(), b_team: b.to_string(), a_score: sa, b_score: sb }
}

fn lines(text: &[&str]) -> Vec<String> {
    text.iter().map(|l| l.to_string()).collect()
}

fn names(ranked: &Vec<(String, ClubStats)>) -> Vec<String> {
    ranked.iter().map(|e| e.0.clone()).collect()
}

fn consistent(s: &ClubStats) -> bool {
    s.games_played == s.win + s.draw + s.loss
        && s.points == 3 * s.win + s.draw
        && s.goal_differential == s.goals_for as i64 - s.goals_against as i64
}

#[test]
fn a_draw_gives_both_clubs_one_point() {
    let mut st = Standings::new();
    assert!(add_match_to_standings(&mut st, game("A", "B", 2, 2)).is_ok());
    let ranked = rank_clubs(st);
    assert_eq!(ranked.len(), 2);
    for (_, s) in &ranked {
        assert_eq!((s.win, s.draw, s.loss), (0, 1, 0));
        assert_eq!(s.points, 1);
        assert_eq!(s.goal_differential, 0);
        assert_eq!(s.games_played, 1);
        assert_eq!((s.goals_for, s.goals_against), (2, 2));
    }
    assert_eq!(names(&ranked), vec!["A".to_string(), "B".to_string()]);
}

#[test]
fn a_win_and_a_draw_put_the_club_on_top() {
    let mut st = Standings::new();
    assert!(add_match_to_standings(&mut st, game("A", "B", 3, 1)).is_ok());
    assert!(add_match_to_standings(&mut st, game("A", "C", 1, 1)).is_ok());
    assert_eq!(st.len(), 3);
    let a = st.get(&"A".to_string()).unwrap();
    assert_eq!(a.games_played, 2);
    assert_eq!((a.win, a.draw, a.loss), (1, 1, 0));
    assert_eq!(a.points, 4);
    assert_eq!((a.goals_for, a.goals_against, a.goal_differential), (4, 2, 2));
    let b = st.get(&"B".to_string()).unwrap();
    assert_eq!((b.win, b.draw, b.loss, b.points), (0, 0, 1, 0));
    assert_eq!((b.goals_for, b.goals_against, b.goal_differential), (1, 3, -2));
    assert!(st.get(&"D".to_string()).is_none());
    let ranked = rank_clubs(st);
    assert_eq!(names(&ranked), vec!["A".to_string(), "C".to_string(), "B".to_string()]);
    assert_eq!(ranked[0].1.points, 4);
    assert_eq!(ranked[1].1.points, 1);
    assert_eq!(ranked[2].1.points, 0);
}

#[test]
fn equal_points_rank_by_goal_differential() {
    let mut st = Standings::new();
    assert!(add_match_to_standings(&mut st, game("A", "X", 1, 0)).is_ok());
    assert!(add_match_to_standings(&mut st, game("B", "Y", 4, 1)).is_ok());
    let ranked = rank_clubs(st);
    assert_eq!(
        names(&ranked),
        vec!["B".to_string(), "A".to_string(), "X".to_string(), "Y".to_string()]
    );
}

#[test]
fn equal_points_and_differential_rank_by_goals_scored() {
    let mut st = Standings::new();
    assert!(add_match_to_standings(&mut st, game("A", "X", 2, 1)).is_ok());
    assert!(add_match_to_standings(&mut st, game("B", "Y", 3, 2)).is_ok());
    let ranked = rank_clubs(st);
    assert_eq!(
        names(&ranked),
        vec!["B".to_string(), "A".to_string(), "Y".to_string(), "X".to_string()]
    );
}

#[test]
fn level_clubs_keep_the_order_of_first_appearance() {
    for _ in 0..20 {
        let mut st = Standings::new();
        assert!(add_match_to_standings(&mut st, game("Zebra", "Yak", 1, 1)).is_ok());
        assert!(add_match_to_standings(&mut st, game("Ant", "Mole", 1, 1)).is_ok());
        assert!(add_match_to_standings(&mut st, game("Top", "Low", 9, 0)).is_ok());
        let ranked = rank_clubs(st);
        assert_eq!(
            names(&ranked),
            vec![
                "Top".to_string(),
                "Zebra".to_string(),
                "Yak".to_string(),
                "Ant".to_string(),
                "Mole".to_string(),
                "Low".to_string()
            ]
        );
    }
}

#[test]
fn ranking_of_no_clubs_is_empty() {
    assert!(rank_clubs(Standings::new()).is_empty());
    assert_eq!(Standings::new().len(), 0);
}

#[test]
fn every_club_has_one_row() {
    let input = lines(&["A,B,1,0", "B,C,2,2", "C,A,0,3", "D,A,1,1", "B,D,0,0", "A,B,2,2"]);
    let st = standings_from_lines(&input).unwrap();
    assert_eq!(st.len(), 4);
    let ranked = rank_clubs(st);
    assert_eq!(ranked.len(), 4);
    let mut seen = names(&ranked);
    seen.sort();
    assert_eq!(seen, vec!["A".to_string(), "B".to_string(), "C".to_string(), "D".to_string()]);
    for (_, s) in &ranked {
        assert!(consistent(s));
    }
    assert_eq!(names(&ranked)[0], "A");
    assert_eq!(ranked[0].1.points, 8);
    assert_eq!(ranked[0].1.games_played, 4);
    for k in 1..ranked.len() {
        let (up, down) = (&ranked[k - 1].1, &ranked[k].1);
        assert!(
            (up.points, up.goal_differential, up.goals_for)
                >= (down.points, down.goal_differential, down.goals_for)
        );
    }
}

#[test]
fn empty_lines_are_passed_over() {
    let input = lines(&["", "A,B,1,0", "", "", "B,A,1,0", ""]);
    let st = standings_from_lines(&input).unwrap();
    assert_eq!(st.len(), 2);
    assert_eq!(st.get(&"A".to_string()).unwrap().points, 3);
    assert_eq!(st.get(&"B".to_string()).unwrap().points, 3);
}

#[test]
fn no_lines_give_empty_standings() {
    let st = standings_from_lines(&Vec::new()).unwrap();
    assert_eq!(st.len(), 0);
}

#[test]
fn the_first_bad_line_ends_the_run() {
    let short = lines(&["A,B,1,0", "C,D", "E,F,x,1"]);
    assert_eq!(
        standings_from_lines(&short).err(),
        Some(LineError { index: 1, error: RecordError::MalformedRecord })
    );
    let bad = lines(&["A,B,1,0", "", "E,F,x,1", "C,D"]);
    assert_eq!(
        standings_from_lines(&bad).err(),
        Some(LineError { index: 2, error: RecordError::InvalidScore })
    );
}

#[test]
fn a_club_that_plays_itself_gets_both_results() {
    let mut st = Standings::new();
    assert!(add_match_to_standings(&mut st, game("A", "A", 2, 1)).is_ok());
    assert_eq!(st.len(), 1);
    let a = st.get(&"A".to_string()).unwrap();
    assert_eq!((a.win, a.draw, a.loss), (1, 0, 1));
    assert_eq!((a.goals_for, a.goals_against, a.goal_differential), (3, 3, 0));
    assert_eq!(a.points, 3);
    assert_eq!(a.games_played, 2);
}

#[test]
fn a_match_that_does_not_fit_is_recorded_for_neither_club() {
    let mut st = Standings::new();
    assert!(add_match_to_standings(&mut st, game("A", "B", u64::MAX, 0)).is_err());
    assert_eq!(st.len(), 0);
    assert!(add_match_to_standings(&mut st, game("A", "B", i64::MAX as u64, 0)).is_ok());
    assert!(add_match_to_standings(&mut st, game("C", "B", 0, 0)).is_ok());
    assert_eq!(
        add_match_to_standings(&mut st, game("C", "A", 0, 1)),
        Err(RecordError::CounterOverflow)
    );
    assert_eq!(
        add_match_to_standings(&mut st, game("A", "C", 1, 0)),
        Err(RecordError::CounterOverflow)
    );
    assert_eq!(st.len(), 3);
    let c = st.get(&"C".to_string()).unwrap();
    assert_eq!((c.games_played, c.draw, c.goals_for, c.goals_against), (1, 1, 0, 0));
    let a = st.get(&"A".to_string()).unwrap();
    assert_eq!((a.games_played, a.win, a.goals_for), (1, 1, i64::MAX as u64));
    let input = lines(&["A,B,9223372036854775807,0", "A,D,1,0"]);
    assert_eq!(
        standings_from_lines(&input).err(),
        Some(LineError { index: 1, error: RecordError::CounterOverflow })
    );
}
