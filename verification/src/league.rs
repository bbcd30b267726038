//! From the lines of a results file to the standings.

use vstd::prelude::*;
use crate::club_stats::Tally;
use crate::parse::{line_record, lines_text, parse_record};
use crate::rank::{is_ranking, lemma_ranking_clubs, rank_clubs, ranking_of};
use crate::record::RecordError;
use crate::render::{header_text, render_table, table_text};
use crate::standings::{
    add_match_to_standings, club_set, credit, distinct_names, has_club, lemma_club_count,
    lemma_credit, match_fits, record_match, Standings,
};

verus! {

/// A line that stopped the run: its place among the lines, counted from 0,
/// and what was wrong with it.
#[derive(Debug, Copy, Clone, PartialEq, Eq, Structural)]
pub struct LineError {
    pub index: usize,
    pub error: RecordError,
}

/// What the line at place `index` does to `table`: an empty line nothing, a
/// line that parses and fits is recorded, any other stops the run.
pub open spec fn fold_line(table: Seq<(Seq<char>, Tally)>, line: Seq<char>, index: int) -> Result<
    Seq<(Seq<char>, Tally)>,
    (int, RecordError),
> {
    if line.len() == 0 {
        Ok(table)
    } else {
        match line_record(line) {
            Err(e) => Err((index, e)),
            Ok(m) => if match_fits(table, m) {
                Ok(record_match(table, m))
            } else {
                Err((index, RecordError::CounterOverflow))
            },
        }
    }
}

/// The standings after all of `lines`, taken in order from empty standings,
/// or the first line that stopped the run.
pub open spec fn fold_lines(lines: Seq<Seq<char>>) -> Result<
    Seq<(Seq<char>, Tally)>,
    (int, RecordError),
>
    decreases lines.len(),
{
    if lines.len() == 0 {
        Ok(Seq::empty())
    } else {
        match fold_lines(lines.drop_last()) {
            Err(e) => Err(e),
            Ok(table) => fold_line(table, lines.last(), lines.len() - 1),
        }
    }
}

/// A line that stops the run stops it whatever follows.
pub proof fn lemma_fold_stops(lines: Seq<Seq<char>>, upto: int)
    requires
        0 <= upto <= lines.len(),
        fold_lines(lines.subrange(0, upto)) is Err,
    ensures
        fold_lines(lines) == fold_lines(lines.subrange(0, upto)),
    decreases lines.len() - upto,
{
    if upto == lines.len() {
        assert(lines.subrange(0, upto) =~= lines);
    } else {
        assert(lines.drop_last().subrange(0, upto) =~= lines.subrange(0, upto));
        lemma_fold_stops(lines.drop_last(), upto);
    }
}

/// `line` is a record in which the club `name` plays.
pub open spec fn line_names(line: Seq<char>, name: Seq<char>) -> bool {
    &&& line.len() > 0
    &&& line_record(line) is Ok
    &&& (line_record(line)->Ok_0.a_team == name || line_record(line)->Ok_0.b_team == name)
}

/// The club `name` plays in some record among `lines`.
pub open spec fn mentioned(lines: Seq<Seq<char>>, name: Seq<char>) -> bool {
    exists|i: int| 0 <= i < lines.len() && line_names(#[trigger] lines[i], name)
}

/// The clubs that play in the records among `lines`.
pub open spec fn clubs_mentioned(lines: Seq<Seq<char>>) -> Set<Seq<char>> {
    Set::new(|name: Seq<char>| mentioned(lines, name))
}

/// Standings built from lines hold one entry for each club that plays in
/// them, and no other entry.
pub proof fn lemma_fold_lines_clubs(lines: Seq<Seq<char>>)
    requires
        fold_lines(lines) is Ok,
    ensures
        distinct_names(fold_lines(lines)->Ok_0),
        forall|name: Seq<char>| has_club(fold_lines(lines)->Ok_0, name) <==> mentioned(lines, name),
    decreases lines.len(),
{
    let table = fold_lines(lines)->Ok_0;
    if lines.len() > 0 {
        let before = lines.drop_last();
        let line = lines.last();
        let last = lines.len() - 1;
        lemma_fold_lines_clubs(before);
        let start = fold_lines(before)->Ok_0;
        assert forall|name: Seq<char>| mentioned(lines, name) <==> (mentioned(before, name)
            || line_names(line, name)) by {
            if mentioned(lines, name) {
                let i = choose|i: int| 0 <= i < lines.len() && line_names(#[trigger] lines[i], name);
                if i < last {
                    assert(before[i] == lines[i]);
                }
            }
            if mentioned(before, name) {
                let i = choose|i: int|
                    0 <= i < before.len() && line_names(#[trigger] before[i], name);
                assert(lines[i] == before[i]);
            }
            if line_names(line, name) {
                assert(lines[last] == line);
            }
        }
        if line.len() > 0 {
            let m = line_record(line)->Ok_0;
            let half = credit(start, m.a_team, m.a_score, m.b_score);
            lemma_credit(start, m.a_team, m.a_score, m.b_score);
            lemma_credit(half, m.b_team, m.b_score, m.a_score);
        }
    }
}

/// The table made from lines that all parse has the header and then one row
/// for each club that plays in them: each of these clubs in one row, and as
/// many rows as there are such clubs.
pub proof fn lemma_one_row_per_club(lines: Seq<Seq<char>>, ranked: Seq<(Seq<char>, Tally)>)
    requires
        fold_lines(lines) is Ok,
        is_ranking(fold_lines(lines)->Ok_0, ranked),
    ensures
        distinct_names(ranked),
        forall|name: Seq<char>| has_club(ranked, name) <==> mentioned(lines, name),
        clubs_mentioned(lines).finite(),
        ranked.len() == clubs_mentioned(lines).len(),
        table_text(ranked).len() == 1 + clubs_mentioned(lines).len(),
{
    let table = fold_lines(lines)->Ok_0;
    lemma_fold_lines_clubs(lines);
    lemma_ranking_clubs(table, ranked);
    lemma_club_count(table);
    assert(club_set(table) =~= clubs_mentioned(lines));
}

/// Without any record the table is the header alone.
pub proof fn lemma_no_records_header_only(lines: Seq<Seq<char>>, ranked: Seq<(Seq<char>, Tally)>)
    requires
        forall|i: int| 0 <= i < lines.len() ==> (#[trigger] lines[i]).len() == 0,
        is_ranking(Seq::empty(), ranked),
    ensures
        fold_lines(lines) == Ok::<Seq<(Seq<char>, Tally)>, (int, RecordError)>(Seq::empty()),
        table_text(ranked) == seq![header_text()],
    decreases lines.len(),
{
    if lines.len() > 0 {
        let before = lines.drop_last();
        assert forall|i: int| 0 <= i < before.len() implies (#[trigger] before[i]).len() == 0 by {
            assert(before[i] == lines[i]);
        }
        lemma_no_records_header_only(before, ranked);
        assert(lines.last() == lines[lines.len() - 1]);
    }
    assert(table_text(ranked) =~= seq![header_text()]);
}

/// Builds the standings from the lines of a results file, in order. Empty
/// lines are passed over. The first line that does not parse, or whose match
/// cannot be recorded, ends the run: it is reported with its place, and no
/// standings are returned.
pub fn standings_from_lines(lines: &Vec<String>) -> (built: Result<Standings, LineError>)
    ensures
        match built {
            Ok(standings) => standings.wf() && fold_lines(lines_text(lines@)) == Ok::<
                Seq<(Seq<char>, Tally)>,
                (int, RecordError),
            >(standings@),
            Err(e) => fold_lines(lines_text(lines@)) == Err::<
                Seq<(Seq<char>, Tally)>,
                (int, RecordError),
            >((e.index as int, e.error)),
        },
{
    let ghost text = lines_text(lines@);
    let mut standings = Standings::new();
    let mut i: usize = 0;
    assert(text.subrange(0, 0) =~= Seq::<Seq<char>>::empty());
    while i < lines.len()
        invariant
            i <= lines@.len(),
            text == lines_text(lines@),
            standings.wf(),
            fold_lines(text.subrange(0, i as int)) == Ok::<
                Seq<(Seq<char>, Tally)>,
                (int, RecordError),
            >(standings@),
        decreases lines@.len() - i,
    {
        let line: &str = lines[i].as_str();
        proof {
            assert(text.subrange(0, i + 1).drop_last() =~= text.subrange(0, i as int));
            assert(text.subrange(0, i + 1).last() == line@);
        }
        if !line.is_empty() {
            let done = match parse_record(line) {
                Ok(match_score) => add_match_to_standings(&mut standings, match_score),
                Err(e) => Err(e),
            };
            if let Err(error) = done {
                proof {
                    lemma_fold_stops(text, i + 1);
                }
                return Err(LineError { index: i, error });
            }
        }
        i += 1;
    }
    assert(text.subrange(0, i as int) =~= text);
    Ok(standings)
}

/// The whole computation: the lines of a results file to the lines of the
/// league table, header first. A line that ends the run is reported, and no
/// table is made.
pub fn league_table(lines: &Vec<String>) -> (made: Result<Vec<String>, LineError>)
    ensures
        match made {
            Ok(rows) => {
                let table = fold_lines(lines_text(lines@));
                &&& table is Ok
                &&& is_ranking(table->Ok_0, ranking_of(table->Ok_0))
                &&& lines_text(rows@) == table_text(ranking_of(table->Ok_0))
            },
            Err(e) => fold_lines(lines_text(lines@)) == Err::<
                Seq<(Seq<char>, Tally)>,
                (int, RecordError),
            >((e.index as int, e.error)),
        },
{
    match standings_from_lines(lines) {
        Ok(standings) => {
            let ranked = rank_clubs(standings);
            let rows = render_table(&ranked);
            Ok(rows)
        },
        Err(e) => Err(e),
    }
}

} // verus!
