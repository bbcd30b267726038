//! The league table as lines of text: a header, then one row per club.

use vstd::prelude::*;
use vstd::string::*;
use crate::club_stats::{ClubStats, Tally};
use crate::parse::{decimal_value, is_digit, lines_text, score_of, unsigned_part};
use crate::standings::entries_view;

verus! {

/// The character that writes the digit `d`.
pub open spec fn digit_char(d: nat) -> char {
    if d == 0 {
        '0'
    } else if d == 1 {
        '1'
    } else if d == 2 {
        '2'
    } else if d == 3 {
        '3'
    } else if d == 4 {
        '4'
    } else if d == 5 {
        '5'
    } else if d == 6 {
        '6'
    } else if d == 7 {
        '7'
    } else if d == 8 {
        '8'
    } else {
        '9'
    }
}

/// A natural number in decimal, without leading zeros.
pub open spec fn digits_of(n: nat) -> Seq<char>
    decreases n,
{
    if n < 10 {
        seq![digit_char(n)]
    } else {
        digits_of(n / 10).push(digit_char(n % 10))
    }
}

/// What is written for a number reads back as that number: its digits are
/// decimal digits, at least one, and their value is the number; so a score
/// written by `digits_of` is the score that the parser reads.
pub proof fn lemma_digits_read_back(n: nat)
    ensures
        digits_of(n).len() > 0,
        forall|i: int| 0 <= i < digits_of(n).len() ==> is_digit(#[trigger] digits_of(n)[i]),
        decimal_value(digits_of(n)) == n,
        n <= u64::MAX ==> score_of(digits_of(n)) == Some(n),
    decreases n,
{
    let digits = digits_of(n);
    let units = n % 10;
    assert((digit_char(units) as u32 - '0' as u32) as nat == units);
    assert(digits.last() == digit_char(units));
    if n < 10 {
        assert(digits.drop_last() =~= Seq::<char>::empty());
        assert(decimal_value(digits.drop_last()) == 0);
    } else {
        lemma_digits_read_back(n / 10);
        assert(digits.drop_last() =~= digits_of(n / 10));
        assert(decimal_value(digits.drop_last()) == n / 10);
    }
    assert(decimal_value(digits) == 10 * decimal_value(digits.drop_last()) + units);
    assert(is_digit(digits[0]));
    assert(unsigned_part(digits) == digits);
}

/// An integer in decimal, with a minus sign where it is negative.
pub open spec fn signed_digits_of(i: int) -> Seq<char> {
    if i < 0 {
        seq!['-'] + digits_of((-i) as nat)
    } else {
        digits_of(i as nat)
    }
}

/// The header of the table.
pub open spec fn header_text() -> Seq<char> {
    "Club, MP, W, D, L, GF, GA, GD, Pts"@
}

/// The row of one club: its name, games played, wins, draws, losses, goals
/// scored, goals conceded, goal differential and points, with commas between.
pub open spec fn row_text(name: Seq<char>, t: Tally) -> Seq<char> {
    name + seq![','] + digits_of(t.games_played()) + seq![','] + digits_of(t.win) + seq![',']
        + digits_of(t.draw) + seq![','] + digits_of(t.loss) + seq![','] + digits_of(t.goals_for)
        + seq![','] + digits_of(t.goals_against) + seq![','] + signed_digits_of(
        t.goal_differential(),
    ) + seq![','] + digits_of(t.points())
}

/// The lines of the table for the rows `ranked`: the header first, then the
/// row of each entry, in order.
pub open spec fn table_text(ranked: Seq<(Seq<char>, Tally)>) -> Seq<Seq<char>> {
    Seq::new(
        ranked.len() + 1,
        |i: int|
            if i == 0 {
                header_text()
            } else {
                row_text(ranked[i - 1].0, ranked[i - 1].1)
            },
    )
}

fn digit_str(d: u64) -> (s: &'static str)
    requires
        d < 10,
    ensures
        s@ == seq![digit_char(d as nat)],
{
    proof {
        reveal_strlit("0");
        reveal_strlit("1");
        reveal_strlit("2");
        reveal_strlit("3");
        reveal_strlit("4");
        reveal_strlit("5");
        reveal_strlit("6");
        reveal_strlit("7");
        reveal_strlit("8");
        reveal_strlit("9");
    }
    let s: &'static str = if d == 0 {
        "0"
    } else if d == 1 {
        "1"
    } else if d == 2 {
        "2"
    } else if d == 3 {
        "3"
    } else if d == 4 {
        "4"
    } else if d == 5 {
        "5"
    } else if d == 6 {
        "6"
    } else if d == 7 {
        "7"
    } else if d == 8 {
        "8"
    } else {
        "9"
    };
    assert(s@ =~= seq![digit_char(d as nat)]);
    s
}

/// Writes `n` in decimal.
pub fn decimal_string(n: u64) -> (text: String)
    ensures
        text@ == digits_of(n as nat),
{
    let mut text: String = digit_str(n % 10).to_owned();
    let mut rest: u64 = n / 10;
    while rest > 0
        invariant
            digits_of(n as nat) == (if rest == 0 {
                Seq::<char>::empty()
            } else {
                digits_of(rest as nat)
            }) + text@,
        decreases rest,
    {
        let longer: String = digit_str(rest % 10).to_owned().concat(text.as_str());
        assert(longer@ =~= seq![digit_char((rest % 10) as nat)] + text@);
        assert(digits_of(n as nat) =~= (if rest / 10 == 0 {
            Seq::<char>::empty()
        } else {
            digits_of((rest / 10) as nat)
        }) + longer@);
        text = longer;
        rest = rest / 10;
    }
    assert(Seq::<char>::empty() + text@ =~= text@);
    text
}

/// Writes `i` in decimal, with a minus sign where it is negative.
pub fn signed_decimal_string(i: i64) -> (text: String)
    ensures
        text@ == signed_digits_of(i as int),
{
    if i < 0 {
        let size: u64 = ((-(i + 1)) as u64) + 1;
        proof {
            reveal_strlit("-");
        }
        let text: String = "-".to_owned().concat(decimal_string(size).as_str());
        assert("-"@ =~= seq!['-']);
        text
    } else {
        decimal_string(i as u64)
    }
}

/// The header line of the table.
pub fn header_line() -> (line: String)
    ensures
        line@ == header_text(),
{
    "Club, MP, W, D, L, GF, GA, GD, Pts".to_owned()
}

/// The row of one club.
pub fn row_line(name: &str, stats: &ClubStats) -> (line: String)
    requires
        stats.wf(),
    ensures
        line@ == row_text(name@, stats@),
{
    proof {
        reveal_strlit(",");
    }
    assert(","@ =~= seq![',']);
    let mut line: String = name.to_owned();
    line.append(",");
    line.append(decimal_string(stats.games_played).as_str());
    line.append(",");
    line.append(decimal_string(stats.win).as_str());
    line.append(",");
    line.append(decimal_string(stats.draw).as_str());
    line.append(",");
    line.append(decimal_string(stats.loss).as_str());
    line.append(",");
    line.append(decimal_string(stats.goals_for).as_str());
    line.append(",");
    line.append(decimal_string(stats.goals_against).as_str());
    line.append(",");
    line.append(signed_decimal_string(stats.goal_differential).as_str());
    line.append(",");
    line.append(decimal_string(stats.points).as_str());
    line
}

/// The lines of the table: the header, then one row for each entry of
/// `ranked`, in the order given.
pub fn render_table(ranked: &Vec<(String, ClubStats)>) -> (lines: Vec<String>)
    requires
        forall|k: int| 0 <= k < ranked@.len() ==> (#[trigger] ranked@[k]).1.wf(),
    ensures
        lines_text(lines@) == table_text(entries_view(ranked@)),
{
    let mut lines: Vec<String> = Vec::new();
    lines.push(header_line());
    let mut k: usize = 0;
    while k < ranked.len()
        invariant
            k <= ranked@.len(),
            lines@.len() == k + 1,
            forall|k: int| 0 <= k < ranked@.len() ==> (#[trigger] ranked@[k]).1.wf(),
            lines@[0]@ == header_text(),
            forall|m: int|
                0 <= m < k ==> (#[trigger] lines@[m + 1])@ == row_text(
                    ranked@[m].0@,
                    ranked@[m].1@,
                ),
        decreases ranked@.len() - k,
    {
        lines.push(row_line(ranked[k].0.as_str(), &ranked[k].1));
        k += 1;
    }
    assert forall|i: int| 0 <= i < lines@.len() implies #[trigger] lines_text(lines@)[i]
        == table_text(entries_view(ranked@))[i] by {
        if i > 0 {
            assert(lines@[(i - 1) + 1]@ == row_text(ranked@[i - 1].0@, ranked@[i - 1].1@));
        }
    }
    assert(lines_text(lines@) =~= table_text(entries_view(ranked@)));
    lines
}

} // verus!
