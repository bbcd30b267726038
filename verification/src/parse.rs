//! The record parser: one line of comma-separated text to a match record.

use vstd::prelude::*;
use vstd::string::*;
use crate::record::{MatchFacts, MatchScore, RecordError};

verus! {

/// The place of the first comma of `line` at or behind `from`, or the length
/// of `line` if there is none.
pub open spec fn next_comma(line: Seq<char>, from: int) -> int
    decreases line.len() - from,
{
    if from < 0 || from >= line.len() {
        line.len() as int
    } else if line[from] == ',' {
        from
    } else {
        next_comma(line, from + 1)
    }
}

/// Where field `k` of `line` begins: the first at 0, each later one just
/// behind the comma that ends the field before it. A value beyond the length
/// of `line` says that there is no such field.
pub open spec fn field_start(line: Seq<char>, k: nat) -> int
    decreases k,
{
    if k == 0 {
        0
    } else {
        next_comma(line, field_start(line, (k - 1) as nat)) + 1
    }
}

/// `line` has a field `k`, counting from 0.
pub open spec fn has_field(line: Seq<char>, k: nat) -> bool {
    field_start(line, k) <= line.len()
}

/// Field `k` of `line`: from its start up to the next comma or the end.
pub open spec fn field(line: Seq<char>, k: nat) -> Seq<char> {
    line.subrange(field_start(line, k), next_comma(line, field_start(line, k)))
}

pub open spec fn is_digit(c: char) -> bool {
    '0' <= c <= '9'
}

/// The number that a sequence of decimal digits writes.
pub open spec fn decimal_value(digits: Seq<char>) -> nat
    decreases digits.len(),
{
    if digits.len() == 0 {
        0
    } else {
        10 * decimal_value(digits.drop_last()) + (digits.last() as u32 - '0' as u32) as nat
    }
}

/// A score field without its optional leading plus sign.
pub open spec fn unsigned_part(text: Seq<char>) -> Seq<char> {
    if text.len() > 0 && text[0] == '+' {
        text.drop_first()
    } else {
        text
    }
}

/// The score that a field writes: one or more decimal digits, an optional
/// plus sign before them, and a value that a `u64` holds. Anything else is no
/// score.
pub open spec fn score_of(text: Seq<char>) -> Option<nat> {
    let digits = unsigned_part(text);
    if digits.len() > 0 && (forall|i: int| 0 <= i < digits.len() ==> is_digit(#[trigger] digits[i]))
        && decimal_value(digits) <= u64::MAX {
        Some(decimal_value(digits))
    } else {
        None
    }
}

/// What a line says: the first four fields are the two clubs and their
/// scores; further fields are not looked at.
pub open spec fn line_record(line: Seq<char>) -> Result<MatchFacts, RecordError> {
    if !has_field(line, 3) {
        Err(RecordError::MalformedRecord)
    } else {
        match (score_of(field(line, 2)), score_of(field(line, 3))) {
            (Some(a), Some(b)) => Ok(
                MatchFacts { a_team: field(line, 0), b_team: field(line, 1), a_score: a, b_score: b },
            ),
            _ => Err(RecordError::InvalidScore),
        }
    }
}

/// The text of each line.
pub open spec fn lines_text(lines: Seq<String>) -> Seq<Seq<char>> {
    Seq::new(lines.len(), |i: int| lines[i]@)
}

/// The digits read so far never write more than all of them do.
proof fn lemma_decimal_prefix(digits: Seq<char>, upto: int)
    requires
        0 <= upto <= digits.len(),
    ensures
        decimal_value(digits.subrange(0, upto)) <= decimal_value(digits),
    decreases digits.len() - upto,
{
    if upto == digits.len() {
        assert(digits.subrange(0, upto) =~= digits);
    } else {
        lemma_decimal_prefix(digits.drop_last(), upto);
        assert(digits.drop_last().subrange(0, upto) =~= digits.subrange(0, upto));
    }
}

/// The characters of `line`, in order.
fn chars_of(line: &str) -> (chars: Vec<char>)
    ensures
        chars@ == line@,
{
    let mut chars: Vec<char> = Vec::new();
    for c in it: line.chars()
        invariant
            it.seq() == line@,
            chars@ == it.seq().subrange(0, it.index() as int),
    {
        chars.push(c);
        assert(chars@ =~= it.seq().subrange(0, it.index() + 1));
    }
    assert(chars@ =~= line@);
    chars
}

/// Finds the comma that ends the field beginning at `from`.
fn comma_from(line: &Vec<char>, from: usize) -> (end: usize)
    requires
        from <= line@.len(),
    ensures
        end == next_comma(line@, from as int),
        from <= end <= line@.len(),
{
    let mut i: usize = from;
    while i < line.len() && line[i] != ','
        invariant
            from <= i <= line@.len(),
            next_comma(line@, from as int) == next_comma(line@, i as int),
        decreases line@.len() - i,
    {
        i += 1;
    }
    i
}

/// Reads the score written between `from` and `to`.
fn score_between(line: &Vec<char>, from: usize, to: usize) -> (score: Option<u64>)
    requires
        from <= to <= line@.len(),
    ensures
        score is Some <==> score_of(line@.subrange(from as int, to as int)) is Some,
        score is Some ==> score->0 as nat == score_of(line@.subrange(from as int, to as int))->0,
{
    let ghost text = line@.subrange(from as int, to as int);
    let mut i: usize = from;
    if i < to && line[i] == '+' {
        i += 1;
    }
    let start: usize = i;
    let ghost digits = line@.subrange(start as int, to as int);
    assert(digits =~= unsigned_part(text));
    if start == to {
        return None;
    }
    let mut value: u64 = 0;
    assert(digits.subrange(0, 0) =~= Seq::<char>::empty());
    while i < to
        invariant
            from <= start <= i <= to,
            to <= line@.len(),
            digits == line@.subrange(start as int, to as int),
            digits == unsigned_part(line@.subrange(from as int, to as int)),
            forall|k: int| 0 <= k < i - start ==> is_digit(#[trigger] digits[k]),
            value as nat == decimal_value(digits.subrange(0, i - start)),
        decreases to - i,
    {
        let c: char = line[i];
        if c < '0' || c > '9' {
            assert(!is_digit(digits[i - start]));
            return None;
        }
        let d: u64 = (c as u32 - '0' as u32) as u64;
        proof {
            assert(digits.subrange(0, i + 1 - start).drop_last() =~= digits.subrange(
                0,
                i - start,
            ));
            assert(digits.subrange(0, i + 1 - start).last() == c);
            lemma_decimal_prefix(digits, i + 1 - start);
        }
        if value > (u64::MAX - d) / 10 {
            return None;
        }
        value = value * 10 + d;
        i += 1;
    }
    assert(digits.subrange(0, i - start) =~= digits);
    Some(value)
}

/// Parses one line of the form `team_a,team_b,score_a,score_b`, with or
/// without further fields behind the fourth.
pub fn parse_record(line: &str) -> (parsed: Result<MatchScore, RecordError>)
    ensures
        match parsed {
            Ok(m) => line_record(line@) == Ok::<MatchFacts, RecordError>(m@),
            Err(e) => line_record(line@) == Err::<MatchFacts, RecordError>(e),
        },
{
    reveal_with_fuel(field_start, 4);
    let chars: Vec<char> = chars_of(line);
    let len: usize = chars.len();
    let end0: usize = comma_from(&chars, 0);
    if end0 >= len {
        return Err(RecordError::MalformedRecord);
    }
    let end1: usize = comma_from(&chars, end0 + 1);
    if end1 >= len {
        return Err(RecordError::MalformedRecord);
    }
    let end2: usize = comma_from(&chars, end1 + 1);
    if end2 >= len {
        return Err(RecordError::MalformedRecord);
    }
    let end3: usize = comma_from(&chars, end2 + 1);
    let a_score: u64 = match score_between(&chars, end1 + 1, end2) {
        Some(score) => score,
        None => {
            return Err(RecordError::InvalidScore);
        },
    };
    let b_score: u64 = match score_between(&chars, end2 + 1, end3) {
        Some(score) => score,
        None => {
            return Err(RecordError::InvalidScore);
        },
    };
    let a_team: String = line.substring_char(0, end0).to_owned();
    let b_team: String = line.substring_char(end0 + 1, end1).to_owned();
    Ok(MatchScore { a_team, b_team, a_score, b_score })
}

/// Parses one line of input; see `parse_record`.
pub fn parse_score_ln(score_line: String) -> (parsed: Result<MatchScore, RecordError>)
    ensures
        match parsed {
            Ok(m) => line_record(score_line@) == Ok::<MatchFacts, RecordError>(m@),
            Err(e) => line_record(score_line@) == Err::<MatchFacts, RecordError>(e),
        },
{
    parse_record(score_line.as_str())
}

} // verus!
