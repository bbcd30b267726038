//! Match records and the reasons for which a line of input is refused.

use vstd::prelude::*;

verus! {

/// The mathematical content of a match record.
pub struct MatchFacts {
    pub a_team: Seq<char>,
    pub b_team: Seq<char>,
    pub a_score: nat,
    pub b_score: nat,
}

/// One reported result between two clubs.
#[derive(Debug)]
pub struct MatchScore {
    pub a_team: String,
    pub b_team: String,
    pub a_score: u64,
    pub b_score: u64,
}

impl View for MatchScore {
    type V = MatchFacts;

    open spec fn view(&self) -> MatchFacts {
        MatchFacts {
            a_team: self.a_team@,
            b_team: self.b_team@,
            a_score: self.a_score as nat,
            b_score: self.b_score as nat,
        }
    }
}

/// Why a line of input could not be folded into the standings.
#[derive(Debug, Copy, Clone, PartialEq, Eq, Structural)]
pub enum RecordError {
    /// The line has fewer than four comma-separated fields.
    MalformedRecord,
    /// One of the two score fields is not a non-negative integer in range.
    InvalidScore,
    /// Recording the match would take a counter of one of the two clubs out
    /// of its range.
    CounterOverflow,
}

} // verus!
