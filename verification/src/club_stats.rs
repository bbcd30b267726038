//! Per-club statistics and the rule by which one match result changes them.

use vstd::prelude::*;

verus! {

/// The mathematical content of a club's statistics: the five independent
/// counters, as unbounded naturals. Everything else is derived from them.
pub struct Tally {
    pub win: nat,
    pub draw: nat,
    pub loss: nat,
    pub goals_for: nat,
    pub goals_against: nat,
}

impl Tally {
    /// The tally of a club that has not played.
    pub open spec fn zero() -> Tally {
        Tally { win: 0, draw: 0, loss: 0, goals_for: 0, goals_against: 0 }
    }

    pub open spec fn games_played(self) -> nat {
        self.win + self.draw + self.loss
    }

    /// Three points for a win, one for a draw.
    pub open spec fn points(self) -> nat {
        3 * self.win + self.draw
    }

    pub open spec fn goal_differential(self) -> int {
        self.goals_for - self.goals_against
    }

    /// The tally after one more match in which the club scored `goals_for`
    /// and conceded `goals_against`.
    pub open spec fn record(self, goals_for: nat, goals_against: nat) -> Tally {
        Tally {
            win: if goals_for > goals_against { self.win + 1 } else { self.win },
            draw: if goals_for == goals_against { self.draw + 1 } else { self.draw },
            loss: if goals_for < goals_against { self.loss + 1 } else { self.loss },
            goals_for: self.goals_for + goals_for,
            goals_against: self.goals_against + goals_against,
        }
    }

    /// Every counter and every derived figure can be held in the fields of a
    /// `ClubStats`.
    pub open spec fn fits(self) -> bool {
        &&& self.games_played() <= u64::MAX
        &&& self.points() <= u64::MAX
        &&& self.goals_for <= u64::MAX
        &&& self.goals_against <= u64::MAX
        &&& i64::MIN <= self.goal_differential() <= i64::MAX
    }
}

/// `a` ranks strictly above `b`: more points; on equal points a greater
/// goal differential; on equal differential more goals scored.
pub open spec fn outranks(a: Tally, b: Tally) -> bool {
    ||| a.points() > b.points()
    ||| (a.points() == b.points() && a.goal_differential() > b.goal_differential())
    ||| (a.points() == b.points() && a.goal_differential() == b.goal_differential()
        && a.goals_for > b.goals_for)
}

/// Neither tally ranks above the other: the three ranking keys are equal.
pub open spec fn level(a: Tally, b: Tally) -> bool {
    &&& a.points() == b.points()
    &&& a.goal_differential() == b.goal_differential()
    &&& a.goals_for == b.goals_for
}

/// The cumulative statistics of one club.
#[derive(Debug, Copy, Clone)]
pub struct ClubStats {
    pub games_played: u64,
    pub win: u64,
    pub draw: u64,
    pub loss: u64,
    pub goals_for: u64,
    pub goals_against: u64,
    pub goal_differential: i64,
    pub points: u64,
}

impl View for ClubStats {
    type V = Tally;

    open spec fn view(&self) -> Tally {
        Tally {
            win: self.win as nat,
            draw: self.draw as nat,
            loss: self.loss as nat,
            goals_for: self.goals_for as nat,
            goals_against: self.goals_against as nat,
        }
    }
}

impl ClubStats {
    /// The derived fields agree with the counters they are derived from.
    pub open spec fn wf(&self) -> bool {
        &&& self.games_played == self.win + self.draw + self.loss
        &&& self.points == 3 * self.win + self.draw
        &&& self.goal_differential == self.goals_for - self.goals_against
    }

    /// The statistics of a club that has not played: every field zero.
    pub fn new() -> (stats: ClubStats)
        ensures
            stats@ == Tally::zero(),
            stats.wf(),
    {
        ClubStats {
            games_played: 0,
            win: 0,
            draw: 0,
            loss: 0,
            goals_for: 0,
            goals_against: 0,
            goal_differential: 0,
            points: 0,
        }
    }

    /// Whether one more match with these goals can be recorded without any
    /// field leaving its range.
    pub fn can_record(&self, goals_for: u64, goals_against: u64) -> (ok: bool)
        ensures
            ok == self@.record(goals_for as nat, goals_against as nat).fits(),
    {
        let one: u128 = 1;
        let zero: u128 = 0;
        let win: u128 = self.win as u128 + (if goals_for > goals_against { one } else { zero });
        let draw: u128 = self.draw as u128 + (if goals_for == goals_against { one } else { zero });
        let loss: u128 = self.loss as u128 + (if goals_for < goals_against { one } else { zero });
        let scored: u128 = self.goals_for as u128 + goals_for as u128;
        let conceded: u128 = self.goals_against as u128 + goals_against as u128;
        let top: u128 = u64::MAX as u128;
        let most_ahead: u128 = i64::MAX as u128;
        win + draw + loss <= top && 3 * win + draw <= top && scored <= top && conceded <= top
            && scored <= conceded + most_ahead && conceded <= scored + most_ahead + 1
    }

    /// Records one match in which the club scored `goals_for` and conceded
    /// `goals_against`: exactly one of win, draw and loss goes up by one, the
    /// goals are added to the totals, and the derived fields are recomputed.
    pub fn add_match_result(&mut self, goals_for: u64, goals_against: u64)
        requires
            old(self)@.record(goals_for as nat, goals_against as nat).fits(),
        ensures
            final(self)@ == old(self)@.record(goals_for as nat, goals_against as nat),
            final(self).wf(),
    {
        if goals_for > goals_against {
            self.win += 1;
        } else if goals_for == goals_against {
            self.draw += 1;
        } else {
            self.loss += 1;
        }
        self.goals_for += goals_for;
        self.goals_against += goals_against;
        self.update_stats();
    }

    /// Recomputes games played, goal differential and points from the
    /// counters, which stay as they are.
    pub fn update_stats(&mut self)
        requires
            old(self)@.fits(),
        ensures
            final(self)@ == old(self)@,
            final(self).wf(),
    {
        self.games_played = self.win + self.draw + self.loss;
        self.points = 3 * self.win + self.draw;
        if self.goals_for >= self.goals_against {
            let ahead: u64 = self.goals_for - self.goals_against;
            self.goal_differential = ahead as i64;
        } else {
            let behind: u64 = self.goals_against - self.goals_for;
            if behind > i64::MAX as u64 {
                self.goal_differential = i64::MIN;
            } else {
                self.goal_differential = -(behind as i64);
            }
        }
    }

    /// Whether `self` ranks strictly above `other`, by points, then goal
    /// differential, then goals scored.
    pub fn ranks_above(&self, other: &ClubStats) -> (above: bool)
        requires
            self.wf(),
            other.wf(),
        ensures
            above == outranks(self@, other@),
    {
        if self.points != other.points {
            self.points > other.points
        } else if self.goal_differential != other.goal_differential {
            self.goal_differential > other.goal_differential
        } else {
            self.goals_for > other.goals_for
        }
    }
}

} // verus!
