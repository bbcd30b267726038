//! The standings: one entry of statistics per club, in order of first
//! appearance, and the folding of a match record into them.

use vstd::prelude::*;
use crate::club_stats::{ClubStats, Tally};
use crate::record::{MatchFacts, MatchScore, RecordError};

verus! {

/// Some entry of `table` carries `name`.
pub open spec fn has_club(table: Seq<(Seq<char>, Tally)>, name: Seq<char>) -> bool {
    exists|i: int| 0 <= i < table.len() && (#[trigger] table[i]).0 == name
}

/// The place of an entry of `table` that carries `name`, meaningful where
/// `has_club` holds; the only such place where the names are distinct.
pub open spec fn index_of(table: Seq<(Seq<char>, Tally)>, name: Seq<char>) -> int {
    choose|i: int| 0 <= i < table.len() && (#[trigger] table[i]).0 == name
}

/// No two entries of `table` carry the same name.
pub open spec fn distinct_names(table: Seq<(Seq<char>, Tally)>) -> bool {
    forall|i: int, j: int|
        0 <= i < j < table.len() ==> (#[trigger] table[i]).0 != (#[trigger] table[j]).0
}

/// The tally that `table` holds for `name`: all zero for a club without an entry.
pub open spec fn tally_of(table: Seq<(Seq<char>, Tally)>, name: Seq<char>) -> Tally {
    if has_club(table, name) {
        table[index_of(table, name)].1
    } else {
        Tally::zero()
    }
}

/// `table` after one result of the club `name`: its entry is updated in
/// place, or a new entry is added behind the others.
pub open spec fn credit(
    table: Seq<(Seq<char>, Tally)>,
    name: Seq<char>,
    goals_for: nat,
    goals_against: nat,
) -> Seq<(Seq<char>, Tally)> {
    let after = tally_of(table, name).record(goals_for, goals_against);
    if has_club(table, name) {
        table.update(index_of(table, name), (name, after))
    } else {
        table.push((name, after))
    }
}

/// `table` after one match: first the result of the first club, then that of
/// the second, each from its own side.
pub open spec fn record_match(table: Seq<(Seq<char>, Tally)>, m: MatchFacts) -> Seq<
    (Seq<char>, Tally),
> {
    credit(credit(table, m.a_team, m.a_score, m.b_score), m.b_team, m.b_score, m.a_score)
}

/// Both results of the match can be recorded with every figure in range.
pub open spec fn match_fits(table: Seq<(Seq<char>, Tally)>, m: MatchFacts) -> bool {
    &&& tally_of(table, m.a_team).record(m.a_score, m.b_score).fits()
    &&& tally_of(credit(table, m.a_team, m.a_score, m.b_score), m.b_team).record(
        m.b_score,
        m.a_score,
    ).fits()
}

/// Where the names are distinct, an entry's name is found at its own place.
pub proof fn lemma_index_of_entry(table: Seq<(Seq<char>, Tally)>, i: int)
    requires
        distinct_names(table),
        0 <= i < table.len(),
    ensures
        has_club(table, table[i].0),
        index_of(table, table[i].0) == i,
{
    let j = index_of(table, table[i].0);
    assert(0 <= j < table.len() && table[j].0 == table[i].0);
}

/// Crediting a club keeps the names distinct, changes that club's tally as
/// `record` says and leaves every other club's tally alone.
pub proof fn lemma_credit(
    table: Seq<(Seq<char>, Tally)>,
    name: Seq<char>,
    goals_for: nat,
    goals_against: nat,
)
    requires
        distinct_names(table),
    ensures
        distinct_names(credit(table, name, goals_for, goals_against)),
        has_club(credit(table, name, goals_for, goals_against), name),
        forall|other: Seq<char>|
            has_club(credit(table, name, goals_for, goals_against), other) <==> (other == name
                || has_club(table, other)),
        tally_of(credit(table, name, goals_for, goals_against), name) == tally_of(
            table,
            name,
        ).record(goals_for, goals_against),
        forall|other: Seq<char>|
            other != name ==> tally_of(credit(table, name, goals_for, goals_against), other)
                == tally_of(table, other),
{
    let after = credit(table, name, goals_for, goals_against);
    let place = if has_club(table, name) {
        index_of(table, name)
    } else {
        table.len() as int
    };
    assert(0 <= place < after.len() && after[place].0 == name);
    assert(forall|i: int| 0 <= i < table.len() ==> (#[trigger] after[i]).0 == table[i].0);
    assert(distinct_names(after));
    lemma_index_of_entry(after, place);
    assert forall|other: Seq<char>| has_club(after, other) <==> (other == name || has_club(
        table,
        other,
    )) by {
        if has_club(after, other) && other != name {
            let i = index_of(after, other);
            assert(table[i].0 == other);
        }
        if has_club(table, other) {
            let i = index_of(table, other);
            assert(after[i].0 == other);
        }
    }
    assert forall|other: Seq<char>| other != name implies tally_of(after, other) == tally_of(
        table,
        other,
    ) by {
        if has_club(table, other) {
            let i = index_of(table, other);
            assert(after[i].0 == other);
            lemma_index_of_entry(after, i);
        }
    }
}

/// The clubs of `table`, as a set of names.
pub open spec fn club_set(table: Seq<(Seq<char>, Tally)>) -> Set<Seq<char>> {
    Set::new(|name: Seq<char>| has_club(table, name))
}

/// Where the names are distinct, there are as many clubs as entries.
pub proof fn lemma_club_count(table: Seq<(Seq<char>, Tally)>)
    requires
        distinct_names(table),
    ensures
        club_set(table).finite(),
        club_set(table).len() == table.len(),
{
    let names = table.map_values(|e: (Seq<char>, Tally)| e.0);
    assert forall|i: int, j: int| 0 <= i < names.len() && 0 <= j < names.len() && i != j implies names[i]
        != names[j] by {
        if i < j {
            assert(table[i].0 != table[j].0);
        } else {
            assert(table[j].0 != table[i].0);
        }
    }
    names.unique_seq_to_set();
    assert forall|name: Seq<char>| names.to_set().contains(name) <==> club_set(table).contains(
        name,
    ) by {
        if names.to_set().contains(name) {
            let i = choose|i: int| 0 <= i < names.len() && names[i] == name;
            assert(table[i].0 == name);
        }
        if has_club(table, name) {
            let i = index_of(table, name);
            assert(names[i] == name);
        }
    }
    assert(names.to_set() =~= club_set(table));
}

/// The standings of a league: for each club that has appeared in a match, its
/// statistics. Entries stand in the order in which the clubs first appeared.
pub struct Standings {
    entries: Vec<(String, ClubStats)>,
}

impl View for Standings {
    type V = Seq<(Seq<char>, Tally)>;

    closed spec fn view(&self) -> Seq<(Seq<char>, Tally)> {
        entries_view(self.entries@)
    }
}

/// A sequence of named statistics as names and tallies.
pub open spec fn entries_view(entries: Seq<(String, ClubStats)>) -> Seq<(Seq<char>, Tally)> {
    Seq::new(entries.len(), |i: int| (entries[i].0@, entries[i].1@))
}

impl Standings {
    /// Each club has one entry, and each entry's derived figures agree with
    /// its counters.
    pub closed spec fn wf(&self) -> bool {
        &&& distinct_names(self@)
        &&& forall|i: int| 0 <= i < self.entries@.len() ==> (#[trigger] self.entries@[i]).1.wf()
    }

    /// The statistics in the entry at place `i`, as the fields hold them.
    pub closed spec fn stats_at(&self, i: int) -> ClubStats {
        self.entries@[i].1
    }

    /// What well-formedness says of the entries: no club twice, and in every
    /// entry the games played are wins, draws and losses together, the points
    /// three per win and one per draw, the differential goals scored less
    /// goals conceded.
    pub proof fn lemma_entries_consistent(&self)
        requires
            self.wf(),
        ensures
            distinct_names(self@),
            forall|i: int|
                0 <= i < self@.len() ==> {
                    let s = #[trigger] self.stats_at(i);
                    &&& s@ == self@[i].1
                    &&& s.games_played == s.win + s.draw + s.loss
                    &&& s.points == 3 * s.win + s.draw
                    &&& s.goal_differential == s.goals_for - s.goals_against
                },
    {
        assert forall|i: int| 0 <= i < self@.len() implies {
            let s = #[trigger] self.stats_at(i);
            &&& s@ == self@[i].1
            &&& s.wf()
        } by {
            assert(self.entries@[i].1.wf());
        }
    }

    /// Standings without any club.
    pub fn new() -> (standings: Standings)
        ensures
            standings.wf(),
            standings@ == Seq::<(Seq<char>, Tally)>::empty(),
    {
        let standings = Standings { entries: Vec::new() };
        assert(standings@ =~= Seq::<(Seq<char>, Tally)>::empty());
        standings
    }

    /// Gives up the entries, in order of first appearance.
    pub fn into_entries(self) -> (entries: Vec<(String, ClubStats)>)
        requires
            self.wf(),
        ensures
            entries_view(entries@) == self@,
            forall|i: int| 0 <= i < entries@.len() ==> (#[trigger] entries@[i]).1.wf(),
    {
        self.entries
    }

    /// The number of clubs.
    pub fn len(&self) -> (n: usize)
        ensures
            n == self@.len(),
    {
        self.entries.len()
    }

    /// The place of the entry of `name`, if it has one.
    fn find(&self, name: &String) -> (place: Option<usize>)
        requires
            self.wf(),
        ensures
            place is Some <==> has_club(self@, name@),
            place is Some ==> place->0 == index_of(self@, name@) && place->0 < self@.len(),
    {
        let mut i: usize = 0;
        while i < self.entries.len()
            invariant
                i <= self.entries@.len(),
                self.wf(),
                forall|k: int| 0 <= k < i ==> (#[trigger] self@[k]).0 != name@,
            decreases self.entries@.len() - i,
        {
            if self.entries[i].0 == *name {
                proof {
                    assert(self@[i as int].0 == name@);
                    lemma_index_of_entry(self@, i as int);
                }
                return Some(i);
            }
            i += 1;
        }
        None
    }

    /// The statistics of the club `name`: all zero if it has no entry yet.
    pub fn stats_for(&self, name: &String) -> (stats: ClubStats)
        requires
            self.wf(),
        ensures
            stats@ == tally_of(self@, name@),
            stats.wf(),
    {
        match self.find(name) {
            Some(i) => {
                assert(self.entries@[i as int].1.wf());
                self.entries[i].1
            },
            None => ClubStats::new(),
        }
    }

    /// The statistics of the club `name`, if it has appeared in a match.
    pub fn get(&self, name: &String) -> (stats: Option<ClubStats>)
        requires
            self.wf(),
        ensures
            stats is Some <==> has_club(self@, name@),
            stats is Some ==> stats->0@ == tally_of(self@, name@) && stats->0.wf(),
    {
        match self.find(name) {
            Some(i) => {
                assert(self.entries@[i as int].1.wf());
                Some(self.entries[i].1)
            },
            None => None,
        }
    }

    /// Records one result of the club `name`, creating its entry if need be.
    fn credit(&mut self, name: String, goals_for: u64, goals_against: u64)
        requires
            old(self).wf(),
            tally_of(old(self)@, name@).record(goals_for as nat, goals_against as nat).fits(),
        ensures
            final(self).wf(),
            final(self)@ == credit(old(self)@, name@, goals_for as nat, goals_against as nat),
    {
        proof {
            lemma_credit(self@, name@, goals_for as nat, goals_against as nat);
        }
        let mut stats = self.stats_for(&name);
        let place = self.find(&name);
        stats.add_match_result(goals_for, goals_against);
        match place {
            Some(i) => {
                self.entries.set(i, (name, stats));
            },
            None => {
                self.entries.push((name, stats));
            },
        }
        assert(self@ =~= credit(old(self)@, name@, goals_for as nat, goals_against as nat));
    }
}

/// Folds one match into the standings: the first club's entry gets the result
/// from its side, then the second club's entry gets it from the other side;
/// a club without an entry gets one, starting from zero. Where either result
/// would take a figure out of range, nothing is recorded for either club.
pub fn add_match_to_standings(standings: &mut Standings, match_score: MatchScore) -> (done: Result<
    (),
    RecordError,
>)
    requires
        old(standings).wf(),
    ensures
        final(standings).wf(),
        done is Ok <==> match_fits(old(standings)@, match_score@),
        done is Ok ==> final(standings)@ == record_match(old(standings)@, match_score@),
        done is Err ==> final(standings)@ == old(standings)@ && done == Err::<(), RecordError>(
            RecordError::CounterOverflow,
        ),
{
    let MatchScore { a_team, b_team, a_score, b_score } = match_score;
    proof {
        lemma_credit(standings@, a_team@, a_score as nat, b_score as nat);
    }
    let mut first = standings.stats_for(&a_team);
    if !first.can_record(a_score, b_score) {
        return Err(RecordError::CounterOverflow);
    }
    first.add_match_result(a_score, b_score);
    let second = if a_team == b_team {
        first
    } else {
        standings.stats_for(&b_team)
    };
    if !second.can_record(b_score, a_score) {
        return Err(RecordError::CounterOverflow);
    }
    standings.credit(a_team, a_score, b_score);
    standings.credit(b_team, b_score, a_score);
    Ok(())
}

} // verus!
