//! Ranking: the clubs in the order of the league table.

use vstd::prelude::*;
use crate::club_stats::{level, outranks, ClubStats, Tally};
use crate::standings::{distinct_names, entries_view, has_club, index_of, lemma_index_of_entry, Standings};

verus! {

/// The entry `x` stands above the entry `y` in the ranking of `table`: its
/// tally ranks above, or the two are level and `x` came first in `table`.
pub open spec fn ranks_before(
    table: Seq<(Seq<char>, Tally)>,
    x: (Seq<char>, Tally),
    y: (Seq<char>, Tally),
) -> bool {
    ||| outranks(x.1, y.1)
    ||| (level(x.1, y.1) && index_of(table, x.0) < index_of(table, y.0))
}

/// `ranked` holds the entries of `table`, every one of them and nothing else,
/// each above all that it ranks before.
pub open spec fn is_ranking(table: Seq<(Seq<char>, Tally)>, ranked: Seq<(Seq<char>, Tally)>) -> bool {
    &&& ranked.len() == table.len()
    &&& forall|i: int| 0 <= i < table.len() ==> ranked.contains(#[trigger] table[i])
    &&& forall|k: int| 0 <= k < ranked.len() ==> table.contains(#[trigger] ranked[k])
    &&& forall|a: int, b: int|
        0 <= a < b < ranked.len() ==> ranks_before(table, #[trigger] ranked[a], #[trigger] ranked[b])
}

/// In a ranking, a row whose tally ranks above that of another stands above
/// it: so more points stand above fewer; on equal points the greater goal
/// differential stands above; on equal points and differential the club with
/// more goals scored. Of two rows level on all three, the club that came
/// first in `table` stands above.
pub proof fn lemma_ranking_order(
    table: Seq<(Seq<char>, Tally)>,
    ranked: Seq<(Seq<char>, Tally)>,
    a: int,
    b: int,
)
    requires
        is_ranking(table, ranked),
        0 <= a < ranked.len(),
        0 <= b < ranked.len(),
    ensures
        outranks(ranked[a].1, ranked[b].1) ==> a < b,
        level(ranked[a].1, ranked[b].1) && index_of(table, ranked[a].0) < index_of(
            table,
            ranked[b].0,
        ) ==> a < b,
        a < b ==> ranked[a].1.points() >= ranked[b].1.points(),
        a < b && ranked[a].1.points() == ranked[b].1.points() ==> ranked[a].1.goal_differential()
            >= ranked[b].1.goal_differential(),
        a < b && ranked[a].1.points() == ranked[b].1.points() && ranked[a].1.goal_differential()
            == ranked[b].1.goal_differential() ==> ranked[a].1.goals_for
            >= ranked[b].1.goals_for,
{
    if a < b {
        assert(ranks_before(table, ranked[a], ranked[b]));
    }
    if b < a {
        assert(ranks_before(table, ranked[b], ranked[a]));
    }
}

/// A ranking of standings with one entry per club has one row per club: no
/// name stands in two rows, and the names of the rows are those of the
/// standings.
pub proof fn lemma_ranking_clubs(table: Seq<(Seq<char>, Tally)>, ranked: Seq<(Seq<char>, Tally)>)
    requires
        distinct_names(table),
        is_ranking(table, ranked),
    ensures
        distinct_names(ranked),
        forall|name: Seq<char>| has_club(ranked, name) <==> has_club(table, name),
        forall|name: Seq<char>|
            has_club(table, name) ==> ranked[index_of(ranked, name)] == table[index_of(
                table,
                name,
            )],
{
    assert forall|k: int| 0 <= k < ranked.len() implies has_club(table, (#[trigger] ranked[k]).0)
        && table[index_of(table, ranked[k].0)] == ranked[k] by {
        assert(table.contains(ranked[k]));
        let i = choose|i: int| 0 <= i < table.len() && table[i] == ranked[k];
        lemma_index_of_entry(table, i);
    }
    assert forall|a: int, b: int| 0 <= a < b < ranked.len() implies (#[trigger] ranked[a]).0 != (
    #[trigger] ranked[b]).0 by {
        assert(ranks_before(table, ranked[a], ranked[b]));
    }
    assert forall|name: Seq<char>| has_club(table, name) implies has_club(ranked, name)
        && ranked[index_of(ranked, name)] == table[index_of(table, name)] by {
        let i = index_of(table, name);
        assert(ranked.contains(table[i]));
        let k = choose|k: int| 0 <= k < ranked.len() && ranked[k] == table[i];
        assert(ranked[k].0 == name);
        lemma_index_of_entry(ranked, k);
    }
    assert forall|name: Seq<char>| has_club(ranked, name) implies has_club(table, name) by {
        let k = index_of(ranked, name);
        assert(has_club(table, ranked[k].0));
    }
}

/// Two rankings of the same standings agree in their first `upto` rows.
proof fn lemma_ranking_agree(
    table: Seq<(Seq<char>, Tally)>,
    first: Seq<(Seq<char>, Tally)>,
    second: Seq<(Seq<char>, Tally)>,
    upto: nat,
)
    requires
        distinct_names(table),
        is_ranking(table, first),
        is_ranking(table, second),
        upto <= table.len(),
    ensures
        forall|j: int| 0 <= j < upto ==> first[j] == second[j],
    decreases upto,
{
    if upto > 0 {
        let k = upto - 1;
        lemma_ranking_agree(table, first, second, k as nat);
        lemma_ranking_clubs(table, first);
        lemma_ranking_clubs(table, second);
        let x = first[k];
        let y = second[k];
        if x != y {
            assert(table.contains(x));
            let i = choose|i: int| 0 <= i < table.len() && table[i] == x;
            assert(second.contains(table[i]));
            let p = choose|p: int| 0 <= p < second.len() && second[p] == x;
            assert(p > k) by {
                if p < k {
                    assert(first[p].0 == first[k].0);
                }
            }
            assert(ranks_before(table, second[k], second[p]));
            assert(table.contains(y));
            let j = choose|j: int| 0 <= j < table.len() && table[j] == y;
            assert(first.contains(table[j]));
            let q = choose|q: int| 0 <= q < first.len() && first[q] == y;
            assert(q > k) by {
                if q < k {
                    assert(second[q].0 == second[k].0);
                }
            }
            assert(ranks_before(table, first[k], first[q]));
        }
    }
}

/// Standings with one entry per club have no more than one ranking: the
/// order of the rows is fixed by the standings alone.
pub proof fn lemma_ranking_unique(
    table: Seq<(Seq<char>, Tally)>,
    first: Seq<(Seq<char>, Tally)>,
    second: Seq<(Seq<char>, Tally)>,
)
    requires
        distinct_names(table),
        is_ranking(table, first),
        is_ranking(table, second),
    ensures
        first == second,
{
    lemma_ranking_agree(table, first, second, table.len());
    assert(first =~= second);
}

/// The ranking of `table`: the one there is where each club has one entry.
pub open spec fn ranking_of(table: Seq<(Seq<char>, Tally)>) -> Seq<(Seq<char>, Tally)> {
    choose|ranked: Seq<(Seq<char>, Tally)>| is_ranking(table, ranked)
}

/// The first row of `ranked`, from `from` on, that the tally `t` ranks above;
/// the number of rows if there is none.
spec fn place_above(ranked: Seq<(Seq<char>, Tally)>, t: Tally, from: int) -> int
    decreases ranked.len() - from,
{
    if from < 0 || from >= ranked.len() {
        ranked.len() as int
    } else if outranks(t, ranked[from].1) {
        from
    } else {
        place_above(ranked, t, from + 1)
    }
}

proof fn lemma_place_above(ranked: Seq<(Seq<char>, Tally)>, t: Tally, from: int)
    requires
        0 <= from <= ranked.len(),
    ensures
        from <= place_above(ranked, t, from) <= ranked.len(),
        forall|k: int|
            from <= k < place_above(ranked, t, from) ==> !outranks(t, (#[trigger] ranked[k]).1),
        place_above(ranked, t, from) < ranked.len() ==> outranks(
            t,
            ranked[place_above(ranked, t, from)].1,
        ),
    decreases ranked.len() - from,
{
    if from < ranked.len() && !outranks(t, ranked[from].1) {
        lemma_place_above(ranked, t, from + 1);
    }
}

/// A ranking stays in order when the entry that came last is put in at the
/// first row that it ranks above.
proof fn lemma_insert_keeps_order(
    table: Seq<(Seq<char>, Tally)>,
    head: Seq<(Seq<char>, Tally)>,
    rest: Seq<(Seq<char>, Tally)>,
    e: (Seq<char>, Tally),
    p: int,
)
    requires
        forall|a: int, b: int|
            0 <= a < b < rest.len() ==> ranks_before(head, #[trigger] rest[a], #[trigger] rest[b]),
        forall|k: int|
            0 <= k < rest.len() ==> index_of(table, (#[trigger] rest[k]).0) == index_of(
                head,
                rest[k].0,
            ) && index_of(table, rest[k].0) < index_of(table, e.0),
        0 <= p <= rest.len(),
        forall|k: int| 0 <= k < p ==> !outranks(e.1, (#[trigger] rest[k]).1),
        p < rest.len() ==> outranks(e.1, rest[p].1),
    ensures
        forall|a: int, b: int|
            0 <= a < b < rest.len() + 1 ==> ranks_before(
                table,
                #[trigger] rest.insert(p, e)[a],
                #[trigger] rest.insert(p, e)[b],
            ),
{
    let ranked = rest.insert(p, e);
    assert forall|a: int, b: int| 0 <= a < b < rest.len() + 1 implies ranks_before(
        table,
        #[trigger] ranked[a],
        #[trigger] ranked[b],
    ) by {
        if b < p {
            assert(ranked[a] == rest[a] && ranked[b] == rest[b]);
            assert(ranks_before(head, rest[a], rest[b]));
        } else if b == p {
            assert(ranked[a] == rest[a] && ranked[b] == e);
            assert(!outranks(e.1, rest[a].1));
        } else if a < p {
            assert(ranked[a] == rest[a] && ranked[b] == rest[b - 1]);
            assert(ranks_before(head, rest[a], rest[b - 1]));
        } else if a == p {
            assert(ranked[a] == e && ranked[b] == rest[b - 1]);
            assert(outranks(e.1, rest[p].1));
            if p < b - 1 {
                assert(ranks_before(head, rest[p], rest[b - 1]));
            }
        } else {
            assert(ranked[a] == rest[a - 1] && ranked[b] == rest[b - 1]);
            assert(ranks_before(head, rest[a - 1], rest[b - 1]));
        }
    }
}

/// A ranking of all entries but the last becomes a ranking of all when the
/// last is put in at the first row that it ranks above.
proof fn lemma_extend_ranking(table: Seq<(Seq<char>, Tally)>, rest: Seq<(Seq<char>, Tally)>)
    requires
        distinct_names(table),
        table.len() > 0,
        is_ranking(table.drop_last(), rest),
    ensures
        is_ranking(table, rest.insert(place_above(rest, table.last().1, 0), table.last())),
{
    let last = table.len() - 1;
    let head = table.drop_last();
    let e = table[last];
    lemma_place_above(rest, e.1, 0);
    let p = place_above(rest, e.1, 0);
    let ranked = rest.insert(p, e);
    lemma_index_of_entry(table, last);
    assert forall|k: int| 0 <= k < rest.len() implies index_of(table, (#[trigger] rest[k]).0)
        == index_of(head, rest[k].0) && index_of(table, rest[k].0) < index_of(table, e.0)
        && table.contains(rest[k]) by {
        assert(head.contains(rest[k]));
        let i = choose|i: int| 0 <= i < head.len() && head[i] == rest[k];
        assert(table[i] == head[i]);
        lemma_index_of_entry(head, i);
        lemma_index_of_entry(table, i);
    }
    assert forall|i: int| 0 <= i < table.len() implies ranked.contains(#[trigger] table[i]) by {
        if i == last {
            assert(ranked[p] == e);
        } else {
            assert(head[i] == table[i]);
            assert(rest.contains(head[i]));
            let w = choose|w: int| 0 <= w < rest.len() && rest[w] == head[i];
            if w < p {
                assert(ranked[w] == table[i]);
            } else {
                assert(ranked[w + 1] == table[i]);
            }
        }
    }
    assert forall|k: int| 0 <= k < ranked.len() implies table.contains(#[trigger] ranked[k]) by {
        if k < p {
            assert(ranked[k] == rest[k]);
        } else if k > p {
            assert(ranked[k] == rest[k - 1]);
        } else {
            assert(ranked[k] == table[last]);
        }
    }
    lemma_insert_keeps_order(table, head, rest, e, p);
}

/// Standings with one entry per club have a ranking.
pub proof fn lemma_ranking_exists(table: Seq<(Seq<char>, Tally)>)
    requires
        distinct_names(table),
    ensures
        is_ranking(table, ranking_of(table)),
    decreases table.len(),
{
    if table.len() == 0 {
        assert(is_ranking(table, Seq::<(Seq<char>, Tally)>::empty()));
    } else {
        let head = table.drop_last();
        assert(distinct_names(head)) by {
            assert forall|i: int, j: int| 0 <= i < j < head.len() implies (#[trigger] head[i]).0 != (
            #[trigger] head[j]).0 by {
                assert(table[i].0 != table[j].0);
            }
        }
        lemma_ranking_exists(head);
        let rest = ranking_of(head);
        lemma_extend_ranking(table, rest);
        assert(is_ranking(table, rest.insert(place_above(rest, table.last().1, 0), table.last())));
    }
}

/// Among the entries, the one at place `x` goes before the one at place `y`.
spec fn goes_before(entries: Seq<(String, ClubStats)>, x: usize, y: usize) -> bool {
    ||| outranks(entries[x as int].1@, entries[y as int].1@)
    ||| (level(entries[x as int].1@, entries[y as int].1@) && x < y)
}

/// The places `0..entries.len()`, each once, so that an earlier place of the
/// result goes before every later one.
fn ranking_order(entries: &Vec<(String, ClubStats)>) -> (order: Vec<usize>)
    requires
        forall|i: int| 0 <= i < entries@.len() ==> (#[trigger] entries@[i]).1.wf(),
    ensures
        order@.len() == entries@.len(),
        forall|k: int| 0 <= k < order@.len() ==> (#[trigger] order@[k]) < entries@.len(),
        forall|j: usize| j < entries@.len() ==> order@.contains(j),
        forall|a: int, b: int|
            0 <= a < b < order@.len() ==> goes_before(
                entries@,
                #[trigger] order@[a],
                #[trigger] order@[b],
            ),
{
    let n: usize = entries.len();
    let mut order: Vec<usize> = Vec::new();
    let mut i: usize = 0;
    while i < n
        invariant
            n == entries@.len(),
            i <= n,
            order@.len() == i,
            forall|i: int| 0 <= i < entries@.len() ==> (#[trigger] entries@[i]).1.wf(),
            forall|k: int| 0 <= k < order@.len() ==> (#[trigger] order@[k]) < i,
            forall|j: usize| j < i ==> order@.contains(j),
            forall|a: int, b: int|
                0 <= a < b < order@.len() ==> goes_before(
                    entries@,
                    #[trigger] order@[a],
                    #[trigger] order@[b],
                ),
        decreases n - i,
    {
        let mut p: usize = order.len();
        while p > 0 && entries[i].1.ranks_above(&entries[order[p - 1]].1)
            invariant
                n == entries@.len(),
                i < n,
                p <= order@.len(),
                forall|i: int| 0 <= i < entries@.len() ==> (#[trigger] entries@[i]).1.wf(),
                forall|k: int| 0 <= k < order@.len() ==> (#[trigger] order@[k]) < i,
                forall|k: int|
                    p <= k < order@.len() ==> outranks(
                        entries@[i as int].1@,
                        entries@[(#[trigger] order@[k]) as int].1@,
                    ),
            decreases p,
        {
            p -= 1;
        }
        let ghost before = order@;
        order.insert(p, i);
        proof {
            assert forall|j: usize| j < i + 1 implies order@.contains(j) by {
                if j < i {
                    assert(before.contains(j));
                    let w = choose|w: int| 0 <= w < before.len() && before[w] == j;
                    if w < p {
                        assert(order@[w] == j);
                    } else {
                        assert(order@[w + 1] == j);
                    }
                } else {
                    assert(order@[p as int] == j);
                }
            }
            assert forall|a: int, b: int| 0 <= a < b < order@.len() implies goes_before(
                entries@,
                #[trigger] order@[a],
                #[trigger] order@[b],
            ) by {
                if b < p {
                    assert(order@[a] == before[a] && order@[b] == before[b]);
                } else if b == p {
                    assert(order@[a] == before[a]);
                    if a < p - 1 {
                        assert(goes_before(entries@, before[a], before[p - 1]));
                    }
                    assert(before[p - 1] < i);
                } else if a < p {
                    assert(order@[a] == before[a] && order@[b] == before[b - 1]);
                } else if a == p {
                    assert(order@[b] == before[b - 1]);
                } else {
                    assert(order@[a] == before[a - 1] && order@[b] == before[b - 1]);
                }
            }
        }
        i += 1;
    }
    order
}

/// The league table: every club of the standings once, ordered by points,
/// then by goal differential, then by goals scored, each from the greatest
/// down. Clubs level on all three stand in the order in which they first
/// appeared in a match.
pub fn rank_clubs(standings: Standings) -> (ranked: Vec<(String, ClubStats)>)
    requires
        standings.wf(),
    ensures
        is_ranking(standings@, entries_view(ranked@)),
        entries_view(ranked@) == ranking_of(standings@),
        forall|k: int| 0 <= k < ranked@.len() ==> (#[trigger] ranked@[k]).1.wf(),
{
    let ghost table = standings@;
    proof {
        standings.lemma_entries_consistent();
    }
    let entries = standings.into_entries();
    let order = ranking_order(&entries);
    let n: usize = entries.len();
    let mut ranked: Vec<(String, ClubStats)> = Vec::new();
    let mut k: usize = 0;
    while k < n
        invariant
            n == entries@.len(),
            order@.len() == n,
            k <= n,
            ranked@.len() == k,
            forall|k: int| 0 <= k < order@.len() ==> (#[trigger] order@[k]) < entries@.len(),
            forall|m: int|
                0 <= m < k ==> (#[trigger] ranked@[m]).0@ == entries@[order@[m] as int].0@
                    && ranked@[m].1 == entries@[order@[m] as int].1,
        decreases n - k,
    {
        let place: usize = order[k];
        let name = entries[place].0.clone();
        ranked.push((name, entries[place].1));
        k += 1;
    }
    proof {
        let rows = entries_view(ranked@);
        assert forall|m: int| 0 <= m < n implies #[trigger] rows[m] == table[order@[m] as int] by {
            assert(ranked@[m].0@ == entries@[order@[m] as int].0@);
        }
        assert forall|i: int| 0 <= i < table.len() implies rows.contains(#[trigger] table[i]) by {
            assert(order@.contains(i as usize));
            let w = choose|w: int| 0 <= w < order@.len() && order@[w] == i as usize;
            assert(rows[w] == table[i]);
        }
        assert forall|m: int| 0 <= m < rows.len() implies table.contains(#[trigger] rows[m]) by {
            assert(table[order@[m] as int] == rows[m]);
        }
        assert forall|a: int, b: int| 0 <= a < b < rows.len() implies ranks_before(
            table,
            #[trigger] rows[a],
            #[trigger] rows[b],
        ) by {
            lemma_index_of_entry(table, order@[a] as int);
            lemma_index_of_entry(table, order@[b] as int);
            assert(goes_before(entries@, order@[a], order@[b]));
            assert(table[order@[a] as int].1 == entries@[order@[a] as int].1@);
            assert(table[order@[b] as int].1 == entries@[order@[b] as int].1@);
        }
        assert(is_ranking(table, rows));
        lemma_ranking_unique(table, rows, ranking_of(table));
        assert forall|m: int| 0 <= m < ranked@.len() implies (#[trigger] ranked@[m]).1.wf() by {
            assert(entries@[order@[m] as int].1.wf());
        }
    }
    ranked
}

} // verus!
