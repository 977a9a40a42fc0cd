//! The search for the cheapest seating: every order is tried, and the first
//! of the cheapest is kept.

use crate::arrangements::{
    arrangements, is_arrangement, lemma_listing_is_not_empty, lex_before, lists_arrangements,
    next_arrangement, pending,
};
use crate::connection::Connection;
use crate::cost::narrow;
use crate::error::SeatingError;
use crate::index::{all_known, RelationshipIndex};
use crate::person::Person;
use crate::seating::{all_distinct, is_seating_of, lemma_distinct_people_are_few};
use crate::total::{exact_total_cost, spec_total_cost};
use vstd::prelude::*;

verus! {

/// The row in which seat `i` is taken by the person at place `order[i]` of
/// `people`.
pub open spec fn seat(people: Seq<Person>, order: Seq<usize>) -> Seq<Person> {
    Seq::new(order.len(), |i: int| people[order[i] as int])
}

/// For each seat of `seating`, the place of its occupant in `people`.
pub open spec fn places(seating: Seq<Person>, people: Seq<Person>) -> Seq<usize> {
    Seq::new(seating.len(), |i: int| people.index_of(seating[i]) as usize)
}

/// `s` comes before `t` when rows are ordered like words and people like
/// letters, by their place in `people`.
pub open spec fn comes_before(s: Seq<Person>, t: Seq<Person>, people: Seq<Person>) -> bool {
    exists|k: int|
        0 <= k < s.len() && k < t.len() && people.index_of(s[k]) < people.index_of(t[k]) && (
        forall|i: int| 0 <= i < k ==> s[i] == t[i])
}

/// `best` is the seating of `people` that the search reports: no seating is
/// cheaper, and every other seating that is as cheap comes after it.
pub open spec fn is_best_seating(
    people: Seq<Person>,
    added: Seq<Connection>,
    best: Seq<Person>,
) -> bool {
    &&& is_seating_of(best, people)
    &&& forall|t: Seq<Person>| #[trigger]
        is_seating_of(t, people) ==> spec_total_cost(best, added) <= spec_total_cost(t, added)
    &&& forall|t: Seq<Person>|
        #[trigger] is_seating_of(t, people) && t != best && spec_total_cost(t, added)
            == spec_total_cost(best, added) ==> comes_before(best, t, people)
}

/// Seating distinct people in the order of an arrangement gives a seating of
/// them, and the arrangement can be read off it again.
pub proof fn lemma_seat_is_seating(people: Seq<Person>, order: Seq<usize>)
    requires
        people.no_duplicates(),
        is_arrangement(order, people.len()),
    ensures
        is_seating_of(seat(people, order), people),
        places(seat(people, order), people) == order,
{
    let row = seat(people, order);
    assert forall|i: int| 0 <= i < row.len() implies people.contains(#[trigger] row[i]) by {
        assert(people[order[i] as int] == row[i]);
    }
    assert forall|i: int, j: int| 0 <= i < row.len() && 0 <= j < row.len() && i != j implies row[i]
        != row[j] by {
        if i < j {
            assert(order[i] != order[j]);
        } else {
            assert(order[j] != order[i]);
        }
    }
    assert forall|i: int| 0 <= i < row.len() implies people.index_of(row[i]) == order[i] by {
        lemma_place_of_member(people, order[i] as int);
    }
    assert(places(row, people) =~= order);
}

/// Among distinct people, the place of the person at place `i` is `i`.
pub proof fn lemma_place_of_member(people: Seq<Person>, i: int)
    requires
        people.no_duplicates(),
        0 <= i < people.len(),
    ensures
        people.index_of(people[i]) == i,
{
    let j = people.index_of(people[i]);
    assert(0 <= j < people.len() && people[j] == people[i]);
}

/// Every seating of distinct people seats them in the order of some
/// arrangement: that of their places.
pub proof fn lemma_seating_has_places(people: Seq<Person>, seating: Seq<Person>)
    requires
        people.no_duplicates(),
        people.len() <= usize::MAX,
        is_seating_of(seating, people),
    ensures
        is_arrangement(places(seating, people), people.len()),
        seat(people, places(seating, people)) == seating,
{
    let order = places(seating, people);
    assert forall|i: int| 0 <= i < seating.len() implies 0 <= people.index_of(seating[i])
        < people.len() && people[people.index_of(seating[i])] == seating[i] by {
        assert(people.contains(seating[i]));
    }
    assert forall|i: int, j: int| 0 <= i < j < order.len() implies order[i] != order[j] by {
        assert(seating[i] != seating[j]);
    }
    assert(seat(people, order) =~= seating);
}

/// The people of `people` in the order of `order`.
pub fn seat_people(people: &Vec<Person>, order: &Vec<usize>) -> (seating: Vec<Person>)
    requires
        forall|i: int| 0 <= i < order.len() ==> order[i] < people.len(),
    ensures
        seating@ == seat(people@, order@),
{
    let mut seating: Vec<Person> = Vec::new();
    let mut i: usize = 0;
    while i < order.len()
        invariant
            i <= order.len(),
            seating.len() == i,
            forall|j: int| 0 <= j < order.len() ==> order[j] < people.len(),
            forall|j: int| 0 <= j < i ==> seating[j] == people[order[j] as int],
        decreases order.len() - i,
    {
        seating.push(people[order[i]]);
        i += 1;
    }
    assert(seating@ =~= seat(people@, order@));
    seating
}

/// The cheapest seating of `people` and what it costs; of several that are
/// equally cheap, the one that comes first when rows are ordered like words
/// and people by their place in `people`.
///
/// Nobody may be listed twice, every connection has to be between two of
/// `people`, and the cost has to fit sixteen bits; each failure is reported as
/// an error of its own.
pub fn find_optimal_seating(people: &Vec<Person>, connections: &RelationshipIndex) -> (outcome:
    Result<(Vec<Person>, i16), SeatingError>)
    ensures
        match outcome {
            Ok((seating, total)) => {
                &&& people@.no_duplicates()
                &&& all_known(people@, connections@)
                &&& is_best_seating(people@, connections@, seating@)
                &&& total == spec_total_cost(seating@, connections@)
            },
            Err(SeatingError::RepeatedPerson) => !people@.no_duplicates(),
            Err(SeatingError::UnknownPerson) => {
                &&& people@.no_duplicates()
                &&& !all_known(people@, connections@)
            },
            Err(SeatingError::CostOutOfRange) => {
                &&& people@.no_duplicates()
                &&& all_known(people@, connections@)
                &&& exists|best: Seq<Person>|
                    is_best_seating(people@, connections@, best) && !(i16::MIN <= spec_total_cost(
                        best,
                        connections@,
                    ) <= i16::MAX)
            },
            Err(SeatingError::SubjectNotSeated) => false,
        },
{
    if !all_distinct(people) {
        return Err(SeatingError::RepeatedPerson);
    }
    if !connections.mentions_only(people) {
        return Err(SeatingError::UnknownPerson);
    }
    proof {
        lemma_distinct_people_are_few(people@);
    }
    let n = people.len();
    let mut source = arrangements(n);
    let ghost listing = pending(source);
    proof {
        lemma_listing_is_not_empty(listing, n as nat);
    }
    let first = next_arrangement(&mut source).unwrap();
    proof {
        lemma_seat_is_seating(people@, listing[0]);
    }
    let mut best_seating = seat_people(people, &first);
    let mut best_total = exact_total_cost(&best_seating, connections);
    let ghost mut chosen: int = 0;
    let ghost mut done: int = 1;
    assert(listing.drop_first() =~= listing.skip(1));
    loop
        invariant
            n == people.len(),
            people@.no_duplicates(),
            lists_arrangements(listing, n as nat),
            0 <= chosen < done <= listing.len(),
            pending(source) == listing.skip(done),
            best_seating@ == seat(people@, listing[chosen]),
            best_total == spec_total_cost(best_seating@, connections@),
            forall|j: int|
                0 <= j < chosen ==> best_total < spec_total_cost(
                    seat(people@, #[trigger] listing[j]),
                    connections@,
                ),
            forall|j: int|
                chosen <= j < done ==> best_total <= spec_total_cost(
                    seat(people@, #[trigger] listing[j]),
                    connections@,
                ),
        ensures
            done == listing.len(),
        decreases listing.len() - done,
    {
        match next_arrangement(&mut source) {
            None => {
                break ;
            },
            Some(order) => {
                proof {
                    assert(order@ == listing[done]);
                    assert(listing.skip(done).drop_first() =~= listing.skip(done + 1));
                    lemma_seat_is_seating(people@, listing[done]);
                }
                let seating = seat_people(people, &order);
                let total = exact_total_cost(&seating, connections);
                if total < best_total {
                    best_total = total;
                    best_seating = seating;
                    proof {
                        chosen = done;
                    }
                }
                proof {
                    done = done + 1;
                }
            },
        }
    }
    proof {
        lemma_search_result(people@, connections@, listing, chosen);
    }
    match narrow(best_total) {
        Ok(total) => Ok((best_seating, total)),
        Err(reason) => Err(reason),
    }
}

/// The arrangement that is cheapest in a full listing, and first among the
/// cheapest, gives the best seating.
pub proof fn lemma_search_result(
    people: Seq<Person>,
    added: Seq<Connection>,
    listing: Seq<Seq<usize>>,
    chosen: int,
)
    requires
        people.no_duplicates(),
        people.len() <= usize::MAX,
        lists_arrangements(listing, people.len()),
        0 <= chosen < listing.len(),
        forall|j: int|
            0 <= j < chosen ==> spec_total_cost(seat(people, listing[chosen]), added)
                < spec_total_cost(seat(people, #[trigger] listing[j]), added),
        forall|j: int|
            chosen <= j < listing.len() ==> spec_total_cost(seat(people, listing[chosen]), added)
                <= spec_total_cost(seat(people, #[trigger] listing[j]), added),
    ensures
        is_best_seating(people, added, seat(people, listing[chosen])),
{
    let best = seat(people, listing[chosen]);
    lemma_seat_is_seating(people, listing[chosen]);
    assert forall|t: Seq<Person>| #[trigger] is_seating_of(t, people) implies spec_total_cost(
        best,
        added,
    ) <= spec_total_cost(t, added) && (t != best && spec_total_cost(t, added) == spec_total_cost(
        best,
        added,
    ) ==> comes_before(best, t, people)) by {
        lemma_seating_has_places(people, t);
        let order = places(t, people);
        assert(listing.contains(order));
        let j = choose|j: int| 0 <= j < listing.len() && listing[j] == order;
        if t != best && spec_total_cost(t, added) == spec_total_cost(best, added) {
            assert(chosen < j);
            assert(lex_before(listing[chosen], listing[j]));
            let k = choose|k: int|
                0 <= k < listing[chosen].len() && k < listing[j].len() && listing[chosen][k]
                    < listing[j][k] && (forall|i: int|
                    0 <= i < k ==> listing[chosen][i] == listing[j][i]);
            lemma_place_of_member(people, listing[chosen][k] as int);
            lemma_place_of_member(people, listing[j][k] as int);
            assert(forall|i: int| 0 <= i < k ==> best[i] == t[i]);
            assert(people.index_of(best[k]) < people.index_of(t[k]));
        }
    }
}

} // verus!
