//! What holds of costs and of the best seating whatever the group is.

use crate::connection::Connection;
use crate::cost::{charge, charges, seat_charges, separation, spec_cost};
use crate::index::{filed_under, links};
use crate::person::Person;
use crate::search::{comes_before, is_best_seating};
use crate::cost::lemma_cost_without_connections;
use crate::sums::{
    lemma_sum_below_adds, lemma_sum_below_agrees, lemma_sum_below_bounds, lemma_sum_below_joins,
    lemma_sum_below_single, sum_below,
};
use crate::total::{person_costs, spec_total_cost};
use vstd::prelude::*;

verus! {

/// `connection` with both of its people renamed.
pub open spec fn renamed(connection: Connection, rename: spec_fn(Person) -> Person) -> Connection {
    Connection {
        person_a: rename(connection.person_a),
        person_b: rename(connection.person_b),
        kind: connection.kind,
    }
}

/// `connections` with everybody renamed.
pub open spec fn all_renamed(
    connections: Seq<Connection>,
    rename: spec_fn(Person) -> Person,
) -> Seq<Connection> {
    connections.map_values(|c: Connection| renamed(c, rename))
}

/// No two people get the same new name.
pub open spec fn keeps_apart(rename: spec_fn(Person) -> Person) -> bool {
    forall|p: Person, q: Person| #[trigger] rename(p) == #[trigger] rename(q) ==> p == q
}

/// What is filed under a person does not depend on what people are called:
/// renaming everybody renames the list and nothing else.
pub proof fn lemma_links_ignore_names(
    added: Seq<Connection>,
    person: Person,
    rename: spec_fn(Person) -> Person,
)
    requires
        keeps_apart(rename),
    ensures
        links(all_renamed(added, rename), rename(person)) == all_renamed(
            links(added, person),
            rename,
        ),
    decreases added.len(),
{
    let after = all_renamed(added, rename);
    if added.len() == 0 {
        assert(links(after, rename(person)) =~= all_renamed(links(added, person), rename));
    } else {
        lemma_links_ignore_names(added.drop_last(), person, rename);
        assert(after.drop_last() =~= all_renamed(added.drop_last(), rename));
        assert(after.last() == renamed(added.last(), rename));
        assert(filed_under(rename(person), after.last()) =~= all_renamed(
            filed_under(person, added.last()),
            rename,
        ));
        assert(links(after, rename(person)) =~= all_renamed(links(added, person), rename));
    }
}

/// A cost depends on who sits where relative to whom and on the kinds of the
/// connections, not on what people are called: renaming everybody, no two
/// alike, leaves the cost of a seating to its subject unchanged.
pub proof fn lemma_cost_ignores_names(
    subject: Person,
    seating: Seq<Person>,
    connections: Seq<Connection>,
    rename: spec_fn(Person) -> Person,
)
    requires
        seating.no_duplicates(),
        seating.contains(subject),
        keeps_apart(rename),
    ensures
        spec_cost(rename(subject), seating.map_values(rename), all_renamed(connections, rename))
            == spec_cost(subject, seating, connections),
{
    let row = seating.map_values(rename);
    let list = all_renamed(connections, rename);
    let at = seating.index_of(subject);
    let at_after = row.index_of(rename(subject));
    assert(row[at] == rename(subject));
    assert(0 <= at_after < row.len() && row[at_after] == rename(subject));
    assert(at_after == at);
    let before = seat_charges(subject, seating, connections);
    let after = seat_charges(rename(subject), row, list);
    assert forall|i: int| 0 <= i < seating.len() implies #[trigger] after(i) == before(i) by {
        if seating[i] != subject {
            let distance = separation(i, at);
            let f = charges(list, row[i], distance);
            let g = charges(connections, seating[i], distance);
            assert forall|k: int| 0 <= k < connections.len() implies #[trigger] f(k) == g(k) by {
                assert(list[k] == renamed(connections[k], rename));
            }
            lemma_sum_below_agrees(connections.len() as int, f, g);
        }
    }
    lemma_sum_below_agrees(seating.len() as int, after, before);
}

/// The total cost of a seating depends on who sits where relative to whom
/// and on the kinds of the connections, not on what people are called:
/// renaming everybody, no two alike, leaves it unchanged.
pub proof fn lemma_total_cost_ignores_names(
    seating: Seq<Person>,
    added: Seq<Connection>,
    rename: spec_fn(Person) -> Person,
)
    requires
        seating.no_duplicates(),
        keeps_apart(rename),
    ensures
        spec_total_cost(seating.map_values(rename), all_renamed(added, rename)) == spec_total_cost(
            seating,
            added,
        ),
{
    let row = seating.map_values(rename);
    let before = person_costs(seating, added);
    let after = person_costs(row, all_renamed(added, rename));
    assert forall|i: int| 0 <= i < seating.len() implies #[trigger] after(i) == before(i) by {
        lemma_links_ignore_names(added, seating[i], rename);
        lemma_cost_ignores_names(seating[i], seating, links(added, seating[i]), rename);
    }
    lemma_sum_below_agrees(seating.len() as int, after, before);
}

/// One connection charges its subject the weight of its kind for each empty
/// seat between the subject and the connection's `person_b`: nothing when
/// the two sit side by side, the bare weight when one seat is between them.
pub proof fn lemma_cost_of_one_connection(
    subject: Person,
    seating: Seq<Person>,
    connection: Connection,
)
    requires
        seating.no_duplicates(),
        seating.contains(subject),
        seating.contains(connection.person_b),
        connection.person_b != subject,
    ensures
        spec_cost(subject, seating, seq![connection]) == separation(
            seating.index_of(connection.person_b),
            seating.index_of(subject),
        ) * connection.kind.spec_weight(),
        separation(seating.index_of(connection.person_b), seating.index_of(subject)) == 0
            ==> spec_cost(subject, seating, seq![connection]) == 0,
        separation(seating.index_of(connection.person_b), seating.index_of(subject)) == 1
            ==> spec_cost(subject, seating, seq![connection]) == connection.kind.spec_weight(),
{
    let list = seq![connection];
    let at = seating.index_of(subject);
    let other_at = seating.index_of(connection.person_b);
    let terms = seat_charges(subject, seating, list);
    assert forall|i: int| 0 <= i < seating.len() implies #[trigger] terms(i) == (if i == other_at {
        separation(other_at, at) * connection.kind.spec_weight()
    } else {
        0
    }) by {
        if seating[i] != subject {
            let inner = charges(list, seating[i], separation(i, at));
            assert(sum_below(1, inner) == sum_below(0, inner) + inner(0));
            assert(inner(0) == charge(connection, seating[i], separation(i, at)));
        }
    }
    lemma_sum_below_single(seating.len() as int, terms, other_at);
}

/// A group of one pays nothing.
pub proof fn lemma_single_person_pays_nothing(seating: Seq<Person>, added: Seq<Connection>)
    requires
        seating.len() == 1,
    ensures
        spec_total_cost(seating, added) == 0,
{
    let subject = seating[0];
    let inner = seat_charges(subject, seating, links(added, subject));
    assert(inner(0) == 0);
    assert(sum_below(1, inner) == sum_below(0, inner) + inner(0));
    let terms = person_costs(seating, added);
    assert(terms(0) == spec_cost(subject, seating, links(added, subject)));
    assert(sum_below(1, terms) == sum_below(0, terms) + terms(0));
}

/// The best seating is one: what the search reports is settled by the people
/// and their connections alone.
pub proof fn lemma_best_seating_is_unique(
    people: Seq<Person>,
    added: Seq<Connection>,
    s: Seq<Person>,
    t: Seq<Person>,
)
    requires
        is_best_seating(people, added, s),
        is_best_seating(people, added, t),
    ensures
        s == t,
{
    if s != t {
        assert(spec_total_cost(s, added) == spec_total_cost(t, added));
        assert(comes_before(s, t, people));
        assert(comes_before(t, s, people));
        let k = choose|k: int|
            0 <= k < s.len() && k < t.len() && people.index_of(s[k]) < people.index_of(t[k]) && (
            forall|i: int| 0 <= i < k ==> s[i] == t[i]);
        let m = choose|m: int|
            0 <= m < t.len() && m < s.len() && people.index_of(t[m]) < people.index_of(s[m]) && (
            forall|i: int| 0 <= i < m ==> t[i] == s[i]);
        if k < m {
            assert(t[k] == s[k]);
        } else if m < k {
            assert(s[m] == t[m]);
        }
    }
}

/// What one connection adds to the total cost of `seating`: its weight for
/// each empty seat between its two people, where they are two and both have
/// a seat.
pub open spec fn connection_cost(connection: Connection, seating: Seq<Person>) -> int {
    if connection.person_a != connection.person_b && seating.contains(connection.person_a)
        && seating.contains(connection.person_b) {
        separation(
            seating.index_of(connection.person_a),
            seating.index_of(connection.person_b),
        ) * connection.kind.spec_weight()
    } else {
        0
    }
}

/// What each of `added` adds to the total cost of `seating`.
pub open spec fn connection_costs(seating: Seq<Person>, added: Seq<Connection>) -> spec_fn(
    int,
) -> int {
    |k: int| connection_cost(added[k], seating)
}

/// The cost of two lists of connections together is the sum of their costs.
pub proof fn lemma_cost_of_joined_lists(
    subject: Person,
    seating: Seq<Person>,
    first: Seq<Connection>,
    second: Seq<Connection>,
)
    ensures
        spec_cost(subject, seating, first + second) == spec_cost(subject, seating, first)
            + spec_cost(subject, seating, second),
{
    let at = seating.index_of(subject);
    let f = seat_charges(subject, seating, first);
    let g = seat_charges(subject, seating, second);
    let both = seat_charges(subject, seating, first + second);
    assert forall|i: int| 0 <= i < seating.len() implies #[trigger] both(i) == f(i) + g(i) by {
        if seating[i] != subject {
            let distance = separation(i, at);
            let inner_f = charges(first, seating[i], distance);
            let inner_g = charges(second, seating[i], distance);
            let inner = charges(first + second, seating[i], distance);
            assert forall|k: int| 0 <= k < first.len() implies #[trigger] inner(k) == inner_f(
                k,
            ) by {
                assert((first + second)[k] == first[k]);
            }
            assert forall|k: int| 0 <= k < second.len() implies #[trigger] inner_g(k) == inner(
                first.len() + k,
            ) by {
                assert((first + second)[first.len() + k] == second[k]);
            }
            lemma_sum_below_joins(
                first.len() as int,
                second.len() as int,
                inner_f,
                inner_g,
                inner,
            );
        }
    }
    lemma_sum_below_adds(seating.len() as int, f, g, both);
}

/// Adding one connection adds to the total what that connection costs: it
/// is charged to `person_a` alone, for the seat of `person_b`.
pub proof fn lemma_connection_is_charged_once(seating: Seq<Person>, connection: Connection)
    requires
        seating.no_duplicates(),
    ensures
        sum_below(
            seating.len() as int,
            |i: int| spec_cost(seating[i], seating, filed_under(seating[i], connection)),
        ) == connection_cost(connection, seating),
{
    let a = connection.person_a;
    let b = connection.person_b;
    let terms = |i: int| spec_cost(seating[i], seating, filed_under(seating[i], connection));
    assert forall|i: int| 0 <= i < seating.len() && seating[i] != a implies #[trigger] terms(i)
        == 0 by {
        lemma_cost_of_own_connections(seating[i], seating, filed_under(seating[i], connection));
    }
    if seating.contains(a) {
        let at = seating.index_of(a);
        if a == b {
            lemma_cost_of_own_connections(a, seating, filed_under(a, connection));
        } else if seating.contains(b) {
            assert(filed_under(a, connection) =~= seq![connection]);
            lemma_cost_of_one_connection(a, seating, connection);
        } else {
            lemma_cost_of_strangers(a, seating, filed_under(a, connection));
        }
        assert(terms(at) == connection_cost(connection, seating));
        lemma_sum_below_single(seating.len() as int, terms, at);
    } else {
        lemma_sum_below_bounds(seating.len() as int, terms, 0, 0);
    }
}

/// Connections whose `person_b` is the subject cost the subject nothing.
pub proof fn lemma_cost_of_own_connections(
    subject: Person,
    seating: Seq<Person>,
    connections: Seq<Connection>,
)
    requires
        forall|k: int| 0 <= k < connections.len() ==> (#[trigger] connections[k]).person_b == subject,
    ensures
        spec_cost(subject, seating, connections) == 0,
{
    let terms = seat_charges(subject, seating, connections);
    assert forall|i: int| 0 <= i < seating.len() implies 0 <= #[trigger] terms(i) <= 0 by {
        if seating[i] != subject {
            let inner = charges(
                connections,
                seating[i],
                separation(i, seating.index_of(subject)),
            );
            assert forall|k: int| 0 <= k < connections.len() implies 0 <= #[trigger] inner(k)
                <= 0 by {
                assert(connections[k].person_b == subject);
            }
            lemma_sum_below_bounds(connections.len() as int, inner, 0, 0);
        }
    }
    lemma_sum_below_bounds(seating.len() as int, terms, 0, 0);
}

/// Connections whose `person_b` has no seat cost nothing.
pub proof fn lemma_cost_of_strangers(
    subject: Person,
    seating: Seq<Person>,
    connections: Seq<Connection>,
)
    requires
        forall|k: int|
            0 <= k < connections.len() ==> !seating.contains((#[trigger] connections[k]).person_b),
    ensures
        spec_cost(subject, seating, connections) == 0,
{
    let terms = seat_charges(subject, seating, connections);
    assert forall|i: int| 0 <= i < seating.len() implies 0 <= #[trigger] terms(i) <= 0 by {
        if seating[i] != subject {
            let inner = charges(
                connections,
                seating[i],
                separation(i, seating.index_of(subject)),
            );
            assert forall|k: int| 0 <= k < connections.len() implies 0 <= #[trigger] inner(k)
                <= 0 by {
                assert(!seating.contains(connections[k].person_b));
            }
            lemma_sum_below_bounds(connections.len() as int, inner, 0, 0);
        }
    }
    lemma_sum_below_bounds(seating.len() as int, terms, 0, 0);
}

/// Every connection is counted exactly once in the total: the total cost of
/// a seating is the sum, over the connections, of the weight of each for
/// every empty seat between its two people.
pub proof fn lemma_total_cost_counts_each_connection_once(
    seating: Seq<Person>,
    added: Seq<Connection>,
)
    requires
        seating.no_duplicates(),
    ensures
        spec_total_cost(seating, added) == sum_below(
            added.len() as int,
            connection_costs(seating, added),
        ),
    decreases added.len(),
{
    let n = seating.len() as int;
    let terms = person_costs(seating, added);
    if added.len() == 0 {
        assert forall|i: int| 0 <= i < n implies 0 <= #[trigger] terms(i) <= 0 by {
            lemma_cost_without_connections(seating[i], seating, links(added, seating[i]));
        }
        lemma_sum_below_bounds(n, terms, 0, 0);
    } else {
        let earlier = added.drop_last();
        let last = added.last();
        lemma_total_cost_counts_each_connection_once(seating, earlier);
        let before = person_costs(seating, earlier);
        let extra = |i: int| spec_cost(seating[i], seating, filed_under(seating[i], last));
        assert forall|i: int| 0 <= i < n implies #[trigger] terms(i) == before(i) + extra(i) by {
            lemma_cost_of_joined_lists(
                seating[i],
                seating,
                links(earlier, seating[i]),
                filed_under(seating[i], last),
            );
        }
        lemma_sum_below_adds(n, before, extra, terms);
        lemma_connection_is_charged_once(seating, last);
        lemma_sum_below_agrees(
            earlier.len() as int,
            connection_costs(seating, added),
            connection_costs(seating, earlier),
        );
    }
}

} // verus!
