//! What a seating costs one person.
//!
//! A person is charged for every connection on that person's list whose
//! `person_b` is somebody else in the row: the connection's weight for each
//! empty seat between the two. Sitting side by side costs nothing.

use crate::connection::Connection;
use crate::error::SeatingError;
use crate::person::Person;
use crate::seating::{all_distinct, lemma_distinct_people_are_few, position_of, MAX_PEOPLE};
use crate::sums::{lemma_sum_below_bounds, sum_below};
use vstd::prelude::*;

verus! {

/// The number of seats strictly between seat `i` and seat `j`; `-1` when they
/// are the same seat.
pub open spec fn separation(i: int, j: int) -> int {
    if i <= j {
        j - i - 1
    } else {
        i - j - 1
    }
}

/// What `connection` charges for `other` sitting `distance` seats away.
pub open spec fn charge(connection: Connection, other: Person, distance: int) -> int {
    if connection.person_b == other {
        distance * connection.kind.spec_weight()
    } else {
        0
    }
}

/// The charges of `connections`, one by one, for `other` at `distance`.
pub open spec fn charges(connections: Seq<Connection>, other: Person, distance: int) -> spec_fn(
    int,
) -> int {
    |k: int| charge(connections[k], other, distance)
}

/// What all of `connections` together charge for `other` at `distance`.
pub open spec fn seat_charge(connections: Seq<Connection>, other: Person, distance: int) -> int {
    sum_below(connections.len() as int, charges(connections, other, distance))
}

/// What each seat of `seating` adds to the cost of `subject`: nothing for the
/// subject's own seat, the charge for its occupant otherwise.
pub open spec fn seat_charges(
    subject: Person,
    seating: Seq<Person>,
    connections: Seq<Connection>,
) -> spec_fn(int) -> int {
    |i: int|
        if seating[i] == subject {
            0
        } else {
            seat_charge(connections, seating[i], separation(i, seating.index_of(subject)))
        }
}

/// The cost of `seating` to `subject`, whose connections are `connections`.
pub open spec fn spec_cost(
    subject: Person,
    seating: Seq<Person>,
    connections: Seq<Connection>,
) -> int {
    sum_below(seating.len() as int, seat_charges(subject, seating, connections))
}

/// A bound on what one connection can charge in a row of distinct people:
/// the heaviest weight, five, for each of at most 256 seats.
pub open spec fn charge_limit() -> int {
    1280
}

/// One connection charges at most `charge_limit()` either way when the seats
/// are at most `MAX_PEOPLE` apart.
pub proof fn lemma_charge_bounds(connection: Connection, other: Person, distance: int)
    requires
        0 <= distance <= MAX_PEOPLE,
    ensures
        -charge_limit() <= charge(connection, other, distance) <= charge_limit(),
{
    let w = connection.kind.spec_weight();
    assert(-charge_limit() <= distance * w <= charge_limit()) by (nonlinear_arith)
        requires
            0 <= distance <= 256,
            -1 <= w <= 5,
    ;
}

/// One seat adds at most `charge_limit()` per connection to a cost, either
/// way.
pub proof fn lemma_cost_term_bounds(
    subject: Person,
    seating: Seq<Person>,
    connections: Seq<Connection>,
    i: int,
)
    requires
        seating.no_duplicates(),
        seating.contains(subject),
        0 <= i < seating.len(),
    ensures
        -(connections.len() * charge_limit()) <= seat_charges(subject, seating, connections)(i)
            <= connections.len() * charge_limit(),
{
    lemma_distinct_people_are_few(seating);
    let at = seating.index_of(subject);
    if seating[i] != subject {
        let distance = separation(i, at);
        let inner = charges(connections, seating[i], distance);
        assert forall|k: int| 0 <= k < connections.len() implies -charge_limit()
            <= #[trigger] inner(k) <= charge_limit() by {
            lemma_charge_bounds(connections[k], seating[i], distance);
        }
        lemma_sum_below_bounds(connections.len() as int, inner, -charge_limit(), charge_limit());
        assert(connections.len() * (-charge_limit()) == -(connections.len() * charge_limit()))
            by (nonlinear_arith);
    }
}

/// A row of distinct people costs its subject at most `charge_limit()` per
/// connection and seat, either way.
pub proof fn lemma_cost_bounds(subject: Person, seating: Seq<Person>, connections: Seq<Connection>)
    requires
        seating.no_duplicates(),
        seating.contains(subject),
    ensures
        -(seating.len() * (connections.len() * charge_limit())) <= spec_cost(
            subject,
            seating,
            connections,
        ) <= seating.len() * (connections.len() * charge_limit()),
{
    let per_seat = connections.len() * charge_limit();
    let terms = seat_charges(subject, seating, connections);
    assert forall|i: int| 0 <= i < seating.len() implies -per_seat <= #[trigger] terms(i)
        <= per_seat by {
        lemma_cost_term_bounds(subject, seating, connections, i);
    }
    lemma_sum_below_bounds(seating.len() as int, terms, -per_seat, per_seat);
    assert(seating.len() * (-per_seat) == -(seating.len() * per_seat)) by (nonlinear_arith);
}

/// The cost of `seating` to `subject`, in a width that holds it whatever the
/// connections are.
pub fn exact_cost(subject: Person, seating: &Vec<Person>, connections: &Vec<Connection>) -> (total:
    i128)
    requires
        seating@.no_duplicates(),
        seating@.contains(subject),
    ensures
        total == spec_cost(subject, seating@, connections@),
{
    proof {
        lemma_distinct_people_are_few(seating@);
    }
    let at = position_of(seating, subject).unwrap();
    assert(at == seating@.index_of(subject));
    let ghost per_seat: int = connections.len() * charge_limit();
    let ghost terms = seat_charges(subject, seating@, connections@);
    let mut total: i128 = 0;
    let mut i: usize = 0;
    while i < seating.len()
        invariant
            i <= seating.len() <= MAX_PEOPLE,
            at < seating.len(),
            at == seating@.index_of(subject),
            seating[at as int] == subject,
            seating@.no_duplicates(),
            per_seat == connections.len() * charge_limit(),
            terms == seat_charges(subject, seating@, connections@),
            total == sum_below(i as int, terms),
            -(i * per_seat) <= total <= i * per_seat,
        decreases seating.len() - i,
    {
        let other = seating[i];
        let mut here: i128 = 0;
        if other != subject {
            let distance: i128 = if i < at {
                (at - i - 1) as i128
            } else {
                (i - at - 1) as i128
            };
            assert(distance == separation(i as int, at as int));
            let ghost inner = charges(connections@, other, distance as int);
            let mut k: usize = 0;
            while k < connections.len()
                invariant
                    k <= connections.len(),
                    0 <= distance <= MAX_PEOPLE,
                    inner == charges(connections@, other, distance as int),
                    here == sum_below(k as int, inner),
                    -(k * charge_limit()) <= here <= k * charge_limit(),
                decreases connections.len() - k,
            {
                let connection = connections[k];
                proof {
                    lemma_charge_bounds(connection, other, distance as int);
                }
                if connection.person_b == other {
                    here = here + distance * (connection.kind.weight() as i128);
                }
                k += 1;
            }
        }
        assert(here == terms(i as int));
        proof {
            lemma_cost_term_bounds(subject, seating@, connections@, i as int);
            assert((i + 1) * per_seat == i * per_seat + per_seat) by (nonlinear_arith);
            assert(i * per_seat <= 256 * per_seat) by (nonlinear_arith)
                requires
                    i <= 256,
                    0 <= per_seat,
            ;
        }
        total = total + here;
        i += 1;
    }
    total
}

/// `total` as a 16-bit cost, where it is one.
pub fn narrow(total: i128) -> (outcome: Result<i16, SeatingError>)
    ensures
        match outcome {
            Ok(cost) => cost == total,
            Err(reason) => reason == SeatingError::CostOutOfRange && !(i16::MIN <= total
                <= i16::MAX),
        },
{
    if -32768 <= total && total <= 32767 {
        Ok(total as i16)
    } else {
        Err(SeatingError::CostOutOfRange)
    }
}

/// The cost of `seating` to `subject`, whose connections are `connections`.
///
/// The row has to seat the subject and nobody twice, and the cost has to fit
/// sixteen bits; each failure is reported as an error of its own.
pub fn cost(subject: &Person, seating: Vec<Person>, connections: &Vec<Connection>) -> (outcome:
    Result<i16, SeatingError>)
    ensures
        match outcome {
            Ok(total) => {
                &&& seating@.no_duplicates()
                &&& seating@.contains(*subject)
                &&& total == spec_cost(*subject, seating@, connections@)
            },
            Err(SeatingError::RepeatedPerson) => !seating@.no_duplicates(),
            Err(SeatingError::SubjectNotSeated) => {
                &&& seating@.no_duplicates()
                &&& !seating@.contains(*subject)
            },
            Err(SeatingError::CostOutOfRange) => {
                &&& seating@.no_duplicates()
                &&& seating@.contains(*subject)
                &&& !(i16::MIN <= spec_cost(*subject, seating@, connections@) <= i16::MAX)
            },
            Err(SeatingError::UnknownPerson) => false,
        },
        connections@.len() == 0 && seating@.no_duplicates() && seating@.contains(*subject)
            ==> outcome == Ok::<i16, SeatingError>(0i16),
{
    if !all_distinct(&seating) {
        return Err(SeatingError::RepeatedPerson);
    }
    if position_of(&seating, *subject).is_none() {
        return Err(SeatingError::SubjectNotSeated);
    }
    proof {
        if connections@.len() == 0 {
            lemma_cost_without_connections(*subject, seating@, connections@);
        }
    }
    narrow(exact_cost(*subject, &seating, connections))
}

/// Somebody without connections pays nothing, wherever everybody sits.
pub proof fn lemma_cost_without_connections(
    subject: Person,
    seating: Seq<Person>,
    connections: Seq<Connection>,
)
    requires
        connections.len() == 0,
    ensures
        spec_cost(subject, seating, connections) == 0,
{
    let terms = seat_charges(subject, seating, connections);
    assert forall|i: int| 0 <= i < seating.len() implies 0 <= #[trigger] terms(i) <= 0 by {}
    lemma_sum_below_bounds(seating.len() as int, terms, 0, 0);
}

} // verus!
