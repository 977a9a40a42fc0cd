//! What a seating costs the whole group: the sum of what it costs each
//! person in it.

use crate::connection::Connection;
use crate::cost::{charge_limit, exact_cost, lemma_cost_bounds, narrow, spec_cost};
use crate::error::SeatingError;
use crate::index::{links, RelationshipIndex};
use crate::person::Person;
use crate::seating::{all_distinct, lemma_distinct_people_are_few, MAX_PEOPLE};
use crate::sums::sum_below;
use vstd::prelude::*;

verus! {

/// What `seating` costs each of the people in it, seat by seat, when the
/// connections `added` are filed under both of their ends.
pub open spec fn person_costs(seating: Seq<Person>, added: Seq<Connection>) -> spec_fn(int) -> int {
    |i: int| spec_cost(seating[i], seating, links(added, seating[i]))
}

/// What `seating` costs everybody in it together.
pub open spec fn spec_total_cost(seating: Seq<Person>, added: Seq<Connection>) -> int {
    sum_below(seating.len() as int, person_costs(seating, added))
}

/// A bound on what a row of distinct people can cost one of them, however
/// long that person's list of connections is.
pub open spec fn cost_limit() -> int {
    256int * (0x1_0000_0000_0000_0000int * 1280int)
}

/// The cost of `seating` to the whole group, in a width that holds it
/// whatever the connections are.
pub fn exact_total_cost(seating: &Vec<Person>, connections: &RelationshipIndex) -> (total: i128)
    requires
        seating@.no_duplicates(),
    ensures
        total == spec_total_cost(seating@, connections@),
{
    proof {
        lemma_distinct_people_are_few(seating@);
    }
    let ghost terms = person_costs(seating@, connections@);
    let mut total: i128 = 0;
    let mut i: usize = 0;
    while i < seating.len()
        invariant
            i <= seating.len() <= MAX_PEOPLE,
            seating@.no_duplicates(),
            terms == person_costs(seating@, connections@),
            total == sum_below(i as int, terms),
            -(i * cost_limit()) <= total <= i * cost_limit(),
        decreases seating.len() - i,
    {
        let subject = seating[i];
        let here: i128 = match connections.connections_of(subject) {
            Some(list) => {
                proof {
                    lemma_cost_bounds(subject, seating@, list@);
                    let n = seating@.len();
                    let m = list@.len();
                    assert(m == list.len() && list.len() <= usize::MAX);
                    assert(n * (m * charge_limit()) <= cost_limit()) by (nonlinear_arith)
                        requires
                            n <= 256,
                            m <= 0x1_0000_0000_0000_0000,
                            charge_limit() == 1280,
                            cost_limit() == 256int * (0x1_0000_0000_0000_0000int * 1280int),
                    ;
                }
                exact_cost(subject, seating, list)
            },
            None => {
                proof {
                    crate::cost::lemma_cost_without_connections(
                        subject,
                        seating@,
                        links(connections@, subject),
                    );
                }
                0
            },
        };
        assert(here == terms(i as int));
        assert(-cost_limit() <= here <= cost_limit());
        proof {
            let limit = cost_limit();
            assert((i + 1) * limit == i * limit + limit) by (nonlinear_arith);
            assert(i * limit <= 256 * limit) by (nonlinear_arith)
                requires
                    i <= 256,
                    0 <= limit,
            ;
        }
        total = total + here;
        i += 1;
    }
    total
}

/// The cost of `seating` to the whole group. Connections with somebody who
/// has no seat cost nothing.
///
/// The row has to seat nobody twice, and the cost has to fit sixteen bits;
/// each failure is reported as an error of its own.
pub fn total_cost(seating: &Vec<Person>, connections: &RelationshipIndex) -> (outcome: Result<
    i16,
    SeatingError,
>)
    ensures
        match outcome {
            Ok(total) => {
                &&& seating@.no_duplicates()
                &&& total == spec_total_cost(seating@, connections@)
            },
            Err(SeatingError::RepeatedPerson) => !seating@.no_duplicates(),
            Err(SeatingError::CostOutOfRange) => {
                &&& seating@.no_duplicates()
                &&& !(i16::MIN <= spec_total_cost(seating@, connections@) <= i16::MAX)
            },
            Err(SeatingError::SubjectNotSeated) => false,
            Err(SeatingError::UnknownPerson) => false,
        },
{
    if !all_distinct(seating) {
        return Err(SeatingError::RepeatedPerson);
    }
    narrow(exact_total_cost(seating, connections))
}

} // verus!
