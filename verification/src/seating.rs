//! Seatings: orders of people along a row, nobody twice.

use crate::person::Person;
use vstd::prelude::*;
use vstd::set_lib::{lemma_int_range, lemma_len_subset, set_int_range};

verus! {

/// `seating` places every member of `people` exactly once and nobody else.
pub open spec fn is_seating_of(seating: Seq<Person>, people: Seq<Person>) -> bool {
    &&& seating.len() == people.len()
    &&& seating.no_duplicates()
    &&& forall|i: int| 0 <= i < seating.len() ==> people.contains(#[trigger] seating[i])
}

/// The most people that can be told apart.
pub const MAX_PEOPLE: usize = 256;

/// A row without repeats holds at most as many people as there are numbers
/// to name them.
pub proof fn lemma_distinct_people_are_few(seating: Seq<Person>)
    requires
        seating.no_duplicates(),
    ensures
        seating.len() <= MAX_PEOPLE,
{
    let numbers = seating.map_values(|p: Person| p.0 as int);
    assert(numbers.no_duplicates()) by {
        assert forall|i: int, j: int|
            0 <= i < numbers.len() && 0 <= j < numbers.len() && i != j implies numbers[i]
            != numbers[j] by {
            assert(seating[i] != seating[j]);
        }
    }
    numbers.unique_seq_to_set();
    lemma_int_range(0, 256);
    assert(numbers.to_set().subset_of(set_int_range(0, 256))) by {
        assert forall|x: int| numbers.to_set().contains(x) implies set_int_range(0, 256).contains(
            x,
        ) by {
            let i = choose|i: int| 0 <= i < numbers.len() && numbers[i] == x;
            assert(numbers[i] == seating[i].0);
        }
    }
    lemma_len_subset(numbers.to_set(), set_int_range(0, 256));
}

/// Whether nobody occurs twice among `people`.
pub fn all_distinct(people: &Vec<Person>) -> (distinct: bool)
    ensures
        distinct == people@.no_duplicates(),
{
    let mut seen: Vec<bool> = Vec::new();
    let mut k: usize = 0;
    while k < 256
        invariant
            k <= 256,
            seen.len() == k,
            forall|j: int| 0 <= j < k ==> !seen[j],
        decreases 256 - k,
    {
        seen.push(false);
        k += 1;
    }
    let mut i: usize = 0;
    while i < people.len()
        invariant
            i <= people.len(),
            seen.len() == 256,
            forall|n: int|
                0 <= n < 256 ==> (#[trigger] seen[n] <==> exists|j: int|
                    0 <= j < i && people[j].0 == n),
            forall|a: int, b: int| 0 <= a < b < i ==> people[a] != people[b],
        decreases people.len() - i,
    {
        let number = people[i].0 as usize;
        if seen[number] {
            proof {
                let j = choose|j: int| 0 <= j < i && people[j].0 == number;
                assert(people[j] == people[i as int]);
            }
            return false;
        }
        seen.set(number, true);
        proof {
            assert forall|n: int| 0 <= n < 256 implies (#[trigger] seen[n] <==> exists|j: int|
                0 <= j < i + 1 && people[j].0 == n) by {
                if n == number {
                    assert(people[i as int].0 == n);
                } else if seen[n] {
                    let j = choose|j: int| 0 <= j < i && people[j].0 == n;
                    assert(0 <= j < i + 1 && people[j].0 == n);
                }
            }
        }
        i += 1;
    }
    true
}

/// For every number, whether the person of that number is among `people`.
pub fn membership(people: &Vec<Person>) -> (present: Vec<bool>)
    ensures
        present.len() == MAX_PEOPLE,
        forall|number: u8| #[trigger] present[number as int] == people@.contains(Person(number)),
{
    let mut present: Vec<bool> = Vec::new();
    let mut k: usize = 0;
    while k < 256
        invariant
            k <= 256,
            present.len() == k,
            forall|j: int| 0 <= j < k ==> !present[j],
        decreases 256 - k,
    {
        present.push(false);
        k += 1;
    }
    let mut i: usize = 0;
    while i < people.len()
        invariant
            i <= people.len(),
            present.len() == 256,
            forall|number: u8| #[trigger]
                present[number as int] <==> exists|j: int| 0 <= j < i && people[j] == Person(number),
        decreases people.len() - i,
    {
        let ghost before = present@;
        present.set(people[i].0 as usize, true);
        proof {
            assert forall|number: u8| #[trigger]
                present[number as int] <==> exists|j: int|
                    0 <= j < i + 1 && people[j] == Person(number) by {
                if number == people[i as int].0 {
                    assert(people[i as int] == Person(number));
                } else if before[number as int] {
                    let j = choose|j: int| 0 <= j < i && people[j] == Person(number);
                    assert(0 <= j < i + 1 && people[j] == Person(number));
                }
            }
        }
        i += 1;
    }
    present
}

/// The seat of `subject`, if there is one.
pub fn position_of(seating: &Vec<Person>, subject: Person) -> (found: Option<usize>)
    ensures
        match found {
            Some(at) => at < seating.len() && seating[at as int] == subject && forall|j: int|
                0 <= j < at ==> seating[j] != subject,
            None => !seating@.contains(subject),
        },
{
    let mut i: usize = 0;
    while i < seating.len()
        invariant
            i <= seating.len(),
            forall|j: int| 0 <= j < i ==> seating[j] != subject,
        decreases seating.len() - i,
    {
        if seating[i] == subject {
            return Some(i);
        }
        i += 1;
    }
    None
}

} // verus!
