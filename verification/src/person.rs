//! The people to be seated.

use vstd::prelude::*;
use vstd::std_specs::convert::FromSpecImpl;

verus! {

/// One participant, known only by a small number.
#[derive(Debug, PartialEq, Eq, Clone, Copy, Hash, Structural)]
pub struct Person(pub u8);

impl From<u8> for Person {
    fn from(value: u8) -> (person: Person) {
        Person(value)
    }
}

impl FromSpecImpl<u8> for Person {
    open spec fn obeys_from_spec() -> bool {
        true
    }

    open spec fn from_spec(value: u8) -> Person {
        Person(value)
    }
}

} // verus!
