//! Social connections between two people and what each kind weighs.

use crate::person::Person;
use vstd::prelude::*;

verus! {

/// The kinds of connection two people can have.
#[derive(PartialEq, Eq, Debug, Clone, Copy, Structural)]
pub enum ConnectionType {
    Friends,
    InRelationship,
    Acquaintances,
    OneWayCrush,
}

impl ConnectionType {
    /// What one empty seat between the two people adds to the cost.
    pub open spec fn spec_weight(self) -> int {
        match self {
            ConnectionType::Friends => 3,
            ConnectionType::InRelationship => 5,
            ConnectionType::Acquaintances => 1,
            ConnectionType::OneWayCrush => -1,
        }
    }

    /// What one empty seat between the two people adds to the cost.
    pub fn weight(&self) -> (w: i16)
        ensures
            w == self.spec_weight(),
    {
        match self {
            ConnectionType::Friends => 3,
            ConnectionType::InRelationship => 5,
            ConnectionType::Acquaintances => 1,
            ConnectionType::OneWayCrush => -1,
        }
    }
}

/// A connection of some kind between two people. For a one-way crush,
/// `person_a` has the crush and `person_b` is its object.
#[derive(PartialEq, Eq, Debug, Clone, Copy, Structural)]
pub struct Connection {
    pub person_a: Person,
    pub person_b: Person,
    pub kind: ConnectionType,
}

} // verus!
