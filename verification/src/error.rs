//! What can be wrong with the input to a cost or a search.

use vstd::prelude::*;

verus! {

/// Why a cost or a best seating could not be given.
#[derive(Debug, PartialEq, Eq, Clone, Copy, Structural)]
pub enum SeatingError {
    /// Somebody is listed more than once.
    RepeatedPerson,
    /// The person whose cost was asked for has no seat.
    SubjectNotSeated,
    /// A connection names somebody who is not part of the group.
    UnknownPerson,
    /// The cost does not fit the 16-bit signed result.
    CostOutOfRange,
}

} // verus!
