//! Linear seating arrangements scored by pairwise social connections.
//!
//! People sit in a row. Each connection between two of them has a kind, and
//! each kind a weight that is charged for every empty seat between the two.
//! [`cost`] gives what a seating costs one person, [`total_cost`] what it
//! costs the group, and [`find_optimal_seating`] tries every order and
//! reports the first of the cheapest.

pub mod arrangements;
pub mod connection;
pub mod cost;
pub mod error;
pub mod index;
pub mod laws;
pub mod person;
pub mod search;
pub mod seating;
pub mod sums;
pub mod total;

pub use connection::{Connection, ConnectionType};
pub use cost::cost;
pub use error::SeatingError;
pub use index::{add_connection, RelationshipIndex};
pub use person::Person;
pub use search::find_optimal_seating;
pub use total::total_cost;
