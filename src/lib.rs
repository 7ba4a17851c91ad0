//! A generic state-space search engine over implicit graphs.
//!
//! A graph is given only by its states: each state lists its neighbors and
//! says whether it is a goal. `Tree` searches breadth-first and returns a
//! path with the fewest transitions; `PriorityTree` expands the state with
//! the smallest priority first, ties broken by insertion order.

mod ledger;
pub mod priority;
pub mod search;
pub mod state;

pub use state::{PriorityState, State};
pub use search::Tree;
pub use priority::PriorityTree;
