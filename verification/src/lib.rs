//! Scotty remembers the directories a user visits and answers "which one did
//! they mean" from a short, possibly misspelt fragment.
//!
//! The crate is the index engine: a ledger from path to last visit, a compact
//! set of the known paths kept as a transducer image, the query that selects
//! candidates from it, and the scoring that picks one winner.

pub mod error;
pub mod index;
pub mod matcher;
pub mod membership;
pub mod order;
pub mod printer;
pub mod probe;
pub mod score;
pub mod shell;
pub mod state;
pub mod store;
pub mod text;
pub mod timestamp;
