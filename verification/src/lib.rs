//! State-based replicated counters.
//!
//! A [`GCounter`] only grows; a [`PNCounter`] pairs two of them to allow
//! decrements. Replicas update their own entry locally and reconcile by
//! `merge`, which takes the larger count for every replica and is therefore
//! commutative, associative and idempotent.
//!
//! [`tally`] holds the mathematical model of a counter's state and the laws
//! of merging; [`history`] proves that replicas which update independently
//! agree on one value once they have merged.

pub mod tally;
pub mod error;
pub mod gcounter;
pub mod pncounter;
pub mod history;

pub use error::CounterError;
pub use gcounter::GCounter;
pub use pncounter::PNCounter;
