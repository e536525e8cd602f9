//! Why a counter's value cannot be handed out.

use vstd::prelude::*;

verus! {

/// The ways in which reading a value fails. Updates and merges never fail.
#[derive(Clone, Copy, Debug, PartialEq, Eq, Structural)]
pub enum CounterError {
    /// A sum of counts does not fit in 64 unsigned bits.
    Overflow,
    /// The decrements exceed the increments, or the difference does not fit
    /// in 64 signed bits.
    Conversion,
}

} // verus!
