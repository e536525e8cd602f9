//! The counter that can also be decremented.

use crate::error::CounterError;
use crate::gcounter::GCounter;
use crate::tally::{
    Tally, incremented, lemma_merge_associative, lemma_merge_commutative, lemma_merge_empty,
    lemma_merge_idempotent, lemma_merge_twice, merged, total,
};
use vstd::prelude::*;

verus! {

/// What a `PNCounter` holds: the increments and the decrements of every
/// replica, both as magnitudes that only grow.
pub struct PNState {
    pub inc: Tally,
    pub dec: Tally,
}

/// The state in which nothing was counted.
pub open spec fn pn_empty() -> PNState {
    PNState { inc: Map::empty(), dec: Map::empty() }
}

/// Both tallies of the state are finite.
pub open spec fn pn_finite(s: PNState) -> bool {
    s.inc.dom().finite() && s.dec.dom().finite()
}

/// The state after `replica` has incremented by `amount`.
pub open spec fn pn_incremented(s: PNState, replica: Seq<char>, amount: u64) -> PNState {
    PNState { inc: incremented(s.inc, replica, amount), dec: s.dec }
}

/// The state after `replica` has decremented by `amount`: the decrements
/// grow, nothing is subtracted.
pub open spec fn pn_decremented(s: PNState, replica: Seq<char>, amount: u64) -> PNState {
    PNState { inc: s.inc, dec: incremented(s.dec, replica, amount) }
}

/// The join of two states, taken on increments and decrements separately.
pub open spec fn pn_merged(a: PNState, b: PNState) -> PNState {
    PNState { inc: merged(a.inc, b.inc), dec: merged(a.dec, b.dec) }
}

/// All increments minus all decrements, as an unbounded number.
pub open spec fn net(s: PNState) -> int {
    total(s.inc) - total(s.dec)
}

/// What reading the value of a state gives. Both sums must fit in a `u64`,
/// else the reading is `Overflow`; the decrements must not exceed the
/// increments and the difference must fit in an `i64`, else it is
/// `Conversion`.
pub open spec fn reading(s: PNState) -> Result<i64, CounterError> {
    if total(s.inc) > u64::MAX || total(s.dec) > u64::MAX {
        Err(CounterError::Overflow)
    } else if net(s) < 0 || net(s) > i64::MAX {
        Err(CounterError::Conversion)
    } else {
        Ok(net(s) as i64)
    }
}

/// A counter that supports increments and decrements. It is made of two
/// grow-only counters, one for each direction.
#[derive(Debug)]
pub struct PNCounter {
    inc: GCounter,
    dec: GCounter,
}

impl View for PNCounter {
    type V = PNState;

    closed spec fn view(&self) -> PNState {
        PNState { inc: self.inc@, dec: self.dec@ }
    }
}

impl PNCounter {
    /// The counter is well formed: both of its halves are.
    pub closed spec fn wf(&self) -> bool {
        self.inc.wf() && self.dec.wf()
    }

    /// A well-formed counter has seen finitely many replicas.
    pub proof fn lemma_finite(&self)
        requires
            self.wf(),
        ensures
            pn_finite(self@),
    {
        self.inc.lemma_finite();
        self.dec.lemma_finite();
    }

    /// The empty counter, whose value is zero.
    pub fn new() -> (c: PNCounter)
        ensures
            c.wf(),
            c@ == pn_empty(),
    {
        PNCounter { inc: GCounter::new(), dec: GCounter::new() }
    }

    /// The increments of every replica.
    pub fn increments(&self) -> (g: &GCounter)
        requires
            self.wf(),
        ensures
            g.wf(),
            g@ == self@.inc,
    {
        &self.inc
    }

    /// The decrements of every replica, as magnitudes.
    pub fn decrements(&self) -> (g: &GCounter)
        requires
            self.wf(),
        ensures
            g.wf(),
            g@ == self@.dec,
    {
        &self.dec
    }

    /// The increments minus the decrements, or the reason why that number
    /// cannot be handed out: see `reading`.
    pub fn try_value(&self) -> (r: Result<i64, CounterError>)
        requires
            self.wf(),
        ensures
            r == reading(self@),
    {
        let gains: u64 = match self.inc.try_value() {
            Ok(v) => v,
            Err(_) => {
                return Err(CounterError::Overflow);
            },
        };
        let losses: u64 = match self.dec.try_value() {
            Ok(v) => v,
            Err(_) => {
                return Err(CounterError::Overflow);
            },
        };
        if gains < losses {
            return Err(CounterError::Conversion);
        }
        let difference: u64 = gains - losses;
        if difference > 0x7fff_ffff_ffff_ffff {
            return Err(CounterError::Conversion);
        }
        Ok(difference as i64)
    }

    /// The increments minus the decrements. The counter must have a value:
    /// `try_value` reports the counters that have none.
    pub fn value(&self) -> (v: i64)
        requires
            self.wf(),
            reading(self@) is Ok,
        ensures
            v == net(self@),
    {
        self.try_value().expect("overflow")
    }

    /// Takes over what `other` knows, for increments and decrements alike.
    pub fn merge(&mut self, other: PNCounter)
        requires
            old(self).wf(),
            other.wf(),
        ensures
            final(self).wf(),
            final(self)@ == pn_merged(old(self)@, other@),
    {
        self.inc.merge(other.inc);
        self.dec.merge(other.dec);
    }

    /// Counts `count` upwards for `replica`.
    pub fn inc(&mut self, replica: String, count: u64)
        requires
            old(self).wf(),
        ensures
            final(self).wf(),
            final(self)@ == pn_incremented(old(self)@, replica@, count),
    {
        self.inc.inc(replica, count);
    }

    /// Counts `count` downwards for `replica`.
    pub fn dec(&mut self, replica: String, count: u64)
        requires
            old(self).wf(),
        ensures
            final(self).wf(),
            final(self)@ == pn_decremented(old(self)@, replica@, count),
    {
        self.dec.inc(replica, count);
    }
}

/// Merging is commutative: the order of the two states does not matter,
/// neither for the state nor for its value.
pub proof fn lemma_pn_merge_commutative(a: PNState, b: PNState)
    ensures
        pn_merged(a, b) == pn_merged(b, a),
        net(pn_merged(a, b)) == net(pn_merged(b, a)),
        reading(pn_merged(a, b)) == reading(pn_merged(b, a)),
{
    lemma_merge_commutative(a.inc, b.inc);
    lemma_merge_commutative(a.dec, b.dec);
}

/// Merging is associative: three states can be merged in either grouping.
pub proof fn lemma_pn_merge_associative(a: PNState, b: PNState, c: PNState)
    ensures
        pn_merged(pn_merged(a, b), c) == pn_merged(a, pn_merged(b, c)),
{
    lemma_merge_associative(a.inc, b.inc, c.inc);
    lemma_merge_associative(a.dec, b.dec, c.dec);
}

/// Merging is idempotent: a state merged with itself is unchanged.
pub proof fn lemma_pn_merge_idempotent(a: PNState)
    ensures
        pn_merged(a, a) == a,
{
    lemma_merge_idempotent(a.inc);
    lemma_merge_idempotent(a.dec);
}

/// Merging a state a second time changes nothing.
pub proof fn lemma_pn_merge_twice(a: PNState, b: PNState)
    ensures
        pn_merged(pn_merged(a, b), b) == pn_merged(a, b),
{
    lemma_merge_twice(a.inc, b.inc);
    lemma_merge_twice(a.dec, b.dec);
}

/// The empty state is the identity of merging, on either side.
pub proof fn lemma_pn_merge_empty(a: PNState)
    ensures
        pn_merged(a, pn_empty()) == a,
        pn_merged(pn_empty(), a) == a,
{
    lemma_merge_empty(a.inc);
    lemma_merge_empty(a.dec);
}

} // verus!
