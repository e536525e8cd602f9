//! Histories: the updates and merges that a counter goes through. Along any
//! history the value of a grow-only counter never decreases, and replicas
//! that update their own copies independently agree on one value once they
//! have merged.

use crate::pncounter::{PNState, net, pn_decremented, pn_finite, pn_incremented, pn_merged};
use crate::tally::{
    Tally, below, count_of, incremented, lemma_increment_grows, lemma_increment_total,
    lemma_merge_commutative, lemma_merge_least_upper_bound, lemma_merge_total_monotone,
    lemma_merge_twice, lemma_total_insert,
    merged, total,
};
use vstd::prelude::*;

verus! {

/// One change to a grow-only counter.
pub enum Change {
    /// The named replica counts the given amount.
    Inc(Seq<char>, u64),
    /// The given state of another counter is merged in.
    Merge(Tally),
}

/// The tally after one change.
pub open spec fn changed(t: Tally, change: Change) -> Tally {
    match change {
        Change::Inc(replica, amount) => incremented(t, replica, amount),
        Change::Merge(other) => merged(t, other),
    }
}

/// The tally after the first `n` of `changes`, in order.
pub open spec fn after_changes(t: Tally, changes: Seq<Change>, n: int) -> Tally
    decreases n,
{
    if n <= 0 || n > changes.len() {
        t
    } else {
        changed(after_changes(t, changes, n - 1), changes[n - 1])
    }
}

/// Every state that `changes` merges in is finite, as the state of a
/// counter is.
pub open spec fn merges_finite(changes: Seq<Change>) -> bool {
    forall|i: int|
        0 <= i < changes.len() ==> match #[trigger] changes[i] {
            Change::Inc(_, _) => true,
            Change::Merge(other) => other.dom().finite(),
        }
}

/// Along any sequence of increments and merges, the value of a grow-only
/// counter never decreases, and neither does the count of any replica: what
/// holds after `i` changes is below what holds after `j >= i` of them.
pub proof fn lemma_value_never_decreases(t: Tally, changes: Seq<Change>, i: int, j: int)
    requires
        t.dom().finite(),
        merges_finite(changes),
        0 <= i <= j <= changes.len(),
    ensures
        after_changes(t, changes, j).dom().finite(),
        below(after_changes(t, changes, i), after_changes(t, changes, j)),
        total(after_changes(t, changes, i)) <= total(after_changes(t, changes, j)),
    decreases j,
{
    if j == 0 {
    } else if i == j {
        lemma_value_never_decreases(t, changes, i - 1, j - 1);
        let earlier = after_changes(t, changes, j - 1);
        match changes[j - 1] {
            Change::Inc(replica, amount) => {},
            Change::Merge(other) => {
                lemma_merge_total_monotone(earlier, other);
            },
        }
    } else {
        lemma_value_never_decreases(t, changes, i, j - 1);
        let earlier = after_changes(t, changes, j - 1);
        match changes[j - 1] {
            Change::Inc(replica, amount) => {
                lemma_increment_grows(earlier, replica, amount);
                lemma_increment_total(earlier, replica, amount);
            },
            Change::Merge(other) => {
                lemma_merge_least_upper_bound(earlier, other, earlier);
                lemma_merge_total_monotone(earlier, other);
            },
        }
    }
}

/// One local update of a replica.
pub enum Step {
    /// An increment by the given amount.
    Inc(u64),
    /// A decrement by the given amount.
    Dec(u64),
}

/// The state after `replica` has made one update.
pub open spec fn stepped(s: PNState, replica: Seq<char>, step: Step) -> PNState {
    match step {
        Step::Inc(amount) => pn_incremented(s, replica, amount),
        Step::Dec(amount) => pn_decremented(s, replica, amount),
    }
}

/// The state after `replica` has made the updates of `steps`, in order.
pub open spec fn replayed(s: PNState, replica: Seq<char>, steps: Seq<Step>) -> PNState
    decreases steps.len(),
{
    if steps.len() == 0 {
        s
    } else {
        stepped(replayed(s, replica, steps.drop_last()), replica, steps.last())
    }
}

/// The sum of the increments among `steps`.
pub open spec fn gained(steps: Seq<Step>) -> nat
    decreases steps.len(),
{
    if steps.len() == 0 {
        0
    } else {
        gained(steps.drop_last()) + match steps.last() {
            Step::Inc(amount) => amount as nat,
            Step::Dec(_) => 0,
        }
    }
}

/// The sum of the decrements among `steps`.
pub open spec fn lost(steps: Seq<Step>) -> nat
    decreases steps.len(),
{
    if steps.len() == 0 {
        0
    } else {
        lost(steps.drop_last()) + match steps.last() {
            Step::Inc(_) => 0,
            Step::Dec(amount) => amount as nat,
        }
    }
}

/// By how much the entry of `replica` in `t` grows when the replica counts
/// `amount` more in all: by `amount`, unless the entry stops at `u64::MAX`.
pub open spec fn raise(t: Tally, replica: Seq<char>, amount: nat) -> int {
    if count_of(t, replica) + amount > u64::MAX {
        u64::MAX - count_of(t, replica)
    } else {
        amount as int
    }
}

/// `t` is `base` after `replica` alone has counted `amount` more in all:
/// every other entry is as it was, and the entry of `replica`, if there is
/// one, has grown by `raise(base, replica, amount)`.
pub open spec fn advanced(base: Tally, t: Tally, replica: Seq<char>, amount: nat) -> bool {
    &&& t.dom().finite()
    &&& forall|r: Seq<char>|
        r != replica ==> (#[trigger] t.contains_key(r) <==> base.contains_key(r)) && count_of(t, r)
            == count_of(base, r)
    &&& base.contains_key(replica) ==> t.contains_key(replica)
    &&& count_of(t, replica) == count_of(base, replica) + raise(base, replica, amount)
}

/// Replaying the updates of one replica touches only that replica's two
/// entries, which grow by the sums of its increments and of its decrements.
pub proof fn lemma_replayed_advances(base: PNState, replica: Seq<char>, steps: Seq<Step>)
    requires
        pn_finite(base),
    ensures
        advanced(base.inc, replayed(base, replica, steps).inc, replica, gained(steps)),
        advanced(base.dec, replayed(base, replica, steps).dec, replica, lost(steps)),
    decreases steps.len(),
{
    if steps.len() > 0 {
        lemma_replayed_advances(base, replica, steps.drop_last());
    }
}

/// The sum of a tally that one replica has advanced is the sum before plus
/// the growth of that replica's entry.
pub proof fn lemma_advanced_total(base: Tally, t: Tally, replica: Seq<char>, amount: nat)
    requires
        base.dom().finite(),
        advanced(base, t, replica, amount),
    ensures
        total(t) == total(base) + raise(base, replica, amount),
{
    if t.contains_key(replica) {
        assert(t =~= base.insert(replica, t[replica]));
        lemma_total_insert(base, replica, t[replica]);
    } else {
        assert(t =~= base);
    }
}

/// Where two replicas have advanced the same tally, each its own entry, the
/// sum of the join holds the growth of both.
pub proof fn lemma_advanced_merge_total(
    base: Tally,
    ta: Tally,
    ra: Seq<char>,
    na: nat,
    tb: Tally,
    rb: Seq<char>,
    nb: nat,
)
    requires
        base.dom().finite(),
        ra != rb,
        advanced(base, ta, ra, na),
        advanced(base, tb, rb, nb),
    ensures
        total(merged(ta, tb)) == total(base) + raise(base, ra, na) + raise(base, rb, nb),
{
    lemma_advanced_total(base, ta, ra, na);
    let m = merged(ta, tb);
    assert(tb.contains_key(ra) <==> base.contains_key(ra));
    assert(ta.contains_key(rb) <==> base.contains_key(rb));
    if tb.contains_key(rb) {
        assert(m =~= ta.insert(rb, tb[rb]));
        lemma_total_insert(ta, rb, tb[rb]);
    } else {
        assert(m =~= ta);
    }
}

/// Two replicas that start from the same state and update it independently,
/// each under its own name and in any interleaving, agree after a merge: the
/// value is that of the common state plus all increments minus all
/// decrements of both, an entry that reached `u64::MAX` counting only up to
/// there. The order of the merge does not matter, nor does merging again.
pub proof fn lemma_replicas_converge(
    base: PNState,
    ra: Seq<char>,
    sa: Seq<Step>,
    rb: Seq<char>,
    sb: Seq<Step>,
)
    requires
        pn_finite(base),
        ra != rb,
    ensures
        ({
            let a = replayed(base, ra, sa);
            let b = replayed(base, rb, sb);
            let m = pn_merged(a, b);
            &&& net(m) == net(base) + raise(base.inc, ra, gained(sa)) + raise(
                base.inc,
                rb,
                gained(sb),
            ) - raise(base.dec, ra, lost(sa)) - raise(base.dec, rb, lost(sb))
            &&& pn_merged(b, a) == m
            &&& pn_merged(m, b) == m
            &&& pn_merged(pn_merged(b, a), a) == m
        }),
{
    let a = replayed(base, ra, sa);
    let b = replayed(base, rb, sb);
    lemma_replayed_advances(base, ra, sa);
    lemma_replayed_advances(base, rb, sb);
    lemma_advanced_merge_total(base.inc, a.inc, ra, gained(sa), b.inc, rb, gained(sb));
    lemma_advanced_merge_total(base.dec, a.dec, ra, lost(sa), b.dec, rb, lost(sb));
    lemma_merge_commutative(a.inc, b.inc);
    lemma_merge_commutative(a.dec, b.dec);
    lemma_merge_twice(a.inc, b.inc);
    lemma_merge_twice(a.dec, b.dec);
    lemma_merge_twice(b.inc, a.inc);
    lemma_merge_twice(b.dec, a.dec);
}

/// Two replicas that start empty and stay below `u64::MAX` agree, after a
/// merge in either order, on the sum of all increments minus the sum of all
/// decrements that either of them has made.
pub proof fn lemma_replicas_count_exactly(
    ra: Seq<char>,
    sa: Seq<Step>,
    rb: Seq<char>,
    sb: Seq<Step>,
)
    requires
        ra != rb,
        gained(sa) <= u64::MAX,
        gained(sb) <= u64::MAX,
        lost(sa) <= u64::MAX,
        lost(sb) <= u64::MAX,
    ensures
        ({
            let a = replayed(crate::pncounter::pn_empty(), ra, sa);
            let b = replayed(crate::pncounter::pn_empty(), rb, sb);
            &&& net(pn_merged(a, b)) == gained(sa) + gained(sb) - lost(sa) - lost(sb)
            &&& net(pn_merged(b, a)) == gained(sa) + gained(sb) - lost(sa) - lost(sb)
            &&& net(pn_merged(pn_merged(a, b), b)) == gained(sa) + gained(sb) - lost(sa) - lost(sb)
        }),
{
    lemma_replicas_converge(crate::pncounter::pn_empty(), ra, sa, rb, sb);
}

} // verus!
