//! The mathematical model of a counter's state: a finite map from replica
//! names to counts, with the operations and laws that make it a join
//! semilattice.

use vstd::prelude::*;

verus! {

/// What a grow-only counter holds: for each replica that was seen, its count.
pub type Tally = Map<Seq<char>, u64>;

/// The count recorded for `replica`, zero where the replica was never seen.
pub open spec fn count_of(t: Tally, replica: Seq<char>) -> u64 {
    if t.contains_key(replica) {
        t[replica]
    } else {
        0
    }
}

/// The sum of two counts, held at the largest representable count.
pub open spec fn capped_sum(a: u64, b: u64) -> u64 {
    if a + b > u64::MAX {
        u64::MAX
    } else {
        (a + b) as u64
    }
}

/// The larger of two counts.
pub open spec fn larger(a: u64, b: u64) -> u64 {
    if a >= b {
        a
    } else {
        b
    }
}

/// The sum of all counts of a finite tally, as an unbounded number.
pub open spec fn total(t: Tally) -> nat
    decreases t.dom().len(),
    when t.dom().finite()
{
    if t.dom().len() == 0 {
        0
    } else {
        let r = t.dom().choose();
        t[r] as nat + total(t.remove(r))
    }
}

/// The tally after `replica` has counted `amount` more: its entry is created
/// at `amount` or raised by it, and stops at `u64::MAX`.
pub open spec fn incremented(t: Tally, replica: Seq<char>, amount: u64) -> Tally {
    t.insert(replica, capped_sum(count_of(t, replica), amount))
}

/// The join of two tallies: every replica of either, with the larger count.
pub open spec fn merged(a: Tally, b: Tally) -> Tally {
    Map::new(
        |r: Seq<char>| a.contains_key(r) || b.contains_key(r),
        |r: Seq<char>| larger(count_of(a, r), count_of(b, r)),
    )
}

/// `a` is below `b`: `b` knows every replica of `a` with at least its count.
pub open spec fn below(a: Tally, b: Tally) -> bool {
    forall|r: Seq<char>| #[trigger] a.contains_key(r) ==> b.contains_key(r) && a[r] <= b[r]
}

/// Any entry can be taken out of the sum first.
pub proof fn lemma_total_remove(t: Tally, replica: Seq<char>)
    requires
        t.dom().finite(),
        t.contains_key(replica),
    ensures
        total(t) == t[replica] + total(t.remove(replica)),
    decreases t.dom().len(),
{
    let r = t.dom().choose();
    if r != replica {
        lemma_total_remove(t.remove(r), replica);
        lemma_total_remove(t.remove(replica), r);
        assert(t.remove(r).remove(replica) =~= t.remove(replica).remove(r));
    }
}

/// Writing an entry replaces its old share of the sum by the new count.
pub proof fn lemma_total_insert(t: Tally, replica: Seq<char>, count: u64)
    requires
        t.dom().finite(),
    ensures
        total(t.insert(replica, count)) == total(t) - count_of(t, replica) + count,
{
    let u = t.insert(replica, count);
    lemma_total_remove(u, replica);
    assert(u.remove(replica) =~= t.remove(replica));
    if t.contains_key(replica) {
        lemma_total_remove(t, replica);
    } else {
        assert(t.remove(replica) =~= t);
    }
}

/// A tally that is below another has no larger sum.
pub proof fn lemma_total_below(a: Tally, b: Tally)
    requires
        a.dom().finite(),
        b.dom().finite(),
        below(a, b),
    ensures
        total(a) <= total(b),
    decreases a.dom().len(),
{
    if a.dom().len() != 0 {
        let r = a.dom().choose();
        assert(a.contains_key(r));
        lemma_total_remove(a, r);
        lemma_total_remove(b, r);
        assert forall|k: Seq<char>| #[trigger] a.remove(r).contains_key(k) implies b.remove(
            r,
        ).contains_key(k) && a.remove(r)[k] <= b.remove(r)[k] by {
            assert(a.contains_key(k));
        }
        lemma_total_below(a.remove(r), b.remove(r));
    }
}

/// A join of finite tallies is finite.
pub proof fn lemma_merged_finite(a: Tally, b: Tally)
    requires
        a.dom().finite(),
        b.dom().finite(),
    ensures
        merged(a, b).dom().finite(),
{
    assert(merged(a, b).dom() =~= a.dom().union(b.dom()));
}

/// Merging is commutative: the order of the two states does not matter,
/// neither for the map nor for its sum.
pub proof fn lemma_merge_commutative(a: Tally, b: Tally)
    ensures
        merged(a, b) == merged(b, a),
        total(merged(a, b)) == total(merged(b, a)),
{
    assert(merged(a, b) =~= merged(b, a));
}

/// Merging is associative: three states can be merged in either grouping.
pub proof fn lemma_merge_associative(a: Tally, b: Tally, c: Tally)
    ensures
        merged(merged(a, b), c) == merged(a, merged(b, c)),
{
    assert(merged(merged(a, b), c) =~= merged(a, merged(b, c)));
}

/// Merging is idempotent: a state merged with itself is unchanged.
pub proof fn lemma_merge_idempotent(a: Tally)
    ensures
        merged(a, a) == a,
{
    assert(merged(a, a) =~= a);
}

/// Merging a state a second time changes nothing.
pub proof fn lemma_merge_twice(a: Tally, b: Tally)
    ensures
        merged(merged(a, b), b) == merged(a, b),
{
    assert(merged(merged(a, b), b) =~= merged(a, b));
}

/// The empty tally is the identity of merging, on either side.
pub proof fn lemma_merge_empty(a: Tally)
    ensures
        merged(a, Map::empty()) == a,
        merged(Map::empty(), a) == a,
{
    assert(merged(a, Map::empty()) =~= a);
    assert(merged(Map::empty(), a) =~= a);
}

/// A join is an upper bound of both states, and the least one.
pub proof fn lemma_merge_least_upper_bound(a: Tally, b: Tally, c: Tally)
    ensures
        below(a, merged(a, b)),
        below(b, merged(a, b)),
        below(a, c) && below(b, c) ==> below(merged(a, b), c),
{
}

/// An increment moves a state upwards.
pub proof fn lemma_increment_grows(t: Tally, replica: Seq<char>, amount: u64)
    ensures
        below(t, incremented(t, replica, amount)),
{
}

/// The sum never decreases under a merge.
pub proof fn lemma_merge_total_monotone(a: Tally, b: Tally)
    requires
        a.dom().finite(),
        b.dom().finite(),
    ensures
        merged(a, b).dom().finite(),
        total(merged(a, b)) >= total(a),
        total(merged(a, b)) >= total(b),
{
    lemma_merged_finite(a, b);
    lemma_merge_least_upper_bound(a, b, a);
    lemma_total_below(a, merged(a, b));
    lemma_total_below(b, merged(a, b));
}

/// The sum never decreases under an increment, and grows by exactly the
/// amount unless the entry reaches `u64::MAX`.
pub proof fn lemma_increment_total(t: Tally, replica: Seq<char>, amount: u64)
    requires
        t.dom().finite(),
    ensures
        total(incremented(t, replica, amount)) >= total(t),
        count_of(t, replica) + amount <= u64::MAX ==> total(incremented(t, replica, amount))
            == total(t) + amount,
{
    lemma_total_insert(t, replica, capped_sum(count_of(t, replica), amount));
}

/// Two increments of one replica add up: they leave the state that one
/// increment by the sum of both amounts leaves. The replica's entry is then
/// the entry before plus both amounts, held at `u64::MAX`, and no other
/// entry has changed.
pub proof fn lemma_increment_additive(t: Tally, replica: Seq<char>, x: u64, y: u64)
    ensures
        incremented(incremented(t, replica, x), replica, y) == incremented(
            t,
            replica,
            capped_sum(x, y),
        ),
        count_of(t, replica) + x + y <= u64::MAX ==> count_of(
            incremented(incremented(t, replica, x), replica, y),
            replica,
        ) == count_of(t, replica) + (x + y),
        count_of(t, replica) + x + y > u64::MAX ==> count_of(
            incremented(incremented(t, replica, x), replica, y),
            replica,
        ) == u64::MAX,
        forall|other: Seq<char>|
            other != replica ==> (incremented(incremented(t, replica, x), replica, y).contains_key(
                other,
            ) <==> t.contains_key(other)) && count_of(
                incremented(incremented(t, replica, x), replica, y),
                other,
            ) == count_of(t, other),
{
    assert(incremented(incremented(t, replica, x), replica, y) =~= incremented(
        t,
        replica,
        capped_sum(x, y),
    ));
}

/// Where two states share no replica, the sum of their join is the sum of
/// their sums.
pub proof fn lemma_merge_total_disjoint(a: Tally, b: Tally)
    requires
        a.dom().finite(),
        b.dom().finite(),
        a.dom().disjoint(b.dom()),
    ensures
        total(merged(a, b)) == total(a) + total(b),
    decreases b.dom().len(),
{
    if b.dom().len() == 0 {
        assert(merged(a, b) =~= a);
    } else {
        let r = b.dom().choose();
        assert(b.contains_key(r));
        assert(!a.contains_key(r));
        lemma_merged_finite(a, b);
        lemma_total_remove(b, r);
        lemma_total_remove(merged(a, b), r);
        assert(merged(a, b).remove(r) =~= merged(a, b.remove(r)));
        lemma_merge_total_disjoint(a, b.remove(r));
    }
}

} // verus!
