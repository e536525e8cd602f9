//! The grow-only counter.

use crate::error::CounterError;
use crate::tally::{
    Tally, below, count_of, incremented, larger, lemma_increment_grows, lemma_increment_total,
    lemma_merge_empty, lemma_merge_least_upper_bound, lemma_merge_total_monotone,
    lemma_total_below, lemma_total_insert, merged, total,
};
use vstd::prelude::*;

verus! {

/// A counter that only grows: each replica adds to its own entry, and two
/// counters are reconciled by taking the larger count of every replica.
///
/// The state is a list of entries in which no replica occurs twice; what it
/// stands for is the map from replicas to counts that `view` gives.
#[derive(Debug)]
pub struct GCounter {
    entries: Vec<(String, u64)>,
}

/// Some entry of `es` belongs to `replica`.
spec fn has_entry(es: Seq<(String, u64)>, replica: Seq<char>) -> bool {
    exists|i: int| 0 <= i < es.len() && (#[trigger] es[i]).0@ == replica
}

/// The place of an entry of `replica` in `es`.
spec fn place_of(es: Seq<(String, u64)>, replica: Seq<char>) -> int {
    choose|i: int| 0 <= i < es.len() && (#[trigger] es[i]).0@ == replica
}

/// No replica has two entries in `es`.
spec fn distinct(es: Seq<(String, u64)>) -> bool {
    forall|i: int, j: int|
        0 <= i < j < es.len() ==> (#[trigger] es[i]).0@ != (#[trigger] es[j]).0@
}

/// The tally that a list of entries stands for.
spec fn tally_of(es: Seq<(String, u64)>) -> Tally {
    Map::new(|r: Seq<char>| has_entry(es, r), |r: Seq<char>| es[place_of(es, r)].1)
}

/// In a list without repeated replicas, each entry is found at its own place.
proof fn lemma_entry(es: Seq<(String, u64)>, i: int)
    requires
        distinct(es),
        0 <= i < es.len(),
    ensures
        has_entry(es, es[i].0@),
        place_of(es, es[i].0@) == i,
        tally_of(es).contains_key(es[i].0@),
        tally_of(es)[es[i].0@] == es[i].1,
{
}

/// Appending an entry for a new replica inserts it into the tally.
proof fn lemma_push(es: Seq<(String, u64)>, e: (String, u64))
    requires
        distinct(es),
        !has_entry(es, e.0@),
    ensures
        distinct(es.push(e)),
        tally_of(es.push(e)) == tally_of(es).insert(e.0@, e.1),
{
    let fs = es.push(e);
    assert forall|i: int, j: int| 0 <= i < j < fs.len() implies (#[trigger] fs[i]).0@ != (
    #[trigger] fs[j]).0@ by {
        if j == es.len() {
            assert(es[i].0@ != e.0@);
        } else {
            assert(fs[i] == es[i] && fs[j] == es[j]);
        }
    }
    assert forall|r: Seq<char>| has_entry(fs, r) <==> (has_entry(es, r) || r == e.0@) by {
        if has_entry(es, r) {
            let i = place_of(es, r);
            assert(fs[i].0@ == r);
        }
        if r == e.0@ {
            assert(fs[es.len() as int].0@ == r);
        }
        if has_entry(fs, r) {
            let i = place_of(fs, r);
            if i < es.len() {
                assert(es[i].0@ == r);
            }
        }
    }
    assert forall|r: Seq<char>| has_entry(fs, r) implies #[trigger] tally_of(fs)[r] == tally_of(
        es,
    ).insert(e.0@, e.1)[r] by {
        let i = place_of(fs, r);
        lemma_entry(fs, i);
        if i < es.len() {
            assert(es[i] == fs[i]);
            lemma_entry(es, i);
        }
    }
    assert(tally_of(fs) =~= tally_of(es).insert(e.0@, e.1));
}

/// Rewriting the count of an entry rewrites it in the tally.
proof fn lemma_update(es: Seq<(String, u64)>, i: int, e: (String, u64))
    requires
        distinct(es),
        0 <= i < es.len(),
        e.0@ == es[i].0@,
    ensures
        distinct(es.update(i, e)),
        tally_of(es.update(i, e)) == tally_of(es).insert(e.0@, e.1),
{
    let fs = es.update(i, e);
    assert forall|a: int, b: int| 0 <= a < b < fs.len() implies (#[trigger] fs[a]).0@ != (
    #[trigger] fs[b]).0@ by {
        assert(fs[a].0@ == es[a].0@ && fs[b].0@ == es[b].0@);
    }
    assert forall|r: Seq<char>| has_entry(fs, r) <==> has_entry(es, r) by {
        if has_entry(es, r) {
            let j = place_of(es, r);
            assert(fs[j].0@ == r);
        }
        if has_entry(fs, r) {
            let j = place_of(fs, r);
            assert(es[j].0@ == r);
        }
    }
    lemma_entry(es, i);
    assert forall|r: Seq<char>| has_entry(fs, r) implies #[trigger] tally_of(fs)[r] == tally_of(
        es,
    ).insert(e.0@, e.1)[r] by {
        let j = place_of(fs, r);
        lemma_entry(fs, j);
        lemma_entry(es, j);
    }
    assert(tally_of(fs) =~= tally_of(es).insert(e.0@, e.1));
}

/// The tally of a list is finite and has one replica for each entry.
proof fn lemma_tally_size(es: Seq<(String, u64)>)
    requires
        distinct(es),
    ensures
        tally_of(es).dom().finite(),
        tally_of(es).dom().len() == es.len(),
    decreases es.len(),
{
    if es.len() == 0 {
        assert(tally_of(es) =~= Map::<Seq<char>, u64>::empty());
    } else {
        let front = es.drop_last();
        let e = es.last();
        assert(es =~= front.push(e));
        assert(distinct(front)) by {
            assert forall|i: int, j: int| 0 <= i < j < front.len() implies (#[trigger] front[i]).0@
                != (#[trigger] front[j]).0@ by {
                assert(front[i] == es[i] && front[j] == es[j]);
            }
        }
        assert(!has_entry(front, e.0@)) by {
            if has_entry(front, e.0@) {
                let i = place_of(front, e.0@);
                assert(es[i] == front[i]);
                assert(es[es.len() - 1] == e);
            }
        }
        lemma_tally_size(front);
        lemma_push(front, e);
        assert(!tally_of(front).contains_key(e.0@));
    }
}

/// Leaving out the last entry leaves a list without repeated replicas, in
/// which the replica of that entry does not occur.
proof fn lemma_drop_last(es: Seq<(String, u64)>)
    requires
        distinct(es),
        es.len() > 0,
    ensures
        distinct(es.drop_last()),
        !has_entry(es.drop_last(), es.last().0@),
        tally_of(es) == tally_of(es.drop_last()).insert(es.last().0@, es.last().1),
{
    let front = es.drop_last();
    let e = es.last();
    assert(es =~= front.push(e));
    assert forall|i: int, j: int| 0 <= i < j < front.len() implies (#[trigger] front[i]).0@ != (
    #[trigger] front[j]).0@ by {
        assert(front[i] == es[i] && front[j] == es[j]);
    }
    if has_entry(front, e.0@) {
        let i = place_of(front, e.0@);
        assert(es[i] == front[i]);
        assert(es[es.len() - 1] == e);
    }
    lemma_push(front, e);
}

/// A leading part of a list stands for a tally below that of the whole list.
proof fn lemma_take_below(es: Seq<(String, u64)>, n: int)
    requires
        distinct(es),
        0 <= n <= es.len(),
    ensures
        distinct(es.take(n)),
        below(tally_of(es.take(n)), tally_of(es)),
{
    let front = es.take(n);
    assert forall|i: int, j: int| 0 <= i < j < front.len() implies (#[trigger] front[i]).0@ != (
    #[trigger] front[j]).0@ by {
        assert(front[i] == es[i] && front[j] == es[j]);
    }
    assert forall|r: Seq<char>| #[trigger] tally_of(front).contains_key(r) implies tally_of(
        es,
    ).contains_key(r) && tally_of(front)[r] <= tally_of(es)[r] by {
        let i = place_of(front, r);
        assert(es[i] == front[i]);
        lemma_entry(front, i);
        lemma_entry(es, i);
    }
}

impl View for GCounter {
    type V = Tally;

    closed spec fn view(&self) -> Tally {
        tally_of(self.entries@)
    }
}

impl GCounter {
    /// The counter is well formed: no replica has two entries.
    pub closed spec fn wf(&self) -> bool {
        distinct(self.entries@)
    }

    /// A well-formed counter has seen finitely many replicas.
    pub proof fn lemma_finite(&self)
        requires
            self.wf(),
        ensures
            self@.dom().finite(),
    {
        lemma_tally_size(self.entries@);
    }

    /// The empty counter: no replica was seen, and the value is zero.
    pub fn new() -> (c: GCounter)
        ensures
            c.wf(),
            c@ == Map::<Seq<char>, u64>::empty(),
    {
        let c = GCounter { entries: Vec::new() };
        assert(c@ =~= Map::<Seq<char>, u64>::empty());
        c
    }

    /// The place of the entry of `replica`, if it has one.
    fn find(&self, replica: &String) -> (r: Option<usize>)
        requires
            self.wf(),
        ensures
            match r {
                Some(i) => i < self.entries.len() && self.entries@[i as int].0@ == replica@,
                None => !has_entry(self.entries@, replica@),
            },
    {
        let mut i: usize = 0;
        while i < self.entries.len()
            invariant
                i <= self.entries.len(),
                forall|j: int| 0 <= j < i ==> (#[trigger] self.entries@[j]).0@ != replica@,
            decreases self.entries.len() - i,
        {
            if self.entries[i].0 == *replica {
                return Some(i);
            }
            i += 1;
        }
        None
    }

    /// The number of replicas that the counter has seen.
    pub fn len(&self) -> (n: usize)
        requires
            self.wf(),
        ensures
            n == self@.dom().len(),
    {
        proof {
            lemma_tally_size(self.entries@);
        }
        self.entries.len()
    }

    /// The count recorded for `replica`; `None` where it was never seen.
    pub fn get(&self, replica: &String) -> (r: Option<u64>)
        requires
            self.wf(),
        ensures
            r == (if self@.contains_key(replica@) {
                Some(self@[replica@])
            } else {
                None
            }),
    {
        match self.find(replica) {
            Some(i) => {
                proof {
                    lemma_entry(self.entries@, i as int);
                }
                Some(self.entries[i].1)
            },
            None => None,
        }
    }

    /// All entries, each replica once with its count: the whole state, as a
    /// list that can be handed on.
    pub fn entries(&self) -> (out: Vec<(String, u64)>)
        requires
            self.wf(),
        ensures
            out@.len() == self@.dom().len(),
            forall|i: int|
                0 <= i < out@.len() ==> self@.contains_key((#[trigger] out@[i]).0@) && self@[out@[i].0@]
                    == out@[i].1,
            forall|i: int, j: int|
                0 <= i < j < out@.len() ==> (#[trigger] out@[i]).0@ != (#[trigger] out@[j]).0@,
            forall|r: Seq<char>| #[trigger]
                self@.contains_key(r) ==> exists|i: int|
                    0 <= i < out@.len() && (#[trigger] out@[i]).0@ == r,
    {
        let mut out: Vec<(String, u64)> = Vec::new();
        let mut i: usize = 0;
        proof {
            lemma_tally_size(self.entries@);
        }
        while i < self.entries.len()
            invariant
                self.wf(),
                i <= self.entries.len(),
                out@.len() == i,
                forall|j: int|
                    0 <= j < i ==> (#[trigger] out@[j]).0@ == self.entries@[j].0@ && out@[j].1
                        == self.entries@[j].1,
            decreases self.entries.len() - i,
        {
            out.push((self.entries[i].0.clone(), self.entries[i].1));
            i += 1;
        }
        proof {
            assert forall|j: int| 0 <= j < out@.len() implies self@.contains_key(
                (#[trigger] out@[j]).0@,
            ) && self@[out@[j].0@] == out@[j].1 by {
                lemma_entry(self.entries@, j);
            }
            assert forall|a: int, b: int| 0 <= a < b < out@.len() implies (#[trigger] out@[a]).0@
                != (#[trigger] out@[b]).0@ by {
                assert(self.entries@[a].0@ != self.entries@[b].0@);
            }
            assert forall|r: Seq<char>| #[trigger] self@.contains_key(r) implies exists|i: int|
                0 <= i < out@.len() && (#[trigger] out@[i]).0@ == r by {
                let i = place_of(self.entries@, r);
                assert(out@[i].0@ == r);
            }
        }
        out
    }

    /// Adds `count` to the entry of `replica`, which is created where the
    /// replica was not seen before. An entry never exceeds `u64::MAX`: it
    /// stays there once a sum would pass it. No other entry changes.
    pub fn inc(&mut self, replica: String, count: u64)
        requires
            old(self).wf(),
        ensures
            final(self).wf(),
            final(self)@ == incremented(old(self)@, replica@, count),
            below(old(self)@, final(self)@),
            total(final(self)@) >= total(old(self)@),
    {
        proof {
            lemma_tally_size(self.entries@);
            lemma_increment_grows(self@, replica@, count);
            lemma_increment_total(self@, replica@, count);
        }
        match self.find(&replica) {
            Some(i) => {
                let now: u64 = self.entries[i].1.saturating_add(count);
                proof {
                    lemma_entry(self.entries@, i as int);
                    lemma_update(self.entries@, i as int, (self.entries@[i as int].0, now));
                }
                self.entries[i].1 = now;
            },
            None => {
                proof {
                    lemma_push(self.entries@, (replica, count));
                }
                self.entries.push((replica, count));
            },
        }
    }

    /// The sum of all counts, or `Overflow` where that sum does not fit in
    /// a `u64`.
    pub fn try_value(&self) -> (r: Result<u64, CounterError>)
        requires
            self.wf(),
        ensures
            r == (if total(self@) <= u64::MAX {
                Ok::<u64, CounterError>(total(self@) as u64)
            } else {
                Err::<u64, CounterError>(CounterError::Overflow)
            }),
    {
        let mut sum: u64 = 0;
        let mut i: usize = 0;
        proof {
            assert(tally_of(self.entries@.take(0)) =~= Map::<Seq<char>, u64>::empty());
        }
        while i < self.entries.len()
            invariant
                self.wf(),
                i <= self.entries.len(),
                sum == total(tally_of(self.entries@.take(i as int))),
            decreases self.entries.len() - i,
        {
            proof {
                let es = self.entries@;
                let next = es.take(i + 1);
                lemma_take_below(es, i + 1);
                assert(next.drop_last() =~= es.take(i as int));
                lemma_drop_last(next);
                lemma_tally_size(es);
                lemma_tally_size(next);
                lemma_tally_size(es.take(i as int));
                lemma_total_insert(
                    tally_of(es.take(i as int)),
                    es[i as int].0@,
                    es[i as int].1,
                );
                lemma_total_below(tally_of(next), tally_of(es));
            }
            match sum.checked_add(self.entries[i].1) {
                Some(s) => {
                    sum = s;
                },
                None => {
                    return Err(CounterError::Overflow);
                },
            }
            i += 1;
        }
        proof {
            assert(self.entries@.take(i as int) =~= self.entries@);
        }
        Ok(sum)
    }

    /// The sum of all counts. The sum must fit in a `u64`; `try_value`
    /// reports the counters of which it does not.
    pub fn value(&self) -> (v: u64)
        requires
            self.wf(),
            total(self@) <= u64::MAX,
        ensures
            v == total(self@),
    {
        self.try_value().expect("overflow")
    }

    /// Takes over what `other` knows: afterwards every replica of either
    /// counter has the larger of its two counts. Replicas that only `other`
    /// has seen are added with its count, the rest stay as they are.
    pub fn merge(&mut self, other: GCounter)
        requires
            old(self).wf(),
            other.wf(),
        ensures
            final(self).wf(),
            final(self)@ == merged(old(self)@, other@),
            below(old(self)@, final(self)@),
            below(other@, final(self)@),
            total(final(self)@) >= total(old(self)@),
            total(final(self)@) >= total(other@),
    {
        let ghost incoming = other.entries@;
        proof {
            lemma_merge_least_upper_bound(self@, other@, self@);
            lemma_tally_size(self.entries@);
            lemma_tally_size(incoming);
            lemma_merge_total_monotone(self@, other@);
            assert(tally_of(incoming.take(0)) =~= Map::<Seq<char>, u64>::empty());
            lemma_merge_empty(self@);
        }
        for entry in it: other.entries.into_iter()
            invariant
                self.wf(),
                distinct(incoming),
                it.seq() == incoming,
                self@ == merged(old(self)@, tally_of(incoming.take(it.index() as int))),
        {
            let ghost before = self@;
            let ghost seen = tally_of(incoming.take(it.index() as int));
            proof {
                let next = incoming.take(it.index() + 1);
                lemma_take_below(incoming, it.index() + 1);
                assert(next.drop_last() =~= incoming.take(it.index() as int));
                lemma_drop_last(next);
            }
            let (replica, theirs) = entry;
            match self.find(&replica) {
                Some(i) => {
                    let ours: u64 = self.entries[i].1;
                    let now: u64 = if ours >= theirs {
                        ours
                    } else {
                        theirs
                    };
                    proof {
                        lemma_entry(self.entries@, i as int);
                        lemma_update(self.entries@, i as int, (self.entries@[i as int].0, now));
                    }
                    self.entries[i].1 = now;
                },
                None => {
                    proof {
                        lemma_push(self.entries@, (replica, theirs));
                    }
                    self.entries.push((replica, theirs));
                },
            }
            proof {
                assert(self@ == before.insert(replica@, larger(count_of(before, replica@), theirs)));
                assert(self@ =~= merged(old(self)@, seen.insert(replica@, theirs)));
            }
        }
        proof {
            assert(incoming.take(incoming.len() as int) =~= incoming);
        }
    }
}

} // verus!
