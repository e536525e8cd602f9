use crdt_counters::{CounterError, PNCounter};
use std::collections::HashMap;

fn name(s: &str) -> String {
    s.to_string()
}

fn state(c: &PNCounter) -> (HashMap<String, u64>, HashMap<String, u64>) {
    (
        c.increments().entries().into_iter().collect(),
        c.decrements().entries().into_iter().collect(),
    )
}

fn counter_a() -> PNCounter {
    let mut c = PNCounter::new();
    c.inc(name("a"), 10);
    c.dec(name("a"), 2);
    c.inc(name("b"), 12);
    c
}

fn counter_b() -> PNCounter {
    let mut c = PNCounter::new();
    c.inc(name("a"), 10);
    c.inc(name("b"), 12);
    c.dec(name("b"), 2);
    c
}

#[test]
fn test_pncounter() {
    let mut counter_a = PNCounter::new();
    counter_a.inc("a".to_string(), 10);
    counter_a.dec("a".to_string(), 2);
    counter_a.inc("b".to_string(), 12);

    let mut counter_b = PNCounter::new();
    counter_b.inc("a".to_string(), 10);
    counter_b.inc("b".to_string(), 12);
    counter_b.dec("b".to_string(), 2);

    counter_a.merge(counter_b);
    println!("{:#?}", counter_a);
    assert_eq!(counter_a.value(), 18);
}

#[test]
fn new_pncounter_is_zero() {
    let c = PNCounter::new();
    assert_eq!(c.value(), 0);
    assert_eq!(c.try_value(), Ok(0));
}

#[test]
fn inc_and_dec_move_the_value() {
    let mut c = PNCounter::new();
    c.inc(name("a"), 10);
    assert_eq!(c.value(), 10);
    c.dec(name("a"), 4);
    assert_eq!(c.value(), 6);
    c.dec(name("b"), 6);
    assert_eq!(c.value(), 0);
    c.inc(name("b"), 1);
    assert_eq!(c.value(), 1);
}

#[test]
fn values_before_the_merge() {
    assert_eq!(counter_a().value(), 20);
    assert_eq!(counter_b().value(), 20);
}

#[test]
fn more_decrements_than_increments_is_a_conversion_error() {
    let mut c = PNCounter::new();
    c.inc(name("a"), 1);
    c.dec(name("a"), 2);
    assert_eq!(c.try_value(), Err(CounterError::Conversion));
    c.inc(name("b"), 1);
    assert_eq!(c.try_value(), Ok(0));
}

#[test]
fn difference_past_the_signed_range_is_a_conversion_error() {
    let mut c = PNCounter::new();
    c.inc(name("a"), i64::MAX as u64);
    assert_eq!(c.try_value(), Ok(i64::MAX));
    assert_eq!(c.value(), i64::MAX);
    c.inc(name("a"), 1);
    assert_eq!(c.try_value(), Err(CounterError::Conversion));
    c.dec(name("b"), 1);
    assert_eq!(c.try_value(), Ok(i64::MAX));
}

#[test]
fn sum_past_the_unsigned_range_is_an_overflow() {
    let mut c = PNCounter::new();
    c.inc(name("a"), u64::MAX);
    c.inc(name("b"), 1);
    c.dec(name("a"), u64::MAX);
    assert_eq!(c.try_value(), Err(CounterError::Overflow));

    let mut d = PNCounter::new();
    d.dec(name("a"), u64::MAX);
    d.dec(name("b"), 1);
    assert_eq!(d.try_value(), Err(CounterError::Overflow));
}

#[test]
fn pn_merge_is_commutative() {
    let mut ab = counter_a();
    ab.merge(counter_b());
    let mut ba = counter_b();
    ba.merge(counter_a());
    assert_eq!(ab.value(), 18);
    assert_eq!(ba.value(), 18);
    assert_eq!(state(&ab), state(&ba));
}

#[test]
fn pn_merge_is_associative() {
    let third = || {
        let mut c = PNCounter::new();
        c.inc(name("c"), 5);
        c.dec(name("a"), 3);
        c
    };
    let mut left = counter_a();
    left.merge(counter_b());
    left.merge(third());
    let mut bc = counter_b();
    bc.merge(third());
    let mut right = counter_a();
    right.merge(bc);
    assert_eq!(state(&left), state(&right));
    assert_eq!(left.value(), 27 - 5);
    assert_eq!(right.value(), 22);
}

#[test]
fn pn_merge_is_idempotent() {
    let mut a = counter_a();
    a.merge(counter_a());
    assert_eq!(a.value(), 20);
    assert_eq!(state(&a), state(&counter_a()));
}

#[test]
fn pn_duplicate_merge_changes_nothing() {
    let mut a = counter_a();
    a.merge(counter_b());
    let once = state(&a);
    a.merge(counter_b());
    assert_eq!(state(&a), once);
    assert_eq!(a.value(), 18);
}

#[test]
fn pn_merge_with_empty() {
    let mut c = counter_a();
    c.merge(PNCounter::new());
    assert_eq!(c.value(), 20);
    assert_eq!(state(&c), state(&counter_a()));
    let mut e = PNCounter::new();
    e.merge(counter_a());
    assert_eq!(e.value(), 20);
    assert_eq!(state(&e), state(&counter_a()));
}

#[test]
fn replicas_agree_after_any_interleaving() {
    let mut a = PNCounter::new();
    let mut b = PNCounter::new();
    a.inc(name("a"), 7);
    b.dec(name("b"), 1);
    b.inc(name("b"), 30);
    a.dec(name("a"), 2);
    a.inc(name("a"), 5);
    b.dec(name("b"), 4);
    let rebuild_b = || {
        let mut c = PNCounter::new();
        c.dec(name("b"), 1);
        c.inc(name("b"), 30);
        c.dec(name("b"), 4);
        c
    };
    let rebuild_a = || {
        let mut c = PNCounter::new();
        c.inc(name("a"), 7);
        c.dec(name("a"), 2);
        c.inc(name("a"), 5);
        c
    };
    let expected: i64 = (7 + 5 + 30) - (2 + 1 + 4);
    a.merge(rebuild_b());
    assert_eq!(a.value(), expected);
    a.merge(rebuild_b());
    assert_eq!(a.value(), expected);
    b.merge(rebuild_a());
    assert_eq!(b.value(), expected);
    b.merge(a);
    assert_eq!(b.value(), 35);
}

#[test]
fn merged_state_holds_the_larger_magnitudes() {
    let mut a = counter_a();
    a.merge(counter_b());
    assert_eq!(a.increments().get(&name("a")), Some(10));
    assert_eq!(a.increments().get(&name("b")), Some(12));
    assert_eq!(a.increments().value(), 22);
    assert_eq!(a.decrements().get(&name("a")), Some(2));
    assert_eq!(a.decrements().get(&name("b")), Some(2));
    assert_eq!(a.decrements().value(), 4);
}

#[test]
fn dec_is_recorded_as_growth() {
    let mut c = PNCounter::new();
    c.inc(name("a"), 9);
    c.dec(name("a"), 3);
    c.dec(name("a"), 4);
    assert_eq!(c.increments().entries(), vec![(name("a"), 9)]);
    assert_eq!(c.decrements().entries(), vec![(name("a"), 7)]);
    assert_eq!(c.value(), 2);
}

#[test]
fn replicas_that_share_a_start_agree() {
    let start = || {
        let mut c = PNCounter::new();
        c.inc(name("a"), 10);
        c.inc(name("b"), 12);
        c
    };
    let mut a = start();
    a.dec(name("a"), 2);
    let mut b = start();
    b.dec(name("b"), 2);
    b.inc(name("b"), 5);
    a.merge(b);
    assert_eq!(a.value(), 22 + 5 - 2 - 2);
}
