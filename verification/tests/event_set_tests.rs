//! Tests for the event-set alphabets: the primitive τ/✔ alphabet, numbered
//! events, and their disjoint sum.

use hst::event_sets::{DisjointSum, EventSet};
use hst::numbered_events::NumberedEvents;
use hst::primitive_events::{PrimitiveEvents, Tau, Tick};

/// An event type that is useful in test cases: a numbered event or any of
/// the built-in event types.
type TestEvents = DisjointSum<PrimitiveEvents, NumberedEvents>;

#[test]
fn can_check_for_tau() {
    assert!(!PrimitiveEvents::empty().can_perform_tau());
    assert!(PrimitiveEvents::tau().can_perform_tau());
    assert!(PrimitiveEvents::universe().can_perform_tau());
}

#[test]
fn can_check_sum_for_tau() {
    assert!(!TestEvents::empty().can_perform_tau());
    assert!(TestEvents::tau().can_perform_tau());
    assert!(TestEvents::universe().can_perform_tau());
}

#[test]
fn can_check_for_tick() {
    assert!(!PrimitiveEvents::empty().can_perform_tick());
    assert!(PrimitiveEvents::tick().can_perform_tick());
    assert!(PrimitiveEvents::universe().can_perform_tick());
}

#[test]
fn can_check_sum_for_tick() {
    assert!(!TestEvents::empty().can_perform_tick());
    assert!(TestEvents::tick().can_perform_tick());
    assert!(TestEvents::universe().can_perform_tick());
}

#[test]
fn can_enumerate() {
    let collect = |events: PrimitiveEvents| events.enumerate();
    assert_eq!(collect(PrimitiveEvents::empty()), vec![]);
    assert_eq!(collect(PrimitiveEvents::tau()), vec![PrimitiveEvents::tau()]);
    assert_eq!(collect(PrimitiveEvents::tick()), vec![PrimitiveEvents::tick()]);
    assert_eq!(
        collect(PrimitiveEvents::universe()),
        vec![PrimitiveEvents::tau(), PrimitiveEvents::tick()]
    );
}

#[test]
fn can_enumerate_sum() {
    let collect = |events: TestEvents| events.enumerate();
    assert_eq!(collect(TestEvents::empty()), vec![]);
    assert_eq!(collect(TestEvents::tau()), vec![TestEvents::tau()]);
    assert_eq!(collect(TestEvents::tick()), vec![TestEvents::tick()]);
    assert_eq!(
        // TestEvents::universe would include all numbered events, too.
        collect(TestEvents::from_a(PrimitiveEvents::universe())),
        vec![TestEvents::tau(), TestEvents::tick()]
    );
}

#[test]
fn primitive_set_algebra() {
    let mut both = PrimitiveEvents::tau();
    both.union(&PrimitiveEvents::tick());
    assert!(both.can_perform_tau());
    assert!(both.can_perform_tick());
    both.subtract(&PrimitiveEvents::tau());
    assert!(!both.can_perform_tau());
    assert!(both.can_perform_tick());
    both.negate();
    assert!(both.can_perform_tau());
    assert!(!both.can_perform_tick());
    both.intersect(&PrimitiveEvents::empty());
    assert!(both.is_empty());
}

#[test]
fn numbered_events_membership() {
    let mut events = NumberedEvents::empty();
    assert!(events.is_empty());
    events.add(7);
    assert!(events.contains(7));
    assert!(!events.contains(8));
    assert!(!events.is_empty());
    let singles = events.enumerate();
    assert_eq!(singles.len(), 1);
    assert!(singles[0].contains(7));
}

#[test]
fn numbered_events_algebra() {
    let mut a = NumberedEvents::singleton(1);
    a.union(&NumberedEvents::singleton(2));
    assert!(a.contains(1) && a.contains(2));
    a.subtract(&NumberedEvents::singleton(1));
    assert!(!a.contains(1) && a.contains(2));
    let mut complement = a.clone();
    complement.negate();
    assert!(complement.contains(1) && !complement.contains(2));
    a.intersect(&complement);
    assert!(a.is_empty());
}

#[test]
fn primitive_events_iterator_walks_tau_then_tick() {
    let mut it = hst::primitive_events::PrimitiveEventsIterator::new(PrimitiveEvents::universe());
    assert_eq!(it.next(), Some(PrimitiveEvents::tau()));
    assert_eq!(it.next(), Some(PrimitiveEvents::tick()));
    assert_eq!(it.next(), None);
    let mut empty = hst::primitive_events::PrimitiveEventsIterator::new(PrimitiveEvents::empty());
    assert_eq!(empty.next(), None);
}
