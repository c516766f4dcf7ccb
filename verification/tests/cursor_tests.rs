//! Tests for the cursor protocol: stepping through processes one event at a
//! time, with the per-operator state machines.

use hst::event::{tau, tick, Event, NumberedEvent};
use hst::external_choice::external_choice;
use hst::internal_choice::internal_choice;
use hst::normalization::prenormalize;
use hst::prefix::prefix;
use hst::primitives::{skip, stop};
use hst::iterators::{Replace, ReplaceIter};
use hst::models::{Behavior, SemanticModel, Traces};
use hst::process::{initials, satisfies_trace};
use hst::sequential_composition::sequential_composition;

fn ev(n: u32) -> Event {
    Event::NumberedEvent(NumberedEvent(n))
}

#[test]
fn stop_cursor_performs_nothing() {
    let process = stop();
    let cursor = process.root();
    assert_eq!(initials(&cursor), vec![]);
    assert!(!cursor.can_perform(&tau()));
    assert!(!cursor.can_perform(&tick()));
    assert!(!cursor.can_perform(&ev(1)));
}

#[test]
fn skip_cursor_performs_tick_then_stops() {
    let process = skip();
    let mut cursor = process.root();
    assert_eq!(initials(&cursor), vec![tick()]);
    assert!(cursor.can_perform(&tick()));
    cursor.perform(&tick());
    assert_eq!(initials(&cursor), vec![]);
    assert!(!cursor.can_perform(&tick()));
}

#[test]
fn prefix_cursor_delegates_after_initial() {
    let process = prefix(ev(1), skip());
    let mut cursor = process.root();
    assert_eq!(initials(&cursor), vec![ev(1)]);
    assert!(!cursor.can_perform(&ev(2)));
    cursor.perform(&ev(1));
    assert_eq!(initials(&cursor), vec![tick()]);
    cursor.perform(&tick());
    assert_eq!(initials(&cursor), vec![]);
}

#[test]
fn after_leaves_the_original_cursor_unchanged() {
    let process = prefix(ev(1), stop());
    let cursor = process.root();
    let advanced = cursor.after(&ev(1));
    assert_eq!(initials(&cursor), vec![ev(1)]);
    assert_eq!(initials(&advanced), vec![]);
}

#[test]
fn internal_choice_resolves_invisibly() {
    let process = internal_choice(prefix(ev(1), stop()), prefix(ev(2), stop()));
    let mut cursor = process.root();
    // Before the resolving τ, only τ is on offer.
    assert_eq!(initials(&cursor), vec![tau()]);
    cursor.perform(&tau());
    // Both branches are still possible worlds.
    let offered = initials(&cursor);
    assert!(offered.contains(&ev(1)) && offered.contains(&ev(2)));
    // A visible event permanently deactivates the other branch.
    cursor.perform(&ev(1));
    assert_eq!(initials(&cursor), vec![]);
    assert!(!cursor.can_perform(&ev(2)));
}

#[test]
fn external_choice_resolves_on_visible_event() {
    let process = external_choice(
        prefix(ev(1), prefix(ev(3), stop())),
        prefix(ev(2), stop()),
    );
    let mut cursor = process.root();
    let offered = initials(&cursor);
    assert!(offered.contains(&ev(1)) && offered.contains(&ev(2)));
    cursor.perform(&ev(1));
    // The choice is resolved: only the first branch's continuation remains.
    assert_eq!(initials(&cursor), vec![ev(3)]);
    assert!(!cursor.can_perform(&ev(2)));
}

#[test]
fn external_choice_tau_keeps_the_choice_open() {
    // a → Stop □ (b → Stop ⊓ c → Stop): the inner choice's τ does not
    // resolve the outer choice.
    let process = external_choice(
        prefix(ev(1), stop()),
        internal_choice(prefix(ev(2), stop()), prefix(ev(3), stop())),
    );
    let mut cursor = process.root();
    assert!(cursor.can_perform(&tau()));
    assert!(cursor.can_perform(&ev(1)));
    cursor.perform(&tau());
    // After the hidden τ, the outer prefix is still available, and the
    // worlds where the inner choice went either way are both tracked.
    let offered = initials(&cursor);
    assert!(offered.contains(&ev(1)));
    assert!(offered.contains(&ev(2)) && offered.contains(&ev(3)));
    // A visible event finally resolves everything.
    cursor.perform(&ev(2));
    assert_eq!(initials(&cursor), vec![]);
}

#[test]
fn sequential_composition_hands_over_at_tick() {
    let process = sequential_composition(prefix(ev(1), skip()), prefix(ev(2), stop()));
    let mut cursor = process.root();
    assert_eq!(initials(&cursor), vec![ev(1)]);
    cursor.perform(&ev(1));
    // P can terminate: its ✔ is offered to the environment as τ.
    assert_eq!(initials(&cursor), vec![tau()]);
    cursor.perform(&tau());
    assert_eq!(initials(&cursor), vec![ev(2)]);
    cursor.perform(&ev(2));
    assert_eq!(initials(&cursor), vec![]);
}

#[test]
fn satisfies_trace_replays_events_in_order() {
    let process = sequential_composition(prefix(ev(1), skip()), prefix(ev(2), stop()));
    assert!(satisfies_trace(&process, &vec![]));
    assert!(satisfies_trace(&process, &vec![ev(1)]));
    assert!(satisfies_trace(&process, &vec![ev(1), tau(), ev(2)]));
    assert!(!satisfies_trace(&process, &vec![ev(2)]));
    assert!(!satisfies_trace(&process, &vec![ev(1), ev(1)]));
}

#[test]
fn prenormalization_walks_through_tau() {
    // (a → Stop) ⊓ (b → Stop), prenormalized: the τ-closure offers both
    // visible events immediately.
    let process = prenormalize(internal_choice(prefix(ev(1), stop()), prefix(ev(2), stop())));
    let mut cursor = process.root();
    let offered = cursor.events();
    assert!(offered.contains(&ev(1)) && offered.contains(&ev(2)));
    assert!(cursor.can_perform(&ev(1)));
    cursor.perform(&ev(1));
    assert!(!cursor.can_perform(&ev(2)));
    assert!(cursor.events().is_empty());
}

#[test]
fn replace_iter_swaps_one_element() {
    let mut it: ReplaceIter = vec![ev(1), ev(2), ev(3)].replace(1, ev(9));
    assert_eq!(it.next(), Some(ev(1)));
    assert_eq!(it.next(), Some(ev(9)));
    assert_eq!(it.next(), Some(ev(3)));
    assert_eq!(it.next(), None);
}

#[test]
fn traces_model_hides_tau() {
    let process = internal_choice(prefix(ev(1), stop()), skip());
    let cursor = process.root();
    // Before the resolving τ, the visible behavior is empty.
    let before = Traces::get_behavior(&cursor);
    assert!(before.events.is_empty());
    let resolved = cursor.after(&tau());
    let after = Traces::get_behavior(&resolved);
    assert!(after.events.contains(&ev(1)));
    assert!(after.events.contains(&tick()));
    assert!(!after.events.contains(&tau()));
    // Refinement is observation containment.
    assert!(before.refined_by(&after));
    assert!(!after.refined_by(&before));
}
