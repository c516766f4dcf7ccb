//! Tests for the functional transition queries: `initials`, `afters` and
//! `transitions` on concrete process trees.

use hst::event::{tau, tick, Event, NumberedEvent};
use hst::external_choice::external_choice;
use hst::internal_choice::internal_choice;
use hst::prefix::prefix;
use hst::primitives::{skip, stop};

fn ev(n: u32) -> Event {
    Event::NumberedEvent(NumberedEvent(n))
}

#[test]
fn check_empty_external_choice_initials() {
    let process = hst::external_choice::replicated_external_choice(vec![]);
    assert_eq!(process.initials(), vec![]);
}

#[test]
fn check_stop_initials() {
    let process = stop();
    assert_eq!(process.initials(), vec![]);
    assert!(process.afters(&ev(1)).is_empty());
    assert!(process.afters(&tau()).is_empty());
    assert!(process.afters(&tick()).is_empty());
}

#[test]
fn check_skip_initials() {
    let process = skip();
    assert_eq!(process.initials(), vec![tick()]);
    // After performing ✔, Skip behaves as Stop.
    let after = process.afters(&tick());
    assert_eq!(after.len(), 1);
    assert_eq!(after[0].initials(), vec![]);
}

#[test]
fn check_prefix_initials() {
    let process = prefix(ev(1), skip());
    assert_eq!(process.initials(), vec![ev(1)]);
    let after = process.afters(&ev(1));
    assert_eq!(after.len(), 1);
    assert_eq!(after[0].initials(), vec![tick()]);
    assert!(process.afters(&ev(2)).is_empty());
}

#[test]
fn internal_choice_initials_are_tau_only() {
    let process = internal_choice(prefix(ev(1), stop()), prefix(ev(2), stop()));
    assert_eq!(process.initials(), vec![tau()]);
    // Performing τ yields one possible world per branch.
    let after = process.afters(&tau());
    assert_eq!(after.len(), 2);
    assert_eq!(after[0].initials(), vec![ev(1)]);
    assert_eq!(after[1].initials(), vec![ev(2)]);
}

#[test]
fn external_choice_initials_are_the_union() {
    let process = external_choice(prefix(ev(1), stop()), prefix(ev(2), stop()));
    let initials = process.initials();
    assert_eq!(initials.len(), 2);
    assert!(initials.contains(&ev(1)));
    assert!(initials.contains(&ev(2)));
}

#[test]
fn external_choice_shared_prefix_keeps_both_branches() {
    // a → (b → Stop) □ a → (c → Stop): performing `a` resolves the choice
    // but keeps both continuations as possible worlds.
    let p = prefix(ev(2), stop());
    let q = prefix(ev(3), stop());
    let process = external_choice(prefix(ev(1), p), prefix(ev(1), q));
    let transitions = process.transitions();
    assert_eq!(transitions.len(), 1);
    let (event, afters) = &transitions[0];
    assert_eq!(*event, ev(1));
    assert_eq!(afters.len(), 2);
    assert_eq!(afters[0].initials(), vec![ev(2)]);
    assert_eq!(afters[1].initials(), vec![ev(3)]);
}

#[test]
fn external_choice_over_unresolved_internal_choice() {
    // a → P □ (b → Q ⊓ c → R): performing τ resolves the inner choice and
    // keeps the outer choice open; performing `a` resolves everything.
    let pre_a = prefix(ev(1), stop());
    let inner = internal_choice(prefix(ev(2), stop()), prefix(ev(3), stop()));
    let process = external_choice(pre_a, inner);

    let tau_afters = process.afters(&tau());
    assert_eq!(tau_afters.len(), 2);
    // Both worlds still offer `a`, plus the resolved inner branch.
    let first = tau_afters[0].initials();
    assert!(first.contains(&ev(1)) && first.contains(&ev(2)));
    let second = tau_afters[1].initials();
    assert!(second.contains(&ev(1)) && second.contains(&ev(3)));

    let a_afters = process.afters(&ev(1));
    assert_eq!(a_afters.len(), 1);
    assert_eq!(a_afters[0].initials(), vec![]);
}

#[test]
fn sequential_composition_hides_tick_as_tau() {
    let process = hst::sequential_composition::sequential_composition(skip(), prefix(ev(1), stop()));
    assert_eq!(process.initials(), vec![tau()]);
    let after = process.afters(&tau());
    assert_eq!(after.len(), 1);
    assert_eq!(after[0].initials(), vec![ev(1)]);
}

#[test]
fn initials_and_afters_agree() {
    // An event is an initial exactly when it has at least one successor.
    let processes = vec![
        stop(),
        skip(),
        prefix(ev(1), skip()),
        internal_choice(prefix(ev(1), stop()), skip()),
        external_choice(prefix(ev(1), stop()), skip()),
        hst::sequential_composition::sequential_composition(skip(), stop()),
    ];
    let probes = vec![tau(), tick(), ev(1), ev(2)];
    for p in &processes {
        let initials = p.initials();
        for e in &probes {
            assert_eq!(initials.contains(e), !p.afters(e).is_empty());
        }
    }
}
