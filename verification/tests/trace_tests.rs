//! Tests for the trace engine: maximal finite traces of the primitive
//! processes and of each operator, on concrete process trees.

use hst::event::{tau, tick, Event, NumberedEvent};
use hst::external_choice::{external_choice, replicated_external_choice};
use hst::internal_choice::{internal_choice, replicated_internal_choice};
use hst::prefix::prefix;
use hst::primitives::{skip, stop};
use hst::process::{maximal_finite_traces, MaximalTraces};
use hst::sequential_composition::sequential_composition;

fn ev(n: u32) -> Event {
    Event::NumberedEvent(NumberedEvent(n))
}

#[test]
fn check_stop_traces() {
    let process = stop();
    let traces = maximal_finite_traces(&process);
    assert_eq!(traces.len(), 1);
    assert!(traces.contains_trace(&vec![]));
}

#[test]
fn check_skip_traces() {
    let process = skip();
    let traces = maximal_finite_traces(&process);
    assert_eq!(traces.len(), 1);
    assert!(traces.contains_trace(&vec![tick()]));
}

#[test]
fn check_empty_external_choice_traces() {
    let process = replicated_external_choice(vec![]);
    let traces = maximal_finite_traces(&process);
    assert_eq!(traces.len(), 1);
    assert!(traces.contains_trace(&vec![]));
}

#[test]
fn external_choice_check_empty_external_choice_traces() {
    let process = replicated_external_choice(vec![]);
    let traces = maximal_finite_traces(&process);
    assert_eq!(traces.len(), 1);
    assert!(traces.contains_trace(&vec![]));
}

#[test]
fn check_prefix_traces() {
    // a → (b → Stop): exactly one maximal trace, [a, b].
    let process = prefix(ev(1), prefix(ev(2), stop()));
    let traces = maximal_finite_traces(&process);
    assert_eq!(traces.len(), 1);
    assert!(traces.contains_trace(&vec![ev(1), ev(2)]));
}

#[test]
fn prefix_traces_prepend_to_skip() {
    // a → Skip ends with the visible ✔ of Skip.
    let process = prefix(ev(1), skip());
    let traces = maximal_finite_traces(&process);
    assert_eq!(traces.len(), 1);
    assert!(traces.contains_trace(&vec![ev(1), tick()]));
}

#[test]
fn internal_choice_traces_are_the_union() {
    // (a → Stop) ⊓ (b → Stop): both branches' traces appear.
    let process = internal_choice(prefix(ev(1), stop()), prefix(ev(2), stop()));
    let traces = maximal_finite_traces(&process);
    assert_eq!(traces.len(), 2);
    assert!(traces.contains_trace(&vec![ev(1)]));
    assert!(traces.contains_trace(&vec![ev(2)]));
}

#[test]
fn replicated_internal_choice_traces() {
    let process = replicated_internal_choice(vec![
        prefix(ev(1), stop()),
        prefix(ev(2), stop()),
        prefix(ev(3), stop()),
    ]);
    let traces = maximal_finite_traces(&process);
    assert_eq!(traces.len(), 3);
    assert!(traces.contains_trace(&vec![ev(1)]));
    assert!(traces.contains_trace(&vec![ev(2)]));
    assert!(traces.contains_trace(&vec![ev(3)]));
}

#[test]
fn internal_choice_prunes_prefix_branches() {
    // Stop ⊓ (a → Stop): the empty trace of Stop is a prefix of [a], so
    // only the longer trace is maximal.
    let process = internal_choice(stop(), prefix(ev(1), stop()));
    let traces = maximal_finite_traces(&process);
    assert_eq!(traces.len(), 1);
    assert!(traces.contains_trace(&vec![ev(1)]));
}

#[test]
fn external_choice_traces_are_the_union() {
    let process = external_choice(prefix(ev(1), stop()), prefix(ev(2), stop()));
    let traces = maximal_finite_traces(&process);
    assert_eq!(traces.len(), 2);
    assert!(traces.contains_trace(&vec![ev(1)]));
    assert!(traces.contains_trace(&vec![ev(2)]));
}

#[test]
fn sequential_composition_splices_at_tick() {
    // (a → Skip) ; (b → Stop): the ✔ is hidden and the composition carries
    // straight on into the second process.
    let process = sequential_composition(prefix(ev(1), skip()), prefix(ev(2), stop()));
    let traces = maximal_finite_traces(&process);
    assert_eq!(traces.len(), 1);
    assert!(traces.contains_trace(&vec![ev(1), ev(2)]));
}

#[test]
fn sequential_composition_keeps_tickless_traces() {
    // (a → Stop) ; (b → Stop): the first process never terminates
    // successfully, so the second never starts.
    let process = sequential_composition(prefix(ev(1), stop()), prefix(ev(2), stop()));
    let traces = maximal_finite_traces(&process);
    assert_eq!(traces.len(), 1);
    assert!(traces.contains_trace(&vec![ev(1)]));
}

#[test]
fn maximal_traces_insert_keeps_the_set_maximal() {
    let mut traces = MaximalTraces::new();
    traces.insert(vec![ev(1)]);
    traces.insert(vec![ev(1), ev(2)]);
    // The shorter trace was a prefix and is replaced by its extension.
    assert_eq!(traces.len(), 1);
    assert!(traces.contains_trace(&vec![ev(1), ev(2)]));
    // Inserting a prefix of an existing trace is a no-op.
    traces.insert(vec![ev(1)]);
    assert_eq!(traces.len(), 1);
    // An unrelated trace is simply added.
    traces.insert(vec![ev(3)]);
    assert_eq!(traces.len(), 2);
    assert!(traces.contains_trace(&vec![ev(3)]));
    // No member is a prefix of another member.
    let stored = traces.iter();
    for a in stored {
        for b in stored {
            if a != b {
                assert!(!a.starts_with(b));
            }
        }
    }
}

#[test]
fn nested_choices_collapse_to_maximal_traces() {
    // ((a → Stop) ⊓ Skip) □ (b → (c → Stop))
    let process = external_choice(
        internal_choice(prefix(ev(1), stop()), skip()),
        prefix(ev(2), prefix(ev(3), stop())),
    );
    let traces = maximal_finite_traces(&process);
    assert_eq!(traces.len(), 3);
    assert!(traces.contains_trace(&vec![ev(1)]));
    assert!(traces.contains_trace(&vec![tick()]));
    assert!(traces.contains_trace(&vec![ev(2), ev(3)]));
}

#[test]
fn map_prepends_an_event_to_every_trace() {
    // The maximal traces of a → P are P's maximal traces with `a` in front.
    let inner = maximal_finite_traces(&internal_choice(prefix(ev(2), stop()), skip()));
    let mapped = inner.map(|t: Vec<Event>| {
        let mut longer = vec![ev(1)];
        longer.extend(t);
        longer
    });
    let whole = maximal_finite_traces(&prefix(ev(1), internal_choice(prefix(ev(2), stop()), skip())));
    assert_eq!(mapped.len(), whole.len());
    for trace in whole.iter() {
        assert!(mapped.contains_trace(trace));
    }
}

#[test]
fn tau_is_never_recorded_in_traces() {
    // Internal choice introduces a τ, which never shows up in a trace.
    let process = internal_choice(prefix(ev(1), stop()), prefix(ev(1), stop()));
    let traces = maximal_finite_traces(&process);
    assert_eq!(traces.len(), 1);
    assert!(traces.contains_trace(&vec![ev(1)]));
    assert!(!traces.contains_trace(&vec![tau(), ev(1)]));
}
