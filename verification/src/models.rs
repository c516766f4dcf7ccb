//! The semantic models under which a process can be interpreted: each model
//! assigns a process a _behavior_, and behaviors are compared by
//! refinement.

use vstd::prelude::*;

use crate::csp::CSPCursor;
use crate::event::{Event, Tau};
use crate::semantics::{cv_events, CursorV};

verus! {

broadcast use vstd::prelude::Seq::lemma_push_to_set_commute;

/// The behavior of a process under a particular semantic model.  The only
/// operation all models have in common is whether one behavior is a
/// _refinement_ of another.
pub trait Behavior: Sized {
    /// The set of observations this behavior stands for.
    spec fn obs(&self) -> Set<Event>;

    /// Whether this behavior is refined by `other`: everything this
    /// behavior observes, the other can observe too.
    fn refined_by(&self, other: &Self) -> (r: bool)
        ensures
            r == self.obs().subset_of(other.obs()),
    ;
}

/// A semantic model of CSP.  Each model defines its own behavior type — the
/// information that fully describes a process's behavior in this model.
pub trait SemanticModel: Sized {
    type B: Behavior;

    /// The observations the model assigns to a cursor state.
    spec fn spec_behavior(c: CursorV) -> Set<Event>;

    /// Returns the behavior of a process state in this semantic model.
    fn get_behavior(cursor: &CSPCursor) -> (r: Self::B)
        ensures
            r.obs() == Self::spec_behavior(cursor@),
    ;
}

/// A behavior that is a plain set of events.
#[derive(Debug)]
pub struct EventBehavior {
    pub events: Vec<Event>,
}

impl Behavior for EventBehavior {
    open spec fn obs(&self) -> Set<Event> {
        self.events@.to_set()
    }

    #[verifier::loop_isolation(false)]
    fn refined_by(&self, other: &Self) -> (r: bool) {
        let mut i: usize = 0;
        while i < self.events.len()
            invariant
                0 <= i <= self.events@.len(),
                forall|k: int|
                    0 <= k < i ==> other.events@.to_set().contains(#[trigger] self.events@[k]),
            decreases self.events@.len() - i,
        {
            if !crate::csp::contains_event(&other.events, self.events[i]) {
                proof {
                    assert(self.obs().contains(self.events@[i as int]));
                }
                return false;
            }
            i += 1;
        }
        proof {
            assert forall|e: Event| self.obs().contains(e) implies other.obs().contains(e) by {
                let k = choose|k: int|
                    0 <= k < self.events@.len() && self.events@[k] == e;
            }
        }
        true
    }
}

/// The traces model: the behavior of a process state is the set of visible
/// events it can perform — everything it offers except τ.
pub struct Traces;

impl SemanticModel for Traces {
    type B = EventBehavior;

    open spec fn spec_behavior(c: CursorV) -> Set<Event> {
        cv_events(c).remove(Event::Tau(Tau))
    }

    #[verifier::loop_isolation(false)]
    fn get_behavior(cursor: &CSPCursor) -> (r: EventBehavior) {
        let all = cursor.events();
        let mut events: Vec<Event> = Vec::new();
        let mut i: usize = 0;
        proof {
            assert(events@.to_set() =~= all@.take(0).to_set().remove(Event::Tau(Tau)));
        }
        while i < all.len()
            invariant
                0 <= i <= all@.len(),
                events@.no_duplicates(),
                events@.to_set() == all@.take(i as int).to_set().remove(Event::Tau(Tau)),
            decreases all@.len() - i,
        {
            let e = all[i];
            proof {
                assert(all@.take(i + 1) == all@.take(i as int).push(e));
                assert(all@.take(i + 1).to_set() =~= all@.take(i as int).to_set().insert(e));
            }
            if e == Event::Tau(Tau) {
                proof {
                    assert(all@.take(i + 1).to_set().remove(Event::Tau(Tau)) =~= all@.take(
                        i as int,
                    ).to_set().remove(Event::Tau(Tau)));
                }
            } else {
                crate::csp::push_unique(&mut events, e);
                proof {
                    assert(events@.to_set() =~= all@.take(i + 1).to_set().remove(
                        Event::Tau(Tau),
                    ));
                }
            }
            i += 1;
        }
        proof {
            assert(all@.take(all@.len() as int) == all@);
            assert(events@.to_set() =~= cv_events(cursor@).remove(Event::Tau(Tau)));
        }
        EventBehavior { events }
    }
}

} // verus!
