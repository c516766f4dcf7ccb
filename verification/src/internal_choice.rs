//! The internal choice (`⊓`) operator.

use vstd::prelude::*;

use crate::csp::CSP;
use crate::event::{Event, Tau};
use crate::semantics::{cv_can, cv_events, cv_perform, live_events, opt_cursor_views, step_all};
use crate::semantics::{lemma_proc_views_push, proc_views, ProcV};

verus! {

broadcast use vstd::prelude::Seq::lemma_push_to_set_commute;

// Operational semantics for ⊓ Ps
//
// 1) ──────────── P ∈ Ps
//     ⊓ Ps -τ→ P

/// Constructs a new _internal choice_ process `P ⊓ Q`.  This process behaves
/// either like `P` _or_ `Q`, but the environment has no control over which
/// one is chosen.
pub fn internal_choice(p: CSP, q: CSP) -> (r: CSP)
    ensures
        r@ == ProcV::InternalChoice(seq![p@, q@]),
{
    let ghost pv = p@;
    let ghost qv = q@;
    let mut ps: Vec<CSP> = Vec::new();
    ps.push(p);
    ps.push(q);
    proof {
        lemma_proc_views_push(Seq::empty(), ps@[0]);
        lemma_proc_views_push(seq![ps@[0]], ps@[1]);
        assert(ps@ =~= seq![ps@[0], ps@[1]]);
        assert(proc_views(ps@) =~= seq![pv, qv]);
    }
    CSP::InternalChoice(ps)
}

/// Constructs a new _replicated internal choice_ process `⊓ Ps` over a
/// non-empty collection of processes.  The process behaves like one of the
/// processes in the collection, but the environment has no control over
/// which one is chosen.
///
/// Internal choice over no processes at all is undefined, so the collection
/// is required to be non-empty; a caller that cannot guarantee this must
/// check first, as it would before any other contract violation.
pub fn replicated_internal_choice(ps: Vec<CSP>) -> (r: CSP)
    requires
        ps@.len() > 0,
    ensures
        r@ == ProcV::InternalChoice(proc_views(ps@)),
{
    CSP::InternalChoice(ps)
}

/// Whether an internal choice cursor has performed its resolving τ yet.
#[derive(Clone, Copy, PartialEq, Eq, Structural, Hash, Debug)]
pub enum InternalChoiceState {
    BeforeTau,
    AfterTau,
}

/// The cursor of `⊓ Ps`.  After the resolving τ, it tracks which children
/// are still a possible result of the choice: a visible event permanently
/// deactivates every child that cannot perform it.
#[derive(Debug)]
pub struct InternalChoiceCursor {
    pub state: InternalChoiceState,
    pub subcursors: Vec<Option<crate::csp::CSPCursor>>,
}

impl View for InternalChoiceCursor {
    type V = crate::semantics::CursorV;

    open spec fn view(&self) -> crate::semantics::CursorV {
        crate::semantics::CursorV::InternalChoice {
            before_tau: self.state is BeforeTau,
            subcursors: crate::semantics::opt_cursor_views(self.subcursors@),
        }
    }
}

impl InternalChoiceCursor {
    /// The events this cursor is willing to perform: only the resolving τ
    /// before it happens, then everything the still-activated children
    /// offer.
    pub fn events(&self) -> (r: Vec<Event>)
        ensures
            r@.to_set() == cv_events(self@),
            r@.no_duplicates(),
        decreases *self, 2nat,
    {
        match self.state {
            InternalChoiceState::BeforeTau => {
                let mut r: Vec<Event> = Vec::new();
                r.push(Event::Tau(Tau));
                proof {
                    assert(r@ == Seq::empty().push(Event::Tau(Tau)));
                    assert(r@.to_set() =~= cv_events(self@));
                }
                r
            },
            InternalChoiceState::AfterTau => crate::csp::live_events_of(&self.subcursors),
        }
    }

    /// Whether this cursor is willing to perform `event` now.
    pub fn can_perform(&self, event: &Event) -> (r: bool)
        ensures
            r == cv_can(self@, *event),
        decreases *self, 3nat,
    {
        crate::csp::contains_event(&self.events(), *event)
    }
}

impl InternalChoiceCursor {
    /// Performs `event`: the resolving τ moves past the choice point; any
    /// later event is offered to every still-activated child, and children
    /// that cannot perform it are permanently deactivated.
    pub fn perform(&mut self, event: &Event)
        requires
            cv_can(old(self)@, *event),
            crate::semantics::room_to_step(old(self)@, *event),
        ensures
            final(self)@ == cv_perform(old(self)@, *event),
    {
        match self.state {
            InternalChoiceState::BeforeTau => {
                self.state = InternalChoiceState::AfterTau;
            },
            InternalChoiceState::AfterTau => {
                let mut taken: Vec<Option<crate::csp::CSPCursor>> = Vec::new();
                core::mem::swap(&mut self.subcursors, &mut taken);
                let (stepped, _) = crate::csp::step_each(taken, event);
                self.subcursors = stepped;
            },
        }
    }
}

} // verus!
