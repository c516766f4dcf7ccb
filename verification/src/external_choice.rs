//! The external choice (`□`) operator.

use vstd::prelude::*;

use crate::csp::{CSP, CSPCursor};
use crate::event::{Event, Tau};
use crate::semantics::{
    chains_views, cursor_view, cv_can, cv_events, cv_perform, ec_deactivate, ec_extend_chains,
    ec_perform_all, ec_total_depth, live_events, opt_cursor_views, step_all, CursorV,
};
use crate::semantics::{lemma_proc_views_push, proc_views, ProcV};

verus! {

broadcast use vstd::prelude::Seq::lemma_push_to_set_commute;

// Operational semantics for □ Ps
//
//                  P -τ→ P'
//  1)  ────────────────────────────── P ∈ Ps
//       □ Ps -τ→ □ (Ps ∖ {P} ∪ {P'})
//
//         P -a→ P'
//  2)  ───────────── P ∈ Ps, a ≠ τ
//       □ Ps -a→ P'

/// Constructs a new _external choice_ process `P □ Q`.  This process behaves
/// either like `P` _or_ `Q`, and the environment gets to choose — the
/// process is willing to do either.
pub fn external_choice(p: CSP, q: CSP) -> (r: CSP)
    ensures
        r@ == ProcV::ExternalChoice(seq![p@, q@]),
{
    let ghost pv = p@;
    let ghost qv = q@;
    let mut ps: Vec<CSP> = Vec::new();
    ps.push(p);
    ps.push(q);
    proof {
        lemma_proc_views_push(Seq::empty(), ps@[0]);
        lemma_proc_views_push(seq![ps@[0]], ps@[1]);
        assert(ps@ =~= seq![ps@[0], ps@[1]]);
        assert(proc_views(ps@) =~= seq![pv, qv]);
    }
    CSP::ExternalChoice(ps)
}

/// Constructs a new _replicated external choice_ process `□ Ps` over a
/// collection of processes.  The process behaves like one of the processes
/// in the collection, and the environment gets to choose.  An empty
/// collection is permitted: the resulting choice behaves like `Stop`.
pub fn replicated_external_choice(ps: Vec<CSP>) -> (r: CSP)
    ensures
        r@ == ProcV::ExternalChoice(proc_views(ps@)),
{
    CSP::ExternalChoice(ps)
}

/// Whether an external choice has been resolved by a visible event yet.
#[derive(Clone, Copy, PartialEq, Eq, Structural, Hash, Debug)]
pub enum ExternalChoiceState {
    Unresolved,
    Resolved,
}

/// The cursor of `□ Ps`.  For each child it keeps a chain of cursors, one
/// per number of τ's that child may have performed so far; a chain entry is
/// deactivated (`None`) once it can no longer account for what has been
/// observed.  The first visible event resolves the choice: every state able
/// to perform it survives, every other state is eliminated.
#[derive(Debug)]
pub struct ExternalChoiceCursor {
    pub state: ExternalChoiceState,
    pub subcursors: Vec<Vec<Option<CSPCursor>>>,
    /// How many τ's the choice as a whole has performed while unresolved.
    pub tau_count: usize,
}

impl View for ExternalChoiceCursor {
    type V = CursorV;

    open spec fn view(&self) -> CursorV {
        CursorV::ExternalChoice {
            resolved: self.state is Resolved,
            subcursors: chains_views(self.subcursors@),
            tau_count: self.tau_count as nat,
        }
    }
}

impl ExternalChoiceCursor {
    /// The events any live subcursor state is willing to perform, each
    /// listed once: while the engine does not yet know which possible state
    /// is real, the choice offers everything any of them offers.
    #[verifier::loop_isolation(false)]
    pub fn events(&self) -> (r: Vec<Event>)
        ensures
            r@.to_set() == cv_events(self@),
            r@.no_duplicates(),
        decreases *self, 2nat,
    {
        let ghost chains = chains_views(self.subcursors@);
        proof {
            crate::semantics::lemma_chains_views_len(self.subcursors@);
        }
        let mut r: Vec<Event> = Vec::new();
        let mut i: usize = 0;
        proof {
            assert(chains.take(0) =~= Seq::empty());
            assert(r@.to_set() =~= crate::semantics::ec_events(chains.take(0)));
        }
        while i < self.subcursors.len()
            invariant
                0 <= i <= self.subcursors@.len(),
                r@.no_duplicates(),
                r@.to_set() == crate::semantics::ec_events(chains.take(i as int)),
            decreases self.subcursors@.len() - i,
        {
            proof {
                crate::semantics::lemma_chains_views_index(self.subcursors@, i as int);
                assert(decreases_to!(self.subcursors@ => self.subcursors@[i as int]));
                assert(decreases_to!(self.subcursors@[i as int] => self.subcursors@[
                    i as int
                ]@));
            }
            let chain_events = crate::csp::live_events_of(&self.subcursors[i]);
            let mut j: usize = 0;
            while j < chain_events.len()
                invariant
                    0 <= j <= chain_events@.len(),
                    r@.no_duplicates(),
                    r@.to_set() == crate::semantics::ec_events(chains.take(i as int)).union(
                        chain_events@.take(j as int).to_set(),
                    ),
                    chain_events@.to_set() == live_events(chains[i as int]),
                    i < self.subcursors@.len(),
                decreases chain_events@.len() - j,
            {
                let e = chain_events[j];
                crate::csp::push_unique(&mut r, e);
                proof {
                    assert(chain_events@.take(j + 1) == chain_events@.take(j as int).push(e));
                    assert(chain_events@.take(j + 1).to_set() =~= chain_events@.take(
                        j as int,
                    ).to_set().insert(e));
                    assert(r@.to_set() =~= crate::semantics::ec_events(chains.take(i as int)).union(
                        chain_events@.take(j + 1).to_set(),
                    ));
                }
                j += 1;
            }
            proof {
                assert(chain_events@.take(chain_events@.len() as int) == chain_events@);
                crate::semantics::lemma_ec_events_take(chains, i as int);
                assert(r@.to_set() =~= crate::semantics::ec_events(chains.take(i + 1)));
            }
            i += 1;
        }
        proof {
            assert(chains.take(chains.len() as int) =~= chains);
        }
        r
    }

    /// Whether any live subcursor state can perform `event` now.
    pub fn can_perform(&self, event: &Event) -> (r: bool)
        ensures
            r == cv_can(self@, *event),
        decreases *self, 3nat,
    {
        crate::csp::contains_event(&self.events(), *event)
    }
}

impl ExternalChoiceCursor {
    /// Deactivates subcursor states that can no longer account for the τ's
    /// the choice has performed.  A state that has performed `n` τ's itself
    /// is only possible if the other children could have performed the
    /// remaining `tau_count − n`; states below that minimum are eliminated.
    #[verifier::loop_isolation(false)]
    pub fn deactivate_tau_subprocesses(&mut self)
        ensures
            final(self).state == old(self).state,
            final(self).tau_count == old(self).tau_count,
            chains_views(final(self).subcursors@) == ec_deactivate(
                chains_views(old(self).subcursors@),
                old(self).tau_count as nat,
            ),
    {
        let ghost views = chains_views(old(self).subcursors@);
        let tau_count = self.tau_count;
        proof {
            crate::semantics::lemma_chains_views_len(old(self).subcursors@);
        }
        // The total number of τ's performed across all subcursor chains.
        let mut total: u128 = 0;
        let mut i: usize = 0;
        proof {
            assert(views.take(0) =~= Seq::empty());
        }
        while i < self.subcursors.len()
            invariant
                0 <= i <= self.subcursors@.len(),
                self == old(self),
                total == ec_total_depth(views.take(i as int)),
                total <= i as u128 * (usize::MAX as u128),
            decreases self.subcursors@.len() - i,
        {
            proof {
                crate::semantics::lemma_chains_views_index(self.subcursors@, i as int);
                crate::semantics::lemma_ec_total_depth_take(views, i as int);
                crate::semantics::lemma_opt_cursor_views_len(self.subcursors@[i as int]@);
                assert((i as u128 + 1) * (usize::MAX as u128) == i as u128 * (usize::MAX as u128)
                    + (usize::MAX as u128)) by (nonlinear_arith);
                assert(i as u128 * (usize::MAX as u128) + (usize::MAX as u128) < u128::MAX)
                    by (nonlinear_arith)
                    requires
                        i as u128 <= usize::MAX as u128,
                ;
            }
            let clen = self.subcursors[i].len();
            if clen > 0 {
                total = total + (clen - 1) as u128;
            }
            i += 1;
        }
        proof {
            assert(views.take(views.len() as int) =~= views);
        }
        // Rebuild each chain, eliminating the states below its minimum.
        let mut rest: Vec<Vec<Option<CSPCursor>>> = Vec::new();
        core::mem::swap(&mut self.subcursors, &mut rest);
        let ghost rest0 = rest@;
        let mut out: Vec<Vec<Option<CSPCursor>>> = Vec::new();
        while rest.len() > 0
            invariant
                rest@ == rest0.skip(out@.len() as int),
                out@.len() <= rest0.len(),
                rest0 == old(self).subcursors@,
                views == chains_views(rest0),
                tau_count == old(self).tau_count,
                total == ec_total_depth(views),
                forall|k: int|
                    0 <= k < out@.len() ==> chains_views(out@)[k] == ec_deactivate(
                        views,
                        tau_count as nat,
                    )[k],
            decreases rest@.len(),
        {
            let ghost k = out@.len() as int;
            proof {
                crate::semantics::lemma_chains_views_index(rest0, k);
                assert(rest0[k] == rest@[0]);
                crate::semantics::lemma_opt_cursor_views_len(rest0[k]@);
            }
            let mut chain = rest.remove(0);
            let ghost cviews = opt_cursor_views(chain@);
            let ghost out_before = out@;
            let clen = chain.len();
            if clen > 1 {
                proof {
                    crate::semantics::lemma_ec_total_depth_elem(views, k);
                }
                let this_count = clen - 1;
                let remaining = total - this_count as u128;
                if remaining < tau_count as u128 {
                    let minimum = (tau_count as u128 - remaining) as usize;
                    let ghost chain0 = chain@;
                    let mut nc: Vec<Option<CSPCursor>> = Vec::new();
                    let mut j: usize = 0;
                    while chain.len() > 0
                        invariant
                            j + chain@.len() == chain0.len(),
                            chain@ == chain0.skip(j as int),
                            cviews == opt_cursor_views(chain0),
                            cviews.len() == chain0.len(),
                            nc@.len() == j,
                            forall|m: int|
                                0 <= m < j ==> opt_cursor_views(nc@)[m] == (if m < minimum {
                                    None
                                } else {
                                    cviews[m]
                                }),
                        decreases chain@.len(),
                    {
                        let ghost nc_before = nc@;
                        let entry = chain.remove(0);
                        proof {
                            assert(chain0.skip(j as int)[0] == chain0[j as int]);
                            assert(entry == chain0[j as int]);
                            crate::semantics::lemma_opt_cursor_views_index(chain0, j as int);
                        }
                        if j < minimum {
                            nc.push(None);
                        } else {
                            nc.push(entry);
                        }
                        proof {
                            assert(nc@ =~= nc_before.push(nc@.last()));
                            crate::semantics::lemma_opt_cursor_views_push(nc_before, nc@.last());
                            crate::semantics::lemma_opt_cursor_views_len(nc@);
                            assert forall|m: int| 0 <= m < nc@.len() implies opt_cursor_views(
                                nc@,
                            )[m] == (if m < minimum {
                                None
                            } else {
                                cviews[m]
                            }) by {
                                if m < j {
                                    assert(opt_cursor_views(nc@)[m] == opt_cursor_views(
                                        nc_before,
                                    )[m]);
                                }
                            }
                            assert(chain@ =~= chain0.skip(j + 1));
                        }
                        j += 1;
                    }
                    let ghost model_chain = ec_deactivate(views, tau_count as nat)[k];
                    proof {
                        crate::semantics::lemma_opt_cursor_views_len(nc@);
                        assert forall|m: int| 0 <= m < cviews.len() implies opt_cursor_views(
                            nc@,
                        )[m] == model_chain[m] by {
                            assert(model_chain == cviews.map(
                                |j: int, entry: Option<crate::semantics::CursorV>|
                                    if j < ((tau_count as nat) - ((ec_total_depth(views) - ((
                                    cviews.len() - 1) as nat)) as nat)) {
                                        None
                                    } else {
                                        entry
                                    },
                            ));
                        }
                        assert(opt_cursor_views(nc@) =~= model_chain);
                    }
                    out.push(nc);
                } else {
                    proof {
                        assert(ec_deactivate(views, tau_count as nat)[k] == cviews);
                    }
                    out.push(chain);
                }
            } else {
                proof {
                    assert(ec_deactivate(views, tau_count as nat)[k] == cviews);
                }
                out.push(chain);
            }
            proof {
                assert(out@ =~= out_before.push(out@.last()));
                crate::semantics::lemma_chains_views_push(out_before, out@.last());
                crate::semantics::lemma_chains_views_len(out@);
                assert(chains_views(out@)[k] == opt_cursor_views(out@.last()@));
                assert forall|k2: int| 0 <= k2 < out@.len() implies chains_views(out@)[k2]
                    == ec_deactivate(views, tau_count as nat)[k2] by {
                    if k2 < k {
                        assert(chains_views(out@)[k2] == chains_views(out_before)[k2]);
                    }
                }
                assert(rest@ =~= rest0.skip(out@.len() as int));
            }
        }
        self.subcursors = out;
        proof {
            crate::semantics::lemma_chains_views_len(self.subcursors@);
            assert(chains_views(self.subcursors@) =~= ec_deactivate(views, tau_count as nat));
        }
    }
}

impl ExternalChoiceCursor {
    /// Has each still-live subcursor state perform `event` if it can, and
    /// deactivates every state that cannot.  Returns whether any state
    /// could perform the event.
    pub fn perform_and_deactivate(&mut self, event: &Event) -> (r: bool)
        requires
            crate::semantics::room_chains(chains_views(old(self).subcursors@), *event),
        ensures
            final(self).state == old(self).state,
            final(self).tau_count == old(self).tau_count,
            chains_views(final(self).subcursors@) == ec_perform_all(
                chains_views(old(self).subcursors@),
                *event,
            ),
            r == crate::semantics::ec_events(chains_views(old(self).subcursors@)).contains(
                *event,
            ),
    {
        let mut taken: Vec<Vec<Option<CSPCursor>>> = Vec::new();
        core::mem::swap(&mut self.subcursors, &mut taken);
        let (stepped, any) = crate::csp::step_chains(taken, event);
        self.subcursors = stepped;
        any
    }

    /// One τ step while the choice is unresolved: any chain that has kept
    /// pace with the τ count and can perform another τ grows by its
    /// successor state, then states that can no longer account for the τ's
    /// seen so far are eliminated.
    pub fn perform_tau_when_unresolved(&mut self, tau: &Event)
        requires
            old(self).state is Unresolved,
            *tau == Event::Tau(Tau),
            cv_can(old(self)@, *tau),
            crate::semantics::room_to_step(old(self)@, *tau),
        ensures
            final(self)@ == cv_perform(old(self)@, *tau),
    {
        self.tau_count = self.tau_count + 1;
        let mut taken: Vec<Vec<Option<CSPCursor>>> = Vec::new();
        core::mem::swap(&mut self.subcursors, &mut taken);
        let extended = crate::csp::extend_chains_step(taken, tau, self.tau_count);
        self.subcursors = extended;
        self.deactivate_tau_subprocesses();
        proof {
            assert(self@ =~~= cv_perform(old(self)@, *tau));
        }
    }

    /// The first visible event resolves the choice: every state able to
    /// perform it does, every other state is eliminated, and the choice is
    /// resolved for good.
    pub fn perform_visible_when_unresolved(&mut self, event: &Event)
        requires
            old(self).state is Unresolved,
            *event != Event::Tau(Tau),
            crate::semantics::room_to_step(old(self)@, *event),
        ensures
            final(self)@ == cv_perform(old(self)@, *event),
    {
        self.perform_and_deactivate(event);
        self.state = ExternalChoiceState::Resolved;
    }

    /// After resolution the choice behaves as the aggregate of the
    /// surviving states; an event that no surviving state can perform is a
    /// contract violation, so the event is required to be performable.
    pub fn perform_when_resolved(&mut self, event: &Event)
        requires
            old(self).state is Resolved,
            cv_can(old(self)@, *event),
            crate::semantics::room_to_step(old(self)@, *event),
        ensures
            final(self)@ == cv_perform(old(self)@, *event),
    {
        let any = self.perform_and_deactivate(event);
        proof {
            assert(any);
        }
    }

    /// Performs one event on the choice, following the operational rules:
    /// an unresolved τ keeps the choice open; anything else resolves it.
    pub fn perform(&mut self, event: &Event)
        requires
            cv_can(old(self)@, *event),
            crate::semantics::room_to_step(old(self)@, *event),
        ensures
            final(self)@ == cv_perform(old(self)@, *event),
    {
        let unresolved = match self.state {
            ExternalChoiceState::Unresolved => true,
            ExternalChoiceState::Resolved => false,
        };
        if unresolved {
            if *event == Event::Tau(Tau) {
                self.perform_tau_when_unresolved(event);
            } else {
                self.perform_visible_when_unresolved(event);
            }
        } else {
            self.perform_when_resolved(event);
        }
    }
}

} // verus!
