//! The sequential composition (`;`) operator.

use vstd::prelude::*;

use crate::csp::{CSP, CSPCursor};
use crate::event::{Alphabet, Event, Tau, Tick};
use crate::semantics::{
    cursor_view, cv_can, cv_events, cv_perform, hide_tick, live_events, opt_cursor_views,
    proc_root, step_all, CursorV,
};
use crate::semantics::ProcV;

verus! {

broadcast use vstd::prelude::Seq::lemma_push_to_set_commute;

// Operational semantics for P ; Q
//
//        P -a→ P'
// 1)  ────────────── a ≠ ✔
//      P;Q -a→ P';Q
//
//     ∃ P' • P -✔→ P'
// 2) ─────────────────
//       P;Q -τ→ Q

/// Constructs a new _sequential composition_ process `P ; Q`.  This process
/// behaves like process `P` until `P` performs a ✔ event, after which it
/// behaves like process `Q`.  The ✔ itself is hidden: the environment sees a
/// τ in its place.
pub fn sequential_composition(p: CSP, q: CSP) -> (r: CSP)
    ensures
        r@ == ProcV::SequentialComposition(Box::new(p@), Box::new(q@)),
{
    CSP::SequentialComposition(Box::new(p), Box::new(q))
}

/// The cursor of `P ; Q`.  It keeps `P`'s cursor while behaving like `P`
/// is still plausible, plus one `Q` cursor per point where a hidden ✔ from
/// `P` may have occurred: a ✔ is reported to the outside world as τ, so it
/// is ambiguous whether a given τ was `P`'s own or `P` terminating.
#[derive(Debug)]
pub struct SequentialCompositionCursor {
    /// The root of `Q`: a fresh `Q` cursor starts here each time `P` may
    /// have terminated.
    pub q_root: CSP,
    /// `P`'s current state, while behaving like `P` is still plausible.
    pub p: Option<Box<CSPCursor>>,
    /// The live `Q` states, one per plausible termination point of `P`.
    pub qs: Vec<Option<CSPCursor>>,
}

impl View for SequentialCompositionCursor {
    type V = CursorV;

    open spec fn view(&self) -> CursorV {
        CursorV::SequentialComposition {
            q_root: Box::new(self.q_root@),
            p: match self.p {
                Some(pc) => Some(Box::new(cursor_view(*pc))),
                None => None,
            },
            qs: opt_cursor_views(self.qs@),
        }
    }
}

/// The alphabet of a sequential composition cursor: `P`'s events with ✔
/// hidden as τ, together with everything the live `Q` states offer.
#[derive(Debug)]
pub struct SequentialCompositionAlphabet {
    /// The raw events of `P`'s state, ✔ included, if `P` is still live.
    pub p: Option<Vec<Event>>,
    /// The events of the live `Q` states.
    pub qs: Vec<Event>,
}

impl Alphabet for SequentialCompositionAlphabet {
    open spec fn members(&self) -> Set<Event> {
        let p_part = match self.p {
            Some(events) => {
                let inner = events@.to_set();
                if inner.contains(Event::Tick(Tick)) {
                    inner.remove(Event::Tick(Tick)).insert(Event::Tau(Tau))
                } else {
                    inner
                }
            },
            None => Set::empty(),
        };
        p_part.union(self.qs@.to_set())
    }

    /// The composition never offers ✔ itself; a τ is offered when `P`
    /// offers τ or ✔; any other event passes through.
    fn contains(&self, event: &Event) -> (r: bool) {
        let p_contains = match &self.p {
            Some(events) => {
                if *event == Event::Tick(Tick) {
                    false
                } else if *event == Event::Tau(Tau) {
                    crate::csp::contains_event(events, Event::Tau(Tau)) || crate::csp::contains_event(
                        events,
                        Event::Tick(Tick),
                    )
                } else {
                    crate::csp::contains_event(events, *event)
                }
            },
            None => false,
        };
        let r = p_contains || crate::csp::contains_event(&self.qs, *event);
        proof {
            match &self.p {
                Some(events) => {
                    let inner = events@.to_set();
                    if inner.contains(Event::Tick(Tick)) {
                        assert(self.members() =~= inner.remove(Event::Tick(Tick)).insert(
                            Event::Tau(Tau),
                        ).union(self.qs@.to_set()));
                    }
                },
                None => {},
            }
        }
        r
    }
}

impl SequentialCompositionCursor {
    /// The events of `P`'s part of the composition: `P`'s own events with
    /// any ✔ hidden and reported as τ.
    pub fn p_events(&self) -> (r: Vec<Event>)
        ensures
            r@.to_set() == (if self.p is Some {
                hide_tick(cv_events(cursor_view(*self.p->0)))
            } else {
                Set::<Event>::empty()
            }),
            r@.no_duplicates(),
        decreases *self, 2nat,
    {
        match &self.p {
            None => {
                let r: Vec<Event> = Vec::new();
                proof {
                    assert(r@.to_set() =~= Set::<Event>::empty());
                }
                r
            },
            Some(pc) => {
                let raw = (&**pc).events();
                let ghost inner = cv_events(cursor_view(*self.p->0));
                let mut r: Vec<Event> = Vec::new();
                let mut i: usize = 0;
                proof {
                    assert(r@.to_set() =~= hide_tick(raw@.take(0).to_set()));
                }
                while i < raw.len()
                    invariant
                        0 <= i <= raw@.len(),
                        r@.no_duplicates(),
                        r@.to_set() == hide_tick(raw@.take(i as int).to_set()),
                        self.p is Some,
                        raw@.to_set() == inner,
                        inner == cv_events(cursor_view(*self.p->0)),
                    decreases raw@.len() - i,
                {
                    let e = raw[i];
                    proof {
                        assert(raw@.take(i + 1) == raw@.take(i as int).push(e));
                        assert(raw@.take(i + 1).to_set() =~= raw@.take(i as int).to_set().insert(
                            e,
                        ));
                    }
                    if e == Event::Tick(Tick) {
                        crate::csp::push_unique(&mut r, Event::Tau(Tau));
                        proof {
                            assert(r@.to_set() =~= hide_tick(raw@.take(i + 1).to_set()));
                        }
                    } else {
                        crate::csp::push_unique(&mut r, e);
                        proof {
                            assert(r@.to_set() =~= hide_tick(raw@.take(i + 1).to_set()));
                        }
                    }
                    i += 1;
                }
                proof {
                    assert(raw@.take(raw@.len() as int) == raw@);
                }
                r
            },
        }
    }

    /// Whether `P`'s part can perform `event`: never ✔ itself; τ when `P`
    /// offers τ or ✔; any other event as `P` offers it.
    pub fn p_can_perform(&self, event: &Event) -> (r: bool)
        ensures
            r == (if self.p is Some {
                hide_tick(cv_events(cursor_view(*self.p->0)))
            } else {
                Set::<Event>::empty()
            }).contains(*event),
        decreases *self, 3nat,
    {
        match &self.p {
            None => false,
            Some(pc) => {
                if *event == Event::Tick(Tick) {
                    false
                } else if *event == Event::Tau(Tau) {
                    (&**pc).can_perform(event) || (&**pc).can_perform(&Event::Tick(Tick))
                } else {
                    (&**pc).can_perform(event)
                }
            },
        }
    }

    /// The events the live `Q` states offer.
    pub fn q_events(&self) -> (r: Vec<Event>)
        ensures
            r@.to_set() == live_events(opt_cursor_views(self.qs@)),
            r@.no_duplicates(),
        decreases *self, 2nat,
    {
        crate::csp::live_events_of(&self.qs)
    }

    /// Whether any live `Q` state can perform `event`.
    pub fn q_can_perform(&self, event: &Event) -> (r: bool)
        ensures
            r == live_events(opt_cursor_views(self.qs@)).contains(*event),
        decreases *self, 3nat,
    {
        crate::csp::contains_event(&self.q_events(), *event)
    }

    /// All events the composition offers now.
    pub fn events(&self) -> (r: Vec<Event>)
        ensures
            r@.to_set() == cv_events(self@),
            r@.no_duplicates(),
        decreases *self, 4nat,
    {
        let mut r = self.p_events();
        let qs_events = self.q_events();
        let ghost p_set = r@.to_set();
        let mut j: usize = 0;
        while j < qs_events.len()
            invariant
                0 <= j <= qs_events@.len(),
                r@.no_duplicates(),
                r@.to_set() == p_set.union(qs_events@.take(j as int).to_set()),
                qs_events@.to_set() == live_events(opt_cursor_views(self.qs@)),
            decreases qs_events@.len() - j,
        {
            let e = qs_events[j];
            crate::csp::push_unique(&mut r, e);
            proof {
                assert(qs_events@.take(j + 1) == qs_events@.take(j as int).push(e));
                assert(qs_events@.take(j + 1).to_set() =~= qs_events@.take(
                    j as int,
                ).to_set().insert(e));
                assert(r@.to_set() =~= p_set.union(qs_events@.take(j + 1).to_set()));
            }
            j += 1;
        }
        proof {
            assert(qs_events@.take(qs_events@.len() as int) == qs_events@);
            assert(r@.to_set() =~= cv_events(self@));
        }
        r
    }

    /// Whether the composition can perform `event` now.
    pub fn can_perform(&self, event: &Event) -> (r: bool)
        ensures
            r == cv_can(self@, *event),
        decreases *self, 4nat,
    {
        let r = self.p_can_perform(event) || self.q_can_perform(event);
        proof {
            assert(cv_events(self@) == (if self.p is Some {
                hide_tick(cv_events(cursor_view(*self.p->0)))
            } else {
                Set::<Event>::empty()
            }).union(live_events(opt_cursor_views(self.qs@))));
        }
        r
    }

    /// The composition's alphabet: `P`'s raw events plus the live `Q`
    /// states' events, with the ✔-hiding applied by `contains`.
    pub fn initials(&self) -> (r: SequentialCompositionAlphabet)
        ensures
            r.members() == cv_events(self@),
        decreases *self, 5nat,
    {
        let p = match &self.p {
            Some(pc) => Some((&**pc).events()),
            None => None,
        };
        let qs = self.q_events();
        let r = SequentialCompositionAlphabet { p, qs };
        proof {
            assert(r.members() =~= cv_events(self@));
        }
        r
    }
}

impl SequentialCompositionCursor {
    /// Offers `event` to every live `Q` state; states that cannot perform
    /// it are permanently deactivated.
    pub fn q_perform(&mut self, event: &Event)
        requires
            crate::semantics::room_all(opt_cursor_views(old(self).qs@), *event),
        ensures
            final(self).q_root == old(self).q_root,
            final(self).p == old(self).p,
            opt_cursor_views(final(self).qs@) == step_all(
                opt_cursor_views(old(self).qs@),
                *event,
            ),
    {
        let mut taken: Vec<Option<crate::csp::CSPCursor>> = Vec::new();
        core::mem::swap(&mut self.qs, &mut taken);
        let (stepped, _) = crate::csp::step_each(taken, event);
        self.qs = stepped;
    }

    /// Offers `event` to `P`'s part.  A ✔ is ignored here: the composition
    /// never passes ✔ through.  A τ that `P` could satisfy by terminating
    /// spawns a fresh `Q` state before `P` advances; if `P` itself cannot
    /// perform the event, behaving like `P` was retroactively impossible
    /// and `P` is dropped.
    pub fn p_perform(&mut self, event: &Event)
        requires
            old(self).p is Some && cv_can(cursor_view(*old(self).p->0), *event)
                ==> crate::semantics::room_to_step(cursor_view(*old(self).p->0), *event),
        ensures
            final(self).q_root == old(self).q_root,
            *event == Event::Tick(Tick) || old(self).p is None ==> final(self).p == old(self).p
                && final(self).qs@ == old(self).qs@,
            *event != Event::Tick(Tick) && old(self).p is Some ==> {
                let pv = cursor_view(*old(self).p->0);
                &&& opt_cursor_views(final(self).qs@) == (if *event == Event::Tau(Tau) && cv_can(
                    pv,
                    Event::Tick(Tick),
                ) {
                    opt_cursor_views(old(self).qs@).push(Some(proc_root(old(self).q_root@)))
                } else {
                    opt_cursor_views(old(self).qs@)
                })
                &&& (cv_can(pv, *event) ==> final(self).p is Some && cursor_view(
                    *final(self).p->0,
                ) == cv_perform(pv, *event))
                &&& (!cv_can(pv, *event) ==> final(self).p is None)
            },
    {
        let p_live = match &self.p {
            Some(_) => true,
            None => false,
        };
        if !p_live {
            return ;
        }
        if *event == Event::Tick(Tick) {
            return ;
        }
        if *event == Event::Tau(Tau) {
            let can_tick = match &self.p {
                Some(pc) => (&**pc).can_perform(&Event::Tick(Tick)),
                None => false,
            };
            if can_tick {
                let ghost qs_before = self.qs@;
                let fresh = self.q_root.root();
                self.qs.push(Some(fresh));
                proof {
                    assert(self.qs@ =~= qs_before.push(self.qs@.last()));
                    crate::semantics::lemma_opt_cursor_views_push(qs_before, self.qs@.last());
                    assert(opt_cursor_views(self.qs@) =~= opt_cursor_views(qs_before).push(
                        Some(proc_root(self.q_root@)),
                    ));
                }
            }
        }
        let can_step_p = match &self.p {
            Some(pc) => (&**pc).can_perform(event),
            None => false,
        };
        if can_step_p {
            let mut taken: Option<Box<crate::csp::CSPCursor>> = None;
            core::mem::swap(&mut self.p, &mut taken);
            let pc = taken.unwrap();
            let stepped = crate::csp::performed_box(pc, event);
            self.p = Some(stepped);
        } else {
            self.p = None;
        }
    }

    /// Performs `event` on the whole composition: every live `Q` state
    /// steps, then `P`'s part does.
    pub fn perform(&mut self, event: &Event)
        requires
            cv_can(old(self)@, *event),
            crate::semantics::room_to_step(old(self)@, *event),
        ensures
            final(self)@ == cv_perform(old(self)@, *event),
    {
        self.q_perform(event);
        self.p_perform(event);
        proof {
            assert(self@ =~~= cv_perform(old(self)@, *event));
        }
    }
}

} // verus!
