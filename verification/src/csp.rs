//! The composite process type: a closed tagged union over all of the
//! primitive processes and operators of the algebra, together with the
//! functional transition queries (`initials`, `afters`, `transitions`).

use vstd::prelude::*;

use crate::event::{Alphabet, Event, Tau, Tick};
use crate::external_choice::ExternalChoiceCursor;
use crate::internal_choice::InternalChoiceCursor;
use crate::prefix::PrefixCursor;
use crate::primitives::{Skip, SkipCursor, SkipState, Stop, StopCursor};
use crate::semantics::{
    chains_views, cursor_view, cursor_views, cv_can, cv_events, cv_perform, ec_perform_all,
    lemma_live_roots_of_len, lemma_opt_cursor_views_index, lemma_opt_cursor_views_len,
    lemma_room_all_index, lemma_room_chain_extend_index, lemma_room_chains_index, live_events,
    live_roots_of, opt_cursor_views, proc_root, room_all, room_chain_extend, room_chains,
    room_to_step, step_all, CursorV,
};
use crate::sequential_composition::SequentialCompositionCursor;
use crate::semantics::{
    ec_tau_afters, ec_visible_afters, initials_of_seq, lemma_proc_seq_size_elem,
    lemma_proc_seq_size_update, lemma_proc_views_eq, lemma_proc_views_index, lemma_proc_views_len,
    lemma_proc_views_push, lemma_proc_views_update,
    proc_seq_size, proc_size, proc_view, proc_views, spec_afters, spec_initials, ProcV,
};

verus! {

broadcast use vstd::prelude::Seq::lemma_push_to_set_commute;

/// A process term of the CSP language.  Terms are immutable trees: they are
/// constructed once, by the combinator functions, and never mutated.  Use
/// the helper constructor for each process (e.g. `stop`) or operator (e.g.
/// `prefix`) instead of building variants directly.
#[derive(Debug)]
pub enum CSP {
    Stop(Stop),
    Skip(Skip),
    Prefix(Event, Box<CSP>),
    InternalChoice(Vec<CSP>),
    ExternalChoice(Vec<CSP>),
    SequentialComposition(Box<CSP>, Box<CSP>),
}

impl View for CSP {
    type V = ProcV;

    open spec fn view(&self) -> ProcV {
        proc_view(*self)
    }
}

impl Clone for CSP {
    /// Cloning a process term yields a term that stands for the same ghost
    /// process.
    fn clone(&self) -> (r: Self)
        ensures
            r@ == self@,
        decreases *self,
    {
        match self {
            CSP::Stop(_) => CSP::Stop(Stop),
            CSP::Skip(_) => CSP::Skip(Skip),
            CSP::Prefix(initial, after) => CSP::Prefix(*initial, Box::new((**after).clone())),
            CSP::InternalChoice(ps) => CSP::InternalChoice(clone_children(ps)),
            CSP::ExternalChoice(ps) => CSP::ExternalChoice(clone_children(ps)),
            CSP::SequentialComposition(p1, q1) => CSP::SequentialComposition(
                Box::new((**p1).clone()),
                Box::new((**q1).clone()),
            ),
        }
    }
}

/// Clones every child of a composite process.
#[verifier::loop_isolation(false)]
fn clone_children(ps: &Vec<CSP>) -> (r: Vec<CSP>)
    ensures
        proc_views(r@) == proc_views(ps@),
    decreases ps@,
{
    let mut r: Vec<CSP> = Vec::new();
    let mut i: usize = 0;
    while i < ps.len()
        invariant
            0 <= i <= ps@.len(),
            r@.len() == i,
            forall|j: int| 0 <= j < i ==> proc_view(#[trigger] r@[j]) == proc_view(ps@[j]),
        decreases ps@.len() - i,
    {
        proof {
            assert(decreases_to!(ps@ => ps@[i as int]));
        }
        let c = ps[i].clone();
        r.push(c);
        i += 1;
    }
    proof {
        lemma_proc_views_eq(r@, ps@);
    }
    r
}

/// Returns whether a list of events contains a given event.
#[verifier::loop_isolation(false)]
pub(crate) fn contains_event(v: &Vec<Event>, e: Event) -> (r: bool)
    ensures
        r == v@.contains(e),
{
    let mut i: usize = 0;
    while i < v.len()
        invariant
            0 <= i <= v@.len(),
            forall|j: int| 0 <= j < i ==> v@[j] != e,
        decreases v@.len() - i,
    {
        if v[i] == e {
            proof {
                assert(v@.contains(e)) by {
                    assert(v@[i as int] == e);
                }
            }
            return true;
        }
        i += 1;
    }
    false
}

/// Appends `e` to `out` unless it is already present, so that collected
/// alphabets stay duplicate-free.
pub(crate) fn push_unique(out: &mut Vec<Event>, e: Event)
    requires
        old(out)@.no_duplicates(),
    ensures
        final(out)@.no_duplicates(),
        final(out)@.to_set() == old(out)@.to_set().insert(e),
{
    if contains_event(out, e) {
        proof {
            assert(out@.to_set().contains(e));
            assert(out@.to_set() =~= old(out)@.to_set().insert(e));
        }
    } else {
        out.push(e);
        proof {
            assert(out@ == old(out)@.push(e));
            assert(out@.to_set() =~= old(out)@.to_set().insert(e));
            assert(forall|j: int| 0 <= j < old(out)@.len() ==> old(out)@[j] != e);
            assert(out@.no_duplicates());
        }
    }
}

impl CSP {
    /// The events this process is willing to perform first, hidden events
    /// included, each listed once.
    #[verifier::loop_isolation(false)]
    pub fn initials(&self) -> (r: Vec<Event>)
        ensures
            r@.no_duplicates(),
            r@.to_set() == spec_initials(self@),
        decreases proc_size(self@),
    {
        match self {
            CSP::Stop(_) => {
                let r: Vec<Event> = Vec::new();
                proof {
                    assert(r@.to_set() =~= spec_initials(self@));
                }
                r
            },
            CSP::Skip(_) => {
                let mut r: Vec<Event> = Vec::new();
                r.push(Event::Tick(Tick));
                proof {
                    assert(r@ == Seq::empty().push(Event::Tick(Tick)));
                    assert(r@.to_set() =~= spec_initials(self@));
                }
                r
            },
            CSP::Prefix(initial, _) => {
                let mut r: Vec<Event> = Vec::new();
                r.push(*initial);
                proof {
                    assert(r@ == Seq::empty().push(*initial));
                    assert(r@.to_set() =~= spec_initials(self@));
                }
                r
            },
            CSP::InternalChoice(_) => {
                let mut r: Vec<Event> = Vec::new();
                r.push(Event::Tau(Tau));
                proof {
                    assert(r@ == Seq::empty().push(Event::Tau(Tau)));
                    assert(r@.to_set() =~= spec_initials(self@));
                }
                r
            },
            CSP::ExternalChoice(ps) => {
                let ghost views = proc_views(ps@);
                let mut r: Vec<Event> = Vec::new();
                let mut i: usize = 0;
                proof {
                    lemma_proc_views_len(ps@);
                    assert(views.take(0) =~= Seq::empty());
                    assert(r@.to_set() =~= Set::empty());
                }
                while i < ps.len()
                    invariant
                        0 <= i <= ps@.len(),
                        views == proc_views(ps@),
                        r@.no_duplicates(),
                        r@.to_set() == initials_of_seq(views.take(i as int)),
                    decreases ps@.len() - i,
                {
                    proof {
                        lemma_proc_views_len(ps@);
                        lemma_proc_views_index(ps@, i as int);
                        lemma_proc_seq_size_elem(views, i as int);
                    }
                    let child_initials = ps[i].initials();
                    let mut j: usize = 0;
                    while j < child_initials.len()
                        invariant
                            0 <= j <= child_initials@.len(),
                            r@.no_duplicates(),
                            r@.to_set() == initials_of_seq(views.take(i as int)).union(
                                child_initials@.take(j as int).to_set(),
                            ),
                            child_initials@.to_set() == spec_initials(views[i as int]),
                            i < ps@.len(),
                            views == proc_views(ps@),
                        decreases child_initials@.len() - j,
                    {
                        let e = child_initials[j];
                        push_unique(&mut r, e);
                        proof {
                            assert(child_initials@.take(j + 1) == child_initials@.take(
                                j as int,
                            ).push(e));
                            assert(child_initials@.take(j + 1).to_set() =~= child_initials@.take(
                                j as int,
                            ).to_set().insert(e));
                            assert(r@.to_set() =~= initials_of_seq(views.take(i as int)).union(
                                child_initials@.take(j + 1).to_set(),
                            ));
                        }
                        j += 1;
                    }
                    proof {
                        assert(child_initials@.take(child_initials@.len() as int)
                            == child_initials@);
                        crate::semantics::lemma_initials_of_seq_take(views, i as int);
                        assert(r@.to_set() =~= initials_of_seq(views.take(i + 1)));
                    }
                    i += 1;
                }
                proof {
                    assert(views.take(views.len() as int) =~= views);
                    assert(r@.to_set() =~= spec_initials(self@));
                }
                r
            },
            CSP::SequentialComposition(p1, _) => {
                let inner = p1.initials();
                let mut r: Vec<Event> = Vec::new();
                let mut saw_tick = false;
                let mut i: usize = 0;
                let ghost inner_set = spec_initials(p1@);
                while i < inner.len()
                    invariant
                        0 <= i <= inner@.len(),
                        inner@.no_duplicates(),
                        inner@.to_set() == inner_set,
                        r@.no_duplicates(),
                        r@.to_set() == inner@.take(i as int).to_set().remove(Event::Tick(Tick)),
                        saw_tick == inner@.take(i as int).to_set().contains(Event::Tick(Tick)),
                    decreases inner@.len() - i,
                {
                    let e = inner[i];
                    proof {
                        assert(inner@.take(i + 1) == inner@.take(i as int).push(e));
                        assert(inner@.take(i + 1).to_set() =~= inner@.take(
                            i as int,
                        ).to_set().insert(e));
                    }
                    if e == tick_event() {
                        saw_tick = true;
                        proof {
                            assert(r@.to_set() =~= inner@.take(i + 1).to_set().remove(
                                Event::Tick(Tick),
                            ));
                        }
                    } else {
                        push_unique(&mut r, e);
                        proof {
                            assert(r@.to_set() =~= inner@.take(i + 1).to_set().remove(
                                Event::Tick(Tick),
                            ));
                        }
                    }
                    i += 1;
                }
                proof {
                    assert(inner@.take(inner@.len() as int) == inner@);
                }
                if saw_tick {
                    push_unique(&mut r, Event::Tau(Tau));
                    proof {
                        assert(r@.to_set() =~= spec_initials(self@));
                    }
                } else {
                    proof {
                        assert(inner_set.remove(Event::Tick(Tick)) =~= inner_set);
                        assert(r@.to_set() =~= spec_initials(self@));
                    }
                }
                r
            },
        }
    }
}

impl CSP {
    /// The processes this one can become by performing `event`: the
    /// operational transition relation, materialized.  The result is empty
    /// exactly when the process cannot perform the event.
    #[verifier::loop_isolation(false)]
    pub fn afters(&self, event: &Event) -> (r: Vec<CSP>)
        ensures
            proc_views(r@) == spec_afters(self@, *event),
        decreases proc_size(self@),
    {
        match self {
            CSP::Stop(_) => {
                let r: Vec<CSP> = Vec::new();
                proof {
                    assert(proc_views(r@) =~= spec_afters(self@, *event));
                }
                r
            },
            CSP::Skip(_) => {
                let mut r: Vec<CSP> = Vec::new();
                if *event == tick_event() {
                    r.push(CSP::Stop(Stop));
                    proof {
                        lemma_proc_views_push(Seq::empty(), CSP::Stop(Stop));
                        assert(proc_views(r@) =~= spec_afters(self@, *event));
                    }
                } else {
                    proof {
                        assert(proc_views(r@) =~= spec_afters(self@, *event));
                    }
                }
                r
            },
            CSP::Prefix(initial, after) => {
                let mut r: Vec<CSP> = Vec::new();
                if *event == *initial {
                    let c = (**after).clone();
                    proof {
                        lemma_proc_views_push(Seq::empty(), c);
                    }
                    r.push(c);
                    proof {
                        assert(proc_views(r@) =~= spec_afters(self@, *event));
                    }
                } else {
                    proof {
                        assert(proc_views(r@) =~= spec_afters(self@, *event));
                    }
                }
                r
            },
            CSP::InternalChoice(ps) => {
                if *event == Event::Tau(Tau) {
                    let r = clone_children(ps);
                    proof {
                        assert(proc_views(r@) =~= spec_afters(self@, *event));
                    }
                    r
                } else {
                    let r: Vec<CSP> = Vec::new();
                    proof {
                        assert(proc_views(r@) =~= spec_afters(self@, *event));
                    }
                    r
                }
            },
            CSP::ExternalChoice(ps) => {
                let ghost views = proc_views(ps@);
                proof {
                    lemma_proc_views_len(ps@);
                }
                let mut r: Vec<CSP> = Vec::new();
                let is_tau = *event == Event::Tau(Tau);
                let mut i: usize = 0;
                while i < ps.len()
                    invariant
                        0 <= i <= ps@.len(),
                        is_tau ==> proc_views(r@) + ec_tau_afters(views, i as int)
                            == ec_tau_afters(views, 0),
                        !is_tau ==> proc_views(r@) + ec_visible_afters(views, *event, i as int)
                            == ec_visible_afters(views, *event, 0),
                    decreases ps@.len() - i,
                {
                    proof {
                        lemma_proc_views_index(ps@, i as int);
                        lemma_proc_seq_size_elem(views, i as int);
                    }
                    let subs = ps[i].afters(event);
                    let ghost r_before = r@;
                    let mut j: usize = 0;
                    while j < subs.len()
                        invariant
                            0 <= j <= subs@.len(),
                            proc_views(r@).len() == proc_views(r_before).len() + j,
                            proc_views(r@).take(proc_views(r_before).len() as int) == proc_views(
                                r_before,
                            ),
                            forall|k: int|
                                0 <= k < j ==> #[trigger] proc_views(r@)[proc_views(
                                    r_before,
                                ).len() + k] == (if is_tau {
                                    ProcV::ExternalChoice(
                                        views.update(
                                            i as int,
                                            spec_afters(views[i as int], Event::Tau(Tau))[k],
                                        ),
                                    )
                                } else {
                                    spec_afters(views[i as int], *event)[k]
                                }),
                        decreases subs@.len() - j,
                    {
                        proof {
                            lemma_proc_views_len(subs@);
                            lemma_proc_views_index(subs@, j as int);
                        }
                        let pp = subs[j].clone();
                        let ghost r_mid = r@;
                        if is_tau {
                            let mut newps = clone_children(ps);
                            proof {
                                lemma_proc_views_len(newps@);
                                lemma_proc_views_update(newps@, i as int, pp);
                            }
                            newps.set(i, pp);
                            r.push(CSP::ExternalChoice(newps));
                        } else {
                            r.push(pp);
                        }
                        proof {
                            lemma_proc_views_push(r_mid, r@.last());
                            assert(r@.drop_last() == r_mid);
                            assert(proc_views(r@).take(proc_views(r_before).len() as int)
                                =~= proc_views(r_before));
                        }
                        j += 1;
                    }
                    proof {
                        lemma_proc_views_len(subs@);
                        let base = proc_views(r_before).len() as int;
                        if is_tau {
                            crate::semantics::lemma_ec_tau_afters_step(views, i as int);
                            let head_len = spec_afters(views[i as int], Event::Tau(Tau)).len();
                            assert(subs@.len() == head_len);
                            assert(proc_views(r@).len() + ec_tau_afters(views, i + 1).len()
                                == ec_tau_afters(views, 0).len());
                            assert forall|k: int|
                                0 <= k < ec_tau_afters(views, 0).len() implies (proc_views(r@)
                                + ec_tau_afters(views, i + 1))[k] == ec_tau_afters(
                                views,
                                0,
                            )[k] by {
                                assert(ec_tau_afters(views, 0)[k] == (proc_views(r_before)
                                    + ec_tau_afters(views, i as int))[k]);
                                if k < base {
                                    assert(proc_views(r@)[k] == proc_views(r@).take(base)[k]);
                                } else if k < base + head_len {
                                    assert(proc_views(r@)[proc_views(r_before).len() + (k - base)]
                                        == ProcV::ExternalChoice(
                                        views.update(
                                            i as int,
                                            spec_afters(views[i as int], Event::Tau(Tau))[k
                                                - base],
                                        ),
                                    ));
                                }
                            }
                            assert(proc_views(r@) + ec_tau_afters(views, i + 1) =~= ec_tau_afters(
                                views,
                                0,
                            ));
                        } else {
                            crate::semantics::lemma_ec_visible_afters_step(
                                views,
                                *event,
                                i as int,
                            );
                            let head_len = spec_afters(views[i as int], *event).len();
                            assert(subs@.len() == head_len);
                            assert(proc_views(r@).len() + ec_visible_afters(
                                views,
                                *event,
                                i + 1,
                            ).len() == ec_visible_afters(views, *event, 0).len());
                            assert forall|k: int|
                                0 <= k < ec_visible_afters(views, *event, 0).len() implies (
                            proc_views(r@) + ec_visible_afters(views, *event, i + 1))[k]
                                == ec_visible_afters(views, *event, 0)[k] by {
                                assert(ec_visible_afters(views, *event, 0)[k] == (proc_views(
                                    r_before,
                                ) + ec_visible_afters(views, *event, i as int))[k]);
                                if k < base {
                                    assert(proc_views(r@)[k] == proc_views(r@).take(base)[k]);
                                } else if k < base + head_len {
                                    assert(proc_views(r@)[proc_views(r_before).len() + (k - base)]
                                        == spec_afters(views[i as int], *event)[k - base]);
                                }
                            }
                            assert(proc_views(r@) + ec_visible_afters(views, *event, i + 1)
                                =~= ec_visible_afters(views, *event, 0));
                        }
                    }
                    i += 1;
                }
                proof {
                    if is_tau {
                        assert(proc_views(r@) =~= ec_tau_afters(views, 0));
                    } else {
                        assert(proc_views(r@) =~= ec_visible_afters(views, *event, 0));
                    }
                }
                r
            },
            CSP::SequentialComposition(p1, q1) => {
                let mut r: Vec<CSP> = Vec::new();
                if *event == tick_event() {
                    proof {
                        assert(proc_views(r@) =~= spec_afters(self@, *event));
                    }
                    return r;
                }
                proof {
                    crate::semantics::lemma_sc_afters_shape(p1@, q1@, *event);
                }
                let subs = p1.afters(event);
                let mut j: usize = 0;
                while j < subs.len()
                    invariant
                        0 <= j <= subs@.len(),
                        proc_views(r@).len() == j,
                        forall|k: int|
                            0 <= k < j ==> #[trigger] proc_views(r@)[k]
                                == ProcV::SequentialComposition(
                                Box::new(spec_afters(p1@, *event)[k]),
                                Box::new(q1@),
                            ),
                    decreases subs@.len() - j,
                {
                    proof {
                        lemma_proc_views_len(subs@);
                        lemma_proc_views_index(subs@, j as int);
                    }
                    let ghost r_mid = r@;
                    let pp = subs[j].clone();
                    r.push(CSP::SequentialComposition(Box::new(pp), Box::new((**q1).clone())));
                    proof {
                        lemma_proc_views_push(r_mid, r@.last());
                        assert(r@.drop_last() == r_mid);
                    }
                    j += 1;
                }
                if *event == Event::Tau(Tau) {
                    let ticks = p1.afters(&tick_event());
                    proof {
                        lemma_proc_views_len(ticks@);
                        lemma_proc_views_len(subs@);
                    }
                    if ticks.len() > 0 {
                        let ghost r_mid = r@;
                        r.push((**q1).clone());
                        proof {
                            lemma_proc_views_push(r_mid, r@.last());
                            assert(r@.drop_last() == r_mid);
                            assert(proc_views(r@) =~= spec_afters(self@, *event));
                        }
                        return r;
                    }
                }
                proof {
                    lemma_proc_views_len(subs@);
                    assert(proc_views(r@) =~= spec_afters(self@, *event));
                }
                r
            },
        }
    }

    /// The full transition relation of this process: one entry per initial
    /// event, carrying every process reachable by performing that event.
    #[verifier::loop_isolation(false)]
    pub fn transitions(&self) -> (r: Vec<(Event, Vec<CSP>)>)
        ensures
            r@.map_values(|t: (Event, Vec<CSP>)| t.0).no_duplicates(),
            r@.map_values(|t: (Event, Vec<CSP>)| t.0).to_set() == spec_initials(self@),
            forall|k: int|
                0 <= k < r@.len() ==> proc_views(#[trigger] r@[k].1@) == spec_afters(
                    self@,
                    r@[k].0,
                ),
    {
        let events = self.initials();
        let mut r: Vec<(Event, Vec<CSP>)> = Vec::new();
        let mut i: usize = 0;
        while i < events.len()
            invariant
                0 <= i <= events@.len(),
                r@.len() == i,
                forall|k: int| 0 <= k < i ==> (#[trigger] r@[k]).0 == events@[k],
                forall|k: int|
                    0 <= k < i ==> proc_views(#[trigger] r@[k].1@) == spec_afters(
                        self@,
                        events@[k],
                    ),
            decreases events@.len() - i,
        {
            let e = events[i];
            let succ = self.afters(&e);
            r.push((e, succ));
            i += 1;
        }
        proof {
            let keys = r@.map_values(|t: (Event, Vec<CSP>)| t.0);
            assert(keys =~= events@);
        }
        r
    }
}

/// The cursor of a composite process: a tagged union of the per-operator
/// cursors, built by `CSP::root` and advanced in place by `perform`.
/// Cursors are cloneable snapshots: cloning a cursor and mutating the clone
/// never affects the original, which is what makes branching enumeration
/// possible.
#[derive(Debug)]
pub enum CSPCursor {
    Stop(StopCursor),
    Skip(SkipCursor),
    Prefix(Box<PrefixCursor>),
    InternalChoice(InternalChoiceCursor),
    ExternalChoice(ExternalChoiceCursor),
    SequentialComposition(Box<SequentialCompositionCursor>),
}

impl View for CSPCursor {
    type V = CursorV;

    open spec fn view(&self) -> CursorV {
        cursor_view(*self)
    }
}

impl Clone for CSPCursor {
    /// Cloning a cursor yields a cursor in the same state.
    fn clone(&self) -> (r: Self)
        ensures
            r@ == self@,
        decreases *self, 2nat,
    {
        match self {
            CSPCursor::Stop(_) => CSPCursor::Stop(StopCursor),
            CSPCursor::Skip(sc) => CSPCursor::Skip(*sc),
            CSPCursor::Prefix(pc) => CSPCursor::Prefix(
                Box::new(
                    PrefixCursor {
                        state: pc.state,
                        initial: pc.initial,
                        after: Box::new((*pc.after).clone()),
                    },
                ),
            ),
            CSPCursor::InternalChoice(ic) => CSPCursor::InternalChoice(
                InternalChoiceCursor { state: ic.state, subcursors: clone_live(&ic.subcursors) },
            ),
            CSPCursor::ExternalChoice(ec) => CSPCursor::ExternalChoice(
                ExternalChoiceCursor {
                    state: ec.state,
                    subcursors: clone_chains(&ec.subcursors),
                    tau_count: ec.tau_count,
                },
            ),
            CSPCursor::SequentialComposition(sc) => CSPCursor::SequentialComposition(
                Box::new(
                    SequentialCompositionCursor {
                        q_root: sc.q_root.clone(),
                        p: match &sc.p {
                            Some(pc) => Some(Box::new((**pc).clone())),
                            None => None,
                        },
                        qs: clone_live(&sc.qs),
                    },
                ),
            ),
        }
    }
}

/// Clones a list of possibly deactivated subcursor states.
#[verifier::loop_isolation(false)]
fn clone_live(cs: &Vec<Option<CSPCursor>>) -> (r: Vec<Option<CSPCursor>>)
    ensures
        opt_cursor_views(r@) == opt_cursor_views(cs@),
    decreases cs@, 1nat,
{
    let mut r: Vec<Option<CSPCursor>> = Vec::new();
    let mut i: usize = 0;
    while i < cs.len()
        invariant
            0 <= i <= cs@.len(),
            r@.len() == i,
            forall|j: int|
                0 <= j < i ==> (#[trigger] r@[j]) is Some == cs@[j] is Some && (cs@[j] is Some
                    ==> cursor_view(r@[j]->0) == cursor_view(cs@[j]->0)),
        decreases cs@.len() - i,
    {
        proof {
            assert(decreases_to!(cs@ => cs@[i as int]));
            if cs@[i as int] is Some {
                assert(decreases_to!(cs@[i as int] => cs@[i as int]->0));
            }
        }
        let entry = match &cs[i] {
            Some(c) => Some(c.clone()),
            None => None,
        };
        r.push(entry);
        i += 1;
    }
    proof {
        lemma_opt_views_pointwise_eq(r@, cs@);
    }
    r
}

/// Clones the τ-chains of an external choice cursor.
#[verifier::loop_isolation(false)]
fn clone_chains(cs: &Vec<Vec<Option<CSPCursor>>>) -> (r: Vec<Vec<Option<CSPCursor>>>)
    ensures
        chains_views(r@) == chains_views(cs@),
    decreases cs@, 1nat,
{
    let mut r: Vec<Vec<Option<CSPCursor>>> = Vec::new();
    let mut i: usize = 0;
    while i < cs.len()
        invariant
            0 <= i <= cs@.len(),
            r@.len() == i,
            forall|j: int|
                0 <= j < i ==> opt_cursor_views(#[trigger] r@[j]@) == opt_cursor_views(cs@[j]@),
        decreases cs@.len() - i,
    {
        proof {
            assert(decreases_to!(cs@ => cs@[i as int]));
            assert(decreases_to!(cs@[i as int] => cs@[i as int]@));
        }
        let chain = clone_live(&cs[i]);
        r.push(chain);
        i += 1;
    }
    proof {
        lemma_chains_views_pointwise_eq(r@, cs@);
    }
    r
}

/// Two lists of subcursor states with pointwise equal views have equal
/// views.
proof fn lemma_opt_views_pointwise_eq(a: Seq<Option<CSPCursor>>, b: Seq<Option<CSPCursor>>)
    requires
        a.len() == b.len(),
        forall|j: int|
            0 <= j < a.len() ==> (#[trigger] a[j]) is Some == b[j] is Some && (b[j] is Some
                ==> cursor_view(a[j]->0) == cursor_view(b[j]->0)),
    ensures
        opt_cursor_views(a) == opt_cursor_views(b),
    decreases a,
{
    if a.len() > 0 {
        lemma_opt_views_pointwise_eq(a.drop_last(), b.drop_last());
        assert(a[a.len() - 1] == a.last());
        assert(opt_cursor_views(a) =~= opt_cursor_views(b));
    } else {
        assert(opt_cursor_views(a) =~= opt_cursor_views(b));
    }
}

/// Two lists of τ-chains with pointwise equal views have equal views.
proof fn lemma_chains_views_pointwise_eq(
    a: Seq<Vec<Option<CSPCursor>>>,
    b: Seq<Vec<Option<CSPCursor>>>,
)
    requires
        a.len() == b.len(),
        forall|j: int|
            0 <= j < a.len() ==> opt_cursor_views(#[trigger] a[j]@) == opt_cursor_views(b[j]@),
    ensures
        chains_views(a) == chains_views(b),
    decreases a,
{
    if a.len() > 0 {
        lemma_chains_views_pointwise_eq(a.drop_last(), b.drop_last());
        assert(a[a.len() - 1] == a.last());
        assert(chains_views(a) =~= chains_views(b));
    } else {
        assert(chains_views(a) =~= chains_views(b));
    }
}

impl CSP {
    /// The root cursor for this process: the state in which nothing has
    /// been performed yet.
    #[verifier::loop_isolation(false)]
    pub fn root(&self) -> (r: CSPCursor)
        ensures
            r@ == proc_root(self@),
        decreases proc_size(self@),
    {
        match self {
            CSP::Stop(_) => CSPCursor::Stop(StopCursor),
            CSP::Skip(_) => CSPCursor::Skip(SkipCursor { state: SkipState::BeforeTick }),
            CSP::Prefix(initial, after) => CSPCursor::Prefix(
                Box::new(
                    PrefixCursor {
                        state: crate::prefix::PrefixState::BeforeInitial,
                        initial: *initial,
                        after: Box::new(after.root()),
                    },
                ),
            ),
            CSP::InternalChoice(ps) => {
                let ghost views = proc_views(ps@);
                proof {
                    lemma_proc_views_len(ps@);
                    lemma_live_roots_of_len(views);
                }
                let mut subcursors: Vec<Option<CSPCursor>> = Vec::new();
                let mut i: usize = 0;
                while i < ps.len()
                    invariant
                        0 <= i <= ps@.len(),
                        subcursors@.len() == i,
                        forall|j: int|
                            0 <= j < i ==> (#[trigger] subcursors@[j]) is Some
                                && cursor_view(subcursors@[j]->0) == proc_root(views[j]),
                    decreases ps@.len() - i,
                {
                    proof {
                        lemma_proc_views_index(ps@, i as int);
                        lemma_proc_seq_size_elem(views, i as int);
                    }
                    let c = ps[i].root();
                    subcursors.push(Some(c));
                    i += 1;
                }
                proof {
                    lemma_opt_cursor_views_len(subcursors@);
                    assert forall|j: int| 0 <= j < views.len() implies opt_cursor_views(
                        subcursors@,
                    )[j] == live_roots_of(views)[j] by {
                        lemma_opt_cursor_views_index(subcursors@, j);
                    }
                    assert(opt_cursor_views(subcursors@) =~= live_roots_of(views));
                }
                CSPCursor::InternalChoice(
                    InternalChoiceCursor {
                        state: crate::internal_choice::InternalChoiceState::BeforeTau,
                        subcursors,
                    },
                )
            },
            CSP::ExternalChoice(ps) => {
                let ghost views = proc_views(ps@);
                proof {
                    lemma_proc_views_len(ps@);
                    crate::semantics::lemma_root_chains_of_len(views);
                }
                let mut subcursors: Vec<Vec<Option<CSPCursor>>> = Vec::new();
                let mut i: usize = 0;
                while i < ps.len()
                    invariant
                        0 <= i <= ps@.len(),
                        subcursors@.len() == i,
                        forall|j: int|
                            0 <= j < i ==> opt_cursor_views(#[trigger] subcursors@[j]@) == seq![
                                Some(proc_root(views[j])),
                            ],
                    decreases ps@.len() - i,
                {
                    proof {
                        lemma_proc_views_index(ps@, i as int);
                        lemma_proc_seq_size_elem(views, i as int);
                    }
                    let c = ps[i].root();
                    let mut chain: Vec<Option<CSPCursor>> = Vec::new();
                    chain.push(Some(c));
                    proof {
                        assert(opt_cursor_views(chain@.drop_last()) =~= Seq::<
                            Option<CursorV>,
                        >::empty());
                        assert(opt_cursor_views(chain@) =~= seq![
                            Some(proc_root(views[i as int])),
                        ]);
                    }
                    subcursors.push(chain);
                    i += 1;
                }
                proof {
                    crate::semantics::lemma_chains_views_len(subcursors@);
                    assert forall|j: int| 0 <= j < views.len() implies chains_views(
                        subcursors@,
                    )[j] == crate::semantics::root_chains_of(views)[j] by {
                        crate::semantics::lemma_chains_views_index(subcursors@, j);
                    }
                    assert(chains_views(subcursors@) =~= crate::semantics::root_chains_of(views));
                }
                CSPCursor::ExternalChoice(
                    ExternalChoiceCursor {
                        state: crate::external_choice::ExternalChoiceState::Unresolved,
                        subcursors,
                        tau_count: 0,
                    },
                )
            },
            CSP::SequentialComposition(p1, q1) => {
                let r = CSPCursor::SequentialComposition(
                    Box::new(
                        SequentialCompositionCursor {
                            q_root: (**q1).clone(),
                            p: Some(Box::new(p1.root())),
                            qs: Vec::new(),
                        },
                    ),
                );
                proof {
                    assert(opt_cursor_views(Seq::<Option<CSPCursor>>::empty()) =~= Seq::<
                        Option<CursorV>,
                    >::empty());
                    assert(r@ =~~= proc_root(self@));
                }
                r
            },
        }
    }
}

/// Collects the events offered by the live states of a list of possibly
/// deactivated subcursors, each listed once.
#[verifier::loop_isolation(false)]
pub(crate) fn live_events_of(cs: &Vec<Option<CSPCursor>>) -> (r: Vec<Event>)
    ensures
        r@.to_set() == live_events(opt_cursor_views(cs@)),
        r@.no_duplicates(),
    decreases cs@, 2nat,
{
    let ghost views = opt_cursor_views(cs@);
    proof {
        lemma_opt_cursor_views_len(cs@);
    }
    let mut r: Vec<Event> = Vec::new();
    let mut i: usize = 0;
    proof {
        assert(views.take(0) =~= Seq::empty());
        assert(r@.to_set() =~= live_events(views.take(0)));
    }
    while i < cs.len()
        invariant
            0 <= i <= cs@.len(),
            r@.no_duplicates(),
            r@.to_set() == live_events(views.take(i as int)),
        decreases cs@.len() - i,
    {
        proof {
            lemma_opt_cursor_views_index(cs@, i as int);
            assert(decreases_to!(cs@ => cs@[i as int]));
            if cs@[i as int] is Some {
                assert(decreases_to!(cs@[i as int] => cs@[i as int]->0));
            }
        }
        match &cs[i] {
            Some(c) => {
                let child_events = c.events();
                let mut j: usize = 0;
                while j < child_events.len()
                    invariant
                        0 <= j <= child_events@.len(),
                        r@.no_duplicates(),
                        r@.to_set() == live_events(views.take(i as int)).union(
                            child_events@.take(j as int).to_set(),
                        ),
                        child_events@.to_set() == cv_events(cursor_view(cs@[i as int]->0)),
                        i < cs@.len(),
                        cs@[i as int] is Some,
                    decreases child_events@.len() - j,
                {
                    let e = child_events[j];
                    push_unique(&mut r, e);
                    proof {
                        assert(child_events@.take(j + 1) == child_events@.take(j as int).push(e));
                        assert(child_events@.take(j + 1).to_set() =~= child_events@.take(
                            j as int,
                        ).to_set().insert(e));
                        assert(r@.to_set() =~= live_events(views.take(i as int)).union(
                            child_events@.take(j + 1).to_set(),
                        ));
                    }
                    j += 1;
                }
                proof {
                    assert(child_events@.take(child_events@.len() as int) == child_events@);
                    crate::semantics::lemma_live_events_take(views, i as int);
                    assert(views[i as int] == Some(cursor_view(cs@[i as int]->0)));
                    assert(r@.to_set() =~= live_events(views.take(i + 1)));
                }
            },
            None => {
                proof {
                    crate::semantics::lemma_live_events_take(views, i as int);
                    assert(views[i as int] is None);
                    assert(r@.to_set() =~= live_events(views.take(i + 1)));
                }
            },
        }
        i += 1;
    }
    proof {
        assert(views.take(views.len() as int) =~= views);
    }
    r
}

/// The alphabet of a composite cursor, materialized: the events the cursor
/// is willing to perform now, each listed once.
#[derive(Debug)]
pub struct CSPAlphabet {
    pub events: Vec<Event>,
}

impl Alphabet for CSPAlphabet {
    open spec fn members(&self) -> Set<Event> {
        self.events@.to_set()
    }

    fn contains(&self, event: &Event) -> (r: bool) {
        contains_event(&self.events, *event)
    }
}

impl CSPCursor {
    /// The set of events this cursor is willing to perform in its current
    /// state, τ and ✔ included, each listed once.
    pub fn events(&self) -> (r: Vec<Event>)
        ensures
            r@.to_set() == cv_events(self@),
            r@.no_duplicates(),
        decreases *self, 2nat,
    {
        match self {
            CSPCursor::Stop(c) => c.events(),
            CSPCursor::Skip(c) => c.events(),
            CSPCursor::Prefix(pc) => (&**pc).events(),
            CSPCursor::InternalChoice(ic) => ic.events(),
            CSPCursor::ExternalChoice(ec) => ec.events(),
            CSPCursor::SequentialComposition(sc) => (&**sc).events(),
        }
    }

    /// Whether this cursor is willing to perform `event` now.
    pub fn can_perform(&self, event: &Event) -> (r: bool)
        ensures
            r == cv_can(self@, *event),
        decreases *self, 3nat,
    {
        contains_event(&self.events(), *event)
    }

    /// The alphabet of events this cursor is willing to perform now.
    pub fn initials(&self) -> (r: CSPAlphabet)
        ensures
            r.members() == cv_events(self@),
        decreases *self, 4nat,
    {
        CSPAlphabet { events: self.events() }
    }
}

impl CSPCursor {
    /// Updates the cursor to the state after performing `event`.  A cursor
    /// is never asked to perform an event it is not willing to perform:
    /// that would be a programming-contract violation, not a recoverable
    /// condition, so the event is required to be performable.
    pub fn perform(&mut self, event: &Event)
        requires
            cv_can(old(self)@, *event),
            room_to_step(old(self)@, *event),
        ensures
            final(self)@ == cv_perform(old(self)@, *event),
    {
        let mut owned = CSPCursor::Stop(StopCursor);
        core::mem::swap(self, &mut owned);
        let stepped = performed(owned, event);
        *self = stepped;
    }

    /// A new cursor for the state after performing `event`, leaving this
    /// cursor unchanged: the branching primitive of trace enumeration.
    pub fn after(&self, event: &Event) -> (r: CSPCursor)
        requires
            cv_can(self@, *event),
            room_to_step(self@, *event),
        ensures
            r@ == cv_perform(self@, *event),
    {
        let mut r = self.clone();
        r.perform(event);
        r
    }
}

/// The state a cursor moves to by performing `event`: one step of the
/// per-operator state machines.
fn performed(c: CSPCursor, event: &Event) -> (r: CSPCursor)
    requires
        cv_can(c@, *event),
        room_to_step(c@, *event),
    ensures
        r@ == cv_perform(c@, *event),
    decreases c, 9nat,
{
    match c {
        CSPCursor::Stop(sc) => {
            proof {
                assert(false);
            }
            CSPCursor::Stop(sc)
        },
        CSPCursor::Skip(_) => CSPCursor::Skip(SkipCursor { state: SkipState::AfterTick }),
        CSPCursor::Prefix(pc) => {
            let PrefixCursor { state, initial, after } = *pc;
            match state {
                crate::prefix::PrefixState::BeforeInitial => CSPCursor::Prefix(
                    Box::new(
                        PrefixCursor {
                            state: crate::prefix::PrefixState::AfterInitial,
                            initial,
                            after,
                        },
                    ),
                ),
                crate::prefix::PrefixState::AfterInitial => CSPCursor::Prefix(
                    Box::new(
                        PrefixCursor {
                            state,
                            initial,
                            after: Box::new(performed(*after, event)),
                        },
                    ),
                ),
            }
        },
        CSPCursor::InternalChoice(ic) => {
            match ic.state {
                crate::internal_choice::InternalChoiceState::BeforeTau => CSPCursor::InternalChoice(
                    InternalChoiceCursor {
                        state: crate::internal_choice::InternalChoiceState::AfterTau,
                        subcursors: ic.subcursors,
                    },
                ),
                crate::internal_choice::InternalChoiceState::AfterTau => {
                    let (stepped, _) = step_each(ic.subcursors, event);
                    CSPCursor::InternalChoice(
                        InternalChoiceCursor { state: ic.state, subcursors: stepped },
                    )
                },
            }
        },
        CSPCursor::ExternalChoice(ec) => {
            let unresolved = match ec.state {
                crate::external_choice::ExternalChoiceState::Unresolved => true,
                crate::external_choice::ExternalChoiceState::Resolved => false,
            };
            if unresolved && *event == Event::Tau(Tau) {
                let new_count = ec.tau_count + 1;
                let extended = extend_chains_step(ec.subcursors, event, new_count);
                let mut stepped = ExternalChoiceCursor {
                    state: ec.state,
                    subcursors: extended,
                    tau_count: new_count,
                };
                stepped.deactivate_tau_subprocesses();
                CSPCursor::ExternalChoice(stepped)
            } else {
                let (stepped, _) = step_chains(ec.subcursors, event);
                CSPCursor::ExternalChoice(
                    ExternalChoiceCursor {
                        state: crate::external_choice::ExternalChoiceState::Resolved,
                        subcursors: stepped,
                        tau_count: ec.tau_count,
                    },
                )
            }
        },
        CSPCursor::SequentialComposition(sc) => {
            let SequentialCompositionCursor { q_root, p, qs } = *sc;
            let (qs_stepped, _) = step_each(qs, event);
            match p {
                None => CSPCursor::SequentialComposition(
                    Box::new(SequentialCompositionCursor { q_root, p: None, qs: qs_stepped }),
                ),
                Some(pc) => {
                    if *event == Event::Tick(Tick) {
                        CSPCursor::SequentialComposition(
                            Box::new(
                                SequentialCompositionCursor { q_root, p: Some(pc), qs: qs_stepped },
                            ),
                        )
                    } else {
                        let mut qs_spawned = qs_stepped;
                        if *event == Event::Tau(Tau) && (&*pc).can_perform(&Event::Tick(Tick)) {
                            let ghost before_spawn = qs_spawned@;
                            qs_spawned.push(Some(q_root.root()));
                            proof {
                                assert(qs_spawned@ =~= before_spawn.push(qs_spawned@.last()));
                                crate::semantics::lemma_opt_cursor_views_push(
                                    before_spawn,
                                    qs_spawned@.last(),
                                );
                                assert(opt_cursor_views(qs_spawned@) =~= opt_cursor_views(
                                    before_spawn,
                                ).push(Some(proc_root(q_root@))));
                            }
                        }
                        let p_stepped: Option<Box<CSPCursor>> = if (&*pc).can_perform(event) {
                            Some(Box::new(performed(*pc, event)))
                        } else {
                            None
                        };
                        CSPCursor::SequentialComposition(
                            Box::new(
                                SequentialCompositionCursor {
                                    q_root,
                                    p: p_stepped,
                                    qs: qs_spawned,
                                },
                            ),
                        )
                    }
                },
            }
        },
    }
}

/// Steps a boxed cursor: `performed`, keeping the box.
pub(crate) fn performed_box(c: Box<CSPCursor>, event: &Event) -> (r: Box<CSPCursor>)
    requires
        cv_can(cursor_view(*c), *event),
        room_to_step(cursor_view(*c), *event),
    ensures
        cursor_view(*r) == cv_perform(cursor_view(*c), *event),
{
    Box::new(performed(*c, event))
}

/// Has every live subcursor state in the list perform `event` if it can;
/// states that cannot are permanently deactivated.  Also reports whether
/// any live state could perform the event at all.
#[verifier::loop_isolation(false)]
pub(crate) fn step_each(cs: Vec<Option<CSPCursor>>, event: &Event) -> (r: (
    Vec<Option<CSPCursor>>,
    bool,
))
    requires
        room_all(opt_cursor_views(cs@), *event),
    ensures
        opt_cursor_views(r.0@) == step_all(opt_cursor_views(cs@), *event),
        r.1 == live_events(opt_cursor_views(cs@)).contains(*event),
    decreases cs@, 9nat,
{
    let ghost cs0 = cs@;
    let ghost views = opt_cursor_views(cs0);
    proof {
        lemma_opt_cursor_views_len(cs0);
        crate::semantics::lemma_step_all_index(views, *event);
    }
    let mut rest = cs;
    let mut out: Vec<Option<CSPCursor>> = Vec::new();
    let mut any = false;
    proof {
        assert(views.take(0) =~= Seq::empty());
        assert(!live_events(views.take(0)).contains(*event));
    }
    while rest.len() > 0
        invariant
            rest@ == cs0.skip(out@.len() as int),
            out@.len() <= cs0.len(),
            forall|k: int|
                0 <= k < out@.len() ==> opt_cursor_views(out@)[k] == step_all(views, *event)[k],
            any == live_events(views.take(out@.len() as int)).contains(*event),
        decreases rest@.len(),
    {
        let ghost k = out@.len() as int;
        proof {
            lemma_opt_cursor_views_index(cs0, k);
            assert(cs0[k] == rest@[0]);
            assert(decreases_to!(cs0 => cs0[k]));
            if cs0[k] is Some {
                assert(decreases_to!(cs0[k] => cs0[k]->0));
            }
            crate::semantics::lemma_live_events_take(views, k);
        }
        let entry = rest.remove(0);
        let ghost out_before = out@;
        match entry {
            Some(c) => {
                if c.can_perform(event) {
                    proof {
                        lemma_room_all_index(views, *event, k);
                    }
                    let stepped = performed(c, event);
                    out.push(Some(stepped));
                    any = true;
                } else {
                    out.push(None);
                }
            },
            None => {
                out.push(None);
            },
        }
        proof {
            assert(out@ =~= out_before.push(out@.last()));
            crate::semantics::lemma_opt_cursor_views_push(out_before, out@.last());
            lemma_opt_cursor_views_len(out@);
            assert forall|k2: int| 0 <= k2 < out@.len() implies opt_cursor_views(out@)[k2]
                == step_all(views, *event)[k2] by {
                if k2 < k {
                    assert(opt_cursor_views(out@)[k2] == opt_cursor_views(out_before).push(
                        match out@.last() {
                            Some(c) => Some(cursor_view(c)),
                            None => None,
                        },
                    )[k2]);
                    assert(opt_cursor_views(out@)[k2] == opt_cursor_views(out_before)[k2]);
                }
            }
            assert(rest@ =~= cs0.skip(out@.len() as int));
        }
    }
    proof {
        assert(views.take(views.len() as int) =~= views);
        lemma_opt_cursor_views_len(out@);
        assert(opt_cursor_views(out@) =~= step_all(views, *event));
    }
    (out, any)
}

/// Has every live state in every τ-chain perform `event` if it can, and
/// reports whether any state could.
#[verifier::loop_isolation(false)]
pub(crate) fn step_chains(cs: Vec<Vec<Option<CSPCursor>>>, event: &Event) -> (r: (
    Vec<Vec<Option<CSPCursor>>>,
    bool,
))
    requires
        room_chains(chains_views(cs@), *event),
    ensures
        chains_views(r.0@) == ec_perform_all(chains_views(cs@), *event),
        r.1 == crate::semantics::ec_events(chains_views(cs@)).contains(*event),
    decreases cs@, 10nat,
{
    let ghost cs0 = cs@;
    let ghost views = chains_views(cs0);
    proof {
        crate::semantics::lemma_chains_views_len(cs0);
        crate::semantics::lemma_ec_perform_all_index(views, *event);
        crate::semantics::lemma_ec_events_contains(views, *event);
    }
    let mut rest = cs;
    let mut out: Vec<Vec<Option<CSPCursor>>> = Vec::new();
    let mut any = false;
    while rest.len() > 0
        invariant
            rest@ == cs0.skip(out@.len() as int),
            out@.len() <= cs0.len(),
            forall|k: int|
                0 <= k < out@.len() ==> chains_views(out@)[k] == ec_perform_all(views, *event)[k],
            any == exists|k: int|
                0 <= k < out@.len() && live_events(#[trigger] views[k]).contains(*event),
        decreases rest@.len(),
    {
        let ghost k = out@.len() as int;
        proof {
            crate::semantics::lemma_chains_views_index(cs0, k);
            assert(cs0[k] == rest@[0]);
            assert(decreases_to!(cs0 => cs0[k]));
            assert(decreases_to!(cs0[k] => cs0[k]@));
            lemma_room_chains_index(views, *event, k);
        }
        let chain = rest.remove(0);
        let ghost out_before = out@;
        let (stepped, chain_any) = step_each(chain, event);
        let this_any = chain_any;
        out.push(stepped);
        if this_any {
            any = true;
        }
        proof {
            assert(out@ =~= out_before.push(out@.last()));
            crate::semantics::lemma_chains_views_push(out_before, out@.last());
            crate::semantics::lemma_chains_views_len(out@);
            assert forall|k2: int| 0 <= k2 < out@.len() implies chains_views(out@)[k2]
                == ec_perform_all(views, *event)[k2] by {
                if k2 < k {
                    assert(chains_views(out@)[k2] == chains_views(out_before)[k2]);
                }
            }
            assert(rest@ =~= cs0.skip(out@.len() as int));
            if this_any {
                assert(live_events(views[k]).contains(*event));
            }
            if any && !this_any {
                let k3 = choose|k3: int|
                    0 <= k3 < out_before.len() && live_events(#[trigger] views[k3]).contains(
                        *event,
                    );
                assert(0 <= k3 < out@.len() && live_events(views[k3]).contains(*event));
            }
        }
    }
    proof {
        crate::semantics::lemma_chains_views_len(out@);
        assert(chains_views(out@) =~= ec_perform_all(views, *event));
    }
    (out, any)
}

/// One unresolved-τ step, chain by chain: a chain that has kept pace with
/// the τ count and whose deepest live state can perform another τ grows by
/// that state's successor, keeping the old state as a still-possible world.
#[verifier::loop_isolation(false)]
pub(crate) fn extend_chains_step(cs: Vec<Vec<Option<CSPCursor>>>, event: &Event, new_count: usize) -> (r: Vec<
    Vec<Option<CSPCursor>>,
>)
    requires
        room_chain_extend(chains_views(cs@), *event, new_count as nat),
    ensures
        chains_views(r@) == crate::semantics::ec_extend_chains(
            chains_views(cs@),
            *event,
            new_count as nat,
        ),
    decreases cs@, 10nat,
{
    let ghost cs0 = cs@;
    let ghost views = chains_views(cs0);
    proof {
        crate::semantics::lemma_chains_views_len(cs0);
        crate::semantics::lemma_ec_extend_chains_index(views, *event, new_count as nat);
    }
    let mut rest = cs;
    let mut out: Vec<Vec<Option<CSPCursor>>> = Vec::new();
    while rest.len() > 0
        invariant
            rest@ == cs0.skip(out@.len() as int),
            out@.len() <= cs0.len(),
            forall|k: int|
                0 <= k < out@.len() ==> chains_views(out@)[k] == crate::semantics::chain_extend(
                    views[k],
                    *event,
                    new_count as nat,
                ),
        decreases rest@.len(),
    {
        let ghost k = out@.len() as int;
        proof {
            crate::semantics::lemma_chains_views_index(cs0, k);
            assert(cs0[k] == rest@[0]);
            assert(decreases_to!(cs0 => cs0[k]));
            assert(decreases_to!(cs0[k] => cs0[k]@));
        }
        let mut chain = rest.remove(0);
        let ghost cviews = opt_cursor_views(chain@);
        proof {
            lemma_opt_cursor_views_len(chain@);
        }
        let ghost out_before = out@;
        if chain.len() == new_count && chain.len() > 0 {
            let last_can = match &chain[chain.len() - 1] {
                Some(c) => c.can_perform(event),
                None => false,
            };
            proof {
                lemma_opt_cursor_views_index(chain@, chain@.len() - 1);
            }
            if last_can {
                let ghost orig_chain = chain@;
                let last_entry = chain.pop().unwrap();
                let c = last_entry.unwrap();
                proof {
                    assert(decreases_to!(cs0[k] => cs0[k]@));
                    assert(decreases_to!(cs0[k]@ => cs0[k]@[cs0[k]@.len() - 1]));
                    assert(cs0[k]@[cs0[k]@.len() - 1] == orig_chain.last());
                    if orig_chain.last() is Some {
                        assert(decreases_to!(orig_chain.last() => orig_chain.last()->0));
                    }
                    assert(c == orig_chain.last()->0);
                    lemma_room_chain_extend_index(views, *event, new_count as nat, k);
                    lemma_opt_cursor_views_index(orig_chain, orig_chain.len() - 1);
                    assert(cviews.last() == Some(cursor_view(c)));
                }
                let keep = Some(c.clone());
                let stepped = performed(c, event);
                let ghost after_pop = chain@;
                chain.push(keep);
                let ghost after_keep = chain@;
                chain.push(Some(stepped));
                proof {
                    assert(opt_cursor_views(orig_chain) == opt_cursor_views(
                        orig_chain.drop_last(),
                    ).push(
                        match orig_chain.last() {
                            Some(sub) => Some(cursor_view(sub)),
                            None => None,
                        },
                    ));
                    assert(opt_cursor_views(after_pop) == cviews.drop_last());
                    crate::semantics::lemma_opt_cursor_views_push(after_pop, after_keep.last());
                    assert(after_keep =~= after_pop.push(after_keep.last()));
                    assert(opt_cursor_views(after_keep) == cviews.drop_last().push(cviews.last()));
                    crate::semantics::lemma_opt_cursor_views_push(after_keep, chain@.last());
                    assert(chain@ =~= after_keep.push(chain@.last()));
                    assert(opt_cursor_views(chain@) =~= cviews.push(
                        Some(cv_perform(cviews.last()->0, *event)),
                    ));
                    assert(opt_cursor_views(chain@) =~= crate::semantics::chain_extend(
                        cviews,
                        *event,
                        new_count as nat,
                    ));
                }
            } else {
                proof {
                    assert(opt_cursor_views(chain@) =~= crate::semantics::chain_extend(
                        cviews,
                        *event,
                        new_count as nat,
                    ));
                }
            }
        } else {
            proof {
                assert(opt_cursor_views(chain@) =~= crate::semantics::chain_extend(
                    cviews,
                    *event,
                    new_count as nat,
                ));
            }
        }
        let ghost pushed_views = opt_cursor_views(chain@);
        out.push(chain);
        proof {
            assert(out@ =~= out_before.push(out@.last()));
            crate::semantics::lemma_chains_views_push(out_before, out@.last());
            crate::semantics::lemma_chains_views_len(out@);
            assert(chains_views(out@)[k] == pushed_views);
            assert forall|k2: int| 0 <= k2 < out@.len() implies chains_views(out@)[k2]
                == crate::semantics::chain_extend(views[k2], *event, new_count as nat) by {
                if k2 < k {
                    assert(chains_views(out@)[k2] == chains_views(out_before)[k2]);
                }
            }
            assert(rest@ =~= cs0.skip(out@.len() as int));
        }
    }
    proof {
        crate::semantics::lemma_chains_views_len(out@);
        assert(chains_views(out@) =~= crate::semantics::ec_extend_chains(
            views,
            *event,
            new_count as nat,
        ));
    }
    out
}

/// A small executable alias for the ✔ event, for comparisons.
fn tick_event() -> (r: Event)
    ensures
        r == Event::Tick(Tick),
{
    Event::Tick(Tick)
}

} // verus!
