//! The trace engine: maximal finite traces and their prefix-free container.

use vstd::prelude::*;

use crate::csp::CSP;
use crate::event::{tau, Event, Tau};
use crate::csp::CSPCursor;
use crate::semantics::{
    can_step, cursor_view, cv_can, cv_events, cv_perform, is_prefix_of, is_raw_trace,
    is_strict_prefix_of, lemma_prefix_refl, lemma_prefix_trans, lemma_proc_views_index,
    lemma_proc_views_len, maximal_traces_of, proc_size, prune, room_to_step, spec_afters,
    spec_initials, spec_satisfies, CursorV, ProcV,
};

verus! {

/// What one insertion does to a set of traces: a trace that is a prefix of
/// an existing trace is dropped; otherwise it is added, and every existing
/// proper prefix of it is removed.
pub open spec fn spec_insert(s: Set<Seq<Event>>, t: Seq<Event>) -> Set<Seq<Event>> {
    if exists|u: Seq<Event>| s.contains(u) && is_prefix_of(t, u) {
        s
    } else {
        Set::new(|u: Seq<Event>| s.contains(u) && !is_strict_prefix_of(u, t)).insert(t)
    }
}

/// No element of the set is a prefix of another element.
pub open spec fn prefix_free(s: Set<Seq<Event>>) -> bool {
    forall|t: Seq<Event>, u: Seq<Event>|
        s.contains(t) && s.contains(u) && t != u ==> !is_prefix_of(t, u)
}

/// The views of the stored traces.
pub open spec fn trace_views(ts: Seq<Vec<Event>>) -> Seq<Seq<Event>> {
    ts.map_values(|v: Vec<Event>| v@)
}

/// Copies a trace.
fn clone_trace(v: &Vec<Event>) -> (r: Vec<Event>)
    ensures
        r@ == v@,
{
    let mut r: Vec<Event> = Vec::new();
    let mut i: usize = 0;
    while i < v.len()
        invariant
            0 <= i <= v@.len(),
            r@ == v@.take(i as int),
        decreases v@.len() - i,
    {
        r.push(v[i]);
        proof {
            assert(v@.take(i + 1) =~= v@.take(i as int).push(v@[i as int]));
        }
        i += 1;
    }
    proof {
        assert(v@.take(v@.len() as int) =~= v@);
    }
    r
}

/// Returns whether `a` is a prefix of `b` (possibly all of it).
#[verifier::loop_isolation(false)]
fn is_trace_prefix(a: &Vec<Event>, b: &Vec<Event>) -> (r: bool)
    ensures
        r == is_prefix_of(a@, b@),
{
    if a.len() > b.len() {
        return false;
    }
    let mut i: usize = 0;
    while i < a.len()
        invariant
            0 <= i <= a@.len(),
            a@.len() <= b@.len(),
            forall|k: int| 0 <= k < i ==> a@[k] == b@[k],
        decreases a@.len() - i,
    {
        if a[i] != b[i] {
            proof {
                assert(a@[i as int] != b@.take(a@.len() as int)[i as int]);
            }
            return false;
        }
        i += 1;
    }
    proof {
        assert(a@ =~= b@.take(a@.len() as int));
    }
    true
}

/// A set of traces that is maximal — no element of the set is a proper
/// prefix of any other element.  The invariant is maintained on every
/// insertion.
#[derive(Debug)]
pub struct MaximalTraces {
    traces: Vec<Vec<Event>>,
}

impl View for MaximalTraces {
    type V = Set<Seq<Event>>;

    closed spec fn view(&self) -> Set<Seq<Event>> {
        trace_views(self.traces@).to_set()
    }
}

impl MaximalTraces {
    /// The container's invariant: the stored traces are pairwise distinct,
    /// none is a prefix of another, and the empty trace that every process
    /// has keeps the container non-empty from the start.
    pub closed spec fn wf(&self) -> bool {
        &&& trace_views(self.traces@).no_duplicates()
        &&& prefix_free(self@)
        &&& self.traces@.len() > 0
    }

    /// A well-formed set of maximal traces never holds a trace that is a
    /// prefix of another trace in the same set.
    pub proof fn lemma_wf_prefix_free(&self)
        requires
            self.wf(),
        ensures
            prefix_free(self@),
    {
    }

    /// A well-formed set of maximal traces is never empty: every process
    /// has at least the empty trace.
    pub proof fn lemma_wf_nonempty(&self)
        requires
            self.wf(),
        ensures
            exists|t: Seq<Event>| self@.contains(t),
    {
        assert(trace_views(self.traces@).contains(trace_views(self.traces@)[0]));
        assert(self@.contains(trace_views(self.traces@)[0]));
    }

    /// A new set, holding just the empty trace.
    pub fn new() -> (r: MaximalTraces)
        ensures
            r.wf(),
            r@ == Set::empty().insert(Seq::<Event>::empty()),
    {
        let mut traces: Vec<Vec<Event>> = Vec::new();
        let empty: Vec<Event> = Vec::new();
        traces.push(empty);
        let r = MaximalTraces { traces };
        proof {
            assert(trace_views(r.traces@) =~= seq![Seq::<Event>::empty()]);
            assert(trace_views(r.traces@)[0] == Seq::<Event>::empty());
            assert(trace_views(r.traces@).contains(Seq::<Event>::empty()));
            assert forall|t: Seq<Event>| r@.contains(t) implies t == Seq::<Event>::empty() by {
                let k = choose|k: int|
                    0 <= k < trace_views(r.traces@).len() && trace_views(r.traces@)[k] == t;
            }
            assert(r@ =~= Set::empty().insert(Seq::<Event>::empty()));
        }
        r
    }

    /// The stored traces, one per maximal trace.
    pub fn iter(&self) -> (r: &Vec<Vec<Event>>)
        ensures
            trace_views(r@).to_set() == self@,
    {
        &self.traces
    }

    /// How many maximal traces the set holds.
    pub fn len(&self) -> (r: usize)
        requires
            self.wf(),
        ensures
            r == self@.len(),
    {
        proof {
            trace_views(self.traces@).unique_seq_to_set();
        }
        self.traces.len()
    }

    /// Whether the set holds exactly this trace.
    pub fn contains_trace(&self, trace: &Vec<Event>) -> (r: bool)
        ensures
            r == self@.contains(trace@),
    {
        let mut i: usize = 0;
        while i < self.traces.len()
            invariant
                0 <= i <= self.traces@.len(),
                forall|k: int| 0 <= k < i ==> trace_views(self.traces@)[k] != trace@,
            decreases self.traces@.len() - i,
        {
            if is_trace_prefix(trace, &self.traces[i]) && is_trace_prefix(&self.traces[i], trace)
            {
                proof {
                    assert(trace@ =~= self.traces@[i as int]@);
                    assert(trace_views(self.traces@)[i as int] == trace@);
                    assert(trace_views(self.traces@).contains(trace@));
                }
                return true;
            }
            proof {
                if trace_views(self.traces@)[i as int] == trace@ {
                    lemma_prefix_refl(trace@);
                    assert(trace_views(self.traces@)[i as int] == self.traces@[i as int]@);
                    assert(is_prefix_of(trace@, self.traces@[i as int]@));
                    assert(is_prefix_of(self.traces@[i as int]@, trace@));
                }
            }
            i += 1;
        }
        proof {
            if trace_views(self.traces@).contains(trace@) {
                let k = choose|k: int|
                    0 <= k < trace_views(self.traces@).len() && trace_views(self.traces@)[k]
                        == trace@;
                assert(trace_views(self.traces@)[k] != trace@);
            }
        }
        false
    }

    /// Inserts a trace, keeping the set maximal: inserting a trace that is a
    /// prefix of an existing trace is a no-op; inserting a proper extension
    /// of existing traces removes those prefixes first.
    #[verifier::loop_isolation(false)]
    pub fn insert(&mut self, trace: Vec<Event>)
        requires
            old(self).wf(),
        ensures
            final(self).wf(),
            final(self)@ == spec_insert(old(self)@, trace@),
    {
        let ghost old_view = self@;
        // If the new trace is a prefix of any existing trace, do nothing.
        let mut i: usize = 0;
        while i < self.traces.len()
            invariant
                0 <= i <= self.traces@.len(),
                forall|k: int|
                    0 <= k < i ==> !is_prefix_of(trace@, trace_views(self.traces@)[k]),
                self == old(self),
            decreases self.traces@.len() - i,
        {
            if is_trace_prefix(&trace, &self.traces[i]) {
                proof {
                    assert(trace_views(self.traces@)[i as int] == self.traces@[i as int]@);
                    assert(self@.contains(trace_views(self.traces@)[i as int]));
                    assert(spec_insert(old_view, trace@) =~= old_view);
                }
                return ;
            }
            i += 1;
        }
        proof {
            assert forall|u: Seq<Event>| old_view.contains(u) implies !is_prefix_of(
                trace@,
                u,
            ) by {
                let k = choose|k: int|
                    0 <= k < trace_views(self.traces@).len() && trace_views(self.traces@)[k] == u;
            }
        }
        // Remove any existing traces that are a proper prefix of the new
        // one, then add it.
        let ghost pruned = Set::new(
            |u: Seq<Event>| old_view.contains(u) && !is_strict_prefix_of(u, trace@),
        );
        let mut kept: Vec<Vec<Event>> = Vec::new();
        let mut j: usize = 0;
        while j < self.traces.len()
            invariant
                0 <= j <= self.traces@.len(),
                self == old(self),
                trace_views(kept@).no_duplicates(),
                forall|k: int|
                    0 <= k < kept@.len() ==> pruned.contains(#[trigger] trace_views(kept@)[k]),
                forall|k: int|
                    0 <= k < kept@.len() ==> exists|m: int|
                        0 <= m < j && trace_views(self.traces@)[m] == #[trigger] trace_views(
                            kept@,
                        )[k],
                forall|k: int|
                    0 <= k < j && !is_strict_prefix_of(trace_views(self.traces@)[k], trace@)
                        ==> trace_views(kept@).contains(trace_views(self.traces@)[k]),
            decreases self.traces@.len() - j,
        {
            let keep = if is_trace_prefix(&self.traces[j], &trace) {
                self.traces[j].len() >= trace.len()
            } else {
                true
            };
            proof {
                assert(trace_views(self.traces@)[j as int] == self.traces@[j as int]@);
            }
            if keep {
                let ghost kept_before = kept@;
                let c = clone_trace(&self.traces[j]);
                kept.push(c);
                proof {
                    assert(trace_views(kept@) =~= trace_views(kept_before).push(c@));
                    assert(self@.contains(trace_views(self.traces@)[j as int]));
                    assert forall|k: int|
                        0 <= k < trace_views(kept_before).len() implies trace_views(
                        kept_before,
                    )[k] != c@ by {
                        let m = choose|m: int|
                            0 <= m < j && trace_views(self.traces@)[m] == #[trigger] trace_views(
                                kept_before,
                            )[k];
                        assert(trace_views(self.traces@)[m] != trace_views(
                            self.traces@,
                        )[j as int]);
                    }
                    assert(trace_views(kept@).no_duplicates());
                    assert(trace_views(kept@)[trace_views(kept@).len() - 1] == trace_views(
                        self.traces@,
                    )[j as int]);
                    assert(trace_views(kept@).contains(trace_views(self.traces@)[j as int]));
                    assert forall|k: int|
                        0 <= k < j + 1 && !is_strict_prefix_of(
                            trace_views(self.traces@)[k],
                            trace@,
                        ) implies trace_views(kept@).contains(trace_views(self.traces@)[k]) by {
                        if k < j {
                            let k2 = choose|k2: int|
                                0 <= k2 < trace_views(kept_before).len() && trace_views(
                                    kept_before,
                                )[k2] == trace_views(self.traces@)[k];
                            assert(trace_views(kept@)[k2] == trace_views(self.traces@)[k]);
                        }
                    }
                }
            } else {
                proof {
                    assert(is_strict_prefix_of(trace_views(self.traces@)[j as int], trace@));
                    assert forall|k: int|
                        0 <= k < j + 1 && !is_strict_prefix_of(
                            trace_views(self.traces@)[k],
                            trace@,
                        ) implies trace_views(kept@).contains(trace_views(self.traces@)[k]) by {}
                }
            }
            j += 1;
        }
        proof {
            assert forall|u: Seq<Event>| pruned.contains(u) implies trace_views(
                kept@,
            ).contains(u) by {
                let k = choose|k: int|
                    0 <= k < trace_views(self.traces@).len() && trace_views(self.traces@)[k] == u;
            }
            assert forall|k: int| 0 <= k < kept@.len() implies #[trigger] trace_views(kept@)[k]
                != trace@ by {
                assert(pruned.contains(trace_views(kept@)[k]));
                assert(!is_prefix_of(trace@, trace_views(kept@)[k]));
                if trace_views(kept@)[k] == trace@ {
                    lemma_prefix_refl(trace@);
                }
            }
        }
        let ghost kept_views = trace_views(kept@);
        kept.push(trace);
        proof {
            assert(trace_views(kept@) =~= kept_views.push(trace@));
        }
        let ghost all_views = trace_views(kept@);
        self.traces = kept;
        proof {
            let t = trace@;
            assert(trace_views(self.traces@) == all_views);
            assert(all_views[all_views.len() - 1] == t);
            assert(all_views.contains(t));
            assert(self@.contains(t));
            assert forall|u: Seq<Event>| self@.contains(u) && u != t implies pruned.contains(
                u,
            ) by {
                let k = choose|k: int| 0 <= k < all_views.len() && all_views[k] == u;
                assert(k < kept_views.len());
                assert(kept_views[k] == u);
            }
            assert forall|u: Seq<Event>| pruned.contains(u) implies self@.contains(u) by {
                assert(kept_views.contains(u));
                let k = choose|k: int| 0 <= k < kept_views.len() && kept_views[k] == u;
                assert(all_views[k] == u);
                assert(all_views.contains(u));
            }
            assert(self@ =~= pruned.insert(t));
            assert(spec_insert(old_view, t) =~= pruned.insert(t));
            // the container stays well formed
            assert forall|x: int, y: int|
                0 <= x < all_views.len() && 0 <= y < all_views.len() && x != y implies all_views[x]
                != all_views[y] by {
                if y == all_views.len() - 1 {
                    assert(kept_views[x] != t);
                } else if x == all_views.len() - 1 {
                    assert(kept_views[y] != t);
                } else {
                    assert(kept_views.no_duplicates());
                }
            }
            assert(all_views.no_duplicates());
            assert forall|a: Seq<Event>, b: Seq<Event>|
                self@.contains(a) && self@.contains(b) && a != b implies !is_prefix_of(a, b) by {
                if a == t {
                    assert(pruned.contains(b));
                    assert(old_view.contains(b));
                    assert(!is_prefix_of(t, b));
                } else if b == t {
                    assert(pruned.contains(a));
                    assert(!is_strict_prefix_of(a, t));
                    if is_prefix_of(a, t) {
                        assert(a.len() == t.len());
                        assert(a =~= t);
                    }
                } else {
                    assert(old_view.contains(a) && old_view.contains(b));
                }
            }
        }
    }
}

impl MaximalTraces {
    /// Builds a new maximal set by applying an edit to every stored trace
    /// and re-inserting the results, which re-establishes the
    /// prefix-maximality invariant over the edited traces.  Every non-empty
    /// trace of the result is the image of some stored trace under the
    /// edit.
    #[verifier::loop_isolation(false)]
    pub fn map<F: Fn(Vec<Event>) -> Vec<Event>>(self, f: F) -> (r: MaximalTraces)
        requires
            forall|t: Vec<Event>| #[trigger] call_requires(f, (t,)),
        ensures
            r.wf(),
            forall|u: Seq<Event>|
                #[trigger] r@.contains(u) ==> u == Seq::<Event>::empty() || exists|
                    tv: Vec<Event>,
                    v: Vec<Event>,
                |
                    self@.contains(tv@) && #[trigger] call_ensures(f, (tv,), v) && u == v@,
    {
        let ghost source = self@;
        let mut r = MaximalTraces::new();
        let mut i: usize = 0;
        while i < self.traces.len()
            invariant
                0 <= i <= self.traces@.len(),
                r.wf(),
                trace_views(self.traces@).to_set() == source,
                forall|u: Seq<Event>|
                    #[trigger] r@.contains(u) ==> u == Seq::<Event>::empty() || exists|
                        tv: Vec<Event>,
                        v: Vec<Event>,
                    |
                        source.contains(tv@) && #[trigger] call_ensures(f, (tv,), v) && u == v@,
            decreases self.traces@.len() - i,
        {
            let ghost r_before = r@;
            let input = clone_trace(&self.traces[i]);
            proof {
                assert(trace_views(self.traces@)[i as int] == self.traces@[i as int]@);
                assert(source.contains(input@));
            }
            let image = f(input);
            let ghost image_view = image@;
            r.insert(image);
            proof {
                assert forall|u: Seq<Event>|
                    #[trigger] r@.contains(u) implies u == Seq::<Event>::empty() || exists|
                    tv: Vec<Event>,
                    v: Vec<Event>,
                |
                    source.contains(tv@) && #[trigger] call_ensures(f, (tv,), v) && u == v@ by {
                    if !r_before.contains(u) {
                        assert(u == image_view);
                    }
                }
            }
            i += 1;
        }
        r
    }
}

/// Tracks the current state of a CSP process: which events it is willing/// Tracks the current state of a CSP process: which events it is willing
/// to perform now, and how performing one advances the state.  This is the
/// protocol the trace engine drives; the composite cursor implements it,
/// and the contracts speak of the ghost cursor `model`.
pub trait Cursor: Sized {
    /// The ghost cursor this value stands for.
    spec fn model(&self) -> CursorV;

    /// The events the process is willing to perform in its current state,
    /// τ and ✔ included, each listed once.
    fn events(&self) -> (r: Vec<Event>)
        ensures
            r@.to_set() == cv_events(self.model()),
            r@.no_duplicates(),
    ;

    /// Whether the process is willing to perform a particular event now.
    fn can_perform(&self, event: &Event) -> (r: bool)
        ensures
            r == cv_can(self.model(), *event),
    ;

    /// Advances the state by performing `event`.  Performing an event the
    /// cursor is not willing to perform is a programming-contract
    /// violation, so it is required away rather than reported.
    fn perform(&mut self, event: &Event)
        requires
            cv_can(old(self).model(), *event),
            room_to_step(old(self).model(), *event),
        ensures
            final(self).model() == cv_perform(old(self).model(), *event),
    ;

    /// A new cursor for the state after performing `event`, leaving this
    /// one unchanged.
    fn after(&self, event: &Event) -> (r: Self)
        requires
            cv_can(self.model(), *event),
            room_to_step(self.model(), *event),
        ensures
            r.model() == cv_perform(self.model(), *event),
    ;
}

impl Cursor for CSPCursor {
    open spec fn model(&self) -> CursorV {
        cursor_view(*self)
    }

    fn events(&self) -> (r: Vec<Event>) {
        CSPCursor::events(self)
    }

    fn can_perform(&self, event: &Event) -> (r: bool) {
        CSPCursor::can_perform(self, event)
    }

    fn perform(&mut self, event: &Event) {
        CSPCursor::perform(self, event)
    }

    fn after(&self, event: &Event) -> (r: Self) {
        CSPCursor::after(self, event)
    }
}

/// The initial events of a process's current state, each listed once.
/// This includes the invisible events τ and ✔.
pub fn initials(cursor: &CSPCursor) -> (r: Vec<Event>)
    ensures
        r@.to_set() == cv_events(cursor@),
        r@.no_duplicates(),
{
    CSPCursor::events(cursor)
}

/// Whether a process can perform a trace, events replayed in order from
/// the process's start.
pub fn satisfies_trace(process: &CSP, trace: &Vec<Event>) -> (r: bool)
    ensures
        r == spec_satisfies(process@, trace@),
{
    let r = satisfies_from(process, trace, 0);
    proof {
        assert(trace@.skip(0) =~= trace@);
    }
    r
}

/// Whether `process` can replay the trace from position `k` on.
#[verifier::loop_isolation(false)]
fn satisfies_from(process: &CSP, trace: &Vec<Event>, k: usize) -> (r: bool)
    requires
        k <= trace@.len(),
    ensures
        r == spec_satisfies(process@, trace@.skip(k as int)),
    decreases proc_size(process@),
{
    if k == trace.len() {
        proof {
            assert(trace@.skip(k as int) =~= Seq::<Event>::empty());
        }
        return true;
    }
    let e = trace[k];
    let succ = process.afters(&e);
    let ghost views = crate::semantics::proc_views(succ@);
    let ghost rest = trace@.skip(k as int);
    proof {
        lemma_proc_views_len(succ@);
        crate::semantics::lemma_afters_decrease(process@, e);
        assert(rest[0] == e);
        assert(rest.skip(1) =~= trace@.skip(k + 1));
    }
    let mut i: usize = 0;
    while i < succ.len()
        invariant
            0 <= i <= succ@.len(),
            forall|j: int| 0 <= j < i ==> !spec_satisfies(#[trigger] views[j], rest.skip(1)),
        decreases succ@.len() - i,
    {
        proof {
            lemma_proc_views_index(succ@, i as int);
        }
        if satisfies_from(&succ[i], trace, k + 1) {
            proof {
                assert(spec_satisfies(views[i as int], rest.skip(1)));
                assert(spec_satisfies(process@, rest));
            }
            return true;
        }
        i += 1;
    }
    proof {
        if spec_satisfies(process@, rest) {
            let j = choose|j: int|
                0 <= j < spec_afters(process@, rest[0]).len() && spec_satisfies(
                    #[trigger] spec_afters(process@, rest[0])[j],
                    rest.skip(1),
                );
            assert(!spec_satisfies(views[j], rest.skip(1)));
        }
    }
    false
}

/// The full trace a branch of the enumeration contributes: the events seen
/// so far, then the branch's own trace, with τ left unrecorded.
pub open spec fn branch_trace(cur: Seq<Event>, e: Event, s: Seq<Event>) -> Seq<Event> {
    if e == Event::Tau(Tau) {
        cur + s
    } else {
        cur + seq![e] + s
    }
}

/// Exhaustively explores every transition of `process`, accumulating into
/// `result` the visible-event traces that end where no transition is left.
/// Every transition strictly shrinks the process term, so the exploration
/// needs no cycle guard: this closed algebra has no recursion operator, and
/// no state can reoccur along a path.
#[verifier::loop_isolation(false)]
#[verifier::rlimit(20)]
#[verifier::spinoff_prover]
fn collect_traces(result: &mut MaximalTraces, process: &CSP, current: &mut Vec<Event>)
    requires
        old(result).wf(),
    ensures
        final(result).wf(),
        final(current)@ == old(current)@,
        forall|u: Seq<Event>|
            final(result)@.contains(u) ==> old(result)@.contains(u) || exists|s: Seq<Event>|
                is_raw_trace(process@, s) && u == old(current)@ + s,
        forall|u: Seq<Event>|
            old(result)@.contains(u) ==> exists|w: Seq<Event>|
                final(result)@.contains(w) && is_prefix_of(u, w),
        forall|s: Seq<Event>|
            is_raw_trace(process@, s) ==> exists|w: Seq<Event>|
                final(result)@.contains(w) && is_prefix_of(old(current)@ + s, w),
    decreases proc_size(process@),
{
    let ghost p_view = process@;
    let ghost cur0 = current@;
    let ghost r0 = result@;
    let events = process.initials();
    if events.len() == 0 {
        // No outgoing transition: the events seen so far form a finite
        // maximal trace.
        proof {
            assert(events@.to_set() =~= Set::<Event>::empty());
            assert(!can_step(p_view)) by {
                if exists|e: Event| spec_initials(p_view).contains(e) {
                    let e = choose|e: Event| spec_initials(p_view).contains(e);
                    assert(events@.to_set().contains(e));
                }
            }
        }
        let t = clone_trace(current);
        result.insert(t);
        proof {
            lemma_prefix_refl(cur0);
            assert(cur0 + Seq::<Event>::empty() =~= cur0);
            assert(is_raw_trace(p_view, Seq::<Event>::empty()));
            if exists|u: Seq<Event>| r0.contains(u) && is_prefix_of(cur0, u) {
                let u = choose|u: Seq<Event>| r0.contains(u) && is_prefix_of(cur0, u);
                assert(result@ == r0);
                assert forall|s: Seq<Event>| is_raw_trace(p_view, s) implies exists|w: Seq<Event>|
                    result@.contains(w) && is_prefix_of(cur0 + s, w) by {
                    assert(s == Seq::<Event>::empty());
                    assert(result@.contains(u) && is_prefix_of(cur0 + s, u));
                }
                assert forall|u2: Seq<Event>| r0.contains(u2) implies exists|w: Seq<Event>|
                    result@.contains(w) && is_prefix_of(u2, w) by {
                    lemma_prefix_refl(u2);
                }
            } else {
                assert(result@.contains(cur0));
                assert forall|s: Seq<Event>| is_raw_trace(p_view, s) implies exists|w: Seq<Event>|
                    result@.contains(w) && is_prefix_of(cur0 + s, w) by {
                    assert(s == Seq::<Event>::empty());
                    assert(result@.contains(cur0) && is_prefix_of(cur0 + s, cur0));
                }
                assert forall|u2: Seq<Event>| r0.contains(u2) implies exists|w: Seq<Event>|
                    result@.contains(w) && is_prefix_of(u2, w) by {
                    if result@.contains(u2) {
                        lemma_prefix_refl(u2);
                    } else {
                        assert(is_strict_prefix_of(u2, cur0));
                        assert(result@.contains(cur0) && is_prefix_of(u2, cur0));
                    }
                }
                assert forall|u2: Seq<Event>| result@.contains(u2) implies r0.contains(u2)
                    || exists|s: Seq<Event>| is_raw_trace(p_view, s) && u2 == cur0 + s by {
                    if u2 == cur0 {
                        assert(is_raw_trace(p_view, Seq::<Event>::empty()) && u2 == cur0
                            + Seq::<Event>::empty());
                    }
                }
            }
        }
        return ;
    }
    proof {
        assert(events@.to_set().contains(events@[0]));
        assert(can_step(p_view));
        assert forall|u: Seq<Event>| r0.contains(u) implies exists|w: Seq<Event>|
            result@.contains(w) && is_prefix_of(u, w) by {
            lemma_prefix_refl(u);
        }
    }
    let mut j: usize = 0;
    while j < events.len()
        invariant
            0 <= j <= events@.len(),
            result.wf(),
            current@ == cur0,
            forall|u: Seq<Event>|
                result@.contains(u) ==> r0.contains(u) || exists|s: Seq<Event>|
                    is_raw_trace(p_view, s) && u == cur0 + s,
            forall|u: Seq<Event>|
                r0.contains(u) ==> exists|w: Seq<Event>|
                    result@.contains(w) && is_prefix_of(u, w),
            forall|jj: int, k: int, s: Seq<Event>|
                0 <= jj < j && 0 <= k < spec_afters(p_view, events@[jj]).len()
                    && #[trigger] is_raw_trace(
                    spec_afters(p_view, events@[jj])[k],
                    s,
                ) ==> exists|w: Seq<Event>|
                    result@.contains(w) && is_prefix_of(
                        branch_trace(cur0, events@[jj], s),
                        w,
                    ),
        decreases events@.len() - j,
    {
        let e = events[j];
        let succ = process.afters(&e);
        proof {
            lemma_proc_views_len(succ@);
        }
        let mut k: usize = 0;
        while k < succ.len()
            invariant
                0 <= k <= succ@.len(),
                result.wf(),
                current@ == cur0,
                forall|u: Seq<Event>|
                    result@.contains(u) ==> r0.contains(u) || exists|s: Seq<Event>|
                        is_raw_trace(p_view, s) && u == cur0 + s,
                forall|u: Seq<Event>|
                    r0.contains(u) ==> exists|w: Seq<Event>|
                        result@.contains(w) && is_prefix_of(u, w),
                forall|jj: int, kk: int, s: Seq<Event>|
                    0 <= jj < j && 0 <= kk < spec_afters(p_view, events@[jj]).len()
                        && #[trigger] is_raw_trace(
                        spec_afters(p_view, events@[jj])[kk],
                        s,
                    ) ==> exists|w: Seq<Event>|
                        result@.contains(w) && is_prefix_of(
                            branch_trace(cur0, events@[jj], s),
                            w,
                        ),
                forall|kk: int, s: Seq<Event>|
                    0 <= kk < k && #[trigger] is_raw_trace(
                        spec_afters(p_view, events@[j as int])[kk],
                        s,
                    ) ==> exists|w: Seq<Event>|
                        result@.contains(w) && is_prefix_of(
                            branch_trace(cur0, events@[j as int], s),
                            w,
                        ),
            decreases succ@.len() - k,
        {
            proof {
                lemma_proc_views_index(succ@, k as int);
                crate::semantics::lemma_afters_decrease(p_view, events@[j as int]);
            }
            let ghost r_pre = result@;
            if e == tau() {
                collect_traces(result, &succ[k], current);
                proof {
                    assert(spec_afters(p_view, events@[j as int])[k as int] == succ@[
                        k as int
                    ]@);
                    assert(branch_prefix(cur0, events@[j as int]) == cur0);
                    lemma_step_subset(
                        p_view,
                        cur0,
                        events@[j as int],
                        k as int,
                        r0,
                        r_pre,
                        result@,
                    );
                    lemma_step_branch(p_view, cur0, events@[j as int], k as int, result@);
                    lemma_step_cover(r0, r_pre, result@);
                    lemma_cover_step(r_pre, result@);
                }
            } else {
                current.push(e);
                collect_traces(result, &succ[k], current);
                current.pop();
                proof {
                    assert(current@ == cur0);
                    assert(spec_afters(p_view, events@[j as int])[k as int] == succ@[
                        k as int
                    ]@);
                    assert(branch_prefix(cur0, events@[j as int]) == cur0.push(
                        events@[j as int],
                    ));
                    lemma_step_subset(
                        p_view,
                        cur0,
                        events@[j as int],
                        k as int,
                        r0,
                        r_pre,
                        result@,
                    );
                    lemma_step_branch(p_view, cur0, events@[j as int], k as int, result@);
                    lemma_step_cover(r0, r_pre, result@);
                    lemma_cover_step(r_pre, result@);
                }
            }
            k += 1;
        }
        j += 1;
    }
    proof {
        assert forall|s: Seq<Event>| is_raw_trace(p_view, s) implies exists|w: Seq<Event>|
            result@.contains(w) && is_prefix_of(cur0 + s, w) by {
            let (e, i): (Event, int) = choose|e: Event, i: int|
                {
                    &&& 0 <= i < spec_afters(p_view, e).len()
                    &&& if e == Event::Tau(Tau) {
                        is_raw_trace(spec_afters(p_view, e)[i], s)
                    } else {
                        s.len() > 0 && s[0] == e && is_raw_trace(
                            spec_afters(p_view, e)[i],
                            s.skip(1),
                        )
                    }
                };
            crate::semantics::lemma_afters_nonempty_implies_initial(p_view, e);
            assert(events@.to_set().contains(e));
            assert(events@.contains(e));
            let jj = choose|jj: int| 0 <= jj < events@.len() && events@[jj] == e;
            if e == Event::Tau(Tau) {
                assert(branch_trace(cur0, e, s) == cur0 + s);
            } else {
                let s1 = s.skip(1);
                assert(branch_trace(cur0, e, s1) =~= cur0 + s);
            }
        }
    }
}

/// Covering extends along prefixes: if everything in `a` has an extension
/// in `b`, then anything with an extension in `a` has one in `b`.
proof fn lemma_cover_step(a: Set<Seq<Event>>, b: Set<Seq<Event>>)
    requires
        forall|u: Seq<Event>|
            a.contains(u) ==> exists|w: Seq<Event>| b.contains(w) && is_prefix_of(u, w),
    ensures
        forall|u: Seq<Event>, w2: Seq<Event>|
            a.contains(w2) && is_prefix_of(u, w2) ==> exists|w: Seq<Event>|
                b.contains(w) && is_prefix_of(u, w),
{
    assert forall|u: Seq<Event>, w2: Seq<Event>|
        a.contains(w2) && is_prefix_of(u, w2) implies exists|w: Seq<Event>|
        b.contains(w) && is_prefix_of(u, w) by {
        let w3 = choose|w3: Seq<Event>| b.contains(w3) && is_prefix_of(w2, w3);
        lemma_prefix_trans(u, w2, w3);
    }
}

/// A trace of one branch, recorded behind the branch's own prefix, is a
/// trace of the whole process behind the original prefix.
#[verifier::spinoff_prover]
proof fn lemma_step_subset(
    p_view: ProcV,
    cur0: Seq<Event>,
    e: Event,
    k: int,
    r0: Set<Seq<Event>>,
    r_pre: Set<Seq<Event>>,
    r_post: Set<Seq<Event>>,
)
    requires
        can_step(p_view),
        0 <= k < spec_afters(p_view, e).len(),
        forall|u: Seq<Event>|
            r_pre.contains(u) ==> r0.contains(u) || exists|s: Seq<Event>|
                is_raw_trace(p_view, s) && u == cur0 + s,
        forall|u: Seq<Event>|
            r_post.contains(u) ==> r_pre.contains(u) || exists|s: Seq<Event>|
                is_raw_trace(spec_afters(p_view, e)[k], s) && u == branch_prefix(cur0, e) + s,
    ensures
        forall|u: Seq<Event>|
            r_post.contains(u) ==> r0.contains(u) || exists|s: Seq<Event>|
                is_raw_trace(p_view, s) && u == cur0 + s,
{
    assert forall|u: Seq<Event>| r_post.contains(u) implies r0.contains(u) || exists|
        s: Seq<Event>,
    |
        is_raw_trace(p_view, s) && u == cur0 + s by {
        if !r_pre.contains(u) {
            let s = choose|s: Seq<Event>|
                is_raw_trace(spec_afters(p_view, e)[k], s) && u == branch_prefix(cur0, e) + s;
            let full = if e == Event::Tau(Tau) {
                s
            } else {
                seq![e] + s
            };
            assert(is_raw_trace(p_view, full)) by {
                if e == Event::Tau(Tau) {
                    assert(is_raw_trace(spec_afters(p_view, e)[k], full));
                } else {
                    assert(full[0] == e);
                    assert(full.skip(1) =~= s);
                    assert(is_raw_trace(spec_afters(p_view, e)[k], full.skip(1)));
                }
            }
            assert(u == cur0 + full) by {
                if e != Event::Tau(Tau) {
                    assert(cur0.push(e) + s =~= cur0 + (seq![e] + s));
                }
            }
        }
    }
}

/// A branch's own covering fact, restated behind the original prefix.
#[verifier::spinoff_prover]
proof fn lemma_step_branch(
    p_view: ProcV,
    cur0: Seq<Event>,
    e: Event,
    k: int,
    r_post: Set<Seq<Event>>,
)
    requires
        0 <= k < spec_afters(p_view, e).len(),
        forall|s: Seq<Event>|
            is_raw_trace(spec_afters(p_view, e)[k], s) ==> exists|w: Seq<Event>|
                r_post.contains(w) && is_prefix_of(branch_prefix(cur0, e) + s, w),
    ensures
        forall|s: Seq<Event>|
            is_raw_trace(spec_afters(p_view, e)[k], s) ==> exists|w: Seq<Event>|
                r_post.contains(w) && is_prefix_of(branch_trace(cur0, e, s), w),
{
    assert forall|s: Seq<Event>|
        is_raw_trace(spec_afters(p_view, e)[k], s) implies exists|w: Seq<Event>|
        r_post.contains(w) && is_prefix_of(branch_trace(cur0, e, s), w) by {
        let w = choose|w: Seq<Event>|
            r_post.contains(w) && is_prefix_of(branch_prefix(cur0, e) + s, w);
        assert(branch_trace(cur0, e, s) =~= branch_prefix(cur0, e) + s);
    }
}

/// Carries the covering of an older accumulated set across one call.
#[verifier::spinoff_prover]
proof fn lemma_step_cover(
    r0: Set<Seq<Event>>,
    r_pre: Set<Seq<Event>>,
    r_post: Set<Seq<Event>>,
)
    requires
        forall|u: Seq<Event>|
            r0.contains(u) ==> exists|w: Seq<Event>| r_pre.contains(w) && is_prefix_of(u, w),
        forall|u: Seq<Event>|
            r_pre.contains(u) ==> exists|w: Seq<Event>| r_post.contains(w) && is_prefix_of(u, w),
    ensures
        forall|u: Seq<Event>|
            r0.contains(u) ==> exists|w: Seq<Event>| r_post.contains(w) && is_prefix_of(u, w),
{
    lemma_cover_step(r_pre, r_post);
    assert forall|u: Seq<Event>| r0.contains(u) implies exists|w: Seq<Event>|
        r_post.contains(w) && is_prefix_of(u, w) by {
        let w1 = choose|w1: Seq<Event>| r_pre.contains(w1) && is_prefix_of(u, w1);
    }
}

/// The events already on the path when the enumeration descends into a
/// branch: τ leaves no record, a visible event is appended.
pub open spec fn branch_prefix(cur: Seq<Event>, e: Event) -> Seq<Event> {
    if e == Event::Tau(Tau) {
        cur
    } else {
        cur.push(e)
    }
}

/// A prefix-free, non-empty set of traces that covers every raw trace of a
/// process, and holds nothing but its raw traces (and the empty trace), is
/// exactly the process's set of maximal finite traces.
proof fn lemma_mft_from_properties(p: ProcV, s: Set<Seq<Event>>)
    requires
        prefix_free(s),
        exists|w: Seq<Event>| s.contains(w),
        forall|u: Seq<Event>| s.contains(u) ==> u == Seq::<Event>::empty() || is_raw_trace(p, u),
        forall|t: Seq<Event>|
            is_raw_trace(p, t) ==> exists|w: Seq<Event>| s.contains(w) && is_prefix_of(t, w),
    ensures
        s == maximal_traces_of(p),
{
    let raws = Set::new(|t: Seq<Event>| is_raw_trace(p, t)).insert(Seq::<Event>::empty());
    assert forall|u: Seq<Event>| s.contains(u) implies prune(raws).contains(u) by {
        assert(raws.contains(u));
        if exists|v: Seq<Event>| raws.contains(v) && is_strict_prefix_of(u, v) {
            let v = choose|v: Seq<Event>| raws.contains(v) && is_strict_prefix_of(u, v);
            assert(v.len() > u.len() >= 0);
            assert(is_raw_trace(p, v));
            let w = choose|w: Seq<Event>| s.contains(w) && is_prefix_of(v, w);
            lemma_prefix_trans(u, v, w);
            assert(u != w);
            assert(!is_prefix_of(u, w));
        }
    }
    assert forall|t: Seq<Event>| prune(raws).contains(t) implies s.contains(t) by {
        if is_raw_trace(p, t) {
            let w = choose|w: Seq<Event>| s.contains(w) && is_prefix_of(t, w);
            assert(raws.contains(w));
            if t != w {
                assert(is_strict_prefix_of(t, w)) by {
                    if t.len() == w.len() {
                        assert(t =~= w);
                    }
                }
            }
        } else {
            assert(t == Seq::<Event>::empty());
            let w = choose|w: Seq<Event>| s.contains(w);
            assert(is_prefix_of(t, w)) by {
                assert(w.take(0) =~= Seq::<Event>::empty());
            }
            assert(raws.contains(w));
            if t != w {
                assert(is_strict_prefix_of(t, w)) by {
                    if t.len() == w.len() {
                        assert(t =~= w);
                    }
                }
            }
        }
    }
    assert(s =~= prune(raws));
}

/// Returns the maximal finite traces of a process.  Traces record visible
/// events only — never τ — and no returned trace is a proper prefix of
/// another.
pub fn maximal_finite_traces(process: &CSP) -> (r: MaximalTraces)
    ensures
        r.wf(),
        r@ == maximal_traces_of(process@),
{
    let mut result = MaximalTraces::new();
    let mut current: Vec<Event> = Vec::new();
    collect_traces(&mut result, process, &mut current);
    proof {
        result.lemma_wf_prefix_free();
        result.lemma_wf_nonempty();
        assert forall|u: Seq<Event>| result@.contains(u) implies u == Seq::<Event>::empty()
            || is_raw_trace(process@, u) by {
            if u != Seq::<Event>::empty() {
                assert(!Set::empty().insert(Seq::<Event>::empty()).contains(u));
                let s = choose|s: Seq<Event>|
                    is_raw_trace(process@, s) && u == Seq::<Event>::empty() + s;
                assert(Seq::<Event>::empty() + s =~= s);
            }
        }
        assert forall|t: Seq<Event>| is_raw_trace(process@, t) implies exists|w: Seq<Event>|
            result@.contains(w) && is_prefix_of(t, w) by {
            let w = choose|w: Seq<Event>|
                result@.contains(w) && is_prefix_of(Seq::<Event>::empty() + t, w);
            assert(Seq::<Event>::empty() + t =~= t);
        }
        lemma_mft_from_properties(process@, result@);
    }
    result
}

} // verus!
