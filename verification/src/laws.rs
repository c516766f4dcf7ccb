//! The algebraic laws of the engine, each stated over the same spec
//! functions that the executable queries are verified against.

use vstd::prelude::*;

use crate::event::{Event, Tau, Tick};
use crate::process::prefix_free;
use crate::semantics::{
    can_step, ec_tau_afters, ec_visible_afters, is_prefix_of, is_raw_trace, is_strict_prefix_of,
    lemma_afters_decrease, lemma_ec_tau_afters_nonempty, lemma_ec_tau_afters_step,
    lemma_ec_visible_afters_nonempty, lemma_ec_visible_afters_step, lemma_initials_of_seq_contains,
    lemma_prefix_refl, lemma_prefix_trans, lemma_proc_seq_size_elem, lemma_proc_seq_size_update,
    lemma_wf_seq_index, lemma_wf_seq_update, maximal_traces_of, proc_size, prune, spec_afters,
    spec_initials, wf, wf_seq, ProcV,
};

verus! {

/// A process is willing to perform an event exactly when the transition
/// relation offers at least one successor for it: `initials` and `afters`
/// are two views of the same operational semantics.
pub proof fn law_initials_afters_consistent(p: ProcV, e: Event)
    requires
        wf(p),
    ensures
        spec_initials(p).contains(e) <==> spec_afters(p, e).len() > 0,
    decreases p,
{
    match p {
        ProcV::Stop => {},
        ProcV::Skip => {},
        ProcV::Prefix(_, _) => {},
        ProcV::InternalChoice(ps) => {},
        ProcV::ExternalChoice(ps) => {
            lemma_initials_of_seq_contains(ps, e);
            assert forall|i: int| 0 <= i < ps.len() implies (spec_initials(
                #[trigger] ps[i],
            ).contains(e) <==> spec_afters(ps[i], e).len() > 0) by {
                lemma_wf_seq_index(ps, i);
                law_initials_afters_consistent(ps[i], e);
            }
            if e == Event::Tau(Tau) {
                lemma_ec_tau_afters_nonempty(ps, 0);
            } else {
                lemma_ec_visible_afters_nonempty(ps, e, 0);
            }
        },
        ProcV::SequentialComposition(p1, q1) => {
            law_initials_afters_consistent(*p1, e);
            if e == Event::Tau(Tau) {
                law_initials_afters_consistent(*p1, Event::Tick(Tick));
            }
        },
    }
}

/// Resolving an external choice between two prefixes of the same event
/// keeps both branches: `transitions` maps the shared event to exactly the
/// two continuation processes.
pub proof fn law_external_choice_shared_prefix(a: Event, p: ProcV, q: ProcV)
    requires
        a != Event::Tau(Tau),
    ensures
        spec_afters(
            ProcV::ExternalChoice(
                seq![ProcV::Prefix(a, Box::new(p)), ProcV::Prefix(a, Box::new(q))],
            ),
            a,
        ) == seq![p, q],
{
    let ps = seq![ProcV::Prefix(a, Box::new(p)), ProcV::Prefix(a, Box::new(q))];
    lemma_ec_visible_afters_step(ps, a, 0);
    lemma_ec_visible_afters_step(ps, a, 1);
    assert(ec_visible_afters(ps, a, 2) =~= Seq::empty());
    assert(ec_visible_afters(ps, a, 0) =~= seq![p, q]);
}

/// An unresolved internal choice inside an external choice: performing the
/// τ that resolves the inner choice keeps the outer choice open, with one
/// possible world per branch of the inner choice; performing the outer
/// prefix's event directly resolves the whole choice regardless of the
/// still-unresolved inner one.
pub proof fn law_external_choice_internal_choice(
    a: Event,
    b: Event,
    c: Event,
    p: ProcV,
    q: ProcV,
    r: ProcV,
)
    requires
        a != Event::Tau(Tau),
    ensures
        ({
            let pre_a = ProcV::Prefix(a, Box::new(p));
            let pre_b = ProcV::Prefix(b, Box::new(q));
            let pre_c = ProcV::Prefix(c, Box::new(r));
            let inner = ProcV::InternalChoice(seq![pre_b, pre_c]);
            let whole = ProcV::ExternalChoice(seq![pre_a, inner]);
            &&& spec_afters(whole, Event::Tau(Tau)) == seq![
                ProcV::ExternalChoice(seq![pre_a, pre_b]),
                ProcV::ExternalChoice(seq![pre_a, pre_c]),
            ]
            &&& spec_afters(whole, a) == seq![p].add(
                spec_afters(inner, a),
            )
            &&& (a != b && a != c ==> spec_afters(whole, a) == seq![p])
        }),
{
    let pre_a = ProcV::Prefix(a, Box::new(p));
    let pre_b = ProcV::Prefix(b, Box::new(q));
    let pre_c = ProcV::Prefix(c, Box::new(r));
    let inner = ProcV::InternalChoice(seq![pre_b, pre_c]);
    let ps = seq![pre_a, inner];
    lemma_ec_tau_afters_step(ps, 0);
    lemma_ec_tau_afters_step(ps, 1);
    assert(ec_tau_afters(ps, 2) =~= Seq::empty());
    assert(spec_afters(ps[1], Event::Tau(Tau)) == seq![pre_b, pre_c]);
    assert(ps.update(1, pre_b) =~= seq![pre_a, pre_b]);
    assert(ps.update(1, pre_c) =~= seq![pre_a, pre_c]);
    assert(ec_tau_afters(ps, 0) =~= seq![
        ProcV::ExternalChoice(seq![pre_a, pre_b]),
        ProcV::ExternalChoice(seq![pre_a, pre_c]),
    ]);
    lemma_ec_visible_afters_step(ps, a, 0);
    lemma_ec_visible_afters_step(ps, a, 1);
    assert(ec_visible_afters(ps, a, 2) =~= Seq::empty());
    assert(ec_visible_afters(ps, a, 1) =~= spec_afters(inner, a));
    assert(ec_visible_afters(ps, a, 0) =~= seq![p].add(spec_afters(inner, a)));
    if a != b && a != c {
        assert(ec_visible_afters(ps, a, 0) =~= seq![p]);
    }
}

/// Replicated external choice over no processes at all behaves exactly like
/// `Stop`: it is willing to perform nothing and has no transition for any
/// event.  (Replicated internal choice over no processes, by contrast, is a
/// contract violation: the constructor requires a non-empty collection.)
pub proof fn law_empty_external_choice_is_stop(e: Event)
    ensures
        spec_initials(ProcV::ExternalChoice(Seq::empty())) == spec_initials(ProcV::Stop),
        spec_afters(ProcV::ExternalChoice(Seq::empty()), e) == spec_afters(ProcV::Stop, e),
{
    assert(crate::semantics::initials_of_seq(Seq::<ProcV>::empty()) == Set::<Event>::empty());
    assert(ec_tau_afters(Seq::<ProcV>::empty(), 0) == Seq::<ProcV>::empty());
    assert(ec_visible_afters(Seq::<ProcV>::empty(), e, 0) == Seq::<ProcV>::empty());
    assert(spec_initials(ProcV::ExternalChoice(Seq::empty())) =~= spec_initials(ProcV::Stop));
    assert(spec_afters(ProcV::ExternalChoice(Seq::empty()), e) =~= spec_afters(ProcV::Stop, e));
}

/// Every successor of a well-formed process is well formed: the transition
/// relation never creates an internal choice over nothing.
pub proof fn lemma_afters_wf(p: ProcV, e: Event)
    requires
        wf(p),
    ensures
        forall|i: int|
            0 <= i < spec_afters(p, e).len() ==> wf(#[trigger] spec_afters(p, e)[i]),
    decreases p, 1nat,
{
    match p {
        ProcV::Stop => {},
        ProcV::Skip => {},
        ProcV::Prefix(_, _) => {},
        ProcV::InternalChoice(ps) => {
            if e == Event::Tau(Tau) {
                assert forall|i: int| 0 <= i < ps.len() implies wf(#[trigger] ps[i]) by {
                    lemma_wf_seq_index(ps, i);
                }
            }
        },
        ProcV::ExternalChoice(ps) => {
            if e == Event::Tau(Tau) {
                lemma_ec_tau_wf(ps, 0);
                assert(spec_afters(p, e) == ec_tau_afters(ps, 0));
            } else {
                lemma_ec_visible_wf(ps, e, 0);
                assert(spec_afters(p, e) == ec_visible_afters(ps, e, 0));
            }
        },
        ProcV::SequentialComposition(p1, q1) => {
            if e != Event::Tick(Tick) {
                lemma_afters_wf(*p1, e);
                let inner = spec_afters(*p1, e);
                assert forall|i: int| 0 <= i < spec_afters(p, e).len() implies wf(
                    #[trigger] spec_afters(p, e)[i],
                ) by {
                    if i < inner.len() {
                        assert(spec_afters(p, e)[i] == ProcV::SequentialComposition(
                            Box::new(inner[i]),
                            q1,
                        ));
                    } else {
                        assert(spec_afters(p, e)[i] == *q1);
                    }
                }
            }
        },
    }
}

proof fn lemma_ec_tau_wf(ps: Seq<ProcV>, k: int)
    requires
        0 <= k,
        wf_seq(ps),
    ensures
        forall|i: int|
            0 <= i < ec_tau_afters(ps, k).len() ==> wf(#[trigger] ec_tau_afters(ps, k)[i]),
    decreases ps, ps.len() - k,
{
    if k < ps.len() {
        lemma_wf_seq_index(ps, k);
        lemma_afters_wf(ps[k], Event::Tau(Tau));
        lemma_ec_tau_wf(ps, k + 1);
        let inner = spec_afters(ps[k], Event::Tau(Tau));
        assert forall|i: int| 0 <= i < ec_tau_afters(ps, k).len() implies wf(
            #[trigger] ec_tau_afters(ps, k)[i],
        ) by {
            if i < inner.len() {
                assert(ec_tau_afters(ps, k)[i] == ProcV::ExternalChoice(
                    ps.update(k, inner[i]),
                ));
                lemma_wf_seq_update(ps, k, inner[i]);
            } else {
                assert(ec_tau_afters(ps, k)[i] == ec_tau_afters(ps, k + 1)[i - inner.len()]);
            }
        }
    }
}

proof fn lemma_ec_visible_wf(ps: Seq<ProcV>, e: Event, k: int)
    requires
        0 <= k,
        wf_seq(ps),
    ensures
        forall|i: int|
            0 <= i < ec_visible_afters(ps, e, k).len() ==> wf(
                #[trigger] ec_visible_afters(ps, e, k)[i],
            ),
    decreases ps, ps.len() - k,
{
    if k < ps.len() {
        lemma_wf_seq_index(ps, k);
        lemma_afters_wf(ps[k], e);
        lemma_ec_visible_wf(ps, e, k + 1);
        let inner = spec_afters(ps[k], e);
        assert forall|i: int| 0 <= i < ec_visible_afters(ps, e, k).len() implies wf(
            #[trigger] ec_visible_afters(ps, e, k)[i],
        ) by {
            if i < inner.len() {
                assert(ec_visible_afters(ps, e, k)[i] == inner[i]);
            } else {
                assert(ec_visible_afters(ps, e, k)[i] == ec_visible_afters(ps, e, k + 1)[i
                    - inner.len()]);
            }
        }
    }
}

/// Every well-formed process has at least one raw trace.
pub proof fn lemma_raw_nonempty(p: ProcV)
    requires
        wf(p),
    ensures
        exists|t: Seq<Event>| #[trigger] is_raw_trace(p, t),
    decreases proc_size(p),
{
    if !can_step(p) {
        assert(is_raw_trace(p, Seq::<Event>::empty()));
    } else {
        let e = choose|e: Event| spec_initials(p).contains(e);
        law_initials_afters_consistent(p, e);
        let q = spec_afters(p, e)[0];
        lemma_afters_wf(p, e);
        lemma_afters_decrease(p, e);
        lemma_raw_nonempty(q);
        let s = choose|s: Seq<Event>| #[trigger] is_raw_trace(q, s);
        if e == Event::Tau(Tau) {
            assert(is_raw_trace(p, s));
        } else {
            let t = seq![e] + s;
            assert(t[0] == e && t.skip(1) =~= s);
            assert(is_raw_trace(p, t));
        }
    }
}

/// A raw trace is never longer than the process term: every recorded event
/// strictly shrinks the term.
pub proof fn lemma_raw_len_bound(p: ProcV, t: Seq<Event>)
    requires
        is_raw_trace(p, t),
    ensures
        t.len() <= proc_size(p),
    decreases proc_size(p),
{
    if can_step(p) {
        let (e, i): (Event, int) = choose|e: Event, i: int|
            {
                &&& 0 <= i < spec_afters(p, e).len()
                &&& if e == Event::Tau(Tau) {
                    is_raw_trace(spec_afters(p, e)[i], t)
                } else {
                    t.len() > 0 && t[0] == e && is_raw_trace(spec_afters(p, e)[i], t.skip(1))
                }
            };
        lemma_afters_decrease(p, e);
        if e == Event::Tau(Tau) {
            lemma_raw_len_bound(spec_afters(p, e)[i], t);
        } else {
            lemma_raw_len_bound(spec_afters(p, e)[i], t.skip(1));
        }
    }
}

/// Every raw trace extends to a maximal finite trace of the process.
pub proof fn lemma_mft_covers(p: ProcV, t: Seq<Event>)
    requires
        is_raw_trace(p, t) || t == Seq::<Event>::empty(),
    ensures
        exists|m: Seq<Event>|
            #[trigger] maximal_traces_of(p).contains(m) && is_prefix_of(t, m),
    decreases proc_size(p) + 1 - t.len(),
{
    let raws = Set::new(|u: Seq<Event>| is_raw_trace(p, u)).insert(Seq::<Event>::empty());
    if is_raw_trace(p, t) {
        lemma_raw_len_bound(p, t);
    }
    if exists|v: Seq<Event>| raws.contains(v) && is_strict_prefix_of(t, v) {
        let v = choose|v: Seq<Event>| raws.contains(v) && is_strict_prefix_of(t, v);
        assert(v.len() > t.len());
        assert(is_raw_trace(p, v));
        lemma_raw_len_bound(p, v);
        lemma_mft_covers(p, v);
        let m = choose|m: Seq<Event>|
            #[trigger] maximal_traces_of(p).contains(m) && is_prefix_of(v, m);
        lemma_prefix_trans(t, v, m);
    } else {
        assert(raws.contains(t));
        assert(maximal_traces_of(p).contains(t));
        lemma_prefix_refl(t);
    }
}

/// The maximal finite traces of `Stop`: just the empty trace.
pub proof fn law_stop_traces()
    ensures
        maximal_traces_of(ProcV::Stop) == Set::empty().insert(Seq::<Event>::empty()),
{
    assert(!can_step(ProcV::Stop)) by {
        if exists|e: Event| spec_initials(ProcV::Stop).contains(e) {
            let e = choose|e: Event| spec_initials(ProcV::Stop).contains(e);
        }
    }
    assert forall|t: Seq<Event>|
        maximal_traces_of(ProcV::Stop).contains(t) implies t == Seq::<Event>::empty() by {
        assert(is_raw_trace(ProcV::Stop, t) || t == Seq::<Event>::empty());
    }
    assert(maximal_traces_of(ProcV::Stop).contains(Seq::<Event>::empty())) by {
        assert(forall|u: Seq<Event>|
            (is_raw_trace(ProcV::Stop, u) || u == Seq::<Event>::empty()) ==> u
                == Seq::<Event>::empty());
    }
    assert(maximal_traces_of(ProcV::Stop) =~= Set::empty().insert(Seq::<Event>::empty()));
}

/// The maximal finite traces of `Skip`: the one trace that performs ✔.
pub proof fn law_skip_traces()
    ensures
        maximal_traces_of(ProcV::Skip) == Set::empty().insert(seq![Event::Tick(Tick)]),
{
    let tick = Event::Tick(Tick);
    assert(spec_initials(ProcV::Skip).contains(tick));
    assert(can_step(ProcV::Skip));
    assert(!can_step(ProcV::Stop)) by {
        if exists|e: Event| spec_initials(ProcV::Stop).contains(e) {
            let e = choose|e: Event| spec_initials(ProcV::Stop).contains(e);
        }
    }
    assert forall|t: Seq<Event>| is_raw_trace(ProcV::Skip, t) implies t == seq![tick] by {
        let (e, i): (Event, int) = choose|e: Event, i: int|
            {
                &&& 0 <= i < spec_afters(ProcV::Skip, e).len()
                &&& if e == Event::Tau(Tau) {
                    is_raw_trace(spec_afters(ProcV::Skip, e)[i], t)
                } else {
                    t.len() > 0 && t[0] == e && is_raw_trace(
                        spec_afters(ProcV::Skip, e)[i],
                        t.skip(1),
                    )
                }
            };
        assert(e == tick);
        assert(spec_afters(ProcV::Skip, e)[i] == ProcV::Stop);
        assert(t.skip(1) == Seq::<Event>::empty());
        assert(t =~= seq![tick]);
    }
    assert(is_raw_trace(ProcV::Skip, seq![tick])) by {
        assert(seq![tick][0] == tick);
        assert(seq![tick].skip(1) =~= Seq::<Event>::empty());
        assert(is_raw_trace(spec_afters(ProcV::Skip, tick)[0], seq![tick].skip(1)));
    }
    assert(maximal_traces_of(ProcV::Skip).contains(seq![tick])) by {
        assert forall|u: Seq<Event>|
            (is_raw_trace(ProcV::Skip, u) || u == Seq::<Event>::empty()) && is_strict_prefix_of(
                seq![tick],
                u,
            ) implies false by {
            assert(u.len() > 1);
        }
    }
    assert forall|t: Seq<Event>|
        maximal_traces_of(ProcV::Skip).contains(t) implies t == seq![tick] by {
        if t == Seq::<Event>::empty() {
            assert(is_strict_prefix_of(t, seq![tick])) by {
                assert(seq![tick].take(0) =~= Seq::<Event>::empty());
            }
        }
    }
    assert(maximal_traces_of(ProcV::Skip) =~= Set::empty().insert(seq![tick]));
}

/// The raw traces of `a → P`: exactly `P`'s raw traces with `a` in front.
proof fn lemma_prefix_raw_char(a: Event, p: ProcV, t: Seq<Event>)
    requires
        a != Event::Tau(Tau),
    ensures
        is_raw_trace(ProcV::Prefix(a, Box::new(p)), t) <==> (t.len() > 0 && t[0] == a
            && is_raw_trace(p, t.skip(1))),
{
    let pre = ProcV::Prefix(a, Box::new(p));
    assert(spec_initials(pre).contains(a));
    assert(can_step(pre));
    if is_raw_trace(pre, t) {
        let (e, i): (Event, int) = choose|e: Event, i: int|
            {
                &&& 0 <= i < spec_afters(pre, e).len()
                &&& if e == Event::Tau(Tau) {
                    is_raw_trace(spec_afters(pre, e)[i], t)
                } else {
                    t.len() > 0 && t[0] == e && is_raw_trace(spec_afters(pre, e)[i], t.skip(1))
                }
            };
        assert(e == a);
        assert(spec_afters(pre, e)[i] == p);
    }
    if t.len() > 0 && t[0] == a && is_raw_trace(p, t.skip(1)) {
        assert(spec_afters(pre, a)[0] == p);
        assert(is_raw_trace(spec_afters(pre, a)[0], t.skip(1)));
        assert(is_raw_trace(pre, t));
    }
}

/// Prefixing distributes over maximal finite traces: the maximal traces of
/// `a → P` are exactly `P`'s maximal traces with `a` prepended.
pub proof fn law_prefix_traces(a: Event, p: ProcV)
    requires
        a != Event::Tau(Tau),
        wf(p),
    ensures
        maximal_traces_of(ProcV::Prefix(a, Box::new(p))) == Set::new(
            |u: Seq<Event>|
                exists|t: Seq<Event>| #[trigger] maximal_traces_of(p).contains(t) && u == seq![
                    a,
                ] + t,
        ),
{
    let pre = ProcV::Prefix(a, Box::new(p));
    let raws_pre = Set::new(|u: Seq<Event>| is_raw_trace(pre, u)).insert(Seq::<Event>::empty());
    let raws_p = Set::new(|u: Seq<Event>| is_raw_trace(p, u)).insert(Seq::<Event>::empty());
    assert forall|t: Seq<Event>| true implies #[trigger] is_raw_trace(pre, t) <==> (t.len() > 0
        && t[0] == a && is_raw_trace(p, t.skip(1))) by {
        lemma_prefix_raw_char(a, p, t);
    }
    lemma_raw_nonempty(p);
    let witness = choose|s: Seq<Event>| #[trigger] is_raw_trace(p, s);
    let wtrace = seq![a] + witness;
    assert(wtrace[0] == a && wtrace.skip(1) =~= witness);
    assert(is_raw_trace(pre, wtrace));

    assert forall|u: Seq<Event>| maximal_traces_of(pre).contains(u) implies Set::new(
        |u2: Seq<Event>|
            exists|t: Seq<Event>| #[trigger] maximal_traces_of(p).contains(t) && u2 == seq![
                a,
            ] + t,
    ).contains(u) by {
        if u == Seq::<Event>::empty() {
            assert(is_strict_prefix_of(u, wtrace)) by {
                assert(wtrace.take(0) =~= Seq::<Event>::empty());
            }
            assert(raws_pre.contains(wtrace));
            assert(false);
        }
        let t = u.skip(1);
        assert(u =~= seq![a] + t);
        assert(is_raw_trace(p, t));
        assert(maximal_traces_of(p).contains(t)) by {
            if exists|s2: Seq<Event>| raws_p.contains(s2) && is_strict_prefix_of(t, s2) {
                let s2 = choose|s2: Seq<Event>|
                    raws_p.contains(s2) && is_strict_prefix_of(t, s2);
                assert(s2.len() > t.len() >= 0);
                assert(is_raw_trace(p, s2));
                let v = seq![a] + s2;
                assert(v[0] == a && v.skip(1) =~= s2);
                assert(is_raw_trace(pre, v));
                assert(is_strict_prefix_of(u, v)) by {
                    assert forall|m: int| 0 <= m < u.len() implies u[m] == v.take(
                        u.len() as int,
                    )[m] by {
                        if m > 0 {
                            assert(u[m] == t[m - 1]);
                            assert(t[m - 1] == s2.take(t.len() as int)[m - 1]);
                        }
                    }
                    assert(u =~= v.take(u.len() as int));
                }
                assert(raws_pre.contains(v));
                assert(false);
            }
        }
    }
    assert forall|u: Seq<Event>|
        Set::new(
            |u2: Seq<Event>|
                exists|t: Seq<Event>| #[trigger] maximal_traces_of(p).contains(t) && u2 == seq![
                    a,
                ] + t,
        ).contains(u) implies maximal_traces_of(pre).contains(u) by {
        let t = choose|t: Seq<Event>|
            #[trigger] maximal_traces_of(p).contains(t) && u == seq![a] + t;
        assert(is_raw_trace(p, t)) by {
            assert(raws_p.contains(t));
            if t == Seq::<Event>::empty() {
                if !is_raw_trace(p, t) {
                    assert(is_raw_trace(p, witness));
                    assert(witness != t);
                    assert(witness.len() > 0) by {
                        if witness.len() == 0 {
                            assert(witness =~= Seq::<Event>::empty());
                        }
                    }
                    assert(is_strict_prefix_of(t, witness)) by {
                        assert(witness.take(0) =~= Seq::<Event>::empty());
                    }
                    assert(raws_p.contains(witness));
                    assert(false);
                }
            }
        }
        assert(u[0] == a && u.skip(1) =~= t);
        assert(is_raw_trace(pre, u));
        assert(raws_pre.contains(u));
        if exists|v: Seq<Event>| raws_pre.contains(v) && is_strict_prefix_of(u, v) {
            let v = choose|v: Seq<Event>| raws_pre.contains(v) && is_strict_prefix_of(u, v);
            assert(v.len() > u.len() >= 1);
            assert(is_raw_trace(pre, v));
            let s2 = v.skip(1);
            assert(is_raw_trace(p, s2));
            assert(is_strict_prefix_of(t, s2)) by {
                assert forall|m: int| 0 <= m < t.len() implies t[m] == s2.take(
                    t.len() as int,
                )[m] by {
                    assert(t[m] == u[m + 1]);
                    assert(u[m + 1] == v.take(u.len() as int)[m + 1]);
                    assert(v[m + 1] == s2[m]);
                }
                assert(t =~= s2.take(t.len() as int));
            }
            assert(raws_p.contains(s2));
            assert(false);
        }
    }
    assert(maximal_traces_of(pre) =~= Set::new(
        |u: Seq<Event>|
            exists|t: Seq<Event>| #[trigger] maximal_traces_of(p).contains(t) && u == seq![
                a,
            ] + t,
    ));
}

/// The raw traces of `P ⊓ Q`: exactly the raw traces of `P` or of `Q` —
/// the resolving τ leaves no trace.
proof fn lemma_internal_choice_raw_char(p: ProcV, q: ProcV, t: Seq<Event>)
    ensures
        is_raw_trace(ProcV::InternalChoice(seq![p, q]), t) <==> (is_raw_trace(p, t)
            || is_raw_trace(q, t)),
{
    let ic = ProcV::InternalChoice(seq![p, q]);
    assert(spec_initials(ic).contains(Event::Tau(Tau)));
    assert(can_step(ic));
    if is_raw_trace(ic, t) {
        let (e, i): (Event, int) = choose|e: Event, i: int|
            {
                &&& 0 <= i < spec_afters(ic, e).len()
                &&& if e == Event::Tau(Tau) {
                    is_raw_trace(spec_afters(ic, e)[i], t)
                } else {
                    t.len() > 0 && t[0] == e && is_raw_trace(spec_afters(ic, e)[i], t.skip(1))
                }
            };
        assert(e == Event::Tau(Tau));
        assert(spec_afters(ic, e)[i] == p || spec_afters(ic, e)[i] == q);
    }
    if is_raw_trace(p, t) {
        assert(spec_afters(ic, Event::Tau(Tau))[0] == p);
        assert(is_raw_trace(spec_afters(ic, Event::Tau(Tau))[0], t));
        assert(is_raw_trace(ic, t));
    }
    if is_raw_trace(q, t) {
        assert(spec_afters(ic, Event::Tau(Tau))[1] == q);
        assert(is_raw_trace(spec_afters(ic, Event::Tau(Tau))[1], t));
        assert(is_raw_trace(ic, t));
    }
}

/// The maximal finite traces of `P ⊓ Q` are the maximal traces of `P` and
/// of `Q` merged, with any trace that became a proper prefix of another
/// removed: the maximal-trace sum of the two sets.
pub proof fn law_internal_choice_traces(p: ProcV, q: ProcV)
    requires
        wf(p),
        wf(q),
    ensures
        maximal_traces_of(ProcV::InternalChoice(seq![p, q])) == prune(
            maximal_traces_of(p).union(maximal_traces_of(q)),
        ),
{
    let ic = ProcV::InternalChoice(seq![p, q]);
    let raws_ic = Set::new(|u: Seq<Event>| is_raw_trace(ic, u)).insert(Seq::<Event>::empty());
    let a = Set::new(|u: Seq<Event>| is_raw_trace(p, u)).insert(Seq::<Event>::empty());
    let b = Set::new(|u: Seq<Event>| is_raw_trace(q, u)).insert(Seq::<Event>::empty());
    assert forall|t: Seq<Event>| true implies #[trigger] is_raw_trace(ic, t) <==> (is_raw_trace(
        p,
        t,
    ) || is_raw_trace(q, t)) by {
        lemma_internal_choice_raw_char(p, q, t);
    }
    assert(raws_ic =~= a.union(b));

    assert forall|u: Seq<Event>|
        maximal_traces_of(ic).contains(u) implies prune(
        maximal_traces_of(p).union(maximal_traces_of(q)),
    ).contains(u) by {
        if a.contains(u) {
            assert(maximal_traces_of(p).contains(u));
        } else {
            assert(b.contains(u));
            assert(maximal_traces_of(q).contains(u));
        }
        assert forall|v: Seq<Event>|
            (maximal_traces_of(p).union(maximal_traces_of(q))).contains(v)
                && is_strict_prefix_of(u, v) implies false by {
            assert(raws_ic.contains(v));
        }
    }
    assert forall|u: Seq<Event>|
        prune(maximal_traces_of(p).union(maximal_traces_of(q))).contains(u)
        implies maximal_traces_of(ic).contains(u) by {
        assert(raws_ic.contains(u));
        assert forall|v: Seq<Event>| raws_ic.contains(v) && is_strict_prefix_of(
            u,
            v,
        ) implies false by {
            if a.contains(v) && v != Seq::<Event>::empty() {
                lemma_mft_covers(p, v);
                let m = choose|m: Seq<Event>|
                    #[trigger] maximal_traces_of(p).contains(m) && is_prefix_of(v, m);
                assert(is_strict_prefix_of(u, m)) by {
                    lemma_prefix_trans(u, v, m);
                    assert(m.len() >= v.len() > u.len());
                }
                assert((maximal_traces_of(p).union(maximal_traces_of(q))).contains(m));
            } else if b.contains(v) && v != Seq::<Event>::empty() {
                lemma_mft_covers(q, v);
                let m = choose|m: Seq<Event>|
                    #[trigger] maximal_traces_of(q).contains(m) && is_prefix_of(v, m);
                assert(is_strict_prefix_of(u, m)) by {
                    lemma_prefix_trans(u, v, m);
                    assert(m.len() >= v.len() > u.len());
                }
                assert((maximal_traces_of(p).union(maximal_traces_of(q))).contains(m));
            } else {
                assert(v == Seq::<Event>::empty());
                assert(v.len() > u.len() >= 0);
            }
        }
    }
    assert(maximal_traces_of(ic) =~= prune(
        maximal_traces_of(p).union(maximal_traces_of(q)),
    ));
}

} // verus!
