//! The mathematical model of the algebra: ghost process terms, the
//! operational-semantics transition relation, and the trace semantics that
//! the executable engine is verified against.

use vstd::prelude::*;

use crate::csp::CSP;
use crate::event::{Event, Tau, Tick};

verus! {

/// A ghost CSP process term: the mathematical value that an executable
/// process tree stands for.
pub enum ProcV {
    /// The process that performs no event, ever.
    Stop,
    /// The process that performs ✔ and then behaves as `Stop`.
    Skip,
    /// `a → P`: performs `a`, then behaves as `P`.
    Prefix(Event, Box<ProcV>),
    /// `⊓ Ps`: behaves as one of `Ps`; the environment has no say.
    InternalChoice(Seq<ProcV>),
    /// `□ Ps`: behaves as one of `Ps`; the environment chooses.
    ExternalChoice(Seq<ProcV>),
    /// `P ; Q`: behaves as `P` until it performs ✔, then behaves as `Q`.
    SequentialComposition(Box<ProcV>, Box<ProcV>),
}

/// The size of a process term; every operational transition strictly
/// decreases it, which is what makes trace enumeration terminate for this
/// closed algebra.
pub open spec fn proc_size(p: ProcV) -> nat
    decreases p,
{
    match p {
        ProcV::Stop => 1,
        ProcV::Skip => 2,
        ProcV::Prefix(_, after) => 1 + proc_size(*after),
        ProcV::InternalChoice(ps) => 2 + proc_seq_size(ps),
        ProcV::ExternalChoice(ps) => 2 + proc_seq_size(ps),
        ProcV::SequentialComposition(p1, q1) => 2 + proc_size(*p1) + proc_size(*q1),
    }
}

pub open spec fn proc_seq_size(ps: Seq<ProcV>) -> nat
    decreases ps,
{
    if ps.len() == 0 {
        0
    } else {
        proc_size(ps[0]) + proc_seq_size(ps.skip(1))
    }
}

/// The ghost process term that an executable process tree stands for.
pub open spec fn proc_view(p: CSP) -> ProcV
    decreases p,
{
    match p {
        CSP::Stop(_) => ProcV::Stop,
        CSP::Skip(_) => ProcV::Skip,
        CSP::Prefix(initial, after) => ProcV::Prefix(initial, Box::new(proc_view(*after))),
        CSP::InternalChoice(ps) => ProcV::InternalChoice(proc_views(ps@)),
        CSP::ExternalChoice(ps) => ProcV::ExternalChoice(proc_views(ps@)),
        CSP::SequentialComposition(p1, q1) => ProcV::SequentialComposition(
            Box::new(proc_view(*p1)),
            Box::new(proc_view(*q1)),
        ),
    }
}

/// The ghost terms that a list of executable process trees stands for.
pub open spec fn proc_views(ps: Seq<CSP>) -> Seq<ProcV>
    decreases ps,
{
    if ps.len() == 0 {
        Seq::empty()
    } else {
        proc_views(ps.drop_last()).push(proc_view(ps.last()))
    }
}

pub broadcast proof fn lemma_proc_views_len(ps: Seq<CSP>)
    ensures
        #[trigger] proc_views(ps).len() == ps.len(),
    decreases ps,
{
    if ps.len() > 0 {
        lemma_proc_views_len(ps.drop_last());
    }
}

pub broadcast proof fn lemma_proc_views_index(ps: Seq<CSP>, i: int)
    requires
        0 <= i < ps.len(),
    ensures
        #[trigger] proc_views(ps)[i] == proc_view(ps[i]),
    decreases ps,
{
    lemma_proc_views_len(ps);
    if ps.len() > 0 {
        lemma_proc_views_len(ps.drop_last());
        if i < ps.len() - 1 {
            lemma_proc_views_index(ps.drop_last(), i);
        }
    }
}

/// Every element of a list of process terms is at most as large as the
/// whole list.
pub proof fn lemma_proc_seq_size_elem(ps: Seq<ProcV>, i: int)
    requires
        0 <= i < ps.len(),
    ensures
        proc_size(ps[i]) <= proc_seq_size(ps),
    decreases ps,
{
    if i == 0 {
    } else {
        lemma_proc_seq_size_elem(ps.skip(1), i - 1);
        assert(ps.skip(1)[i - 1] == ps[i]);
    }
}

/// Replacing one element of a list changes the list's size by exactly the
/// difference of the element sizes.
pub proof fn lemma_proc_seq_size_update(ps: Seq<ProcV>, i: int, x: ProcV)
    requires
        0 <= i < ps.len(),
    ensures
        proc_seq_size(ps.update(i, x)) + proc_size(ps[i]) == proc_seq_size(ps) + proc_size(x),
    decreases ps,
{
    if i == 0 {
        assert(ps.update(0, x)[0] == x);
        assert(ps.update(0, x).skip(1) =~= ps.skip(1));
    } else {
        lemma_proc_seq_size_update(ps.skip(1), i - 1, x);
        assert(ps.update(i, x)[0] == ps[0]);
        assert(ps.update(i, x).skip(1) =~= ps.skip(1).update(i - 1, x));
        assert(ps.skip(1)[i - 1] == ps[i]);
    }
}

pub proof fn lemma_proc_views_eq(a: Seq<CSP>, b: Seq<CSP>)
    requires
        a.len() == b.len(),
        forall|j: int| 0 <= j < a.len() ==> proc_view(#[trigger] a[j]) == proc_view(b[j]),
    ensures
        proc_views(a) == proc_views(b),
    decreases a,
{
    if a.len() > 0 {
        lemma_proc_views_eq(a.drop_last(), b.drop_last());
        assert(proc_views(a) =~= proc_views(b));
    } else {
        assert(proc_views(a) =~= proc_views(b));
    }
}

pub proof fn lemma_proc_views_update(ps: Seq<CSP>, i: int, x: CSP)
    requires
        0 <= i < ps.len(),
    ensures
        proc_views(ps.update(i, x)) == proc_views(ps).update(i, proc_view(x)),
{
    lemma_proc_views_len(ps);
    lemma_proc_views_len(ps.update(i, x));
    assert forall|j: int| 0 <= j < ps.len() implies proc_views(ps.update(i, x))[j] == proc_views(
        ps,
    ).update(i, proc_view(x))[j] by {
        lemma_proc_views_index(ps.update(i, x), j);
        lemma_proc_views_index(ps, j);
    }
    assert(proc_views(ps.update(i, x)) =~= proc_views(ps).update(i, proc_view(x)));
}

pub proof fn lemma_proc_views_push(ps: Seq<CSP>, x: CSP)
    ensures
        proc_views(ps.push(x)) == proc_views(ps).push(proc_view(x)),
{
    assert(ps.push(x).drop_last() =~= ps);
    assert(ps.push(x).last() == x);
}

/// The set of events a process term is willing to perform first, hidden
/// events included.
pub open spec fn spec_initials(p: ProcV) -> Set<Event>
    decreases p, 0nat,
{
    match p {
        ProcV::Stop => Set::empty(),
        ProcV::Skip => Set::empty().insert(Event::Tick(Tick)),
        ProcV::Prefix(initial, _) => Set::empty().insert(initial),
        ProcV::InternalChoice(_) => Set::empty().insert(Event::Tau(Tau)),
        ProcV::ExternalChoice(ps) => initials_of_seq(ps),
        ProcV::SequentialComposition(p1, _) => {
            let inner = spec_initials(*p1);
            if inner.contains(Event::Tick(Tick)) {
                inner.remove(Event::Tick(Tick)).insert(Event::Tau(Tau))
            } else {
                inner
            }
        },
    }
}

pub open spec fn initials_of_seq(ps: Seq<ProcV>) -> Set<Event>
    decreases ps, 0nat,
{
    if ps.len() == 0 {
        Set::empty()
    } else {
        initials_of_seq(ps.drop_last()).union(spec_initials(ps.last()))
    }
}

pub proof fn lemma_initials_of_seq_push(s: Seq<ProcV>, x: ProcV)
    ensures
        initials_of_seq(s.push(x)) == initials_of_seq(s).union(spec_initials(x)),
{
    assert(s.push(x).drop_last() =~= s);
    assert(s.push(x).last() == x);
}

pub proof fn lemma_initials_of_seq_take(s: Seq<ProcV>, i: int)
    requires
        0 <= i < s.len(),
    ensures
        initials_of_seq(s.take(i + 1)) == initials_of_seq(s.take(i)).union(spec_initials(s[i])),
{
    assert(s.take(i + 1) == s.take(i).push(s[i]));
    lemma_initials_of_seq_push(s.take(i), s[i]);
}

/// The processes a term can become by performing `e`: the operational
/// transition relation, read as a function from a term and an event to the
/// list of possible successors.  The list may name the same successor twice;
/// it is empty exactly when the term cannot perform `e`.
pub open spec fn spec_afters(p: ProcV, e: Event) -> Seq<ProcV>
    decreases p, 0nat,
{
    match p {
        ProcV::Stop => Seq::empty(),
        ProcV::Skip => {
            if e == Event::Tick(Tick) {
                seq![ProcV::Stop]
            } else {
                Seq::empty()
            }
        },
        ProcV::Prefix(initial, after) => {
            if e == initial {
                seq![*after]
            } else {
                Seq::empty()
            }
        },
        ProcV::InternalChoice(ps) => {
            if e == Event::Tau(Tau) {
                ps
            } else {
                Seq::empty()
            }
        },
        ProcV::ExternalChoice(ps) => {
            if e == Event::Tau(Tau) {
                // Rule 1: a child performs τ invisibly; the choice stays
                // open, with that child advanced in place.
                ec_tau_afters(ps, 0)
            } else {
                // Rule 2: a child performs a visible event; the choice
                // resolves to that child's successor.
                ec_visible_afters(ps, e, 0)
            }
        },
        ProcV::SequentialComposition(p1, q1) => {
            if e == Event::Tick(Tick) {
                // ✔ is never visible on the composition itself.
                Seq::empty()
            } else {
                // Rule 1: a non-✔ event of `P` passes through.
                let base = spec_afters(*p1, e).map(
                    |_i: int, pp: ProcV| ProcV::SequentialComposition(Box::new(pp), q1),
                );
                if e == Event::Tau(Tau) && spec_afters(*p1, Event::Tick(Tick)).len() > 0 {
                    // Rule 2: a ✔ of `P` is hidden and reported as τ,
                    // handing control to `Q`.
                    base.push(*q1)
                } else {
                    base
                }
            }
        },
    }
}

/// The τ-successors of an external choice over `ps`, considering the
/// children from index `i` on: for each τ-successor `P'` of a child `P`,
/// the whole choice with `P` replaced by `P'`.
pub open spec fn ec_tau_afters(ps: Seq<ProcV>, i: int) -> Seq<ProcV>
    decreases ps, ps.len() - i,
{
    if i < 0 || i >= ps.len() {
        Seq::empty()
    } else {
        spec_afters(ps[i], Event::Tau(Tau)).map(
            |_j: int, pp: ProcV| ProcV::ExternalChoice(ps.update(i, pp)),
        ) + ec_tau_afters(ps, i + 1)
    }
}

/// The successors of an external choice for a visible event `e`,
/// considering the children from index `i` on: every `e`-successor of every
/// child, since the event resolves the choice.
pub open spec fn ec_visible_afters(ps: Seq<ProcV>, e: Event, i: int) -> Seq<ProcV>
    decreases ps, ps.len() - i,
{
    if i < 0 || i >= ps.len() {
        Seq::empty()
    } else {
        spec_afters(ps[i], e) + ec_visible_afters(ps, e, i + 1)
    }
}

/// A process term is well formed when no internal choice in it ranges over
/// an empty collection: internal choice over nothing is undefined, and the
/// constructors refuse to build it.
pub open spec fn wf(p: ProcV) -> bool
    decreases p, 0nat,
{
    match p {
        ProcV::Stop => true,
        ProcV::Skip => true,
        ProcV::Prefix(_, after) => wf(*after),
        ProcV::InternalChoice(ps) => ps.len() > 0 && wf_seq(ps),
        ProcV::ExternalChoice(ps) => wf_seq(ps),
        ProcV::SequentialComposition(p1, q1) => wf(*p1) && wf(*q1),
    }
}

pub open spec fn wf_seq(ps: Seq<ProcV>) -> bool
    decreases ps, 0nat,
{
    if ps.len() == 0 {
        true
    } else {
        wf_seq(ps.drop_last()) && wf(ps.last())
    }
}

pub proof fn lemma_wf_seq_index(ps: Seq<ProcV>, i: int)
    requires
        wf_seq(ps),
        0 <= i < ps.len(),
    ensures
        wf(ps[i]),
    decreases ps,
{
    if i < ps.len() - 1 {
        lemma_wf_seq_index(ps.drop_last(), i);
    }
}

pub proof fn lemma_wf_seq_update(ps: Seq<ProcV>, i: int, x: ProcV)
    requires
        wf_seq(ps),
        wf(x),
        0 <= i < ps.len(),
    ensures
        wf_seq(ps.update(i, x)),
    decreases ps,
{
    if i == ps.len() - 1 {
        assert(ps.update(i, x).drop_last() =~= ps.drop_last());
        assert(ps.update(i, x).last() == x);
    } else {
        lemma_wf_seq_update(ps.drop_last(), i, x);
        assert(ps.update(i, x).drop_last() =~= ps.drop_last().update(i, x));
        assert(ps.update(i, x).last() == ps.last());
    }
}

/// Membership in the union of the children's initial sets is membership in
/// some child's initial set.
pub proof fn lemma_initials_of_seq_contains(ps: Seq<ProcV>, e: Event)
    ensures
        initials_of_seq(ps).contains(e) <==> exists|i: int|
            0 <= i < ps.len() && spec_initials(#[trigger] ps[i]).contains(e),
    decreases ps,
{
    if ps.len() > 0 {
        lemma_initials_of_seq_contains(ps.drop_last(), e);
        if initials_of_seq(ps).contains(e) {
            if spec_initials(ps.last()).contains(e) {
                assert(ps[ps.len() - 1] == ps.last());
            } else {
                let i = choose|i: int|
                    0 <= i < ps.drop_last().len() && spec_initials(
                        #[trigger] ps.drop_last()[i],
                    ).contains(e);
                assert(ps[i] == ps.drop_last()[i]);
            }
        }
        if exists|i: int| 0 <= i < ps.len() && spec_initials(#[trigger] ps[i]).contains(e) {
            let i = choose|i: int|
                0 <= i < ps.len() && spec_initials(#[trigger] ps[i]).contains(e);
            if i < ps.len() - 1 {
                assert(ps.drop_last()[i] == ps[i]);
            } else {
                assert(ps.last() == ps[i]);
            }
        }
    }
}

/// Spells out one step of `ec_tau_afters`: the successors contributed by
/// child `i`, followed by those of the later children.
pub proof fn lemma_ec_tau_afters_step(ps: Seq<ProcV>, i: int)
    requires
        0 <= i < ps.len(),
    ensures
        ec_tau_afters(ps, i).len() == spec_afters(ps[i], Event::Tau(Tau)).len() + ec_tau_afters(
            ps,
            i + 1,
        ).len(),
        forall|k: int|
            0 <= k < spec_afters(ps[i], Event::Tau(Tau)).len() ==> #[trigger] ec_tau_afters(
                ps,
                i,
            )[k] == ProcV::ExternalChoice(ps.update(i, spec_afters(ps[i], Event::Tau(Tau))[k])),
        forall|k: int|
            spec_afters(ps[i], Event::Tau(Tau)).len() <= k < ec_tau_afters(ps, i).len()
                ==> #[trigger] ec_tau_afters(ps, i)[k] == ec_tau_afters(ps, i + 1)[k - spec_afters(
                ps[i],
                Event::Tau(Tau),
            ).len()],
{
}

/// Spells out one step of `ec_visible_afters`: the successors contributed
/// by child `i`, followed by those of the later children.
pub proof fn lemma_ec_visible_afters_step(ps: Seq<ProcV>, e: Event, i: int)
    requires
        0 <= i < ps.len(),
    ensures
        ec_visible_afters(ps, e, i).len() == spec_afters(ps[i], e).len() + ec_visible_afters(
            ps,
            e,
            i + 1,
        ).len(),
        forall|k: int|
            0 <= k < spec_afters(ps[i], e).len() ==> #[trigger] ec_visible_afters(ps, e, i)[k]
                == spec_afters(ps[i], e)[k],
        forall|k: int|
            spec_afters(ps[i], e).len() <= k < ec_visible_afters(ps, e, i).len()
                ==> #[trigger] ec_visible_afters(ps, e, i)[k] == ec_visible_afters(ps, e, i + 1)[k
                - spec_afters(ps[i], e).len()],
{
}

/// An external choice has a τ-successor from index `k` on exactly when some
/// child from index `k` on has one.
pub proof fn lemma_ec_tau_afters_nonempty(ps: Seq<ProcV>, k: int)
    requires
        0 <= k,
    ensures
        ec_tau_afters(ps, k).len() > 0 <==> exists|i: int|
            k <= i < ps.len() && spec_afters(#[trigger] ps[i], Event::Tau(Tau)).len() > 0,
    decreases ps.len() - k,
{
    if k < ps.len() {
        lemma_ec_tau_afters_nonempty(ps, k + 1);
    }
}

/// An external choice has an `e`-successor from index `k` on exactly when
/// some child from index `k` on has one.
pub proof fn lemma_ec_visible_afters_nonempty(ps: Seq<ProcV>, e: Event, k: int)
    requires
        0 <= k,
    ensures
        ec_visible_afters(ps, e, k).len() > 0 <==> exists|i: int|
            k <= i < ps.len() && spec_afters(#[trigger] ps[i], e).len() > 0,
    decreases ps.len() - k,
{
    if k < ps.len() {
        lemma_ec_visible_afters_nonempty(ps, e, k + 1);
    }
}

/// Spells out the successors of a sequential composition for a non-✔ event:
/// the successors of `P` each composed with `Q`, then `Q` itself when `P`
/// could have terminated and the event is the hiding τ.
pub proof fn lemma_sc_afters_shape(p1: ProcV, q1: ProcV, e: Event)
    requires
        e != Event::Tick(Tick),
    ensures
        ({
            let whole = spec_afters(
                ProcV::SequentialComposition(Box::new(p1), Box::new(q1)),
                e,
            );
            let inner = spec_afters(p1, e);
            let ticks = e == Event::Tau(Tau) && spec_afters(p1, Event::Tick(Tick)).len() > 0;
            &&& whole.len() == inner.len() + (if ticks {
                1int
            } else {
                0int
            })
            &&& forall|k: int|
                0 <= k < inner.len() ==> #[trigger] whole[k] == ProcV::SequentialComposition(
                    Box::new(inner[k]),
                    Box::new(q1),
                )
            &&& (ticks ==> whole.last() == q1)
        }),
{
}

/// Every operational transition strictly decreases the size of the process
/// term.  This is what makes trace enumeration over the closed algebra
/// terminate: the algebra has no recursion operator, so no cursor can come
/// back to an earlier state.
pub proof fn lemma_afters_decrease(p: ProcV, e: Event)
    ensures
        forall|i: int|
            0 <= i < spec_afters(p, e).len() ==> proc_size(#[trigger] spec_afters(p, e)[i])
                < proc_size(p),
    decreases p, 1nat,
{
    match p {
        ProcV::Stop => {
            assert(spec_afters(p, e).len() == 0);
        },
        ProcV::Skip => {
            assert(forall|i: int|
                0 <= i < spec_afters(p, e).len() ==> proc_size(#[trigger] spec_afters(p, e)[i])
                    < proc_size(p));
        },
        ProcV::Prefix(_, _) => {
            assert(forall|i: int|
                0 <= i < spec_afters(p, e).len() ==> proc_size(#[trigger] spec_afters(p, e)[i])
                    < proc_size(p));
        },
        ProcV::InternalChoice(ps) => {
            if e == Event::Tau(Tau) {
                assert forall|i: int| 0 <= i < ps.len() implies proc_size(ps[i]) < proc_size(
                    p,
                ) by {
                    lemma_proc_seq_size_elem(ps, i);
                }
            }
            assert(forall|i: int|
                0 <= i < spec_afters(p, e).len() ==> proc_size(#[trigger] spec_afters(p, e)[i])
                    < proc_size(p));
        },
        ProcV::ExternalChoice(ps) => {
            assert(proc_size(p) == 2 + proc_seq_size(ps));
            if e == Event::Tau(Tau) {
                assert(spec_afters(p, e) == ec_tau_afters(ps, 0));
                lemma_ec_tau_decrease(ps, 0);
            } else {
                assert(spec_afters(p, e) == ec_visible_afters(ps, e, 0));
                lemma_ec_visible_decrease(ps, e, 0);
            }
            assert(forall|i: int|
                0 <= i < spec_afters(p, e).len() ==> proc_size(#[trigger] spec_afters(p, e)[i])
                    < proc_size(p));
        },
        ProcV::SequentialComposition(p1, q1) => {
            if e != Event::Tick(Tick) {
                lemma_afters_decrease(*p1, e);
                let inner = spec_afters(*p1, e);
                assert forall|i: int| 0 <= i < spec_afters(p, e).len() implies proc_size(
                    spec_afters(p, e)[i],
                ) < proc_size(p) by {
                    if i < inner.len() {
                        assert(spec_afters(p, e)[i] == ProcV::SequentialComposition(
                            Box::new(inner[i]),
                            q1,
                        ));
                    } else {
                        assert(spec_afters(p, e)[i] == *q1);
                    }
                }
            }
            assert(forall|i: int|
                0 <= i < spec_afters(p, e).len() ==> proc_size(#[trigger] spec_afters(p, e)[i])
                    < proc_size(p));
        },
    }
}

proof fn lemma_ec_tau_decrease(ps: Seq<ProcV>, k: int)
    requires
        0 <= k,
    ensures
        forall|i: int|
            0 <= i < ec_tau_afters(ps, k).len() ==> proc_size(#[trigger] ec_tau_afters(ps, k)[i])
                < 2 + proc_seq_size(ps),
    decreases ps, ps.len() - k,
{
    if k < ps.len() {
        lemma_afters_decrease(ps[k], Event::Tau(Tau));
        lemma_ec_tau_decrease(ps, k + 1);
        let inner = spec_afters(ps[k], Event::Tau(Tau));
        assert forall|i: int| 0 <= i < ec_tau_afters(ps, k).len() implies proc_size(
            ec_tau_afters(ps, k)[i],
        ) < 2 + proc_seq_size(ps) by {
            if i < inner.len() {
                assert(ec_tau_afters(ps, k)[i] == ProcV::ExternalChoice(
                    ps.update(k, inner[i]),
                ));
                lemma_proc_seq_size_update(ps, k, inner[i]);
            } else {
                assert(ec_tau_afters(ps, k)[i] == ec_tau_afters(ps, k + 1)[i - inner.len()]);
            }
        }
    }
}

proof fn lemma_ec_visible_decrease(ps: Seq<ProcV>, e: Event, k: int)
    requires
        0 <= k,
    ensures
        forall|i: int|
            0 <= i < ec_visible_afters(ps, e, k).len() ==> proc_size(
                #[trigger] ec_visible_afters(ps, e, k)[i],
            ) < 2 + proc_seq_size(ps),
    decreases ps, ps.len() - k,
{
    if k < ps.len() {
        lemma_afters_decrease(ps[k], e);
        lemma_ec_visible_decrease(ps, e, k + 1);
        lemma_proc_seq_size_elem(ps, k);
        let inner = spec_afters(ps[k], e);
        assert forall|i: int| 0 <= i < ec_visible_afters(ps, e, k).len() implies proc_size(
            ec_visible_afters(ps, e, k)[i],
        ) < 2 + proc_seq_size(ps) by {
            if i < inner.len() {
                assert(ec_visible_afters(ps, e, k)[i] == inner[i]);
            } else {
                assert(ec_visible_afters(ps, e, k)[i] == ec_visible_afters(ps, e, k + 1)[i
                    - inner.len()]);
            }
        }
    }
}

/// If the transition relation offers a successor for `e`, then `e` is one
/// of the process's initial events.  (The converse needs well-formedness:
/// an internal choice over an empty collection offers τ but has no
/// successor for it.)
pub proof fn lemma_afters_nonempty_implies_initial(p: ProcV, e: Event)
    requires
        spec_afters(p, e).len() > 0,
    ensures
        spec_initials(p).contains(e),
    decreases p,
{
    match p {
        ProcV::Stop => {},
        ProcV::Skip => {},
        ProcV::Prefix(_, _) => {},
        ProcV::InternalChoice(_) => {},
        ProcV::ExternalChoice(ps) => {
            lemma_initials_of_seq_contains(ps, e);
            if e == Event::Tau(Tau) {
                lemma_ec_tau_afters_nonempty(ps, 0);
                let i = choose|i: int|
                    0 <= i < ps.len() && spec_afters(#[trigger] ps[i], Event::Tau(Tau)).len() > 0;
                lemma_afters_nonempty_implies_initial(ps[i], e);
            } else {
                lemma_ec_visible_afters_nonempty(ps, e, 0);
                let i = choose|i: int|
                    0 <= i < ps.len() && spec_afters(#[trigger] ps[i], e).len() > 0;
                lemma_afters_nonempty_implies_initial(ps[i], e);
            }
        },
        ProcV::SequentialComposition(p1, q1) => {
            let inner = spec_afters(*p1, e);
            if inner.len() > 0 {
                lemma_afters_nonempty_implies_initial(*p1, e);
            } else {
                lemma_afters_nonempty_implies_initial(*p1, Event::Tick(Tick));
            }
        },
    }
}

/// A ghost cursor: the mathematical value of a process's mutable traversal
/// state.  A cursor for a composite process is itself a tagged union of
/// child cursor states.
pub enum CursorV {
    /// `Stop` has a single state, in which nothing can be performed.
    Stop,
    /// `Skip` is before or after its ✔.
    Skip { before: bool },
    /// A prefix is before its initial event, or has delegated to the child.
    Prefix { before: bool, initial: Event, after: Box<CursorV> },
    /// An internal choice is before its resolving τ, or tracks which
    /// children are still plausible results of the choice; children that a
    /// later event rules out are deactivated (`None`).
    InternalChoice { before_tau: bool, subcursors: Seq<Option<CursorV>> },
    /// An external choice keeps, per child, the chain of states after
    /// performing 0, 1, 2, … τ's; entries are deactivated (`None`) when they
    /// become inconsistent with what was observed.
    ExternalChoice { resolved: bool, subcursors: Seq<Seq<Option<CursorV>>>, tau_count: nat },
    /// A sequential composition keeps `P`'s cursor while it is plausible,
    /// plus one `Q` cursor per point where a hidden ✔ may have occurred.
    SequentialComposition { q_root: Box<ProcV>, p: Option<Box<CursorV>>, qs: Seq<Option<CursorV>> },
}

/// The root cursor of a process term.
pub open spec fn proc_root(p: ProcV) -> CursorV
    decreases p,
{
    match p {
        ProcV::Stop => CursorV::Stop,
        ProcV::Skip => CursorV::Skip { before: true },
        ProcV::Prefix(initial, after) => CursorV::Prefix {
            before: true,
            initial,
            after: Box::new(proc_root(*after)),
        },
        ProcV::InternalChoice(ps) => CursorV::InternalChoice {
            before_tau: true,
            subcursors: live_roots_of(ps),
        },
        ProcV::ExternalChoice(ps) => CursorV::ExternalChoice {
            resolved: false,
            subcursors: root_chains_of(ps),
            tau_count: 0,
        },
        ProcV::SequentialComposition(p1, q1) => CursorV::SequentialComposition {
            q_root: q1,
            p: Some(Box::new(proc_root(*p1))),
            qs: Seq::empty(),
        },
    }
}

pub open spec fn live_roots_of(ps: Seq<ProcV>) -> Seq<Option<CursorV>>
    decreases ps,
{
    if ps.len() == 0 {
        Seq::empty()
    } else {
        live_roots_of(ps.drop_last()).push(Some(proc_root(ps.last())))
    }
}

pub open spec fn root_chains_of(ps: Seq<ProcV>) -> Seq<Seq<Option<CursorV>>>
    decreases ps,
{
    if ps.len() == 0 {
        Seq::empty()
    } else {
        root_chains_of(ps.drop_last()).push(seq![Some(proc_root(ps.last()))])
    }
}

/// The set of events a cursor is willing to perform in its current state,
/// hidden events included.
pub open spec fn cv_events(c: CursorV) -> Set<Event>
    decreases c, 0nat, 0nat,
{
    match c {
        CursorV::Stop => Set::empty(),
        CursorV::Skip { before } => {
            if before {
                Set::empty().insert(Event::Tick(Tick))
            } else {
                Set::empty()
            }
        },
        CursorV::Prefix { before, initial, after } => {
            if before {
                Set::empty().insert(initial)
            } else {
                cv_events(*after)
            }
        },
        CursorV::InternalChoice { before_tau, subcursors } => {
            if before_tau {
                Set::empty().insert(Event::Tau(Tau))
            } else {
                live_events(subcursors)
            }
        },
        CursorV::ExternalChoice { resolved, subcursors, tau_count } => ec_events(subcursors),
        CursorV::SequentialComposition { q_root, p, qs } => {
            let p_part = match p {
                Some(pc) => hide_tick(cv_events(*pc)),
                None => Set::empty(),
            };
            p_part.union(live_events(qs))
        },
    }
}

/// The events offered by the live cursors of a list of possibly
/// deactivated subcursor states.
pub open spec fn live_events(cs: Seq<Option<CursorV>>) -> Set<Event>
    decreases cs, 0nat, 0nat,
{
    if cs.len() == 0 {
        Set::empty()
    } else {
        live_events(cs.drop_last()).union(
            match cs.last() {
                Some(sub) => cv_events(sub),
                None => Set::empty(),
            },
        )
    }
}

/// The events offered by any live subcursor state of an external choice.
pub open spec fn ec_events(chains: Seq<Seq<Option<CursorV>>>) -> Set<Event>
    decreases chains, 0nat, 1nat,
{
    if chains.len() == 0 {
        Set::empty()
    } else {
        ec_events(chains.drop_last()).union(live_events(chains.last()))
    }
}

/// Whether a cursor is willing to perform an event now.
pub open spec fn cv_can(c: CursorV, e: Event) -> bool {
    cv_events(c).contains(e)
}

/// The cursor after performing `e`: the per-operator state machines of the
/// operational semantics, written as one functional step.  Only meaningful
/// when `cv_can(c, e)` holds; a cursor is never asked to perform an event it
/// is not willing to perform.
pub open spec fn cv_perform(c: CursorV, e: Event) -> CursorV
    decreases c, 0nat, 0nat,
{
    match c {
        CursorV::Stop => c,
        CursorV::Skip { before } => CursorV::Skip { before: false },
        CursorV::Prefix { before, initial, after } => {
            if before {
                CursorV::Prefix { before: false, initial, after }
            } else {
                CursorV::Prefix { before, initial, after: Box::new(cv_perform(*after, e)) }
            }
        },
        CursorV::InternalChoice { before_tau, subcursors } => {
            if before_tau {
                CursorV::InternalChoice { before_tau: false, subcursors }
            } else {
                CursorV::InternalChoice { before_tau, subcursors: step_all(subcursors, e) }
            }
        },
        CursorV::ExternalChoice { resolved, subcursors, tau_count } => {
            if !resolved && e == Event::Tau(Tau) {
                let new_count = tau_count + 1;
                let extended = ec_extend_chains(subcursors, e, new_count);
                CursorV::ExternalChoice {
                    resolved,
                    subcursors: ec_deactivate(extended, new_count),
                    tau_count: new_count,
                }
            } else {
                CursorV::ExternalChoice {
                    resolved: true,
                    subcursors: ec_perform_all(subcursors, e),
                    tau_count,
                }
            }
        },
        CursorV::SequentialComposition { q_root, p, qs } => {
            let qs_stepped = step_all(qs, e);
            match p {
                None => CursorV::SequentialComposition { q_root, p, qs: qs_stepped },
                Some(pc) => {
                    if e == Event::Tick(Tick) {
                        CursorV::SequentialComposition { q_root, p, qs: qs_stepped }
                    } else {
                        let qs_spawned = if e == Event::Tau(Tau) && cv_can(
                            *pc,
                            Event::Tick(Tick),
                        ) {
                            qs_stepped.push(Some(proc_root(*q_root)))
                        } else {
                            qs_stepped
                        };
                        let p_stepped = if cv_can(*pc, e) {
                            Some(Box::new(cv_perform(*pc, e)))
                        } else {
                            None
                        };
                        CursorV::SequentialComposition { q_root, p: p_stepped, qs: qs_spawned }
                    }
                },
            }
        },
    }
}

/// One unresolved-τ step of an external choice, chain by chain: a chain
/// that has kept pace with the τ count and whose deepest state can perform
/// another τ grows by that state's successor.
pub open spec fn ec_extend_chains(
    chains: Seq<Seq<Option<CursorV>>>,
    e: Event,
    new_count: nat,
) -> Seq<Seq<Option<CursorV>>>
    decreases chains, 0nat, 1nat,
{
    if chains.len() == 0 {
        Seq::empty()
    } else {
        ec_extend_chains(chains.drop_last(), e, new_count).push(
            chain_extend(chains.last(), e, new_count),
        )
    }
}

pub open spec fn chain_extend(
    chain: Seq<Option<CursorV>>,
    e: Event,
    new_count: nat,
) -> Seq<Option<CursorV>>
    decreases chain, 0nat, 0nat,
{
    if chain.len() == new_count && chain.len() > 0 {
        proof {
            assert(decreases_to!(chain => chain.last()));
            if chain.last() is Some {
                assert(decreases_to!(chain.last() => chain.last()->0));
            }
        }
        match chain.last() {
            Some(sub) => {
                if cv_can(sub, e) {
                    chain.push(Some(cv_perform(sub, e)))
                } else {
                    chain
                }
            },
            None => chain,
        }
    } else {
        chain
    }
}

/// The total number of τ's performed across all chains of an external
/// choice: each chain of length `n + 1` accounts for `n` τ's.
pub open spec fn ec_total_depth(chains: Seq<Seq<Option<CursorV>>>) -> nat
    decreases chains,
{
    if chains.len() == 0 {
        0
    } else {
        ec_total_depth(chains.drop_last()) + (if chains.last().len() == 0 {
            0nat
        } else {
            (chains.last().len() - 1) as nat
        })
    }
}

/// Deactivates subcursor states that can no longer account for the τ's the
/// choice has performed: a chain must itself have performed at least
/// `tau_count` minus what all other chains could contribute.
pub open spec fn ec_deactivate(
    chains: Seq<Seq<Option<CursorV>>>,
    tau_count: nat,
) -> Seq<Seq<Option<CursorV>>> {
    let total = ec_total_depth(chains);
    Seq::new(
        chains.len(),
        |i: int|
            {
                let chain = chains[i];
                if chain.len() <= 1 {
                    chain
                } else {
                    let this_count = (chain.len() - 1) as nat;
                    let remaining = (total - this_count) as nat;
                    if remaining < tau_count {
                        let minimum = (tau_count - remaining) as nat;
                        chain.map(
                            |j: int, entry: Option<CursorV>|
                                if j < minimum {
                                    None
                                } else {
                                    entry
                                },
                        )
                    } else {
                        chain
                    }
                }
            },
    )
}

/// Has every still-live subcursor state perform `e` if it can; states that
/// cannot are deactivated.
pub open spec fn ec_perform_all(
    chains: Seq<Seq<Option<CursorV>>>,
    e: Event,
) -> Seq<Seq<Option<CursorV>>>
    decreases chains, 0nat, 1nat,
{
    if chains.len() == 0 {
        Seq::empty()
    } else {
        ec_perform_all(chains.drop_last(), e).push(step_all(chains.last(), e))
    }
}

/// Has every live subcursor state perform `e` if it can; states that cannot
/// are permanently deactivated.
pub open spec fn step_all(cs: Seq<Option<CursorV>>, e: Event) -> Seq<Option<CursorV>>
    decreases cs, 0nat, 0nat,
{
    if cs.len() == 0 {
        Seq::empty()
    } else {
        proof {
            assert(decreases_to!(cs => cs.last()));
            if cs.last() is Some {
                assert(decreases_to!(cs.last() => cs.last()->0));
            }
        }
        let stepped = match cs.last() {
            Some(sub) => {
                if cv_can(sub, e) {
                    Some(cv_perform(sub, e))
                } else {
                    None
                }
            },
            None => None,
        };
        step_all(cs.drop_last(), e).push(stepped)
    }
}

/// The ghost cursor that an executable composite cursor stands for.
pub open spec fn cursor_view(c: crate::csp::CSPCursor) -> CursorV
    decreases c,
{
    match c {
        crate::csp::CSPCursor::Stop(_) => CursorV::Stop,
        crate::csp::CSPCursor::Skip(sc) => CursorV::Skip {
            before: sc.state is BeforeTick,
        },
        crate::csp::CSPCursor::Prefix(pc) => CursorV::Prefix {
            before: pc.state is BeforeInitial,
            initial: pc.initial,
            after: Box::new(cursor_view(*pc.after)),
        },
        crate::csp::CSPCursor::InternalChoice(ic) => CursorV::InternalChoice {
            before_tau: ic.state is BeforeTau,
            subcursors: opt_cursor_views(ic.subcursors@),
        },
        crate::csp::CSPCursor::ExternalChoice(ec) => CursorV::ExternalChoice {
            resolved: ec.state is Resolved,
            subcursors: chains_views(ec.subcursors@),
            tau_count: ec.tau_count as nat,
        },
        crate::csp::CSPCursor::SequentialComposition(sc) => CursorV::SequentialComposition {
            q_root: Box::new(sc.q_root@),
            p: match sc.p {
                Some(pc) => Some(Box::new(cursor_view(*pc))),
                None => None,
            },
            qs: opt_cursor_views(sc.qs@),
        },
    }
}

pub open spec fn cursor_views(cs: Seq<crate::csp::CSPCursor>) -> Seq<CursorV>
    decreases cs,
{
    if cs.len() == 0 {
        Seq::empty()
    } else {
        cursor_views(cs.drop_last()).push(cursor_view(cs.last()))
    }
}

pub open spec fn opt_cursor_views(cs: Seq<Option<crate::csp::CSPCursor>>) -> Seq<Option<CursorV>>
    decreases cs,
{
    if cs.len() == 0 {
        Seq::empty()
    } else {
        proof {
            assert(decreases_to!(cs => cs.last()));
            if cs.last() is Some {
                assert(decreases_to!(cs.last() => cs.last()->0));
            }
        }
        opt_cursor_views(cs.drop_last()).push(
            match cs.last() {
                Some(c) => Some(cursor_view(c)),
                None => None,
            },
        )
    }
}

pub open spec fn chains_views(
    cs: Seq<Vec<Option<crate::csp::CSPCursor>>>,
) -> Seq<Seq<Option<CursorV>>>
    decreases cs,
{
    if cs.len() == 0 {
        Seq::empty()
    } else {
        proof {
            assert(decreases_to!(cs => cs.last()));
            assert(decreases_to!(cs.last() => cs.last()@));
        }
        chains_views(cs.drop_last()).push(opt_cursor_views(cs.last()@))
    }
}

pub proof fn lemma_opt_cursor_views_push(
    s: Seq<Option<crate::csp::CSPCursor>>,
    x: Option<crate::csp::CSPCursor>,
)
    ensures
        opt_cursor_views(s.push(x)) == opt_cursor_views(s).push(
            match x {
                Some(c) => Some(cursor_view(c)),
                None => None,
            },
        ),
{
    assert(s.push(x).drop_last() =~= s);
    assert(s.push(x).last() == x);
}

pub proof fn lemma_chains_views_push(
    s: Seq<Vec<Option<crate::csp::CSPCursor>>>,
    x: Vec<Option<crate::csp::CSPCursor>>,
)
    ensures
        chains_views(s.push(x)) == chains_views(s).push(opt_cursor_views(x@)),
{
    assert(s.push(x).drop_last() =~= s);
    assert(s.push(x).last() == x);
}

pub broadcast proof fn lemma_cursor_views_len(cs: Seq<crate::csp::CSPCursor>)
    ensures
        #[trigger] cursor_views(cs).len() == cs.len(),
    decreases cs,
{
    if cs.len() > 0 {
        lemma_cursor_views_len(cs.drop_last());
    }
}

pub broadcast proof fn lemma_cursor_views_index(cs: Seq<crate::csp::CSPCursor>, i: int)
    requires
        0 <= i < cs.len(),
    ensures
        #[trigger] cursor_views(cs)[i] == cursor_view(cs[i]),
    decreases cs,
{
    lemma_cursor_views_len(cs);
    if cs.len() > 0 && i < cs.len() - 1 {
        lemma_cursor_views_index(cs.drop_last(), i);
    }
}

pub broadcast proof fn lemma_opt_cursor_views_len(cs: Seq<Option<crate::csp::CSPCursor>>)
    ensures
        #[trigger] opt_cursor_views(cs).len() == cs.len(),
    decreases cs,
{
    if cs.len() > 0 {
        lemma_opt_cursor_views_len(cs.drop_last());
    }
}

pub broadcast proof fn lemma_opt_cursor_views_index(cs: Seq<Option<crate::csp::CSPCursor>>, i: int)
    requires
        0 <= i < cs.len(),
    ensures
        #[trigger] opt_cursor_views(cs)[i] == (match cs[i] {
            Some(c) => Some(cursor_view(c)),
            None => None,
        }),
    decreases cs,
{
    lemma_opt_cursor_views_len(cs);
    if cs.len() > 0 && i < cs.len() - 1 {
        lemma_opt_cursor_views_index(cs.drop_last(), i);
    }
}

pub broadcast proof fn lemma_chains_views_len(cs: Seq<Vec<Option<crate::csp::CSPCursor>>>)
    ensures
        #[trigger] chains_views(cs).len() == cs.len(),
    decreases cs,
{
    if cs.len() > 0 {
        lemma_chains_views_len(cs.drop_last());
    }
}

pub broadcast proof fn lemma_chains_views_index(
    cs: Seq<Vec<Option<crate::csp::CSPCursor>>>,
    i: int,
)
    requires
        0 <= i < cs.len(),
    ensures
        #[trigger] chains_views(cs)[i] == opt_cursor_views(cs[i]@),
    decreases cs,
{
    lemma_chains_views_len(cs);
    if cs.len() > 0 && i < cs.len() - 1 {
        lemma_chains_views_index(cs.drop_last(), i);
    }
}

pub proof fn lemma_live_roots_of_len(ps: Seq<ProcV>)
    ensures
        live_roots_of(ps).len() == ps.len(),
        forall|i: int|
            0 <= i < ps.len() ==> #[trigger] live_roots_of(ps)[i] == Some(proc_root(ps[i])),
    decreases ps,
{
    if ps.len() > 0 {
        lemma_live_roots_of_len(ps.drop_last());
        assert forall|i: int|
            0 <= i < ps.len() implies #[trigger] live_roots_of(ps)[i] == Some(
            proc_root(ps[i]),
        ) by {
            if i < ps.len() - 1 {
                assert(live_roots_of(ps)[i] == live_roots_of(ps.drop_last())[i]);
            }
        }
    }
}

pub proof fn lemma_root_chains_of_len(ps: Seq<ProcV>)
    ensures
        root_chains_of(ps).len() == ps.len(),
        forall|i: int|
            0 <= i < ps.len() ==> #[trigger] root_chains_of(ps)[i] == seq![
                Some(proc_root(ps[i])),
            ],
    decreases ps,
{
    if ps.len() > 0 {
        lemma_root_chains_of_len(ps.drop_last());
        assert forall|i: int|
            0 <= i < ps.len() implies #[trigger] root_chains_of(ps)[i] == seq![
            Some(proc_root(ps[i])),
        ] by {
            if i < ps.len() - 1 {
                assert(root_chains_of(ps)[i] == root_chains_of(ps.drop_last())[i]);
            }
        }
    }
}

/// The events of `P` as a sequential composition reports them: a ✔ is
/// hidden and shows as τ; everything else passes through.
pub open spec fn hide_tick(s: Set<Event>) -> Set<Event> {
    if s.contains(Event::Tick(Tick)) {
        s.remove(Event::Tick(Tick)).insert(Event::Tau(Tau))
    } else {
        s
    }
}

/// The machine-size limit on performing one event: the τ counter of an
/// external choice is stored in a machine word, so one more τ must still
/// fit wherever the step will increment it.  Everything else about a step
/// is unbounded.
pub open spec fn room_to_step(c: CursorV, e: Event) -> bool
    decreases c, 1nat, 0nat,
{
    match c {
        CursorV::Stop => true,
        CursorV::Skip { before } => true,
        CursorV::Prefix { before, initial, after } => before || room_to_step(*after, e),
        CursorV::InternalChoice { before_tau, subcursors } => before_tau || room_all(
            subcursors,
            e,
        ),
        CursorV::ExternalChoice { resolved, subcursors, tau_count } => {
            if !resolved && e == Event::Tau(Tau) {
                &&& tau_count < usize::MAX
                &&& room_chain_extend(subcursors, e, tau_count + 1)
            } else {
                room_chains(subcursors, e)
            }
        },
        CursorV::SequentialComposition { q_root, p, qs } => {
            let p_room = match p {
                Some(pc) => !cv_can(*pc, e) || room_to_step(*pc, e),
                None => true,
            };
            p_room && room_all(qs, e)
        },
    }
}

pub open spec fn room_all(cs: Seq<Option<CursorV>>, e: Event) -> bool
    decreases cs, 0nat, 0nat,
{
    if cs.len() == 0 {
        true
    } else {
        proof {
            assert(decreases_to!(cs => cs.last()));
            if cs.last() is Some {
                assert(decreases_to!(cs.last() => cs.last()->0));
            }
        }
        room_all(cs.drop_last(), e) && (match cs.last() {
            Some(sub) => !cv_can(sub, e) || room_to_step(sub, e),
            None => true,
        })
    }
}

pub open spec fn room_chains(cs: Seq<Seq<Option<CursorV>>>, e: Event) -> bool
    decreases cs, 0nat, 1nat,
{
    if cs.len() == 0 {
        true
    } else {
        room_chains(cs.drop_last(), e) && room_all(cs.last(), e)
    }
}

pub open spec fn room_chain_extend(cs: Seq<Seq<Option<CursorV>>>, e: Event, new_count: nat) -> bool
    decreases cs, 0nat, 1nat,
{
    if cs.len() == 0 {
        true
    } else {
        proof {
            assert(decreases_to!(cs => cs.last()));
            if cs.last().len() > 0 {
                assert(decreases_to!(cs.last() => cs.last().last()));
                if cs.last().last() is Some {
                    assert(decreases_to!(cs.last().last() => cs.last().last()->0));
                }
            }
        }
        room_chain_extend(cs.drop_last(), e, new_count) && (if cs.last().len() == new_count
            && cs.last().len() > 0 {
            match cs.last().last() {
                Some(sub) => !cv_can(sub, e) || room_to_step(sub, e),
                None => true,
            }
        } else {
            true
        })
    }
}

pub proof fn lemma_live_events_push(s: Seq<Option<CursorV>>, x: Option<CursorV>)
    ensures
        live_events(s.push(x)) == live_events(s).union(
            match x {
                Some(sub) => cv_events(sub),
                None => Set::empty(),
            },
        ),
{
    assert(s.push(x).drop_last() =~= s);
    assert(s.push(x).last() == x);
}

pub proof fn lemma_live_events_take(s: Seq<Option<CursorV>>, i: int)
    requires
        0 <= i < s.len(),
    ensures
        live_events(s.take(i + 1)) == live_events(s.take(i)).union(
            match s[i] {
                Some(sub) => cv_events(sub),
                None => Set::empty(),
            },
        ),
{
    assert(s.take(i + 1) == s.take(i).push(s[i]));
    lemma_live_events_push(s.take(i), s[i]);
}

pub proof fn lemma_live_events_contains(s: Seq<Option<CursorV>>, e: Event)
    ensures
        live_events(s).contains(e) <==> exists|i: int|
            0 <= i < s.len() && (#[trigger] s[i]) is Some && cv_events(s[i]->0).contains(e),
    decreases s,
{
    if s.len() > 0 {
        lemma_live_events_contains(s.drop_last(), e);
        if live_events(s).contains(e) {
            if !live_events(s.drop_last()).contains(e) {
                assert(s[s.len() - 1] == s.last());
            } else {
                let i = choose|i: int|
                    0 <= i < s.drop_last().len() && (#[trigger] s.drop_last()[i]) is Some
                        && cv_events(s.drop_last()[i]->0).contains(e);
                assert(s[i] == s.drop_last()[i]);
            }
        }
        if exists|i: int|
            0 <= i < s.len() && (#[trigger] s[i]) is Some && cv_events(s[i]->0).contains(e) {
            let i = choose|i: int|
                0 <= i < s.len() && (#[trigger] s[i]) is Some && cv_events(s[i]->0).contains(e);
            if i < s.len() - 1 {
                assert(s.drop_last()[i] == s[i]);
            } else {
                assert(s.last() == s[i]);
            }
        }
    }
}

pub proof fn lemma_step_all_index(s: Seq<Option<CursorV>>, e: Event)
    ensures
        step_all(s, e).len() == s.len(),
        forall|i: int|
            0 <= i < s.len() ==> #[trigger] step_all(s, e)[i] == (match s[i] {
                Some(sub) => {
                    if cv_can(sub, e) {
                        Some(cv_perform(sub, e))
                    } else {
                        None
                    }
                },
                None => None,
            }),
    decreases s,
{
    if s.len() > 0 {
        lemma_step_all_index(s.drop_last(), e);
        assert forall|i: int|
            0 <= i < s.len() implies #[trigger] step_all(s, e)[i] == (match s[i] {
            Some(sub) => {
                if cv_can(sub, e) {
                    Some(cv_perform(sub, e))
                } else {
                    None
                }
            },
            None => None,
        }) by {
            if i < s.len() - 1 {
                assert(step_all(s, e)[i] == step_all(s.drop_last(), e)[i]);
                assert(s.drop_last()[i] == s[i]);
            } else {
                assert(s[i] == s.last());
            }
        }
    }
}

pub proof fn lemma_ec_events_take(chains: Seq<Seq<Option<CursorV>>>, i: int)
    requires
        0 <= i < chains.len(),
    ensures
        ec_events(chains.take(i + 1)) == ec_events(chains.take(i)).union(live_events(chains[i])),
{
    assert(chains.take(i + 1).drop_last() =~= chains.take(i));
    assert(chains.take(i + 1).last() == chains[i]);
}

pub proof fn lemma_ec_perform_all_index(chains: Seq<Seq<Option<CursorV>>>, e: Event)
    ensures
        ec_perform_all(chains, e).len() == chains.len(),
        forall|i: int|
            0 <= i < chains.len() ==> #[trigger] ec_perform_all(chains, e)[i] == step_all(
                chains[i],
                e,
            ),
    decreases chains,
{
    if chains.len() > 0 {
        lemma_ec_perform_all_index(chains.drop_last(), e);
        assert forall|i: int|
            0 <= i < chains.len() implies #[trigger] ec_perform_all(chains, e)[i] == step_all(
            chains[i],
            e,
        ) by {
            if i < chains.len() - 1 {
                assert(ec_perform_all(chains, e)[i] == ec_perform_all(chains.drop_last(), e)[i]);
                assert(chains.drop_last()[i] == chains[i]);
            } else {
                assert(chains[i] == chains.last());
            }
        }
    }
}

pub proof fn lemma_ec_extend_chains_index(
    chains: Seq<Seq<Option<CursorV>>>,
    e: Event,
    new_count: nat,
)
    ensures
        ec_extend_chains(chains, e, new_count).len() == chains.len(),
        forall|i: int|
            0 <= i < chains.len() ==> #[trigger] ec_extend_chains(chains, e, new_count)[i]
                == chain_extend(chains[i], e, new_count),
    decreases chains,
{
    if chains.len() > 0 {
        lemma_ec_extend_chains_index(chains.drop_last(), e, new_count);
        assert forall|i: int|
            0 <= i < chains.len() implies #[trigger] ec_extend_chains(chains, e, new_count)[i]
            == chain_extend(chains[i], e, new_count) by {
            if i < chains.len() - 1 {
                assert(ec_extend_chains(chains, e, new_count)[i] == ec_extend_chains(
                    chains.drop_last(),
                    e,
                    new_count,
                )[i]);
                assert(chains.drop_last()[i] == chains[i]);
            } else {
                assert(chains[i] == chains.last());
            }
        }
    }
}

pub proof fn lemma_room_all_index(cs: Seq<Option<CursorV>>, e: Event, i: int)
    requires
        room_all(cs, e),
        0 <= i < cs.len(),
        cs[i] is Some,
        cv_can(cs[i]->0, e),
    ensures
        room_to_step(cs[i]->0, e),
    decreases cs,
{
    if i < cs.len() - 1 {
        lemma_room_all_index(cs.drop_last(), e, i);
    } else {
        assert(cs[i] == cs.last());
    }
}

pub proof fn lemma_room_chains_index(cs: Seq<Seq<Option<CursorV>>>, e: Event, i: int)
    requires
        room_chains(cs, e),
        0 <= i < cs.len(),
    ensures
        room_all(cs[i], e),
    decreases cs,
{
    if i < cs.len() - 1 {
        lemma_room_chains_index(cs.drop_last(), e, i);
    } else {
        assert(cs[i] == cs.last());
    }
}

pub proof fn lemma_room_chain_extend_index(
    cs: Seq<Seq<Option<CursorV>>>,
    e: Event,
    new_count: nat,
    i: int,
)
    requires
        room_chain_extend(cs, e, new_count),
        0 <= i < cs.len(),
        cs[i].len() == new_count,
        cs[i].len() > 0,
        cs[i].last() is Some,
        cv_can(cs[i].last()->0, e),
    ensures
        room_to_step(cs[i].last()->0, e),
    decreases cs,
{
    if i < cs.len() - 1 {
        lemma_room_chain_extend_index(cs.drop_last(), e, new_count, i);
    } else {
        assert(cs[i] == cs.last());
    }
}

/// The total τ depth counted chain by chain, spelled out per index.
pub proof fn lemma_ec_total_depth_take(chains: Seq<Seq<Option<CursorV>>>, i: int)
    requires
        0 <= i < chains.len(),
    ensures
        ec_total_depth(chains.take(i + 1)) == ec_total_depth(chains.take(i)) + (if chains[i].len()
            == 0 {
            0nat
        } else {
            (chains[i].len() - 1) as nat
        }),
{
    assert(chains.take(i + 1).drop_last() =~= chains.take(i));
    assert(chains.take(i + 1).last() == chains[i]);
}

/// An external choice offers an event exactly when one of its chains has a
/// live state offering it.
pub proof fn lemma_ec_events_contains(chains: Seq<Seq<Option<CursorV>>>, e: Event)
    ensures
        ec_events(chains).contains(e) <==> exists|i: int|
            0 <= i < chains.len() && live_events(#[trigger] chains[i]).contains(e),
    decreases chains,
{
    if chains.len() > 0 {
        lemma_ec_events_contains(chains.drop_last(), e);
        if ec_events(chains).contains(e) {
            if !ec_events(chains.drop_last()).contains(e) {
                assert(chains[chains.len() - 1] == chains.last());
            } else {
                let i = choose|i: int|
                    0 <= i < chains.drop_last().len() && live_events(
                        #[trigger] chains.drop_last()[i],
                    ).contains(e);
                assert(chains[i] == chains.drop_last()[i]);
            }
        }
        if exists|i: int| 0 <= i < chains.len() && live_events(#[trigger] chains[i]).contains(e) {
            let i = choose|i: int|
                0 <= i < chains.len() && live_events(#[trigger] chains[i]).contains(e);
            if i < chains.len() - 1 {
                assert(chains.drop_last()[i] == chains[i]);
            } else {
                assert(chains.last() == chains[i]);
            }
        }
    }
}

/// Each chain's τ depth is at most the total τ depth over all chains.
pub proof fn lemma_ec_total_depth_elem(chains: Seq<Seq<Option<CursorV>>>, i: int)
    requires
        0 <= i < chains.len(),
        chains[i].len() > 0,
    ensures
        chains[i].len() - 1 <= ec_total_depth(chains),
    decreases chains,
{
    if i < chains.len() - 1 {
        lemma_ec_total_depth_elem(chains.drop_last(), i);
        assert(chains.drop_last()[i] == chains[i]);
    } else {
        assert(chains[i] == chains.last());
    }
}

/// Replaying a trace on a cursor: every event of the trace must be
/// performable in turn.
pub open spec fn cv_satisfies(c: CursorV, trace: Seq<Event>) -> bool
    decreases trace.len(),
{
    if trace.len() == 0 {
        true
    } else {
        cv_can(c, trace[0]) && cv_satisfies(cv_perform(c, trace[0]), trace.skip(1))
    }
}

#[via_fn]
proof fn spec_satisfies_decreases(p: ProcV, trace: Seq<Event>) {
    assert forall|e: Event, i: int|
        0 <= i < spec_afters(p, e).len() implies proc_size(#[trigger] spec_afters(p, e)[i])
        < proc_size(p) by {
        lemma_afters_decrease(p, e);
    }
}

/// Whether a process can perform a trace of events, in order, from its
/// start: some path through the transition relation replays every event.
pub open spec fn spec_satisfies(p: ProcV, trace: Seq<Event>) -> bool
    decreases proc_size(p),
        via spec_satisfies_decreases
{
    if trace.len() == 0 {
        true
    } else {
        exists|i: int|
            0 <= i < spec_afters(p, trace[0]).len() && spec_satisfies(
                #[trigger] spec_afters(p, trace[0])[i],
                trace.skip(1),
            )
    }
}

/// `t` is a prefix of `u` (possibly all of it).
pub open spec fn is_prefix_of(t: Seq<Event>, u: Seq<Event>) -> bool {
    t.len() <= u.len() && t == u.take(t.len() as int)
}

/// `t` is a proper prefix of `u`.
pub open spec fn is_strict_prefix_of(t: Seq<Event>, u: Seq<Event>) -> bool {
    is_prefix_of(t, u) && t.len() < u.len()
}

pub proof fn lemma_prefix_refl(t: Seq<Event>)
    ensures
        is_prefix_of(t, t),
{
    assert(t.take(t.len() as int) =~= t);
}

pub proof fn lemma_prefix_trans(t: Seq<Event>, u: Seq<Event>, v: Seq<Event>)
    requires
        is_prefix_of(t, u),
        is_prefix_of(u, v),
    ensures
        is_prefix_of(t, v),
{
    assert(t =~= v.take(t.len() as int));
}

/// Keeps only the maximal elements of a set of traces: those that are not a
/// proper prefix of another element.
pub open spec fn prune(s: Set<Seq<Event>>) -> Set<Seq<Event>> {
    Set::new(
        |t: Seq<Event>|
            s.contains(t) && !exists|u: Seq<Event>| s.contains(u) && is_strict_prefix_of(t, u),
    )
}

/// Whether a process can take any step at all right now.
pub open spec fn can_step(p: ProcV) -> bool {
    exists|e: Event| spec_initials(p).contains(e)
}

#[via_fn]
proof fn is_raw_trace_decreases(p: ProcV, t: Seq<Event>) {
    assert forall|e: Event, i: int|
        0 <= i < spec_afters(p, e).len() implies proc_size(#[trigger] spec_afters(p, e)[i])
        < proc_size(p) by {
        lemma_afters_decrease(p, e);
    }
}

/// `t` is a visible-event trace the process can perform until no step is
/// possible any more: the trace enumeration follows every transition, walks
/// through τ without recording it, and records a trace when the process has
/// no outgoing transition left.
pub open spec fn is_raw_trace(p: ProcV, t: Seq<Event>) -> bool
    decreases proc_size(p),
        via is_raw_trace_decreases
{
    if !can_step(p) {
        t == Seq::<Event>::empty()
    } else {
        exists|e: Event, i: int|
            {
                &&& 0 <= i < spec_afters(p, e).len()
                &&& if e == Event::Tau(Tau) {
                    is_raw_trace(spec_afters(p, e)[i], t)
                } else {
                    t.len() > 0 && t[0] == e && is_raw_trace(spec_afters(p, e)[i], t.skip(1))
                }
            }
    }
}

/// The set of maximal finite traces of a process: the raw traces of its
/// exhaustive enumeration, together with the empty trace that every process
/// has, with every proper prefix of another trace removed.
pub open spec fn maximal_traces_of(p: ProcV) -> Set<Seq<Event>> {
    prune(Set::new(|t: Seq<Event>| is_raw_trace(p, t)).insert(Seq::empty()))
}

} // verus!
