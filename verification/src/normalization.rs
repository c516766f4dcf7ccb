//! Prenormalization: collapsing the hidden-event ambiguity of a process by
//! tracking the τ-closure of its possible current states.

use vstd::prelude::*;

use crate::csp::CSP;
use crate::event::{Event, Tau};
use crate::semantics::{
    initials_of_seq, lemma_afters_decrease, lemma_initials_of_seq_take, lemma_proc_views_index,
    lemma_proc_views_len, proc_size, proc_view, proc_views, spec_afters, spec_initials, ProcV,
};

verus! {

broadcast use
    vstd::prelude::Seq::lemma_push_to_set_commute,
    vstd::seq_lib::lemma_seq_contains_after_push,
;

#[via_fn]
proof fn reaches_by_tau_decreases(p: ProcV, q: ProcV) {
    assert forall|i: int|
        0 <= i < spec_afters(p, Event::Tau(Tau)).len() implies proc_size(
        #[trigger] spec_afters(p, Event::Tau(Tau))[i],
    ) < proc_size(p) by {
        lemma_afters_decrease(p, Event::Tau(Tau));
    }
}

/// `q` is reachable from `p` by performing zero or more τ's.
pub open spec fn reaches_by_tau(p: ProcV, q: ProcV) -> bool
    decreases proc_size(p),
        via reaches_by_tau_decreases
{
    q == p || exists|i: int|
        0 <= i < spec_afters(p, Event::Tau(Tau)).len() && reaches_by_tau(
            #[trigger] spec_afters(p, Event::Tau(Tau))[i],
            q,
        )
}

/// _Prenormalizes_ a process: the cursor of the result keeps track of the
/// τ-closure of the set of states the process might be in, so that the
/// hidden τ\u{2019}s no longer show up as separate steps.
pub fn prenormalize(p: CSP) -> (r: Prenormalization)
    ensures
        r.0@ == p@,
{
    Prenormalization(p)
}

/// A process wrapped so that its traversal closes over τ at every step.
#[derive(Debug)]
pub struct Prenormalization(pub CSP);

/// The cursor of a prenormalized process: the set of process states that
/// are consistent with what has been observed, closed under τ.  A state may
/// be listed more than once; the list is a set up to duplication.
#[derive(Debug)]
pub struct PrenormalizationCursor {
    pub tau_closed: Vec<CSP>,
}

impl Prenormalization {
    /// The root cursor: the process\u{2019}s start state together with everything
    /// it can reach by τ\u{2019}s alone.
    pub fn root(&self) -> (r: PrenormalizationCursor)
        ensures
            forall|v: ProcV|
                proc_views(r.tau_closed@).contains(v) ==> reaches_by_tau(self.0@, v),
            proc_views(r.tau_closed@).contains(self.0@),
    {
        let mut cursor = PrenormalizationCursor { tau_closed: Vec::new() };
        let mut pending: Vec<CSP> = Vec::new();
        pending.push(self.0.clone());
        proof {
            crate::semantics::lemma_proc_views_push(Seq::<CSP>::empty(), pending@[0]);
            lemma_proc_views_len(pending@);
            lemma_proc_views_index(pending@, 0);
        }
        cursor.tau_close(pending);
        proof {
            assert(proc_views(Seq::<CSP>::empty()) =~= Seq::<ProcV>::empty());
            assert forall|v: ProcV|
                proc_views(cursor.tau_closed@).contains(v) implies reaches_by_tau(
                self.0@,
                v,
            ) by {}
        }
        cursor
    }
}

/// Adds to `out` the state `p` and every state reachable from it by τ\u{2019}s.
#[verifier::loop_isolation(false)]
fn close_into(out: &mut Vec<CSP>, p: &CSP)
    ensures
        forall|v: ProcV|
            proc_views(final(out)@).contains(v) ==> proc_views(old(out)@).contains(v)
                || reaches_by_tau(p@, v),
        forall|v: ProcV|
            proc_views(old(out)@).contains(v) ==> proc_views(final(out)@).contains(v),
        proc_views(final(out)@).contains(p@),
    decreases proc_size(p@),
{
    let ghost out0 = proc_views(old(out)@);
    let ghost before_push = out@;
    out.push(p.clone());
    proof {
        crate::semantics::lemma_proc_views_push(before_push, out@.last());
        assert(proc_views(out@).contains(p@)) by {
            lemma_proc_views_len(out@);
            lemma_proc_views_index(out@, out@.len() - 1);
        }
    }
    let succ = p.afters(&Event::Tau(Tau));
    let ghost succ_views = proc_views(succ@);
    proof {
        lemma_proc_views_len(succ@);
        lemma_afters_decrease(p@, Event::Tau(Tau));
    }
    let mut i: usize = 0;
    while i < succ.len()
        invariant
            0 <= i <= succ@.len(),
            forall|v: ProcV|
                proc_views(out@).contains(v) ==> out0.contains(v) || v == p@ || exists|j: int|
                    0 <= j < i && reaches_by_tau(#[trigger] succ_views[j], v),
            forall|v: ProcV| out0.contains(v) ==> proc_views(out@).contains(v),
            proc_views(out@).contains(p@),
        decreases succ@.len() - i,
    {
        proof {
            lemma_proc_views_index(succ@, i as int);
        }
        let ghost mid = proc_views(out@);
        close_into(out, &succ[i]);
        proof {
            assert forall|v: ProcV|
                proc_views(out@).contains(v) implies out0.contains(v) || v == p@ || exists|j: int|
                0 <= j < i + 1 && reaches_by_tau(#[trigger] succ_views[j], v) by {
                if !mid.contains(v) {
                    assert(reaches_by_tau(succ_views[i as int], v));
                }
            }
        }
        i += 1;
    }
    proof {
        assert forall|v: ProcV| proc_views(out@).contains(v) implies out0.contains(v)
            || reaches_by_tau(p@, v) by {
            if !out0.contains(v) && v != p@ {
                let j = choose|j: int|
                    0 <= j < succ@.len() && reaches_by_tau(#[trigger] succ_views[j], v);
                assert(0 <= j < spec_afters(p@, Event::Tau(Tau)).len());
                assert(reaches_by_tau(spec_afters(p@, Event::Tau(Tau))[j], v));
                assert(reaches_by_tau(p@, v));
            }
        }
    }
}

impl PrenormalizationCursor {
    /// Adds to the tracked state set every state in `pending`, closed under
    /// τ: nothing already tracked is lost, everything added is reachable
    /// from `pending` by τ\u{2019}s alone, and each pending state itself is now
    /// tracked.
    #[verifier::loop_isolation(false)]
    pub fn tau_close(&mut self, pending: Vec<CSP>)
        ensures
            forall|v: ProcV|
                proc_views(final(self).tau_closed@).contains(v) ==> proc_views(
                    old(self).tau_closed@,
                ).contains(v) || exists|k: int|
                    0 <= k < pending@.len() && reaches_by_tau(
                        #[trigger] proc_views(pending@)[k],
                        v,
                    ),
            forall|v: ProcV|
                proc_views(old(self).tau_closed@).contains(v) ==> proc_views(
                    final(self).tau_closed@,
                ).contains(v),
            forall|k: int|
                0 <= k < pending@.len() ==> proc_views(final(self).tau_closed@).contains(
                    #[trigger] proc_views(pending@)[k],
                ),
    {
        let ghost pending_views = proc_views(pending@);
        let ghost base = proc_views(old(self).tau_closed@);
        proof {
            lemma_proc_views_len(pending@);
        }
        let mut k: usize = 0;
        while k < pending.len()
            invariant
                0 <= k <= pending@.len(),
                forall|v: ProcV|
                    proc_views(self.tau_closed@).contains(v) ==> base.contains(v) || exists|
                        j: int,
                    |
                        0 <= j < k && reaches_by_tau(#[trigger] pending_views[j], v),
                forall|v: ProcV| base.contains(v) ==> proc_views(self.tau_closed@).contains(v),
                forall|j: int|
                    0 <= j < k ==> proc_views(self.tau_closed@).contains(
                        #[trigger] pending_views[j],
                    ),
            decreases pending@.len() - k,
        {
            proof {
                lemma_proc_views_index(pending@, k as int);
            }
            let ghost mid = proc_views(self.tau_closed@);
            close_into(&mut self.tau_closed, &pending[k]);
            proof {
                assert(proc_view(pending@[k as int]) == pending_views[k as int]);
                assert forall|v: ProcV|
                    proc_views(self.tau_closed@).contains(v) implies base.contains(v) || exists|
                    j: int,
                |
                    0 <= j < k + 1 && reaches_by_tau(#[trigger] pending_views[j], v) by {
                    if !mid.contains(v) {
                        assert(reaches_by_tau(proc_view(pending@[k as int]), v));
                        assert(reaches_by_tau(pending_views[k as int], v));
                    }
                }
            }
            k += 1;
        }
    }

    /// The events the tracked states are willing to perform: the union over
    /// the whole τ-closure.
    #[verifier::loop_isolation(false)]
    pub fn events(&self) -> (r: Vec<Event>)
        ensures
            r@.to_set() == initials_of_seq(proc_views(self.tau_closed@)),
            r@.no_duplicates(),
    {
        let ghost views = proc_views(self.tau_closed@);
        proof {
            lemma_proc_views_len(self.tau_closed@);
        }
        let mut r: Vec<Event> = Vec::new();
        let mut i: usize = 0;
        proof {
            assert(views.take(0) =~= Seq::empty());
            assert(r@.to_set() =~= initials_of_seq(views.take(0)));
        }
        while i < self.tau_closed.len()
            invariant
                0 <= i <= self.tau_closed@.len(),
                r@.no_duplicates(),
                r@.to_set() == initials_of_seq(views.take(i as int)),
            decreases self.tau_closed@.len() - i,
        {
            proof {
                lemma_proc_views_index(self.tau_closed@, i as int);
            }
            let member_initials = self.tau_closed[i].initials();
            let mut j: usize = 0;
            while j < member_initials.len()
                invariant
                    0 <= j <= member_initials@.len(),
                    r@.no_duplicates(),
                    r@.to_set() == initials_of_seq(views.take(i as int)).union(
                        member_initials@.take(j as int).to_set(),
                    ),
                    member_initials@.to_set() == spec_initials(views[i as int]),
                    i < self.tau_closed@.len(),
                decreases member_initials@.len() - j,
            {
                let e = member_initials[j];
                crate::csp::push_unique(&mut r, e);
                proof {
                    assert(member_initials@.take(j + 1) == member_initials@.take(
                        j as int,
                    ).push(e));
                    assert(member_initials@.take(j + 1).to_set() =~= member_initials@.take(
                        j as int,
                    ).to_set().insert(e));
                    assert(r@.to_set() =~= initials_of_seq(views.take(i as int)).union(
                        member_initials@.take(j + 1).to_set(),
                    ));
                }
                j += 1;
            }
            proof {
                assert(member_initials@.take(member_initials@.len() as int) == member_initials@);
                lemma_initials_of_seq_take(views, i as int);
                assert(r@.to_set() =~= initials_of_seq(views.take(i + 1)));
            }
            i += 1;
        }
        proof {
            assert(views.take(views.len() as int) =~= views);
        }
        r
    }

    /// Whether any tracked state is willing to perform `event`.
    pub fn can_perform(&self, event: &Event) -> (r: bool)
        ensures
            r == initials_of_seq(proc_views(self.tau_closed@)).contains(*event),
    {
        crate::csp::contains_event(&self.events(), *event)
    }

    /// Performs `event`: every tracked state that can perform it advances
    /// to each of its successors, the rest are dropped, and the result is
    /// closed under τ again.  Everything tracked afterwards is reachable
    /// from an `event`-successor of a previously tracked state, and every
    /// such successor is tracked.
    #[verifier::loop_isolation(false)]
    pub fn perform(&mut self, event: &Event)
        ensures
            forall|v: ProcV|
                proc_views(final(self).tau_closed@).contains(v) ==> exists|m: ProcV, i: int|
                    proc_views(old(self).tau_closed@).contains(m) && 0 <= i < spec_afters(
                        m,
                        *event,
                    ).len() && reaches_by_tau(#[trigger] spec_afters(m, *event)[i], v),
            forall|m: ProcV, i: int|
                proc_views(old(self).tau_closed@).contains(m) && 0 <= i < spec_afters(
                    m,
                    *event,
                ).len() ==> proc_views(final(self).tau_closed@).contains(
                    #[trigger] spec_afters(m, *event)[i],
                ),
    {
        let ghost old_views = proc_views(old(self).tau_closed@);
        let mut members: Vec<CSP> = Vec::new();
        core::mem::swap(&mut self.tau_closed, &mut members);
        let ghost members0 = members@;
        proof {
            lemma_proc_views_len(members@);
        }
        let mut afters: Vec<CSP> = Vec::new();
        let mut k: usize = 0;
        while k < members.len()
            invariant
                0 <= k <= members@.len(),
                members@ == members0,
                forall|v: ProcV|
                    proc_views(afters@).contains(v) ==> exists|j: int, i: int|
                        0 <= j < k && 0 <= i < spec_afters(
                            proc_views(members0)[j],
                            *event,
                        ).len() && v == #[trigger] spec_afters(proc_views(members0)[j], *event)[i],
                forall|j: int, i: int|
                    0 <= j < k && 0 <= i < spec_afters(proc_views(members0)[j], *event).len()
                        ==> proc_views(afters@).contains(
                        #[trigger] spec_afters(proc_views(members0)[j], *event)[i],
                    ),
            decreases members@.len() - k,
        {
            proof {
                lemma_proc_views_index(members0, k as int);
            }
            let succ = members[k].afters(event);
            let ghost succ_views = proc_views(succ@);
            proof {
                lemma_proc_views_len(succ@);
            }
            let ghost afters_start = proc_views(afters@);
            let mut rest = succ;
            let ghost rest0 = rest@;
            while rest.len() > 0
                invariant
                    rest@ == rest0.skip(rest0.len() - rest@.len()),
                    rest@.len() <= rest0.len(),
                    proc_views(rest0) == succ_views,
                    rest0.len() == succ_views.len(),
                    forall|v: ProcV|
                        proc_views(afters@).contains(v) ==> afters_start.contains(v) || exists|
                            i: int,
                        |
                            0 <= i < succ_views.len() && v == #[trigger] succ_views[i],
                    forall|v: ProcV| afters_start.contains(v) ==> proc_views(afters@).contains(v),
                    forall|i: int|
                        0 <= i < rest0.len() - rest@.len() ==> proc_views(afters@).contains(
                            #[trigger] succ_views[i],
                        ),
                decreases rest@.len(),
            {
                let ghost taken = rest0.len() - rest@.len();
                let ghost rest_before = rest@;
                let c = rest.remove(0);
                let ghost afters_before = afters@;
                afters.push(c);
                proof {
                    crate::semantics::lemma_proc_views_push(afters_before, afters@.last());
                    assert(rest_before[0] == rest0[taken]);
                    assert(proc_view(rest0[taken]) == succ_views[taken]) by {
                        lemma_proc_views_index(rest0, taken);
                    }
                    assert(proc_views(afters@).contains(succ_views[taken])) by {
                        lemma_proc_views_len(afters@);
                        lemma_proc_views_index(afters@, afters@.len() - 1);
                    }
                    assert(rest@ =~= rest0.skip(rest0.len() - rest@.len()));
                }
            }
            proof {
                assert forall|v: ProcV|
                    proc_views(afters@).contains(v) implies exists|j: int, i: int|
                    0 <= j < k + 1 && 0 <= i < spec_afters(
                        proc_views(members0)[j],
                        *event,
                    ).len() && v == #[trigger] spec_afters(proc_views(members0)[j], *event)[i] by {
                    if !afters_start.contains(v) {
                        let i = choose|i: int|
                            0 <= i < succ_views.len() && v == #[trigger] succ_views[i];
                        assert(v == spec_afters(proc_views(members0)[k as int], *event)[i]);
                    }
                }
                assert forall|j: int, i: int|
                    0 <= j < k + 1 && 0 <= i < spec_afters(proc_views(members0)[j], *event).len()
                    implies proc_views(afters@).contains(
                    #[trigger] spec_afters(proc_views(members0)[j], *event)[i],
                ) by {
                    if j == k {
                        assert(proc_views(afters@).contains(succ_views[i]));
                        assert(succ_views[i] == spec_afters(
                            proc_views(members0)[k as int],
                            *event,
                        )[i]);
                    } else {
                        assert(afters_start.contains(
                            spec_afters(proc_views(members0)[j], *event)[i],
                        ));
                    }
                }
            }
            k += 1;
        }
        let ghost afters_views = proc_views(afters@);
        proof {
            lemma_proc_views_len(afters@);
            lemma_proc_views_len(members0);
        }
        self.tau_close(afters);
        proof {
            assert(proc_views(Seq::<CSP>::empty()) =~= Seq::<ProcV>::empty());
            assert(members0 == old(self).tau_closed@);
            assert forall|v: ProcV|
                proc_views(self.tau_closed@).contains(v) implies exists|m: ProcV, i: int|
                proc_views(old(self).tau_closed@).contains(m) && 0 <= i < spec_afters(
                    m,
                    *event,
                ).len() && reaches_by_tau(#[trigger] spec_afters(m, *event)[i], v) by {
                let k2 = choose|k2: int|
                    0 <= k2 < afters_views.len() && reaches_by_tau(
                        #[trigger] afters_views[k2],
                        v,
                    );
                assert(afters_views.contains(afters_views[k2]));
                let (j, i): (int, int) = choose|j: int, i: int|
                    0 <= j < members0.len() && 0 <= i < spec_afters(
                        proc_views(members0)[j],
                        *event,
                    ).len() && afters_views[k2] == #[trigger] spec_afters(
                        proc_views(members0)[j],
                        *event,
                    )[i];
                assert(proc_views(members0).contains(proc_views(members0)[j]));
                assert(reaches_by_tau(spec_afters(proc_views(members0)[j], *event)[i], v));
            }
            assert forall|m: ProcV, i: int|
                proc_views(old(self).tau_closed@).contains(m) && 0 <= i < spec_afters(
                    m,
                    *event,
                ).len() implies proc_views(self.tau_closed@).contains(
                #[trigger] spec_afters(m, *event)[i],
            ) by {
                let j = choose|j: int|
                    0 <= j < proc_views(members0).len() && proc_views(members0)[j] == m;
                assert(afters_views.contains(spec_afters(m, *event)[i]));
                let k2 = choose|k2: int|
                    0 <= k2 < afters_views.len() && afters_views[k2] == spec_afters(m, *event)[i];
                assert(proc_views(self.tau_closed@).contains(afters_views[k2]));
            }
        }
    }
}

} // verus!
