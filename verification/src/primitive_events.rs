//! The built-in hidden events as event sets: a two-slot alphabet for τ and
//! ✔, the traits that locate τ and ✔ inside a composite alphabet, and a
//! numbered-event alphabet for visible events.

use vstd::prelude::*;

use crate::event_sets::{DisjointSum, EventSet, SumElem};

verus! {

/// The alphabet of the built-in hidden events: it can hold τ, ✔, both or
/// neither.  Its event kind is a boolean slot: `true` names the τ slot,
/// `false` the ✔ slot.
#[derive(Clone, Copy, PartialEq, Eq, Structural, Hash, Debug)]
pub struct PrimitiveEvents {
    contains_tau: bool,
    contains_tick: bool,
}

impl EventSet for PrimitiveEvents {
    type Elem = bool;

    closed spec fn mem(&self, e: bool) -> bool {
        if e {
            self.contains_tau
        } else {
            self.contains_tick
        }
    }

    fn empty() -> (r: Self) {
        PrimitiveEvents { contains_tau: false, contains_tick: false }
    }

    fn is_empty(&self) -> (r: bool) {
        proof {
            assert(self.mem(true) == self.contains_tau);
            assert(self.mem(false) == self.contains_tick);
        }
        !self.contains_tau && !self.contains_tick
    }

    fn intersect(&mut self, other: &Self) {
        self.contains_tau = self.contains_tau && other.contains_tau;
        self.contains_tick = self.contains_tick && other.contains_tick;
    }

    fn negate(&mut self) {
        self.contains_tau = !self.contains_tau;
        self.contains_tick = !self.contains_tick;
    }

    fn subtract(&mut self, other: &Self) {
        self.contains_tau = self.contains_tau && !other.contains_tau;
        self.contains_tick = self.contains_tick && !other.contains_tick;
    }

    fn union(&mut self, other: &Self) {
        self.contains_tau = self.contains_tau || other.contains_tau;
        self.contains_tick = self.contains_tick || other.contains_tick;
    }

    fn universe() -> (r: Self) {
        PrimitiveEvents { contains_tau: true, contains_tick: true }
    }

    fn enumerate(&self) -> (r: Vec<Self>) {
        let mut r: Vec<PrimitiveEvents> = Vec::new();
        if self.contains_tau {
            r.push(PrimitiveEvents { contains_tau: true, contains_tick: false });
        }
        if self.contains_tick {
            r.push(PrimitiveEvents { contains_tau: false, contains_tick: true });
        }
        proof {
            assert forall|e: bool| self.mem(e) implies exists|k: int|
                0 <= k < r@.len() && #[trigger] r@[k].mem(e) by {
                if e {
                    assert(r@[0].mem(true));
                } else {
                    assert(r@[r@.len() - 1].mem(false));
                }
            }
        }
        r
    }
}

/// The index of the τ event inside an alphabet.  The `Proof` parameter
/// records where in a composite alphabet the τ slot lives, so that nested
/// disjoint sums still have exactly one implementation each.
pub trait Tau<Proof>: EventSet {
    /// The event standing for τ in this alphabet.
    spec fn tau_elem() -> Self::Elem;

    /// The singleton alphabet holding exactly τ.
    fn tau() -> (r: Self)
        ensures
            forall|e: Self::Elem| #[trigger] r.mem(e) <==> e == Self::tau_elem(),
    ;

    /// Whether this set contains τ.
    fn can_perform_tau(&self) -> (r: bool)
        ensures
            r == self.mem(Self::tau_elem()),
    ;
}

/// The index of the ✔ event inside an alphabet, like `Tau`.
pub trait Tick<Proof>: EventSet {
    /// The event standing for ✔ in this alphabet.
    spec fn tick_elem() -> Self::Elem;

    /// The singleton alphabet holding exactly ✔.
    fn tick() -> (r: Self)
        ensures
            forall|e: Self::Elem| #[trigger] r.mem(e) <==> e == Self::tick_elem(),
    ;

    /// Whether this set contains ✔.
    fn can_perform_tick(&self) -> (r: bool)
        ensures
            r == self.mem(Self::tick_elem()),
    ;
}

/// Locates τ or ✔ in the first half of a disjoint sum.
pub struct Here;

/// Locates τ or ✔ somewhere in the second half of a disjoint sum.
pub struct There<T>(core::marker::PhantomData<T>);

impl Tau<()> for PrimitiveEvents {
    open spec fn tau_elem() -> bool {
        true
    }

    fn tau() -> (r: Self) {
        PrimitiveEvents { contains_tau: true, contains_tick: false }
    }

    fn can_perform_tau(&self) -> (r: bool) {
        self.contains_tau
    }
}

impl Tick<()> for PrimitiveEvents {
    open spec fn tick_elem() -> bool {
        false
    }

    fn tick() -> (r: Self) {
        PrimitiveEvents { contains_tau: false, contains_tick: true }
    }

    fn can_perform_tick(&self) -> (r: bool) {
        self.contains_tick
    }
}

impl<E, Tail> Tau<Here> for DisjointSum<E, Tail> where E: Tau<()>, Tail: EventSet {
    open spec fn tau_elem() -> SumElem<E::Elem, Tail::Elem> {
        SumElem::A(E::tau_elem())
    }

    fn tau() -> (r: Self) {
        let r = DisjointSum::from_a(E::tau());
        proof {
            assert forall|e: SumElem<E::Elem, Tail::Elem>| #[trigger] r.mem(e) <==> e
                == Self::tau_elem() by {
                match e {
                    SumElem::A(x) => {},
                    SumElem::B(y) => {},
                }
            }
        }
        r
    }

    fn can_perform_tau(&self) -> (r: bool) {
        self.0.can_perform_tau()
    }
}

impl<Head, Tail, TailIndex> Tau<There<TailIndex>> for DisjointSum<Head, Tail> where
    Head: EventSet,
    Tail: Tau<TailIndex>,
 {
    open spec fn tau_elem() -> SumElem<Head::Elem, Tail::Elem> {
        SumElem::B(Tail::tau_elem())
    }

    fn tau() -> (r: Self) {
        let r = DisjointSum::from_b(Tail::tau());
        proof {
            assert forall|e: SumElem<Head::Elem, Tail::Elem>| #[trigger] r.mem(e) <==> e
                == Self::tau_elem() by {
                match e {
                    SumElem::A(x) => {},
                    SumElem::B(y) => {},
                }
            }
        }
        r
    }

    fn can_perform_tau(&self) -> (r: bool) {
        self.1.can_perform_tau()
    }
}

impl<E, Tail> Tick<Here> for DisjointSum<E, Tail> where E: Tick<()>, Tail: EventSet {
    open spec fn tick_elem() -> SumElem<E::Elem, Tail::Elem> {
        SumElem::A(E::tick_elem())
    }

    fn tick() -> (r: Self) {
        let r = DisjointSum::from_a(E::tick());
        proof {
            assert forall|e: SumElem<E::Elem, Tail::Elem>| #[trigger] r.mem(e) <==> e
                == Self::tick_elem() by {
                match e {
                    SumElem::A(x) => {},
                    SumElem::B(y) => {},
                }
            }
        }
        r
    }

    fn can_perform_tick(&self) -> (r: bool) {
        self.0.can_perform_tick()
    }
}

impl<Head, Tail, TailIndex> Tick<There<TailIndex>> for DisjointSum<Head, Tail> where
    Head: EventSet,
    Tail: Tick<TailIndex>,
 {
    open spec fn tick_elem() -> SumElem<Head::Elem, Tail::Elem> {
        SumElem::B(Tail::tick_elem())
    }

    fn tick() -> (r: Self) {
        let r = DisjointSum::from_b(Tail::tick());
        proof {
            assert forall|e: SumElem<Head::Elem, Tail::Elem>| #[trigger] r.mem(e) <==> e
                == Self::tick_elem() by {
                match e {
                    SumElem::A(x) => {},
                    SumElem::B(y) => {},
                }
            }
        }
        r
    }

    fn can_perform_tick(&self) -> (r: bool) {
        self.1.can_perform_tick()
    }
}

/// What a walk over a `PrimitiveEvents` set still has to yield: the τ
/// singleton if τ is present and not yet yielded, then the ✔ singleton.
pub open spec fn enum_seq(
    tau_pending: bool,
    tick_pending: bool,
    source: PrimitiveEvents,
) -> Seq<PrimitiveEvents> {
    let tau_part: Seq<PrimitiveEvents> = if tau_pending && source.mem(true) {
        seq![PrimitiveEvents::set_of_tau()]
    } else {
        Seq::empty()
    };
    let tick_part: Seq<PrimitiveEvents> = if tick_pending && source.mem(false) {
        seq![PrimitiveEvents::set_of_tick()]
    } else {
        Seq::empty()
    };
    tau_part + tick_part
}

impl PrimitiveEvents {
    /// The singleton set holding τ, as a spec value.
    pub closed spec fn set_of_tau() -> PrimitiveEvents {
        PrimitiveEvents { contains_tau: true, contains_tick: false }
    }

    /// The singleton set holding ✔, as a spec value.
    pub closed spec fn set_of_tick() -> PrimitiveEvents {
        PrimitiveEvents { contains_tau: false, contains_tick: true }
    }
}

enum IterState {
    AtTau,
    AtTick,
    Done,
}

/// Walks the members of a `PrimitiveEvents` set, yielding each as a
/// singleton set: τ first, then ✔.
pub struct PrimitiveEventsIterator {
    state: IterState,
    source: PrimitiveEvents,
}

impl PrimitiveEventsIterator {
    /// What the walk still has to yield.
    pub closed spec fn remaining(&self) -> Seq<PrimitiveEvents> {
        match self.state {
            IterState::AtTau => enum_seq(true, true, self.source),
            IterState::AtTick => enum_seq(false, true, self.source),
            IterState::Done => Seq::empty(),
        }
    }

    /// The set the walk was started on.
    pub closed spec fn spec_source(&self) -> PrimitiveEvents {
        self.source
    }

    /// The walk has not yielded anything yet.
    pub closed spec fn at_start(&self) -> bool {
        self.state is AtTau
    }

    /// The walk has passed the τ slot but not the ✔ slot.
    pub closed spec fn at_tick(&self) -> bool {
        self.state is AtTick
    }

    /// The walk is over.
    pub closed spec fn at_done(&self) -> bool {
        self.state is Done
    }

    /// Starts a walk over the members of `source`.
    pub fn new(source: PrimitiveEvents) -> (r: PrimitiveEventsIterator)
        ensures
            r.remaining() == enum_seq(true, true, source),
            r.spec_source() == source,
            r.at_start(),
    {
        PrimitiveEventsIterator { state: IterState::AtTau, source }
    }

    /// Yields the τ singleton if the source holds τ, and in any case moves
    /// on to the ✔ slot.
    pub fn get_tau(&mut self) -> (r: Option<PrimitiveEvents>)
        requires
            old(self).at_start(),
        ensures
            final(self).spec_source() == old(self).spec_source(),
            final(self).at_tick(),
            r == if old(self).spec_source().mem(true) {
                Some(PrimitiveEvents::set_of_tau())
            } else {
                Option::<PrimitiveEvents>::None
            },
    {
        self.state = IterState::AtTick;
        if !self.source.contains_tau {
            return None;
        }
        Some(PrimitiveEvents { contains_tau: true, contains_tick: false })
    }

    /// Yields the ✔ singleton if the source holds ✔, and in any case ends
    /// the walk.
    pub fn get_tick(&mut self) -> (r: Option<PrimitiveEvents>)
        requires
            !old(self).at_done(),
        ensures
            final(self).spec_source() == old(self).spec_source(),
            final(self).at_done(),
            r == if old(self).spec_source().mem(false) {
                Some(PrimitiveEvents::set_of_tick())
            } else {
                Option::<PrimitiveEvents>::None
            },
    {
        self.state = IterState::Done;
        if !self.source.contains_tick {
            return None;
        }
        Some(PrimitiveEvents { contains_tau: false, contains_tick: true })
    }

    /// Yields the next member of the set, as a singleton set, or nothing
    /// when the walk is over.
    pub fn next(&mut self) -> (r: Option<PrimitiveEvents>)
        ensures
            old(self).remaining().len() == 0 ==> r is None && final(self).remaining().len() == 0,
            old(self).remaining().len() > 0 ==> r == Some(old(self).remaining()[0])
                && final(self).remaining() == old(self).remaining().skip(1),
    {
        let towards_tau = match self.state {
            IterState::AtTau => true,
            _ => false,
        };
        if towards_tau {
            let got = self.get_tau();
            if got.is_some() {
                proof {
                    assert(old(self).remaining() =~= seq![
                        PrimitiveEvents::set_of_tau(),
                    ] + enum_seq(false, true, self.source));
                    assert(self.remaining() =~= old(self).remaining().skip(1));
                }
                return got;
            }
        }
        let towards_done = match self.state {
            IterState::Done => true,
            _ => false,
        };
        if !towards_done {
            let got = self.get_tick();
            if got.is_some() {
                proof {
                    assert(old(self).remaining() =~= seq![PrimitiveEvents::set_of_tick()]);
                    assert(self.remaining() =~= old(self).remaining().skip(1));
                }
                return got;
            }
            proof {
                assert(old(self).remaining() =~= Seq::<PrimitiveEvents>::empty());
            }
            return None;
        }
        None
    }
}

} // verus!
