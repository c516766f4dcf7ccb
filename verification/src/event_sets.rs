//! Event sets: alphabets that may be combined, negated and enumerated, and
//! the disjoint sum that composes two alphabets into one.

use vstd::prelude::*;

verus! {

/// A set of events.
///
/// For some event universes it is not easy (or efficient) to enumerate every
/// possibility, so a set is primarily a membership predicate (the spec
/// function `mem`) together with the boolean algebra of set operations.
pub trait EventSet: Sized {
    /// The kind of event this set ranges over.
    type Elem;

    /// Whether the set contains a particular event.
    spec fn mem(&self, e: Self::Elem) -> bool;

    /// Returns an instance of this type that contains no events.
    fn empty() -> (r: Self)
        ensures
            forall|e: Self::Elem| !r.mem(e),
    ;

    /// Returns whether this set contains any events.
    fn is_empty(&self) -> (r: bool)
        ensures
            r == forall|e: Self::Elem| !self.mem(e),
    ;

    /// Updates this set to contain any event that is in both `self` and
    /// `other`.
    fn intersect(&mut self, other: &Self)
        ensures
            forall|e: Self::Elem| #![trigger old(self).mem(e)]
                final(self).mem(e) == (old(self).mem(e) && other.mem(e)),
    ;

    /// Updates this set to contain exactly the opposite set of events.
    fn negate(&mut self)
        ensures
            forall|e: Self::Elem| final(self).mem(e) == !old(self).mem(e),
    ;

    /// Updates this set to contain any event that is in `self` but not in
    /// `other`.
    fn subtract(&mut self, other: &Self)
        ensures
            forall|e: Self::Elem| #![trigger old(self).mem(e)]
                final(self).mem(e) == (old(self).mem(e) && !other.mem(e)),
    ;

    /// Updates this set to contain any event that is in either `self` or
    /// `other`.
    fn union(&mut self, other: &Self)
        ensures
            forall|e: Self::Elem| #![trigger old(self).mem(e)]
                final(self).mem(e) == (old(self).mem(e) || other.mem(e)),
    ;

    /// Returns an instance of this type that contains every possible event.
    fn universe() -> (r: Self)
        ensures
            forall|e: Self::Elem| r.mem(e),
    ;

    /// The members of this set, each as a singleton set, in the type's own
    /// enumeration order.
    fn enumerate(&self) -> (r: Vec<Self>)
        ensures
            forall|k: int, e: Self::Elem|
                0 <= k < r@.len() && #[trigger] r@[k].mem(e) ==> self.mem(e),
            forall|e: Self::Elem|
                self.mem(e) ==> exists|k: int| 0 <= k < r@.len() && #[trigger] r@[k].mem(e),
            forall|k: int, e1: Self::Elem, e2: Self::Elem|
                0 <= k < r@.len() && #[trigger] r@[k].mem(e1) && #[trigger] r@[k].mem(e2) ==> e1
                    == e2,
    ;
}

/// An event of the disjoint sum of two alphabets: an event of the first, or
/// one of the second.
pub enum SumElem<X, Y> {
    A(X),
    B(Y),
}

/// The disjoint union of two alphabets `A` and `B`: an event of the sum is
/// an event of `A` or an event of `B`, and the two halves never overlap.
#[derive(PartialEq, Eq, Debug)]
pub struct DisjointSum<A, B>(pub A, pub B);

impl<A, B> DisjointSum<A, B> where B: EventSet {
    /// Lifts a set of `A`-events into the sum, with no `B`-events.
    pub fn from_a(a: A) -> (r: DisjointSum<A, B>)
        ensures
            r.0 == a,
            forall|e: B::Elem| !r.1.mem(e),
    {
        DisjointSum(a, B::empty())
    }
}

impl<A, B> DisjointSum<A, B> where A: EventSet {
    /// Lifts a set of `B`-events into the sum, with no `A`-events.
    pub fn from_b(b: B) -> (r: DisjointSum<A, B>)
        ensures
            r.1 == b,
            forall|e: A::Elem| !r.0.mem(e),
    {
        DisjointSum(A::empty(), b)
    }
}

impl<A, B> EventSet for DisjointSum<A, B> where A: EventSet, B: EventSet {
    type Elem = SumElem<A::Elem, B::Elem>;

    open spec fn mem(&self, e: SumElem<A::Elem, B::Elem>) -> bool {
        match e {
            SumElem::A(x) => self.0.mem(x),
            SumElem::B(y) => self.1.mem(y),
        }
    }

    fn empty() -> (r: Self) {
        let r = DisjointSum(A::empty(), B::empty());
        proof {
            assert forall|e: SumElem<A::Elem, B::Elem>| !r.mem(e) by {}
        }
        r
    }

    fn is_empty(&self) -> (r: bool) {
        let a_empty = self.0.is_empty();
        let b_empty = self.1.is_empty();
        proof {
            if a_empty && b_empty {
                assert forall|e: SumElem<A::Elem, B::Elem>| !self.mem(e) by {}
            }
            if !a_empty {
                let x = choose|x: A::Elem| self.0.mem(x);
                assert(self.mem(SumElem::A(x)));
            }
            if !b_empty {
                let y = choose|y: B::Elem| self.1.mem(y);
                assert(self.mem(SumElem::B(y)));
            }
        }
        a_empty && b_empty
    }

    fn intersect(&mut self, other: &Self) {
        // Intersection distributes through the sum, and the two halves are
        // disjoint, so it works half by half.
        self.0.intersect(&other.0);
        self.1.intersect(&other.1);
        proof {
            assert forall|e: SumElem<A::Elem, B::Elem>|
                self.mem(e) == (old(self).mem(e) && other.mem(e)) by {
                match e {
                    SumElem::A(x) => {
                        assert(self.0.mem(x) == (old(self).0.mem(x) && other.0.mem(x)));
                    },
                    SumElem::B(y) => {
                        assert(self.1.mem(y) == (old(self).1.mem(y) && other.1.mem(y)));
                    },
                }
            }
        }
    }

    fn negate(&mut self) {
        // By De Morgan, the complement of a disjoint union is the union of
        // the halves' complements, since the halves never overlap.
        self.0.negate();
        self.1.negate();
    }

    fn subtract(&mut self, other: &Self) {
        self.0.subtract(&other.0);
        self.1.subtract(&other.1);
        proof {
            assert forall|e: SumElem<A::Elem, B::Elem>|
                self.mem(e) == (old(self).mem(e) && !other.mem(e)) by {
                match e {
                    SumElem::A(x) => {
                        assert(self.0.mem(x) == (old(self).0.mem(x) && !other.0.mem(x)));
                    },
                    SumElem::B(y) => {
                        assert(self.1.mem(y) == (old(self).1.mem(y) && !other.1.mem(y)));
                    },
                }
            }
        }
    }

    fn union(&mut self, other: &Self) {
        self.0.union(&other.0);
        self.1.union(&other.1);
        proof {
            assert forall|e: SumElem<A::Elem, B::Elem>|
                self.mem(e) == (old(self).mem(e) || other.mem(e)) by {
                match e {
                    SumElem::A(x) => {
                        assert(self.0.mem(x) == (old(self).0.mem(x) || other.0.mem(x)));
                    },
                    SumElem::B(y) => {
                        assert(self.1.mem(y) == (old(self).1.mem(y) || other.1.mem(y)));
                    },
                }
            }
        }
    }

    fn universe() -> (r: Self) {
        DisjointSum(A::universe(), B::universe())
    }

    #[verifier::loop_isolation(false)]
    fn enumerate(&self) -> (r: Vec<Self>) {
        let mut firsts = self.0.enumerate();
        let ghost firsts0 = firsts@;
        let mut seconds = self.1.enumerate();
        let ghost seconds0 = seconds@;
        let mut r: Vec<Self> = Vec::new();
        while firsts.len() > 0
            invariant
                firsts@ == firsts0.skip(r@.len() as int),
                r@.len() <= firsts0.len(),
                forall|k: int| 0 <= k < r@.len() ==> (#[trigger] r@[k]).0 == firsts0[k],
                forall|k: int, y: B::Elem| 0 <= k < r@.len() ==> !(#[trigger] r@[k].1.mem(y)),
            decreases firsts@.len(),
        {
            let ghost r_len = r@.len() as int;
            let x = firsts.remove(0);
            r.push(DisjointSum::from_a(x));
            proof {
                assert(firsts@ =~= firsts0.skip(r@.len() as int));
            }
        }
        let ghost a_len = r@.len() as int;
        while seconds.len() > 0
            invariant
                a_len == firsts0.len(),
                seconds@ == seconds0.skip(r@.len() - a_len),
                a_len <= r@.len() <= a_len + seconds0.len(),
                forall|k: int| 0 <= k < a_len ==> (#[trigger] r@[k]).0 == firsts0[k],
                forall|k: int, y: B::Elem| 0 <= k < a_len ==> !(#[trigger] r@[k].1.mem(y)),
                forall|k: int|
                    a_len <= k < r@.len() ==> (#[trigger] r@[k]).1 == seconds0[k - a_len],
                forall|k: int, x: A::Elem|
                    a_len <= k < r@.len() ==> !(#[trigger] r@[k].0.mem(x)),
            decreases seconds@.len(),
        {
            let y = seconds.remove(0);
            r.push(DisjointSum::from_b(y));
            proof {
                assert(seconds@ =~= seconds0.skip(r@.len() - a_len));
            }
        }
        proof {
            assert forall|k: int, e: SumElem<A::Elem, B::Elem>|
                0 <= k < r@.len() && #[trigger] r@[k].mem(e) implies self.mem(e) by {
                match e {
                    SumElem::A(x) => {
                        assert(k < a_len);
                        assert(firsts0[k].mem(x));
                    },
                    SumElem::B(y) => {
                        assert(k >= a_len);
                        assert(seconds0[k - a_len].mem(y));
                    },
                }
            }
            assert forall|e: SumElem<A::Elem, B::Elem>| self.mem(e) implies exists|k: int|
                0 <= k < r@.len() && #[trigger] r@[k].mem(e) by {
                match e {
                    SumElem::A(x) => {
                        let k = choose|k: int|
                            0 <= k < firsts0.len() && #[trigger] firsts0[k].mem(x);
                        assert(r@[k].mem(e));
                    },
                    SumElem::B(y) => {
                        let k = choose|k: int|
                            0 <= k < seconds0.len() && #[trigger] seconds0[k].mem(y);
                        assert(r@[a_len + k].mem(e));
                    },
                }
            }
            assert forall|k: int, e1: SumElem<A::Elem, B::Elem>, e2: SumElem<A::Elem, B::Elem>|
                0 <= k < r@.len() && #[trigger] r@[k].mem(e1) && #[trigger] r@[k].mem(e2)
                implies e1 == e2 by {
                if k < a_len {
                    match (e1, e2) {
                        (SumElem::A(x1), SumElem::A(x2)) => {
                            assert(firsts0[k].mem(x1) && firsts0[k].mem(x2));
                        },
                        _ => {},
                    }
                } else {
                    match (e1, e2) {
                        (SumElem::B(y1), SumElem::B(y2)) => {
                            assert(seconds0[k - a_len].mem(y1) && seconds0[k - a_len].mem(y2));
                        },
                        _ => {},
                    }
                }
            }
        }
        r
    }
}

} // verus!
