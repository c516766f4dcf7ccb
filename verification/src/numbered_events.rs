//! An alphabet of numbered visible events, stored as a bit vector over the
//! sixteen-bit event universe.

use vstd::prelude::*;

use crate::event_sets::EventSet;

verus! {

/// How many numbered events exist: one per sixteen-bit number.
pub const EVENT_UNIVERSE: usize = 65536;

/// A set of numbered events.  The bit at index `e` records whether event
/// `e` is in the set; indexes past the stored length are absent events.
#[derive(Clone, PartialEq, Eq, Hash, Debug)]
pub struct NumberedEvents {
    bits: Vec<bool>,
}

impl NumberedEvents {
    /// Reads one bit, treating bits past the stored length as absent.
    fn get_bit(&self, e: u16) -> (r: bool)
        ensures
            r == self.mem(e),
    {
        if (e as usize) < self.bits.len() {
            self.bits[e as usize]
        } else {
            false
        }
    }

    /// Adds one event to the set.
    #[verifier::loop_isolation(false)]
    pub fn add(&mut self, event: u16)
        ensures
            forall|e: u16| final(self).mem(e) == (old(self).mem(e) || e == event),
    {
        while self.bits.len() <= event as usize
            invariant
                forall|e: u16| self.mem(e) == old(self).mem(e),
            decreases event as usize + 1 - self.bits@.len(),
        {
            let ghost before = *self;
            self.bits.push(false);
            proof {
                assert forall|e: u16| self.mem(e) == before.mem(e) by {
                    if (e as int) < self.bits@.len() - 1 {
                        assert(self.bits@[e as int] == before.bits@[e as int]);
                    }
                }
            }
        }
        let ghost grown = *self;
        self.bits.set(event as usize, true);
        proof {
            assert forall|e: u16| self.mem(e) == (old(self).mem(e) || e == event) by {
                if e != event {
                    if (e as int) < self.bits@.len() {
                        assert(self.bits@[e as int] == grown.bits@[e as int]);
                    }
                }
            }
        }
    }

    /// Returns whether the set contains a particular event.
    pub fn contains(&self, event: u16) -> (r: bool)
        ensures
            r == self.mem(event),
    {
        self.get_bit(event)
    }

    /// The singleton set holding exactly one event.
    pub fn singleton(event: u16) -> (r: NumberedEvents)
        ensures
            forall|e: u16| r.mem(e) == (e == event),
    {
        let mut r = NumberedEvents { bits: Vec::new() };
        proof {
            assert(forall|e: u16| !r.mem(e));
        }
        r.add(event);
        r
    }
}

impl EventSet for NumberedEvents {
    type Elem = u16;

    closed spec fn mem(&self, e: u16) -> bool {
        (e as int) < self.bits@.len() && self.bits@[e as int]
    }

    fn empty() -> (r: Self) {
        NumberedEvents { bits: Vec::new() }
    }

    #[verifier::loop_isolation(false)]
    fn is_empty(&self) -> (r: bool) {
        let mut i: usize = 0;
        let scan = if self.bits.len() < EVENT_UNIVERSE {
            self.bits.len()
        } else {
            EVENT_UNIVERSE
        };
        while i < scan
            invariant
                0 <= i <= scan,
                forall|e: u16| (e as int) < i ==> !self.mem(e),
            decreases scan - i,
        {
            if self.bits[i] {
                proof {
                    assert(self.mem(i as u16));
                }
                return false;
            }
            proof {
                assert(!self.mem(i as u16));
            }
            i += 1;
        }
        proof {
            assert forall|e: u16| !self.mem(e) by {
                if (e as int) < self.bits@.len() {
                    assert((e as int) < scan);
                }
            }
        }
        true
    }

    #[verifier::loop_isolation(false)]
    fn intersect(&mut self, other: &Self) {
        let mut bits: Vec<bool> = Vec::new();
        let mut i: usize = 0;
        while i < EVENT_UNIVERSE
            invariant
                bits@.len() == i,
                0 <= i <= EVENT_UNIVERSE,
                self == old(self),
                forall|j: int|
                    0 <= j < i ==> bits@[j] == (old(self).mem(j as u16) && other.mem(j as u16)),
            decreases EVENT_UNIVERSE - i,
        {
            let b = self.get_bit(i as u16) && other.get_bit(i as u16);
            bits.push(b);
            i += 1;
        }
        self.bits = bits;
        proof {
            assert forall|e: u16| self.mem(e) == (old(self).mem(e) && other.mem(e)) by {
                assert(self.bits@[e as int] == (old(self).mem((e as int) as u16) && other.mem(
                    (e as int) as u16,
                )));
            }
        }
    }

    #[verifier::loop_isolation(false)]
    fn negate(&mut self) {
        let mut bits: Vec<bool> = Vec::new();
        let mut i: usize = 0;
        while i < EVENT_UNIVERSE
            invariant
                bits@.len() == i,
                0 <= i <= EVENT_UNIVERSE,
                self == old(self),
                forall|j: int| 0 <= j < i ==> bits@[j] == !old(self).mem(j as u16),
            decreases EVENT_UNIVERSE - i,
        {
            let b = !self.get_bit(i as u16);
            bits.push(b);
            i += 1;
        }
        self.bits = bits;
        proof {
            assert forall|e: u16| self.mem(e) == !old(self).mem(e) by {
                assert(self.bits@[e as int] == !old(self).mem((e as int) as u16));
            }
        }
    }

    #[verifier::loop_isolation(false)]
    fn subtract(&mut self, other: &Self) {
        let mut bits: Vec<bool> = Vec::new();
        let mut i: usize = 0;
        while i < EVENT_UNIVERSE
            invariant
                bits@.len() == i,
                0 <= i <= EVENT_UNIVERSE,
                self == old(self),
                forall|j: int|
                    0 <= j < i ==> bits@[j] == (old(self).mem(j as u16) && !other.mem(j as u16)),
            decreases EVENT_UNIVERSE - i,
        {
            let b = self.get_bit(i as u16) && !other.get_bit(i as u16);
            bits.push(b);
            i += 1;
        }
        self.bits = bits;
        proof {
            assert forall|e: u16| self.mem(e) == (old(self).mem(e) && !other.mem(e)) by {
                assert(self.bits@[e as int] == (old(self).mem((e as int) as u16) && !other.mem(
                    (e as int) as u16,
                )));
            }
        }
    }

    #[verifier::loop_isolation(false)]
    fn union(&mut self, other: &Self) {
        let mut bits: Vec<bool> = Vec::new();
        let mut i: usize = 0;
        while i < EVENT_UNIVERSE
            invariant
                bits@.len() == i,
                0 <= i <= EVENT_UNIVERSE,
                self == old(self),
                forall|j: int|
                    0 <= j < i ==> bits@[j] == (old(self).mem(j as u16) || other.mem(j as u16)),
            decreases EVENT_UNIVERSE - i,
        {
            let b = self.get_bit(i as u16) || other.get_bit(i as u16);
            bits.push(b);
            i += 1;
        }
        self.bits = bits;
        proof {
            assert forall|e: u16| self.mem(e) == (old(self).mem(e) || other.mem(e)) by {
                assert(self.bits@[e as int] == (old(self).mem((e as int) as u16) || other.mem(
                    (e as int) as u16,
                )));
            }
        }
    }

    #[verifier::loop_isolation(false)]
    fn universe() -> (r: Self) {
        let mut bits: Vec<bool> = Vec::new();
        let mut i: usize = 0;
        while i < EVENT_UNIVERSE
            invariant
                bits@.len() == i,
                0 <= i <= EVENT_UNIVERSE,
                forall|j: int| 0 <= j < i ==> bits@[j],
            decreases EVENT_UNIVERSE - i,
        {
            bits.push(true);
            i += 1;
        }
        let r = NumberedEvents { bits };
        proof {
            assert forall|e: u16| r.mem(e) by {
                assert(r.bits@[e as int]);
            }
        }
        r
    }

    #[verifier::loop_isolation(false)]
    fn enumerate(&self) -> (r: Vec<Self>) {
        let mut r: Vec<NumberedEvents> = Vec::new();
        let scan = if self.bits.len() < EVENT_UNIVERSE {
            self.bits.len()
        } else {
            EVENT_UNIVERSE
        };
        let mut i: usize = 0;
        while i < scan
            invariant
                0 <= i <= scan,
                forall|k: int, e: u16|
                    0 <= k < r@.len() && #[trigger] r@[k].mem(e) ==> self.mem(e),
                forall|e: u16|
                    (e as int) < i && self.mem(e) ==> exists|k: int|
                        0 <= k < r@.len() && #[trigger] r@[k].mem(e),
                forall|k: int, e1: u16, e2: u16|
                    0 <= k < r@.len() && #[trigger] r@[k].mem(e1) && #[trigger] r@[k].mem(e2)
                        ==> e1 == e2,
            decreases scan - i,
        {
            if self.bits[i] {
                proof {
                    assert(self.mem(i as u16));
                }
                let ghost r_before = r@;
                r.push(NumberedEvents::singleton(i as u16));
                proof {
                    assert(r@[r@.len() - 1].mem(i as u16));
                    assert forall|e: u16| (e as int) < i + 1 && self.mem(e) implies exists|k: int|
                        0 <= k < r@.len() && #[trigger] r@[k].mem(e) by {
                        if (e as int) < i {
                            let k = choose|k: int|
                                0 <= k < r_before.len() && #[trigger] r_before[k].mem(e);
                            assert(r@[k].mem(e));
                        } else {
                            assert(r@[r@.len() - 1].mem(e));
                        }
                    }
                }
            } else {
                proof {
                    assert(!self.mem(i as u16));
                }
            }
            i += 1;
        }
        proof {
            assert forall|e: u16| self.mem(e) implies exists|k: int|
                0 <= k < r@.len() && #[trigger] r@[k].mem(e) by {
                assert((e as int) < scan);
            }
        }
        r
    }
}

} // verus!
