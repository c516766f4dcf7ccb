//! An extra iteration helper: walking a list of events with one element
//! replaced.

use vstd::prelude::*;

use crate::event::Event;

verus! {

/// Provides [`Replace::replace`]: walking a collection with its `n`th
/// element replaced by a new value.
pub trait Replace: Sized {
    /// The elements the walk will yield, in order.
    spec fn items(&self) -> Seq<Event>;

    /// Walks the elements with the `n`th replaced by `replacement`; with
    /// `n` out of range, nothing is replaced.
    fn replace(self, n: usize, replacement: Event) -> (r: ReplaceIter)
        ensures
            r.remaining() == if n < self.items().len() {
                self.items().update(n as int, replacement)
            } else {
                self.items()
            },
    ;
}

/// The walk over a list of events with one element replaced.
#[derive(Debug)]
pub struct ReplaceIter {
    items: Vec<Event>,
    at: usize,
}

impl ReplaceIter {
    /// What the walk still has to yield.
    pub closed spec fn remaining(&self) -> Seq<Event> {
        if (self.at as int) <= self.items@.len() {
            self.items@.skip(self.at as int)
        } else {
            Seq::empty()
        }
    }

    /// Yields the next element, or nothing once the walk is over.
    pub fn next(&mut self) -> (r: Option<Event>)
        ensures
            old(self).remaining().len() == 0 ==> r is None && final(self).remaining()
                == old(self).remaining(),
            old(self).remaining().len() > 0 ==> r == Some(old(self).remaining()[0])
                && final(self).remaining() == old(self).remaining().skip(1),
    {
        if self.at < self.items.len() {
            let e = self.items[self.at];
            self.at = self.at + 1;
            proof {
                assert(old(self).remaining()[0] == e);
                assert(self.remaining() =~= old(self).remaining().skip(1));
            }
            Some(e)
        } else {
            proof {
                assert(self.remaining() =~= old(self).remaining());
            }
            None
        }
    }
}

impl Replace for Vec<Event> {
    open spec fn items(&self) -> Seq<Event> {
        self@
    }

    fn replace(self, n: usize, replacement: Event) -> (r: ReplaceIter) {
        let mut items = self;
        if n < items.len() {
            items.set(n, replacement);
        }
        ReplaceIter { items, at: 0 }
    }
}

} // verus!
