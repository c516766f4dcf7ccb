//! The prefix (`→`) operator.

use vstd::prelude::*;

use crate::csp::{CSP, CSPCursor};
use crate::event::{Alphabet, Event};
use crate::semantics::{cursor_view, cv_can, cv_events, cv_perform, CursorV};
use crate::semantics::ProcV;

verus! {

broadcast use vstd::prelude::Seq::lemma_push_to_set_commute;

// Operational semantics for a → P
//
// 1) ─────────────
//     a → P -a→ P

/// Constructs a new _prefix_ process `a → P`.  This process performs event
/// `a` and then behaves like process `P`.
pub fn prefix(initial: Event, after: CSP) -> (r: CSP)
    ensures
        r@ == ProcV::Prefix(initial, Box::new(after@)),
{
    CSP::Prefix(initial, Box::new(after))
}

/// Whether a prefix cursor still has its initial event ahead of it.
#[derive(Clone, Copy, PartialEq, Eq, Structural, Hash, Debug)]
pub enum PrefixState {
    BeforeInitial,
    AfterInitial,
}

/// The cursor of `a → P`: before its initial event, or delegating entirely
/// to the child's cursor after it.
#[derive(Debug)]
pub struct PrefixCursor {
    pub state: PrefixState,
    pub initial: Event,
    pub after: Box<CSPCursor>,
}

impl View for PrefixCursor {
    type V = CursorV;

    open spec fn view(&self) -> CursorV {
        CursorV::Prefix {
            before: self.state is BeforeInitial,
            initial: self.initial,
            after: Box::new(cursor_view(*self.after)),
        }
    }
}

/// The alphabet of a prefix cursor: the initial event alone, or whatever
/// the child offers after it.
#[derive(Debug)]
pub enum PrefixAlphabet {
    BeforeInitial(Event),
    AfterInitial(Vec<Event>),
}

impl Alphabet for PrefixAlphabet {
    open spec fn members(&self) -> Set<Event> {
        match self {
            PrefixAlphabet::BeforeInitial(initial) => Set::empty().insert(*initial),
            PrefixAlphabet::AfterInitial(events) => events@.to_set(),
        }
    }

    fn contains(&self, event: &Event) -> (r: bool) {
        match self {
            PrefixAlphabet::BeforeInitial(initial) => *initial == *event,
            PrefixAlphabet::AfterInitial(events) => crate::csp::contains_event(events, *event),
        }
    }
}

impl PrefixCursor {
    pub fn initials(&self) -> (r: PrefixAlphabet)
        ensures
            r.members() == cv_events(self@),
        decreases *self, 4nat,
    {
        match self.state {
            PrefixState::BeforeInitial => {
                proof {
                    assert(Set::empty().insert(self.initial) =~= cv_events(self@));
                }
                PrefixAlphabet::BeforeInitial(self.initial)
            },
            PrefixState::AfterInitial => PrefixAlphabet::AfterInitial((&*self.after).events()),
        }
    }

    pub fn events(&self) -> (r: Vec<Event>)
        ensures
            r@.to_set() == cv_events(self@),
            r@.no_duplicates(),
        decreases *self, 2nat,
    {
        match self.state {
            PrefixState::BeforeInitial => {
                let mut r: Vec<Event> = Vec::new();
                r.push(self.initial);
                proof {
                    assert(r@ == Seq::empty().push(self.initial));
                    assert(r@.to_set() =~= cv_events(self@));
                }
                r
            },
            PrefixState::AfterInitial => (&*self.after).events(),
        }
    }

    pub fn can_perform(&self, event: &Event) -> (r: bool)
        ensures
            r == cv_can(self@, *event),
        decreases *self, 3nat,
    {
        match self.state {
            PrefixState::BeforeInitial => self.initial == *event,
            PrefixState::AfterInitial => (&*self.after).can_perform(event),
        }
    }

    /// Performs the initial event, or delegates to the child once it is
    /// past.
    pub fn perform(&mut self, event: &Event)
        requires
            cv_can(old(self)@, *event),
            crate::semantics::room_to_step(old(self)@, *event),
        ensures
            final(self)@ == cv_perform(old(self)@, *event),
    {
        match self.state {
            PrefixState::BeforeInitial => {
                self.state = PrefixState::AfterInitial;
            },
            PrefixState::AfterInitial => {
                (&mut *self.after).perform(event);
            },
        }
    }
}

/// Walks the events of a prefix alphabet: the initial event alone before
/// it is performed, then whatever the child offers.
#[derive(Debug)]
pub struct PrefixAlphabetIterator {
    events: Vec<Event>,
    at: usize,
}

impl PrefixAlphabetIterator {
    /// What the walk still has to yield.
    pub closed spec fn remaining(&self) -> Seq<Event> {
        if (self.at as int) <= self.events@.len() {
            self.events@.skip(self.at as int)
        } else {
            Seq::empty()
        }
    }

    /// Starts a walk over the events of a prefix alphabet.
    pub fn new(alphabet: PrefixAlphabet) -> (r: PrefixAlphabetIterator)
        ensures
            r.remaining().to_set() == alphabet.members(),
    {
        match alphabet {
            PrefixAlphabet::BeforeInitial(initial) => {
                let mut events: Vec<Event> = Vec::new();
                events.push(initial);
                let r = PrefixAlphabetIterator { events, at: 0 };
                proof {
                    assert(r.remaining() =~= seq![initial]);
                    assert(r.remaining().to_set() =~= Set::empty().insert(initial));
                }
                r
            },
            PrefixAlphabet::AfterInitial(events) => {
                let r = PrefixAlphabetIterator { events, at: 0 };
                proof {
                    assert(r.remaining() =~= r.events@);
                }
                r
            },
        }
    }

    /// Yields the next event, or nothing once the walk is over.
    pub fn next(&mut self) -> (r: Option<Event>)
        ensures
            old(self).remaining().len() == 0 ==> r is None && final(self).remaining()
                == old(self).remaining(),
            old(self).remaining().len() > 0 ==> r == Some(old(self).remaining()[0])
                && final(self).remaining() == old(self).remaining().skip(1),
    {
        if self.at < self.events.len() {
            let e = self.events[self.at];
            self.at = self.at + 1;
            proof {
                assert(old(self).remaining()[0] == e);
                assert(self.remaining() =~= old(self).remaining().skip(1));
            }
            Some(e)
        } else {
            proof {
                assert(self.remaining() =~= old(self).remaining());
            }
            None
        }
    }
}

} // verus!
