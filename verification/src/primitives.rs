//! The primitive processes `Stop` and `Skip`, and their cursors.

use vstd::prelude::*;

use crate::csp::CSP;
use crate::event::{Alphabet, Event, Tick};
use crate::semantics::{cv_can, cv_events, cv_perform, CursorV};

verus! {

broadcast use vstd::prelude::Seq::lemma_push_to_set_commute;

/// The process that performs no event, and prevents any synchronized
/// process from performing one either.  It is a terminal state forever.
#[derive(Clone, Copy, PartialEq, Eq, Structural, Hash, Debug)]
pub struct Stop;

impl Stop {
    pub fn new() -> (r: Stop)
        ensures
            r == (Stop),
    {
        Stop
    }

    /// `Stop` is willing to perform no event at all.
    pub fn initials(&self) -> (r: crate::event::EmptyAlphabet)
        ensures
            r == (crate::event::EmptyAlphabet),
    {
        crate::event::EmptyAlphabet::new()
    }
}

/// The process that performs ✔ and then behaves as `Stop`.  Used to mark
/// the end of a process that can be sequentially composed with another.
#[derive(Clone, Copy, PartialEq, Eq, Structural, Hash, Debug)]
pub struct Skip;

/// Constructs a new `Stop` process.
pub fn stop() -> (r: CSP)
    ensures
        r@ == crate::semantics::ProcV::Stop,
{
    CSP::Stop(Stop)
}

/// Constructs a new `Skip` process.
pub fn skip() -> (r: CSP)
    ensures
        r@ == crate::semantics::ProcV::Skip,
{
    CSP::Skip(Skip)
}

/// The cursor of `Stop`: a single state in which no event is willing.
#[derive(Clone, Copy, PartialEq, Eq, Structural, Hash, Debug)]
pub struct StopCursor;

impl View for StopCursor {
    type V = CursorV;

    open spec fn view(&self) -> CursorV {
        CursorV::Stop
    }
}

impl StopCursor {
    /// `Stop` is never willing to perform anything.
    pub fn initials(&self) -> (r: crate::event::EmptyAlphabet)
        ensures
            r.members() == cv_events(self@),
    {
        proof {
            assert(Set::<Event>::empty() =~= cv_events(self@));
        }
        crate::event::EmptyAlphabet::new()
    }

    pub fn events(&self) -> (r: Vec<Event>)
        ensures
            r@.to_set() == cv_events(self@),
            r@.no_duplicates(),
    {
        let r: Vec<Event> = Vec::new();
        proof {
            assert(r@.to_set() =~= cv_events(self@));
        }
        r
    }

    pub fn can_perform(&self, event: &Event) -> (r: bool)
        ensures
            r == cv_can(self@, *event),
    {
        false
    }
}

/// Whether a `Skip` cursor still has its ✔ ahead of it.
#[derive(Clone, Copy, PartialEq, Eq, Structural, Hash, Debug)]
pub enum SkipState {
    BeforeTick,
    AfterTick,
}

/// The cursor of `Skip`: before its ✔, or behaving as `Stop` after it.
#[derive(Clone, Copy, PartialEq, Eq, Structural, Hash, Debug)]
pub struct SkipCursor {
    pub state: SkipState,
}

impl View for SkipCursor {
    type V = CursorV;

    open spec fn view(&self) -> CursorV {
        CursorV::Skip { before: self.state is BeforeTick }
    }
}

/// The alphabet of a `Skip` cursor: the ✔ event before it is performed,
/// nothing after.
#[derive(Clone, Copy, PartialEq, Eq, Structural, Hash, Debug)]
pub enum SkipAlphabet {
    BeforeTick,
    AfterTick,
}

impl Alphabet for SkipAlphabet {
    open spec fn members(&self) -> Set<Event> {
        match self {
            SkipAlphabet::BeforeTick => Set::empty().insert(Event::Tick(Tick)),
            SkipAlphabet::AfterTick => Set::empty(),
        }
    }

    fn contains(&self, event: &Event) -> (r: bool) {
        match self {
            SkipAlphabet::BeforeTick => *event == Event::Tick(Tick),
            SkipAlphabet::AfterTick => false,
        }
    }
}

impl SkipCursor {
    pub fn initials(&self) -> (r: SkipAlphabet)
        ensures
            r.members() == cv_events(self@),
    {
        match self.state {
            SkipState::BeforeTick => SkipAlphabet::BeforeTick,
            SkipState::AfterTick => {
                proof {
                    assert(Set::<Event>::empty() =~= cv_events(self@));
                }
                SkipAlphabet::AfterTick
            },
        }
    }

    pub fn events(&self) -> (r: Vec<Event>)
        ensures
            r@.to_set() == cv_events(self@),
            r@.no_duplicates(),
    {
        let mut r: Vec<Event> = Vec::new();
        match self.state {
            SkipState::BeforeTick => {
                r.push(Event::Tick(Tick));
                proof {
                    assert(r@ == Seq::empty().push(Event::Tick(Tick)));
                    assert(r@.to_set() =~= cv_events(self@));
                }
            },
            SkipState::AfterTick => {
                proof {
                    assert(r@.to_set() =~= cv_events(self@));
                }
            },
        }
        r
    }

    pub fn can_perform(&self, event: &Event) -> (r: bool)
        ensures
            r == cv_can(self@, *event),
    {
        match self.state {
            SkipState::BeforeTick => *event == Event::Tick(Tick),
            SkipState::AfterTick => false,
        }
    }

    /// Performs ✔, after which the process behaves as `Stop`.
    pub fn perform(&mut self, event: &Event)
        requires
            cv_can(old(self)@, *event),
        ensures
            final(self)@ == cv_perform(old(self)@, *event),
    {
        self.state = SkipState::AfterTick;
    }
}

impl Stop {
    /// The root cursor of `Stop`.
    pub fn root(&self) -> (r: StopCursor)
        ensures
            r@ == crate::semantics::proc_root(crate::semantics::ProcV::Stop),
    {
        StopCursor
    }
}

impl Skip {
    /// The root cursor of `Skip`.
    pub fn root(&self) -> (r: SkipCursor)
        ensures
            r@ == crate::semantics::proc_root(crate::semantics::ProcV::Skip),
    {
        SkipCursor { state: SkipState::BeforeTick }
    }
}

/// Walks the events of a `Skip` alphabet: the one ✔ before it is
/// performed, nothing after.
#[derive(Clone, Copy, PartialEq, Eq, Structural, Hash, Debug)]
pub struct SkipAlphabetIterator {
    tick_pending: bool,
}

impl SkipAlphabetIterator {
    /// What the walk still has to yield.
    pub closed spec fn remaining(&self) -> Seq<Event> {
        if self.tick_pending {
            seq![Event::Tick(Tick)]
        } else {
            Seq::empty()
        }
    }

    /// Starts a walk over the events of a `Skip` alphabet.
    pub fn new(alphabet: SkipAlphabet) -> (r: SkipAlphabetIterator)
        ensures
            r.remaining().to_set() == alphabet.members(),
    {
        let r = match alphabet {
            SkipAlphabet::BeforeTick => SkipAlphabetIterator { tick_pending: true },
            SkipAlphabet::AfterTick => SkipAlphabetIterator { tick_pending: false },
        };
        proof {
            assert(r.remaining().to_set() =~= alphabet.members());
        }
        r
    }

    /// Yields the next event, or nothing once the walk is over.
    pub fn next(&mut self) -> (r: Option<Event>)
        ensures
            old(self).remaining().len() == 0 ==> r is None && final(self).remaining()
                == old(self).remaining(),
            old(self).remaining().len() > 0 ==> r == Some(old(self).remaining()[0])
                && final(self).remaining() == old(self).remaining().skip(1),
    {
        if self.tick_pending {
            self.tick_pending = false;
            proof {
                assert(self.remaining() =~= old(self).remaining().skip(1));
            }
            Some(Event::Tick(Tick))
        } else {
            None
        }
    }
}

} // verus!
