//! Events, and alphabets (sets of events) that a process is willing to
//! perform.

use vstd::prelude::*;
use vstd::string::StringExecFns;

verus! {

/// The hidden event τ.  It expresses nondeterminism in a CSP process: a
/// process performs τ when it resolves an internal choice, invisibly to the
/// environment.
#[derive(Clone, Copy, PartialEq, Eq, Structural, Hash, Debug)]
pub struct Tau;

/// The hidden event ✔.  It signals the successful termination of a process,
/// which is what lets sequential composition hand control to its second
/// operand.
#[derive(Clone, Copy, PartialEq, Eq, Structural, Hash, Debug)]
pub struct Tick;

/// An event that is identified by a number.  Makes it easy to construct
/// distinct visible events.
#[derive(Clone, Copy, PartialEq, Eq, Structural, Hash, Debug)]
pub struct NumberedEvent(pub u32);

/// The subscript digit that renders a decimal digit.
pub open spec fn subscript_char(d: nat) -> char {
    if d == 0 {
        '\u{2080}'
    } else if d == 1 {
        '\u{2081}'
    } else if d == 2 {
        '\u{2082}'
    } else if d == 3 {
        '\u{2083}'
    } else if d == 4 {
        '\u{2084}'
    } else if d == 5 {
        '\u{2085}'
    } else if d == 6 {
        '\u{2086}'
    } else if d == 7 {
        '\u{2087}'
    } else {
        if d == 8 {
            '\u{2088}'
        } else {
            '\u{2089}'
        }
    }
}

/// The decimal digits of `n`, most significant first, each as a subscript
/// character.
pub open spec fn spec_subscript(n: nat) -> Seq<char>
    decreases n,
{
    if n < 10 {
        seq![subscript_char(n)]
    } else {
        spec_subscript(n / 10).push(subscript_char(n % 10))
    }
}

/// How a numbered event renders: the letter `E` with the event's number in
/// subscript digits.
pub open spec fn spec_numbered_label(n: nat) -> Seq<char> {
    seq!['E'] + spec_subscript(n)
}

/// The subscript rendering of one decimal digit.
fn subscript_str(d: u32) -> (r: &'static str)
    requires
        d < 10,
    ensures
        r@ == seq![subscript_char(d as nat)],
{
    if d == 0 {
        proof {
            reveal_strlit("\u{2080}");
        }
        "\u{2080}"
    } else if d == 1 {
        proof {
            reveal_strlit("\u{2081}");
        }
        "\u{2081}"
    } else if d == 2 {
        proof {
            reveal_strlit("\u{2082}");
        }
        "\u{2082}"
    } else if d == 3 {
        proof {
            reveal_strlit("\u{2083}");
        }
        "\u{2083}"
    } else if d == 4 {
        proof {
            reveal_strlit("\u{2084}");
        }
        "\u{2084}"
    } else if d == 5 {
        proof {
            reveal_strlit("\u{2085}");
        }
        "\u{2085}"
    } else if d == 6 {
        proof {
            reveal_strlit("\u{2086}");
        }
        "\u{2086}"
    } else if d == 7 {
        proof {
            reveal_strlit("\u{2087}");
        }
        "\u{2087}"
    } else if d == 8 {
        proof {
            reveal_strlit("\u{2088}");
        }
        "\u{2088}"
    } else {
        proof {
            reveal_strlit("\u{2089}");
        }
        "\u{2089}"
    }
}

/// The subscript characters of a digit list, rendered most recent first:
/// digits are collected least-significant first, so the rendering walks the
/// list from its end back to its start.
pub open spec fn rev_digit_chars(ds: Seq<u32>) -> Seq<char>
    decreases ds,
{
    if ds.len() == 0 {
        Seq::empty()
    } else {
        seq![subscript_char(ds.last() as nat)] + rev_digit_chars(ds.drop_last())
    }
}

proof fn lemma_rev_digit_chars_cons(ds: Seq<u32>)
    requires
        ds.len() > 0,
    ensures
        rev_digit_chars(ds) == rev_digit_chars(ds.skip(1)) + seq![
            subscript_char(ds[0] as nat),
        ],
    decreases ds,
{
    if ds.len() == 1 {
        assert(ds.drop_last() =~= Seq::<u32>::empty());
        assert(ds.skip(1) =~= Seq::<u32>::empty());
        assert(rev_digit_chars(ds) =~= rev_digit_chars(ds.skip(1)) + seq![
            subscript_char(ds[0] as nat),
        ]);
    } else {
        lemma_rev_digit_chars_cons(ds.drop_last());
        assert(ds.drop_last().skip(1) =~= ds.skip(1).drop_last());
        assert(ds.skip(1).last() == ds.last());
        assert(ds.drop_last()[0] == ds[0]);
        assert(rev_digit_chars(ds) =~= rev_digit_chars(ds.skip(1)) + seq![
            subscript_char(ds[0] as nat),
        ]);
    }
}

impl NumberedEvent {
    /// Renders the event as the letter `E` followed by its number in
    /// subscript digits.
    pub fn to_string(&self) -> (r: String)
        ensures
            r@ == spec_numbered_label(self.0 as nat),
    {
        let n0 = self.0;
        let mut digits: Vec<u32> = Vec::new();
        let mut m = n0;
        loop
            invariant_except_break
                forall|j: int| 0 <= j < digits@.len() ==> #[trigger] digits@[j] < 10,
                spec_subscript(n0 as nat) == spec_subscript(m as nat) + rev_digit_chars(
                    digits@,
                ),
            ensures
                forall|j: int| 0 <= j < digits@.len() ==> #[trigger] digits@[j] < 10,
                spec_subscript(n0 as nat) == rev_digit_chars(digits@),
            decreases m,
        {
            let d = m % 10;
            let next = m / 10;
            proof {
                assert(m % 10 < 10) by (nonlinear_arith);
                assert(m >= 10 ==> 1 <= m / 10 < m) by (nonlinear_arith);
                assert(m < 10 ==> m / 10 == 0 && m % 10 == m) by (nonlinear_arith);
            }
            let ghost digits_before = digits@;
            digits.push(d);
            proof {
                assert(digits@.drop_last() =~= digits_before);
                assert(digits@.last() == d);
                assert(rev_digit_chars(digits@) == seq![
                    subscript_char(d as nat),
                ] + rev_digit_chars(digits_before));
                if m < 10 {
                    assert(spec_subscript(m as nat) == seq![subscript_char(m as nat)]);
                    assert(seq![subscript_char(m as nat)] + rev_digit_chars(digits_before)
                        =~= rev_digit_chars(digits@));
                } else {
                    assert(spec_subscript(m as nat) == spec_subscript((m / 10) as nat).push(
                        subscript_char((m % 10) as nat),
                    ));
                    assert(spec_subscript((m / 10) as nat).push(subscript_char((m % 10) as nat))
                        + rev_digit_chars(digits_before) =~= spec_subscript((m / 10) as nat) + (
                    seq![subscript_char(d as nat)] + rev_digit_chars(digits_before)));
                }
            }
            if next == 0 {
                proof {
                    assert(spec_subscript(n0 as nat) =~= rev_digit_chars(digits@));
                    assert(forall|j: int| 0 <= j < digits@.len() ==> #[trigger] digits@[j] < 10);
                }
                break ;
            }
            m = next;
        }
        proof {
            reveal_strlit("E");
        }
        let e_str: &str = "E";
        let mut r: String = e_str.to_owned();
        let mut i: usize = digits.len();
        proof {
            assert(digits@.skip(i as int) =~= Seq::<u32>::empty());
            assert(r@ =~= seq!['E'] + rev_digit_chars(digits@.skip(i as int)));
        }
        while i > 0
            invariant
                0 <= i <= digits@.len(),
                forall|j: int| 0 <= j < digits@.len() ==> #[trigger] digits@[j] < 10,
                r@ == seq!['E'] + rev_digit_chars(digits@.skip(i as int)),
            decreases i,
        {
            i -= 1;
            r.append(subscript_str(digits[i]));
            proof {
                lemma_rev_digit_chars_cons(digits@.skip(i as int));
                assert(digits@.skip(i as int)[0] == digits@[i as int]);
                assert(digits@.skip(i as int).skip(1) =~= digits@.skip(i + 1));
                assert(r@ =~= seq!['E'] + rev_digit_chars(digits@.skip(i as int)));
            }
        }
        proof {
            assert(digits@.skip(0) =~= digits@);
            assert(r@ =~= spec_numbered_label(n0 as nat));
        }
        r
    }
}

/// A concrete event alphabet: the two built-in hidden events plus numbered
/// visible events.  Events are compared by equality only; no ordering is
/// assumed.
#[derive(Clone, Copy, PartialEq, Eq, Structural, Hash, Debug)]
pub enum Event {
    Tau(Tau),
    Tick(Tick),
    NumberedEvent(NumberedEvent),
}

/// Constructs the hidden event τ.
pub fn tau() -> (r: Event)
    ensures
        r == Event::Tau(Tau),
{
    Event::Tau(Tau)
}

/// Constructs the hidden event ✔.
pub fn tick() -> (r: Event)
    ensures
        r == Event::Tick(Tick),
{
    Event::Tick(Tick)
}

/// An alphabet is a set of events.  An alphabet type may represent its set
/// by a predicate rather than by enumeration, so membership is the one
/// operation every alphabet supports.
pub trait Alphabet {
    /// The set of events this alphabet stands for.
    spec fn members(&self) -> Set<Event>;

    /// Returns whether this alphabet contains a particular event.
    fn contains(&self, event: &Event) -> (r: bool)
        ensures
            r == self.members().contains(*event),
    ;
}

/// An alphabet that contains no events.
#[derive(Clone, Copy, PartialEq, Eq, Structural, Hash, Debug)]
pub struct EmptyAlphabet;

impl EmptyAlphabet {
    pub fn new() -> (r: EmptyAlphabet)
        ensures
            r == (EmptyAlphabet),
    {
        EmptyAlphabet
    }
}

impl Alphabet for EmptyAlphabet {
    open spec fn members(&self) -> Set<Event> {
        Set::empty()
    }

    fn contains(&self, _event: &Event) -> (r: bool) {
        false
    }
}

} // verus!
