//! Match statements: the building blocks of a state definition.
//!
//! A [`Statement`] pairs a pattern ([`StatementMatchKind`]) with a
//! [`Destination`]. A [`CharRange`] stands for every Unicode scalar value
//! between two characters, both ends included.

use vstd::prelude::*;
use crate::string_interning::InternedString;

verus! {

/// A rule that maps a pattern to a destination.
#[derive(Debug, Clone, PartialEq, Eq)]
pub struct Statement {
    /// The match pattern.
    pub match_kind: StatementMatchKind,
    /// Where input matching the pattern leads.
    pub destination: Destination,
}

impl Statement {
    /// Create a new statement with destination and match kind.
    pub fn new(destination: Destination, match_kind: StatementMatchKind) -> (r: Statement)
        ensures
            r == (Statement { match_kind, destination }),
    {
        Statement { match_kind, destination }
    }
}

impl StatementMatchKind {
    /// An equal copy of the pattern. A literal sequence's characters live
    /// in one place, so only patterns without one can be copied as equal
    /// values.
    pub fn duplicate(&self) -> (r: StatementMatchKind)
        requires
            !(self is Sequence),
        ensures
            r == *self,
    {
        match self {
            StatementMatchKind::Literal(c) => StatementMatchKind::Literal(*c),
            StatementMatchKind::Range(r0) => StatementMatchKind::Range(*r0),
            StatementMatchKind::Sequence(v) => StatementMatchKind::Sequence(
                crate::text::copy_chars(v),
            ),
            StatementMatchKind::Default => StatementMatchKind::Default,
        }
    }
}

/// Where a transition leads: on into another state, or out of the
/// automaton through a named return point.
#[derive(Debug, Copy, Clone, PartialEq, Eq, Structural)]
pub enum Destination {
    /// Continue traversal in the named state.
    State(InternedString),
    /// Exit the automaton, tagged with the name of the return point taken.
    Return(InternedString),
}

/// A pattern a statement can match.
#[derive(Debug, Clone, PartialEq, Eq)]
pub enum StatementMatchKind {
    /// A single character.
    Literal(char),
    /// Every character of an inclusive range.
    Range(CharRange),
    /// A literal sequence of characters, matched one after another.
    Sequence(Vec<char>),
    /// The wildcard: input not covered by any specific match.
    Default,
}

/// An inclusive range of characters.
#[derive(Debug, Copy, Clone, PartialEq, Eq, Structural)]
pub struct CharRange {
    from: char,
    to: char,
}

/// Whether `u` is a Unicode scalar value, and so names a `char`.
pub open spec fn scalar(u: int) -> bool {
    (0 <= u < 0xD800) || (0xE000 <= u <= 0x10FFFF)
}

/// The characters whose scalar values lie in `[lo, hi]`, in increasing
/// order.
pub open spec fn scalar_chars(lo: int, hi: int) -> Seq<char>
    decreases hi + 1 - lo,
{
    if lo > hi {
        Seq::empty()
    } else {
        let rest = scalar_chars(lo + 1, hi);
        if scalar(lo) {
            seq![((lo as u32) as char)] + rest
        } else {
            rest
        }
    }
}

/// `scalar_chars(lo, hi)` holds exactly the characters with scalar value
/// in `[lo, hi]`.
pub proof fn lemma_scalar_chars_contains(lo: int, hi: int, c: char)
    ensures
        scalar_chars(lo, hi).contains(c) <==> lo <= c as u32 <= hi,
    decreases hi + 1 - lo,
{
    vstd::utf8::char_is_scalar(c);
    if lo > hi {
    } else {
        lemma_scalar_chars_contains(lo + 1, hi, c);
        let rest = scalar_chars(lo + 1, hi);
        if scalar(lo) {
            let lc = (lo as u32) as char;
            assert(lc as u32 == lo);
            assert(scalar_chars(lo, hi) == seq![lc] + rest);
            if lo <= c as u32 <= hi {
                if c as u32 == lo {
                    assert((seq![lc] + rest)[0] == c);
                } else {
                    let i = choose|i: int| 0 <= i < rest.len() && rest[i] == c;
                    assert((seq![lc] + rest)[i + 1] == c);
                }
            } else {
                if scalar_chars(lo, hi).contains(c) {
                    let i = choose|i: int|
                        0 <= i < scalar_chars(lo, hi).len() && scalar_chars(lo, hi)[i] == c;
                    if i == 0 {
                        assert(c == lc);
                    } else {
                        assert(rest[i - 1] == c);
                    }
                }
            }
        } else {
            if lo <= c as u32 <= hi {
                assert(c as u32 != lo);
            }
        }
    }
}

/// The range from `from` to `to`, as a value.
pub closed spec fn spec_char_range(from: char, to: char) -> CharRange {
    CharRange { from, to }
}

/// The ends of a range built by [`spec_char_range`].
pub broadcast proof fn lemma_spec_char_range(from: char, to: char)
    ensures
        (#[trigger] spec_char_range(from, to)).from_char() == from,
        spec_char_range(from, to).to_char() == to,
{
}

impl CharRange {
    /// The lower end of the range.
    pub closed spec fn from_char(self) -> char {
        self.from
    }

    /// The upper end of the range (included).
    pub closed spec fn to_char(self) -> char {
        self.to
    }

    /// The characters the range stands for, in increasing order.
    pub open spec fn chars(self) -> Seq<char> {
        scalar_chars(self.from_char() as u32 as int, self.to_char() as u32 as int)
    }

    /// Create a new range that goes from `from` to `to`, both included.
    pub fn new(from: char, to: char) -> (r: CharRange)
        ensures
            r == spec_char_range(from, to),
            r.from_char() == from,
            r.to_char() == to,
    {
        CharRange { from, to }
    }

    /// Iterate over the range's characters.
    pub fn into_iter(self) -> (r: CharRangeIntoIterator)
        ensures
            r.remaining() == self.chars(),
    {
        CharRangeIntoIterator { range: self, current: self.from as u32 }
    }
}

/// Iterator over the characters of a [`CharRange`].
#[derive(Debug, Copy, Clone)]
pub struct CharRangeIntoIterator {
    range: CharRange,
    current: u32,
}

/// Relies on `char::from_u32` of std: it returns `Some` exactly for
/// Unicode scalar values, and the returned character has the given value.
#[verifier::external_body]
fn char_from_u32(u: u32) -> (r: Option<char>)
    ensures
        r is Some <==> scalar(u as int),
        r is Some ==> r->Some_0 as u32 == u,
{
    char::from_u32(u)
}

impl CharRangeIntoIterator {
    /// The characters not yet handed out.
    pub closed spec fn remaining(self) -> Seq<char> {
        scalar_chars(self.current as int, self.range.to_char() as u32 as int)
    }

    /// Hand the next character of the range out, or `None` when the range
    /// is exhausted.
    pub fn next(&mut self) -> (r: Option<char>)
        ensures
            old(self).remaining().len() == 0 ==> r is None && final(self).remaining().len() == 0,
            old(self).remaining().len() > 0 ==> r == Some(old(self).remaining()[0])
                && final(self).remaining() == old(self).remaining().drop_first(),
    {
        loop
            invariant
                self.range == old(self).range,
                self.remaining() == old(self).remaining(),
            decreases 0x110000int - self.current as int,
        {
            if self.current > self.range.to as u32 {
                proof {
                    assert(self.remaining().len() == 0);
                }
                return None;
            }
            proof {
                vstd::utf8::char_is_scalar(self.range.to);
            }
            match char_from_u32(self.current) {
                Some(c) => {
                    proof {
                        vstd::utf8::char_u32_cast(c, self.current);
                        assert(self.remaining() == seq![c] + scalar_chars(
                            self.current as int + 1,
                            self.range.to as u32 as int,
                        ));
                        assert(self.remaining()[0] == c);
                        assert(self.remaining().drop_first() =~= scalar_chars(
                            self.current as int + 1,
                            self.range.to as u32 as int,
                        ));
                    }
                    self.current = self.current + 1;
                    return Some(c);
                },
                None => {
                    proof {
                        assert(scalar_chars(
                            self.current as int,
                            self.range.to as u32 as int,
                        ) == scalar_chars(self.current as int + 1, self.range.to as u32 as int));
                    }
                    self.current = self.current + 1;
                },
            }
        }
    }
}

} // verus!
