//! Per-state transition tables.
//!
//! A [`TransitionTable`] records, for one state, which characters lead on
//! into which states, which characters exit the automaton through a return
//! point, and an optional default destination for input not otherwise
//! covered. State transitions are nondeterministic: one character may lead
//! into several states at once. Return transitions are kept structurally
//! separate, because they signal automaton exit rather than continued
//! traversal, and at most one return point is recorded per character, the
//! latest registration winning.

use vstd::prelude::*;
use crate::statements::Destination;
use crate::string_interning::InternedString;

verus! {

/// The mathematical content of a [`TransitionTable`]: the registered
/// `(character, destination)` pairs in registration order, plus the
/// default destination.
pub ghost struct TableModel {
    /// State transitions, in registration order.
    pub trans: Seq<(char, InternedString)>,
    /// Return transitions, in registration order; the last entry for a
    /// character is the one that counts.
    pub rets: Seq<(char, InternedString)>,
    /// The default destination, if one was set.
    pub default: Option<Destination>,
}

/// The destinations registered for `c` in `pairs`, oldest first.
pub open spec fn dests_for(pairs: Seq<(char, InternedString)>, c: char) -> Seq<InternedString>
    decreases pairs.len(),
{
    if pairs.len() == 0 {
        Seq::empty()
    } else {
        let rest = dests_for(pairs.drop_last(), c);
        if pairs.last().0 == c {
            rest.push(pairs.last().1)
        } else {
            rest
        }
    }
}

/// The return point registered last for `c` in `pairs`, if any.
pub open spec fn ret_for(pairs: Seq<(char, InternedString)>, c: char) -> Option<InternedString>
    decreases pairs.len(),
{
    if pairs.len() == 0 {
        None
    } else if pairs.last().0 == c {
        Some(pairs.last().1)
    } else {
        ret_for(pairs.drop_last(), c)
    }
}

impl TableModel {
    /// The table with nothing registered.
    pub open spec fn empty() -> TableModel {
        TableModel { trans: Seq::empty(), rets: Seq::empty(), default: None }
    }

    /// The states `c` leads into, in registration order.
    pub open spec fn trans_at(self, c: char) -> Seq<InternedString> {
        dests_for(self.trans, c)
    }

    /// The return point `c` exits through, if any.
    pub open spec fn ret_at(self, c: char) -> Option<InternedString> {
        ret_for(self.rets, c)
    }

    /// The table after registering destination `d` for character `c`.
    pub open spec fn register(self, c: char, d: Destination) -> TableModel {
        match d {
            Destination::State(s) => TableModel { trans: self.trans.push((c, s)), ..self },
            Destination::Return(r) => TableModel { rets: self.rets.push((c, r)), ..self },
        }
    }

    /// The table after registering `d` for every character of `cs` in
    /// order.
    pub open spec fn register_all(self, cs: Seq<char>, d: Destination) -> TableModel
        decreases cs.len(),
    {
        if cs.len() == 0 {
            self
        } else {
            self.register(cs[0], d).register_all(cs.drop_first(), d)
        }
    }
}

/// A transition table for one state of the automaton.
#[derive(Debug, Clone)]
pub struct TransitionTable {
    /// Normal character-to-state transitions, in registration order.
    transitions: Vec<(char, InternedString)>,
    /// Accepting (return) transitions, in registration order.
    return_states: Vec<(char, InternedString)>,
    /// Default transition.
    default_transition: Option<Destination>,
}

impl View for TransitionTable {
    type V = TableModel;

    closed spec fn view(&self) -> TableModel {
        TableModel {
            trans: self.transitions@,
            rets: self.return_states@,
            default: self.default_transition,
        }
    }
}

impl TransitionTable {
    /// Create a new, empty transition table.
    pub fn new() -> (r: TransitionTable)
        ensures
            r@ == TableModel::empty(),
    {
        let r = TransitionTable {
            transitions: Vec::new(),
            default_transition: None,
            return_states: Vec::new(),
        };
        proof {
            assert(r@.trans =~= TableModel::empty().trans);
            assert(r@.rets =~= TableModel::empty().rets);
        }
        r
    }

    /// Add a normal transition: `input` leads on into `destination`,
    /// alongside any destinations already registered for `input`.
    pub fn add_transition(&mut self, input: char, destination: InternedString)
        ensures
            final(self)@ == old(self)@.register(input, Destination::State(destination)),
    {
        self.transitions.push((input, destination));
    }

    /// Add a return transition: `input` exits the automaton through the
    /// return point `state`. A later registration replaces an earlier one.
    pub fn add_return_state(&mut self, input: char, state: InternedString)
        ensures
            final(self)@ == old(self)@.register(input, Destination::Return(state)),
    {
        self.return_states.push((input, state));
    }

    /// Add a destination for `input`, dispatching on its kind: a state
    /// destination becomes a normal transition, a return destination a
    /// return transition.
    pub fn add_destination(&mut self, input: char, destination: Destination)
        ensures
            final(self)@ == old(self)@.register(input, destination),
    {
        match destination {
            Destination::State(state) => self.add_transition(input, state),
            Destination::Return(return_state) => self.add_return_state(input, return_state),
        }
    }

    /// Set the default transition for this table; a later call replaces
    /// the earlier value.
    pub fn set_default_transition(&mut self, destination: Destination)
        ensures
            final(self)@ == (TableModel { default: Some(destination), ..old(self)@ }),
    {
        self.default_transition = Some(destination)
    }

    /// The states `input` leads into, in registration order.
    pub fn get_transitions(&self, input: char) -> (r: Vec<InternedString>)
        ensures
            r@ == self@.trans_at(input),
    {
        let mut r: Vec<InternedString> = Vec::new();
        let n = self.transitions.len();
        let mut i: usize = 0;
        while i < n
            invariant
                n == self.transitions.len(),
                0 <= i <= n,
                r@ == dests_for(self.transitions@.take(i as int), input),
            decreases n - i,
        {
            let (c, d) = self.transitions[i];
            proof {
                assert(self.transitions@.take(i as int + 1).drop_last() =~= self.transitions@.take(
                    i as int,
                ));
                assert(self.transitions@.take(i as int + 1).last() == self.transitions@[i as int]);
            }
            if c == input {
                r.push(d);
            }
            i += 1;
        }
        proof {
            assert(self.transitions@.take(n as int) =~= self.transitions@);
        }
        r
    }

    /// The return point `input` exits through, if any.
    pub fn get_return_state(&self, input: char) -> (r: Option<InternedString>)
        ensures
            r == self@.ret_at(input),
    {
        let n = self.return_states.len();
        proof {
            assert(self.return_states@.take(n as int) =~= self.return_states@);
        }
        let mut i: usize = n;
        while i > 0
            invariant
                n == self.return_states.len(),
                0 <= i <= n,
                ret_for(self.return_states@.take(i as int), input) == ret_for(
                    self.return_states@,
                    input,
                ),
            decreases i,
        {
            i -= 1;
            let (c, d) = self.return_states[i];
            proof {
                assert(self.return_states@.take(i as int + 1).drop_last()
                    =~= self.return_states@.take(i as int));
                assert(self.return_states@.take(i as int + 1).last()
                    == self.return_states@[i as int]);
            }
            if c == input {
                return Some(d);
            }
        }
        proof {
            assert(self.return_states@.take(0) =~= Seq::<(char, InternedString)>::empty());
        }
        None
    }

    /// The default destination, if one was set.
    pub fn get_default_transition(&self) -> (r: Option<Destination>)
        ensures
            r == self@.default,
    {
        self.default_transition
    }

    /// Every registered state transition, as `(character, destination)`
    /// pairs in registration order.
    pub fn transition_entries(&self) -> (r: Vec<(char, InternedString)>)
        ensures
            r@ == self@.trans,
    {
        copy_pairs(&self.transitions)
    }

    /// Every registered return transition, as `(character, return point)`
    /// pairs in registration order.
    pub fn return_entries(&self) -> (r: Vec<(char, InternedString)>)
        ensures
            r@ == self@.rets,
    {
        copy_pairs(&self.return_states)
    }
}

/// Copy a vector of registration pairs.
fn copy_pairs(v: &Vec<(char, InternedString)>) -> (r: Vec<(char, InternedString)>)
    ensures
        r@ == v@,
{
    let mut r: Vec<(char, InternedString)> = Vec::new();
    let n = v.len();
    let mut i: usize = 0;
    while i < n
        invariant
            n == v.len(),
            0 <= i <= n,
            r@ == v@.take(i as int),
        decreases n - i,
    {
        r.push(v[i]);
        proof {
            assert(v@.take(i as int + 1) =~= v@.take(i as int).push(v@[i as int]));
        }
        i += 1;
    }
    proof {
        assert(v@.take(n as int) =~= v@);
    }
    r
}

} // verus!
