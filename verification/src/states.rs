//! State definitions: the parser's output and the resolver's input.

use vstd::prelude::*;
use crate::statements::Statement;
use crate::string_interning::InternedString;

verus! {

/// What a state definition stands for: its name and its statements.
pub ghost struct StateDefM {
    pub name: InternedString,
    pub statements: Seq<Statement>,
}

/// A state definition: its name and the statements declared for it, in
/// declaration order.
#[derive(Debug, Clone, PartialEq, Eq)]
pub struct StateDefinition {
    pub name: InternedString,
    pub statements: Vec<Statement>,
}

impl View for StateDefinition {
    type V = StateDefM;

    open spec fn view(&self) -> StateDefM {
        StateDefM { name: self.name, statements: self.statements@ }
    }
}

impl StateDefinition {
    /// Create a new state definition given its name.
    pub fn new(name: InternedString) -> (r: StateDefinition)
        ensures
            r.name == name,
            r.statements@ == Seq::<Statement>::empty(),
    {
        StateDefinition { name, statements: Vec::new() }
    }

    /// Push a new statement onto the state definition.
    pub fn push_statement(&mut self, statement: Statement)
        ensures
            final(self).name == old(self).name,
            final(self).statements@ == old(self).statements@.push(statement),
    {
        self.statements.push(statement);
    }
}

} // verus!
