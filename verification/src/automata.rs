//! The automata resolver: turns an ordered list of state definitions into
//! the compiled automaton, a map from state name to transition table.
//!
//! Resolution walks the definitions in order. Destinations naming the
//! reserved identifier `Self` are rewritten to the enclosing state's own
//! name, ranges are expanded character by character, and multi-character
//! literal sequences are expanded into chains of synthetic intermediate
//! states, each consuming one character. Synthetic state names are derived
//! deterministically from the source state, the destination, the position
//! in the sequence and the sequence text, so that repeated compilation of
//! identical input is reproducible. The derivation is injective — the
//! variable parts carry their own lengths and the destination its kind —
//! and every synthetic name begins with a digit, so the chains of two
//! different statements never share a state and no identifier-named state
//! can collide with one.

use vstd::prelude::*;
use crate::machine::{TableModel, TransitionTable};
use crate::statements::{Destination, Statement, StatementMatchKind};
use crate::states::StateDefinition;
use crate::string_interning::{
    intern_index, intern_insert, sym, InternedString, Interner,
};
use crate::text::{chars_to_string, decimal_string, push_char};
use vstd::string::StrSliceExecFns;

verus! {

/// The text of the reserved self-reference destination.
pub open spec fn self_keyword_text() -> Seq<char> {
    "Self"@
}

/// The symbol a destination names.
pub open spec fn dest_sym(d: Destination) -> InternedString {
    match d {
        Destination::State(s) => s,
        Destination::Return(r) => r,
    }
}

/// Whether a handle points into a table of `n` interned strings.
pub open spec fn sym_valid(s: InternedString, n: int) -> bool {
    0 <= s.id() < n
}

/// Whether every handle a definition carries was produced by an interner
/// holding `n` strings.
pub open spec fn def_valid(def: StateDefinition, n: int) -> bool {
    &&& sym_valid(def.name, n)
    &&& forall|j: int|
        0 <= j < def.statements@.len() ==> sym_valid(
            dest_sym(#[trigger] def.statements@[j].destination),
            n,
        )
}

/// Rewrite a destination naming the self keyword to the enclosing state's
/// own name.
pub open spec fn substitute_self(
    d: Destination,
    kw: InternedString,
    name: InternedString,
) -> Destination {
    match d {
        Destination::State(s) => if s == kw {
            Destination::State(name)
        } else {
            d
        },
        Destination::Return(_) => d,
    }
}

/// The decimal digit `d` as a character.
pub open spec fn digit_char(d: int) -> char {
    if d == 0 {
        '0'
    } else if d == 1 {
        '1'
    } else if d == 2 {
        '2'
    } else if d == 3 {
        '3'
    } else if d == 4 {
        '4'
    } else if d == 5 {
        '5'
    } else if d == 6 {
        '6'
    } else if d == 7 {
        '7'
    } else if d == 8 {
        '8'
    } else {
        '9'
    }
}

/// The decimal digits of `n >= 0`, most significant first.
pub open spec fn dec_digits(n: int) -> Seq<char>
    decreases n,
{
    if n < 10 {
        seq![digit_char(n)]
    } else {
        dec_digits(n / 10).push(digit_char(n % 10))
    }
}

/// The text a destination contributes to a synthetic state name: the
/// state's name, or `return_` followed by the return point's name.
pub open spec fn dest_text(strs: Seq<Seq<char>>, d: Destination) -> Seq<char> {
    match d {
        Destination::State(s) => strs[s.id()],
        Destination::Return(r) => "return_"@ + strs[r.id()],
    }
}

/// The single character that tags a destination's kind inside a
/// synthetic state name, so that a state named `return_x` and a return
/// point named `x` never derive the same name.
pub open spec fn dest_kind_char(d: Destination) -> char {
    match d {
        Destination::State(_) => 's',
        Destination::Return(_) => 'r',
    }
}

/// A name component prefixed with its own length, so that the component
/// can be read back unambiguously: its characters may themselves contain
/// digits and separators.
pub open spec fn len_tagged(x: Seq<char>) -> Seq<char> {
    dec_digits(x.len() as int) + seq!['_'] + x
}

/// The text of the `i`-th synthetic state name, assembled from the
/// source state's text `a`, the destination's kind tag and descriptive
/// text `b`, the position `i` and the sequence text `s`. The two
/// variable-length components carry their lengths, which makes the
/// assembly injective: equal names imply equal parts.
pub open spec fn synth_text(a: Seq<char>, kc: char, b: Seq<char>, i: int, s: Seq<char>) -> Seq<
    char,
> {
    len_tagged(a) + "_to_"@ + seq![kc, '_'] + len_tagged(b) + "_intermediate_"@ + dec_digits(i)
        + "_for_"@ + s
}

/// The name of the `i`-th synthetic state for a sequence statement:
/// derived from the source state's name, the destination's kind and
/// descriptive name, the position in the sequence, and the full sequence
/// text — and from nothing else, so repeated compilation reproduces it.
pub open spec fn synth_name(
    strs: Seq<Seq<char>>,
    src: InternedString,
    d: Destination,
    i: int,
    seqtext: Seq<char>,
) -> Seq<char> {
    synth_text(strs[src.id()], dest_kind_char(d), dest_text(strs, d), i, seqtext)
}

/// Intern the synthetic state names for positions `i, i+1, ...` of a
/// sequence of length `seqtext.len()`, in order; returns the interner
/// table after all of them and their handles. The name texts are computed
/// against `strs0`, the table as it stood when expansion began.
pub open spec fn intern_names(
    strs: Seq<Seq<char>>,
    strs0: Seq<Seq<char>>,
    src: InternedString,
    d: Destination,
    seqtext: Seq<char>,
    i: int,
) -> (Seq<Seq<char>>, Seq<InternedString>)
    decreases seqtext.len() - i,
{
    if i >= seqtext.len() - 1 {
        (strs, Seq::empty())
    } else {
        let text = synth_name(strs0, src, d, i, seqtext);
        let s1 = intern_insert(strs, text);
        let symi = sym(intern_index(strs, text));
        let r = intern_names(s1, strs0, src, d, seqtext, i + 1);
        (r.0, seq![symi] + r.1)
    }
}

/// The automaton entries for the synthetic chain of a sequence statement:
/// the `i`-th synthetic state consumes the `i+1`-th character of the
/// sequence and leads to the next link, the last one to the statement's
/// destination.
pub open spec fn chain_entries(
    syms: Seq<InternedString>,
    seqtext: Seq<char>,
    d: Destination,
) -> Seq<(InternedString, TableModel)> {
    Seq::new(
        syms.len(),
        |i: int|
            (
                syms[i],
                TableModel::empty().register(
                    seqtext[i + 1],
                    if i == syms.len() - 1 {
                        d
                    } else {
                        Destination::State(syms[i + 1])
                    },
                ),
            ),
    )
}

/// Expand a sequence statement: a single-character sequence behaves like a
/// literal; a longer one synthesizes one intermediate state per character
/// after the first, chained so that consuming the characters one after
/// another leads to the statement's destination. Returns the interner
/// table, automaton entries and source-state table after expansion.
pub open spec fn expand_sequence_m(
    strs: Seq<Seq<char>>,
    auto: Seq<(InternedString, TableModel)>,
    t: TableModel,
    src: InternedString,
    seqtext: Seq<char>,
    d: Destination,
) -> (Seq<Seq<char>>, Seq<(InternedString, TableModel)>, TableModel) {
    if seqtext.len() == 0 {
        (strs, auto, t)
    } else if seqtext.len() == 1 {
        (strs, auto, t.register(seqtext[0], d))
    } else {
        let r = intern_names(strs, strs, src, d, seqtext, 0);
        (r.0, auto + chain_entries(r.1, seqtext, d), t.register(
            seqtext[0],
            Destination::State(r.1[0]),
        ))
    }
}

/// Resolve one statement into the table under construction, after
/// substituting the self keyword in its destination.
pub open spec fn process_statement_m(
    strs: Seq<Seq<char>>,
    auto: Seq<(InternedString, TableModel)>,
    t: TableModel,
    def_name: InternedString,
    kw: InternedString,
    stmt: Statement,
) -> (Seq<Seq<char>>, Seq<(InternedString, TableModel)>, TableModel) {
    let d = substitute_self(stmt.destination, kw, def_name);
    match stmt.match_kind {
        StatementMatchKind::Default => (
            strs,
            auto,
            TableModel { default: Some(d), ..t },
        ),
        StatementMatchKind::Literal(c) => (strs, auto, t.register(c, d)),
        StatementMatchKind::Range(r) => (strs, auto, t.register_all(r.chars(), d)),
        StatementMatchKind::Sequence(v) => expand_sequence_m(strs, auto, t, def_name, v@, d),
    }
}

/// Resolve a list of statements in declaration order.
pub open spec fn process_statements_m(
    strs: Seq<Seq<char>>,
    auto: Seq<(InternedString, TableModel)>,
    t: TableModel,
    def_name: InternedString,
    kw: InternedString,
    stmts: Seq<Statement>,
) -> (Seq<Seq<char>>, Seq<(InternedString, TableModel)>, TableModel)
    decreases stmts.len(),
{
    if stmts.len() == 0 {
        (strs, auto, t)
    } else {
        let r = process_statement_m(strs, auto, t, def_name, kw, stmts[0]);
        process_statements_m(r.0, r.1, r.2, def_name, kw, stmts.drop_first())
    }
}

/// Resolve one state definition: build its table from an empty one and
/// insert it under the state's name, after any synthetic states its
/// sequence statements gave rise to.
pub open spec fn process_state_m(
    strs: Seq<Seq<char>>,
    auto: Seq<(InternedString, TableModel)>,
    kw: InternedString,
    def: StateDefinition,
) -> (Seq<Seq<char>>, Seq<(InternedString, TableModel)>) {
    let r = process_statements_m(strs, auto, TableModel::empty(), def.name, kw, def.statements@);
    (r.0, r.1.push((def.name, r.2)))
}

/// Resolve state definitions in declaration order.
pub open spec fn resolve_defs_m(
    strs: Seq<Seq<char>>,
    auto: Seq<(InternedString, TableModel)>,
    kw: InternedString,
    defs: Seq<StateDefinition>,
) -> (Seq<Seq<char>>, Seq<(InternedString, TableModel)>)
    decreases defs.len(),
{
    if defs.len() == 0 {
        (strs, auto)
    } else {
        let r = process_state_m(strs, auto, kw, defs[0]);
        resolve_defs_m(r.0, r.1, kw, defs.drop_first())
    }
}

/// The whole resolution: intern the self keyword, then resolve every
/// definition in order, starting from an empty automaton.
pub open spec fn resolve_from_m(
    strs: Seq<Seq<char>>,
    defs: Seq<StateDefinition>,
) -> (Seq<Seq<char>>, Seq<(InternedString, TableModel)>) {
    let s1 = intern_insert(strs, self_keyword_text());
    let kw = sym(intern_index(strs, self_keyword_text()));
    resolve_defs_m(s1, Seq::empty(), kw, defs)
}

/// The table the automaton holds for `name`: of several insertions under
/// one name, the last one wins.
pub open spec fn table_for_in(
    entries: Seq<(InternedString, TableModel)>,
    name: InternedString,
) -> Option<TableModel>
    decreases entries.len(),
{
    if entries.len() == 0 {
        None
    } else if entries.last().0 == name {
        Some(entries.last().1)
    } else {
        table_for_in(entries.drop_last(), name)
    }
}

/// Register `destination` for every character of `range`, in increasing
/// order.
fn register_range(table: &mut TransitionTable, range: crate::statements::CharRange, destination: Destination)
    ensures
        final(table)@ == old(table)@.register_all(range.chars(), destination),
{
    let ghost t_target = old(table)@.register_all(range.chars(), destination);
    let mut it = range.into_iter();
    loop
        invariant
            table@.register_all(it.remaining(), destination) == t_target,
        ensures
            table@ == t_target,
        decreases it.remaining().len(),
    {
        match it.next() {
            Some(chr) => {
                table.add_destination(chr, destination);
            },
            None => {
                break;
            },
        }
    }
}

/// Whether every handle the definitions carry was produced by
/// `interner`, which is what resolving them requires.
pub fn definitions_valid(
    state_definitions: &Vec<StateDefinition>,
    interner: &Interner,
) -> (r: bool)
    ensures
        r == (forall|i: int|
            0 <= i < state_definitions@.len() ==> def_valid(
                #[trigger] state_definitions@[i],
                interner@.len() as int,
            )),
{
    let n = state_definitions.len();
    let mut i: usize = 0;
    while i < n
        invariant
            n == state_definitions@.len(),
            0 <= i <= n,
            forall|k: int|
                0 <= k < i ==> def_valid(
                    #[trigger] state_definitions@[k],
                    interner@.len() as int,
                ),
        decreases n - i,
    {
        let def = &state_definitions[i];
        if !interner.knows(def.name) {
            proof {
                assert(!sym_valid(def.name, interner@.len() as int));
                assert(state_definitions@[i as int] == *def);
                assert(!def_valid(state_definitions@[i as int], interner@.len() as int));
            }
            return false;
        }
        let m = def.statements.len();
        let mut j: usize = 0;
        while j < m
            invariant
                m == def.statements@.len(),
                0 <= i < state_definitions@.len(),
                *def == state_definitions@[i as int],
                0 <= j <= m,
                forall|k: int|
                    0 <= k < j ==> sym_valid(
                        dest_sym(#[trigger] def.statements@[k].destination),
                        interner@.len() as int,
                    ),
            decreases m - j,
        {
            let known = match &def.statements[j].destination {
                Destination::State(s) => interner.knows(*s),
                Destination::Return(x) => interner.knows(*x),
            };
            if !known {
                proof {
                    assert(state_definitions@[i as int] == *def);
                    assert(!sym_valid(
                        dest_sym(state_definitions@[i as int].statements@[j as int].destination),
                        interner@.len() as int,
                    ));
                    assert(!def_valid(state_definitions@[i as int], interner@.len() as int));
                }
                return false;
            }
            j += 1;
        }
        i += 1;
    }
    true
}

/// `s2` extends `s1`: everything interned in `s1` is still at its place.
pub open spec fn extends(s2: Seq<Seq<char>>, s1: Seq<Seq<char>>) -> bool {
    &&& s1.len() <= s2.len()
    &&& forall|k: int| 0 <= k < s1.len() ==> s2[k] == s1[k]
}

/// A compiled state machine: the mapping from state name to transition
/// table. Built once by [`Automata::resolve_from`], then read-only.
#[derive(Debug)]
pub struct Automata {
    state_table: Vec<(InternedString, TransitionTable)>,
}

impl View for Automata {
    type V = Seq<(InternedString, TableModel)>;

    closed spec fn view(&self) -> Seq<(InternedString, TableModel)> {
        self.state_table@.map(|i: int, p: (InternedString, TransitionTable)| (p.0, p.1@))
    }
}

impl Automata {
    /// The table registered for `name`, if any; the last insertion wins.
    pub open spec fn table_model(self, name: InternedString) -> Option<TableModel> {
        table_for_in(self@, name)
    }

    /// Create an automaton from a series of state definitions, resolving
    /// them in declaration order. Every handle the definitions carry must
    /// have been produced by `interner`.
    #[verifier::loop_isolation(false)]
    pub fn resolve_from(
        state_definitions: Vec<StateDefinition>,
        interner: &mut Interner,
    ) -> (r: Automata)
        requires
            old(interner).wf(),
            forall|i: int|
                0 <= i < state_definitions@.len() ==> def_valid(
                    #[trigger] state_definitions@[i],
                    old(interner)@.len() as int,
                ),
        ensures
            final(interner).wf(),
            extends(final(interner)@, old(interner)@),
            ({
                let r2 = resolve_from_m(old(interner)@, state_definitions@);
                &&& final(interner)@ == r2.0
                &&& r@ == r2.1
            }),
    {
        let self_keyword = interner.intern("Self");
        let mut automata = Automata { state_table: Vec::new() };
        proof {
            assert(automata@ =~= Seq::<(InternedString, TableModel)>::empty());
            assert(state_definitions@.skip(0) =~= state_definitions@);
        }
        let ghost strs1 = interner@;
        let ghost target = resolve_defs_m(
            strs1,
            Seq::empty(),
            self_keyword,
            state_definitions@,
        );
        let n = state_definitions.len();
        let mut i: usize = 0;
        while i < n
            invariant
                interner.wf(),
                extends(interner@, strs1),
                0 <= i <= n,
                resolve_defs_m(
                    interner@,
                    automata@,
                    self_keyword,
                    state_definitions@.skip(i as int),
                ) == target,
            decreases n - i,
        {
            proof {
                assert(state_definitions@.skip(i as int)[0] == state_definitions@[i as int]);
                assert(state_definitions@.skip(i as int).drop_first() =~= state_definitions@.skip(
                    i as int + 1,
                ));
            }
            automata.process_state(&state_definitions[i], self_keyword, interner);
            i += 1;
        }
        proof {
            assert(state_definitions@.skip(n as int) =~= Seq::<StateDefinition>::empty());
        }
        automata
    }

    /// The transition table compiled for the state named `name`, if that
    /// state exists; of several declarations under one name, the last one
    /// wins.
    pub fn get_table(&self, name: InternedString) -> (r: Option<&TransitionTable>)
        ensures
            match r {
                Some(t) => self.table_model(name) == Some(t@),
                None => self.table_model(name) is None,
            },
    {
        let n = self.state_table.len();
        proof {
            assert(self@.take(n as int) =~= self@);
        }
        let mut i: usize = n;
        while i > 0
            invariant
                n == self.state_table.len(),
                0 <= i <= n,
                table_for_in(self@.take(i as int), name) == table_for_in(self@, name),
            decreases i,
        {
            i -= 1;
            proof {
                assert(self@.take(i as int + 1).drop_last() =~= self@.take(i as int));
                assert(self@.take(i as int + 1).last() == self@[i as int]);
            }
            if self.state_table[i].0 == name {
                return Some(&self.state_table[i].1);
            }
        }
        proof {
            assert(self@.take(0) =~= Seq::<(InternedString, TableModel)>::empty());
        }
        None
    }

    /// The names the automaton holds tables under, in insertion order.
    pub fn state_names(&self) -> (r: Vec<InternedString>)
        ensures
            r@.len() == self@.len(),
            forall|i: int| 0 <= i < r@.len() ==> r@[i] == self@[i].0,
    {
        let mut r: Vec<InternedString> = Vec::new();
        let n = self.state_table.len();
        let mut i: usize = 0;
        while i < n
            invariant
                n == self.state_table.len(),
                0 <= i <= n,
                r@.len() == i,
                forall|j: int| 0 <= j < i ==> r@[j] == self@[j].0,
            decreases n - i,
        {
            r.push(self.state_table[i].0);
            i += 1;
        }
        r
    }

    /// Insert a completed table under a state's name.
    fn insert_state(&mut self, name: InternedString, table: TransitionTable)
        ensures
            final(self)@ == old(self)@.push((name, table@)),
    {
        self.state_table.push((name, table));
        proof {
            assert(self@ =~= old(self)@.push((name, table@)));
        }
    }

    /// Resolve one state definition: fold its statements into a fresh
    /// transition table, substituting the self keyword, expanding ranges
    /// and sequences, and insert the completed table under the state's
    /// name.
    #[verifier::loop_isolation(false)]
    pub fn process_state(
        &mut self,
        definition: &StateDefinition,
        self_keyword: InternedString,
        interner: &mut Interner,
    )
        requires
            old(interner).wf(),
            def_valid(*definition, old(interner)@.len() as int),
        ensures
            final(interner).wf(),
            extends(final(interner)@, old(interner)@),
            ({
                let r = process_state_m(old(interner)@, old(self)@, self_keyword, *definition);
                &&& final(interner)@ == r.0
                &&& final(self)@ == r.1
            }),
    {
        let mut transition_table = TransitionTable::new();
        let ghost target = process_statements_m(
            old(interner)@,
            old(self)@,
            TableModel::empty(),
            definition.name,
            self_keyword,
            definition.statements@,
        );
        proof {
            assert(definition.statements@.skip(0) =~= definition.statements@);
        }
        let n = definition.statements.len();
        let mut idx: usize = 0;
        while idx < n
            invariant
                interner.wf(),
                extends(interner@, old(interner)@),
                0 <= idx <= n,
                ({
                    let r = process_statements_m(
                        interner@,
                        self@,
                        transition_table@,
                        definition.name,
                        self_keyword,
                        definition.statements@.skip(idx as int),
                    );
                    r == target
                }),
            decreases n - idx,
        {
            let statement = &definition.statements[idx];
            let mut destination = statement.destination;
            if let Destination::State(destination_identifier) = destination {
                if destination_identifier == self_keyword {
                    destination = Destination::State(definition.name);
                }
            }
            proof {
                assert(destination == substitute_self(
                    statement.destination,
                    self_keyword,
                    definition.name,
                ));
                assert(definition.statements@.skip(idx as int)[0] == definition.statements@[idx as int]);
                assert(definition.statements@.skip(idx as int).drop_first()
                    =~= definition.statements@.skip(idx as int + 1));
            }
            match &statement.match_kind {
                StatementMatchKind::Default => {
                    transition_table.set_default_transition(destination);
                },
                StatementMatchKind::Range(range) => {
                    register_range(&mut transition_table, *range, destination);
                },
                StatementMatchKind::Literal(chr) => {
                    transition_table.add_destination(*chr, destination);
                },
                StatementMatchKind::Sequence(sequence) => {
                    self.process_sequence(
                        sequence,
                        &destination,
                        &mut transition_table,
                        definition.name,
                        interner,
                    );
                },
            }
            idx += 1;
        }
        proof {
            assert(definition.statements@.skip(n as int) =~= Seq::<Statement>::empty());
        }
        self.insert_state(definition.name, transition_table);
    }

    /// Expand a sequence statement into the source state's table and a
    /// chain of synthetic intermediate states, each consuming one
    /// character of the sequence on the way to `destination`.
    #[verifier::loop_isolation(false)]
    pub fn process_sequence(
        &mut self,
        sequence: &Vec<char>,
        destination: &Destination,
        source_state_transitions: &mut TransitionTable,
        source_name: InternedString,
        interner: &mut Interner,
    )
        requires
            old(interner).wf(),
            sym_valid(source_name, old(interner)@.len() as int),
            sym_valid(dest_sym(*destination), old(interner)@.len() as int),
        ensures
            final(interner).wf(),
            extends(final(interner)@, old(interner)@),
            ({
                let r = expand_sequence_m(
                    old(interner)@,
                    old(self)@,
                    old(source_state_transitions)@,
                    source_name,
                    sequence@,
                    *destination,
                );
                &&& final(interner)@ == r.0
                &&& final(self)@ == r.1
                &&& final(source_state_transitions)@ == r.2
            }),
    {
        let n = sequence.len();
        if n == 0 {
            return;
        }
        if n == 1 {
            source_state_transitions.add_destination(sequence[0], *destination);
            return;
        }
        let ghost strs0 = interner@;
        let src_str: String = match interner.get(source_name) {
            Some(s) => s,
            None => unreached(),
        };
        let dest_str: String = match destination {
            Destination::State(s) => match interner.get(*s) {
                Some(t) => t,
                None => unreached(),
            },
            Destination::Return(r) => {
                let mut t = String::from_str("return_");
                let rs: String = match interner.get(*r) {
                    Some(x) => x,
                    None => unreached(),
                };
                t.append(rs.as_str());
                t
            },
        };
        proof {
            assert(dest_str@ == dest_text(strs0, *destination));
        }
        let seq_str = chars_to_string(sequence);
        let src_len_str = decimal_string(src_str.as_str().unicode_len());
        let dest_len_str = decimal_string(dest_str.as_str().unicode_len());
        let kind_tag: &str = match destination {
            Destination::State(_) => "s_",
            Destination::Return(_) => "r_",
        };
        proof {
            reveal_strlit("_");
            reveal_strlit("s_");
            reveal_strlit("r_");
            assert("_"@ =~= seq!['_']);
            assert("s_"@ =~= seq!['s', '_']);
            assert("r_"@ =~= seq!['r', '_']);
            assert(kind_tag@ == seq![dest_kind_char(*destination), '_']);
        }
        let ghost target = intern_names(strs0, strs0, source_name, *destination, sequence@, 0);
        let mut syms: Vec<InternedString> = Vec::new();
        let mut i: usize = 0;
        while i < n - 1
            invariant
                interner.wf(),
                extends(interner@, strs0),
                0 <= i <= n - 1,
                syms@.len() == i,
                ({
                    let r = intern_names(
                        interner@,
                        strs0,
                        source_name,
                        *destination,
                        sequence@,
                        i as int,
                    );
                    r.0 == target.0 && syms@ + r.1 == target.1
                }),
            decreases n - 1 - i,
        {
            let num = decimal_string(i);
            let mut name = String::new();
            name.append(src_len_str.as_str());
            name.append("_");
            name.append(src_str.as_str());
            name.append("_to_");
            name.append(kind_tag);
            name.append(dest_len_str.as_str());
            name.append("_");
            name.append(dest_str.as_str());
            name.append("_intermediate_");
            name.append(num.as_str());
            name.append("_for_");
            name.append(seq_str.as_str());
            proof {
                assert(name@ =~= synth_name(
                    strs0,
                    source_name,
                    *destination,
                    i as int,
                    sequence@,
                ));
            }
            let ghost strs_before = interner@;
            let ghost syms_before = syms@;
            let symi = interner.intern(name.as_str());
            syms.push(symi);
            proof {
                let r_i = intern_names(
                    strs_before,
                    strs0,
                    source_name,
                    *destination,
                    sequence@,
                    i as int,
                );
                let r_next = intern_names(
                    interner@,
                    strs0,
                    source_name,
                    *destination,
                    sequence@,
                    i as int + 1,
                );
                assert(r_i.0 == r_next.0);
                assert(r_i.1 == seq![symi] + r_next.1);
                assert(syms@ + r_next.1 =~= syms_before + r_i.1);
            }
            i += 1;
        }
        proof {
            let r_end = intern_names(
                interner@,
                strs0,
                source_name,
                *destination,
                sequence@,
                n as int - 1,
            );
            assert(r_end.1 =~= Seq::<InternedString>::empty());
            assert(syms@ + r_end.1 =~= syms@);
            assert(interner@ == target.0);
            assert(syms@ == target.1);
        }
        source_state_transitions.add_destination(sequence[0], Destination::State(syms[0]));
        let ghost auto0 = self@;
        let ghost chain = chain_entries(syms@, sequence@, *destination);
        let mut i: usize = 0;
        while i < n - 1
            invariant
                0 <= i <= n - 1,
                self@ == auto0 + chain.take(i as int),
            decreases n - 1 - i,
        {
            let mut table = TransitionTable::new();
            let dest_i: Destination = if i == n - 2 {
                *destination
            } else {
                Destination::State(syms[i + 1])
            };
            table.add_destination(sequence[i + 1], dest_i);
            self.insert_state(syms[i], table);
            proof {
                assert(chain[i as int] == (syms@[i as int], table@));
                assert(chain.take(i as int + 1) =~= chain.take(i as int).push(chain[i as int]));
                assert(self@ =~= auto0 + chain.take(i as int + 1));
            }
            i += 1;
        }
        proof {
            assert(chain.take(n as int - 1) =~= chain);
        }
    }
}

} // verus!
