use snow_automata::automata::Automata;
use snow_automata::machine::TransitionTable;
use snow_automata::statements::{CharRange, Destination, Statement, StatementMatchKind};
use snow_automata::states::StateDefinition;
use snow_automata::string_interning::{intern, Interner, InternedString};
use snow_automata::syntax::SyntaxParser;

fn compile(source: &str, interner: &mut Interner) -> Automata {
    let input: Vec<char> = source.chars().collect();
    let mut parser = SyntaxParser::new(input);
    let defs = parser.parse(interner);
    Automata::resolve_from(defs, interner)
}

fn table<'a>(automata: &'a Automata, interner: &mut Interner, name: &str) -> &'a TransitionTable {
    let symbol = intern(interner, name);
    automata.get_table(symbol).expect("state should be compiled")
}

#[test]
fn range_expands_to_exactly_its_characters() {
    let mut interner = Interner::new();
    let automata = compile("state s { 'a'..'c' => nxt }", &mut interner);
    let nxt = intern(&mut interner, "nxt");
    let t = table(&automata, &mut interner, "s");
    assert_eq!(t.get_transitions('a'), vec![nxt]);
    assert_eq!(t.get_transitions('b'), vec![nxt]);
    assert_eq!(t.get_transitions('c'), vec![nxt]);
    assert!(t.get_transitions('`').is_empty());
    assert!(t.get_transitions('d').is_empty());
    assert_eq!(t.transition_entries().len(), 3);
}

#[test]
fn single_character_range() {
    let mut interner = Interner::new();
    let automata = compile("state s { 'a'..'a' => x }", &mut interner);
    let t = table(&automata, &mut interner, "s");
    assert_eq!(t.transition_entries().len(), 1);
    assert_eq!(t.get_transitions('a').len(), 1);
}

#[test]
fn empty_range_registers_nothing() {
    let mut interner = Interner::new();
    let automata = compile("state s { 'c'..'a' => x }", &mut interner);
    let t = table(&automata, &mut interner, "s");
    assert!(t.transition_entries().is_empty());
}

#[test]
fn self_destination_loops_back_to_the_state() {
    let mut interner = Interner::new();
    let automata = compile("state loopy { 'x' => Self; }", &mut interner);
    let loopy = intern(&mut interner, "loopy");
    let keyword = intern(&mut interner, "Self");
    let t = table(&automata, &mut interner, "loopy");
    assert_eq!(t.get_transitions('x'), vec![loopy]);
    assert_ne!(t.get_transitions('x'), vec![keyword]);
    assert!(automata.get_table(keyword).is_none());
}

#[test]
fn return_transitions_are_kept_apart_from_state_transitions() {
    let mut interner = Interner::new();
    let automata = compile("state s { 'q' => return accept; }", &mut interner);
    let accept = intern(&mut interner, "accept");
    let t = table(&automata, &mut interner, "s");
    assert_eq!(t.get_return_state('q'), Some(accept));
    assert!(t.get_transitions('q').is_empty());
}

#[test]
fn nondeterministic_destinations_are_both_kept() {
    let mut interner = Interner::new();
    let automata = compile("state s { 'm' => a; 'm' => b; }", &mut interner);
    let a = intern(&mut interner, "a");
    let b = intern(&mut interner, "b");
    let t = table(&automata, &mut interner, "s");
    assert_eq!(t.get_transitions('m'), vec![a, b]);
}

#[test]
fn default_transition_is_set() {
    let mut interner = Interner::new();
    let automata = compile("state s { _ => fallback }", &mut interner);
    let fallback = intern(&mut interner, "fallback");
    let t = table(&automata, &mut interner, "s");
    assert_eq!(t.get_default_transition(), Some(Destination::State(fallback)));
}

#[test]
fn later_default_wins() {
    let mut interner = Interner::new();
    let automata = compile("state s { _ => first; _ => second; }", &mut interner);
    let second = intern(&mut interner, "second");
    let t = table(&automata, &mut interner, "s");
    assert_eq!(t.get_default_transition(), Some(Destination::State(second)));
}

#[test]
fn later_state_declaration_wins() {
    let mut interner = Interner::new();
    let automata = compile("state s { 'a' => x } state s { 'b' => y }", &mut interner);
    let t = table(&automata, &mut interner, "s");
    assert!(t.get_transitions('a').is_empty());
    assert_eq!(t.get_transitions('b').len(), 1);
}

fn sequence_definition(
    interner: &mut Interner,
    state: &str,
    sequence: &str,
    destination: &str,
) -> Vec<StateDefinition> {
    let name = intern(interner, state);
    let dst = intern(interner, destination);
    let mut def = StateDefinition::new(name);
    def.push_statement(Statement::new(
        Destination::State(dst),
        StatementMatchKind::Sequence(sequence.chars().collect()),
    ));
    vec![def]
}

fn follow(automata: &Automata, from: InternedString, input: char) -> InternedString {
    let t = automata.get_table(from).expect("state should exist");
    let dests = t.get_transitions(input);
    assert_eq!(dests.len(), 1);
    dests[0]
}

#[test]
fn sequence_expands_to_a_chain_of_intermediate_states() {
    let mut interner = Interner::new();
    let defs = sequence_definition(&mut interner, "s", "abc", "done");
    let s = intern(&mut interner, "s");
    let done = intern(&mut interner, "done");
    let automata = Automata::resolve_from(defs, &mut interner);

    // one entry per synthetic state, plus the source state itself
    assert_eq!(automata.state_names().len(), 3);

    let m0 = follow(&automata, s, 'a');
    assert_ne!(m0, s);
    let m1 = follow(&automata, m0, 'b');
    assert_ne!(m1, m0);
    let end = follow(&automata, m1, 'c');
    assert_eq!(end, done);
    // synthetic names resolve to readable text
    assert!(snow_automata::string_interning::intern_get_str(&interner, m0)
        .unwrap()
        .contains("intermediate"));
}

#[test]
fn single_character_sequence_behaves_like_a_literal() {
    let mut interner = Interner::new();
    let defs = sequence_definition(&mut interner, "s", "a", "done");
    let s = intern(&mut interner, "s");
    let done = intern(&mut interner, "done");
    let automata = Automata::resolve_from(defs, &mut interner);
    assert_eq!(automata.state_names().len(), 1);
    assert_eq!(follow(&automata, s, 'a'), done);
}

#[test]
fn sequence_to_return_destination() {
    let mut interner = Interner::new();
    let name = intern(&mut interner, "s");
    let out = intern(&mut interner, "out");
    let mut def = StateDefinition::new(name);
    def.push_statement(Statement::new(
        Destination::Return(out),
        StatementMatchKind::Sequence(vec!['g', 'o']),
    ));
    let automata = Automata::resolve_from(vec![def], &mut interner);
    let m0 = follow(&automata, name, 'g');
    let t = automata.get_table(m0).unwrap();
    assert_eq!(t.get_return_state('o'), Some(out));
    assert!(t.get_transitions('o').is_empty());
}

fn observe(automata: &Automata) -> Vec<(InternedString, Vec<(char, InternedString)>, Vec<(char, InternedString)>)> {
    automata
        .state_names()
        .iter()
        .map(|name| {
            let t = automata.get_table(*name).unwrap();
            (*name, t.transition_entries(), t.return_entries())
        })
        .collect()
}

#[test]
fn compiling_twice_in_one_process_is_reproducible() {
    let source = "state s { 'a'..'c' => t; _ => u; } state t { 'x' => return done; }";
    let mut interner = Interner::new();
    let first = compile(source, &mut interner);
    let second = compile(source, &mut interner);
    assert_eq!(observe(&first), observe(&second));
}

#[test]
fn sequence_topology_is_reproducible_across_interners() {
    let mut interner1 = Interner::new();
    let defs1 = sequence_definition(&mut interner1, "s", "ab", "done");
    let automata1 = Automata::resolve_from(defs1, &mut interner1);

    let mut interner2 = Interner::new();
    // a different interner state beforehand must not change the shape
    let _ = intern(&mut interner2, "unrelated");
    let defs2 = sequence_definition(&mut interner2, "s", "ab", "done");
    let automata2 = Automata::resolve_from(defs2, &mut interner2);

    assert_eq!(automata1.state_names().len(), automata2.state_names().len());
    let s1 = intern(&mut interner1, "s");
    let s2 = intern(&mut interner2, "s");
    let m1 = follow(&automata1, s1, 'a');
    let m2 = follow(&automata2, s2, 'a');
    assert_eq!(
        follow(&automata1, m1, 'b'),
        intern(&mut interner1, "done")
    );
    assert_eq!(
        follow(&automata2, m2, 'b'),
        intern(&mut interner2, "done")
    );
}

#[test]
fn char_range_iterator_walks_the_range() {
    let range = CharRange::new('x', 'z');
    let mut iter = range.into_iter();
    assert_eq!(iter.next(), Some('x'));
    assert_eq!(iter.next(), Some('y'));
    assert_eq!(iter.next(), Some('z'));
    assert_eq!(iter.next(), None);
    assert_eq!(iter.next(), None);
}

#[test]
fn range_across_surrogate_gap_skips_unassignable_values() {
    let from = char::from_u32(0xD7FE).unwrap();
    let to = char::from_u32(0xE001).unwrap();
    let range = CharRange::new(from, to);
    let mut iter = range.into_iter();
    let mut seen = Vec::new();
    while let Some(c) = iter.next() {
        seen.push(c as u32);
    }
    assert_eq!(seen, vec![0xD7FE, 0xD7FF, 0xE000, 0xE001]);
}

#[test]
fn dangling_destination_is_accepted_silently() {
    let mut interner = Interner::new();
    let automata = compile("state s { 'a' => nowhere }", &mut interner);
    let nowhere = intern(&mut interner, "nowhere");
    let t = table(&automata, &mut interner, "s");
    assert_eq!(t.get_transitions('a'), vec![nowhere]);
    assert!(automata.get_table(nowhere).is_none());
}

#[test]
fn similar_names_never_share_intermediate_states() {
    let mut interner = Interner::new();
    let x_to = intern(&mut interner, "x_to");
    let y = intern(&mut interner, "y");
    let x = intern(&mut interner, "x");
    let to_y = intern(&mut interner, "to_y");
    let mut def1 = StateDefinition::new(x_to);
    def1.push_statement(Statement::new(
        Destination::State(y),
        StatementMatchKind::Sequence(vec!['p', 'q']),
    ));
    let mut def2 = StateDefinition::new(x);
    def2.push_statement(Statement::new(
        Destination::State(to_y),
        StatementMatchKind::Sequence(vec!['p', 'q']),
    ));
    let automata = Automata::resolve_from(vec![def1, def2], &mut interner);
    // two sources, each with its own intermediate state
    assert_eq!(automata.state_names().len(), 4);
    let m1 = follow(&automata, x_to, 'p');
    let m2 = follow(&automata, x, 'p');
    assert_ne!(m1, m2);
    assert_eq!(follow(&automata, m1, 'q'), y);
    assert_eq!(follow(&automata, m2, 'q'), to_y);
}

#[test]
fn state_and_return_destinations_never_share_intermediate_states() {
    let mut interner = Interner::new();
    let s = intern(&mut interner, "s");
    let return_d = intern(&mut interner, "return_d");
    let d = intern(&mut interner, "d");
    let mut def = StateDefinition::new(s);
    def.push_statement(Statement::new(
        Destination::State(return_d),
        StatementMatchKind::Sequence(vec!['a', 'b']),
    ));
    def.push_statement(Statement::new(
        Destination::Return(d),
        StatementMatchKind::Sequence(vec!['a', 'b']),
    ));
    let automata = Automata::resolve_from(vec![def], &mut interner);
    let t = automata.get_table(s).unwrap();
    let heads = t.get_transitions('a');
    assert_eq!(heads.len(), 2);
    assert_ne!(heads[0], heads[1]);
    let t1 = automata.get_table(heads[0]).unwrap();
    assert_eq!(t1.get_transitions('b'), vec![return_d]);
    assert_eq!(t1.get_return_state('b'), None);
    let t2 = automata.get_table(heads[1]).unwrap();
    assert!(t2.get_transitions('b').is_empty());
    assert_eq!(t2.get_return_state('b'), Some(d));
}
