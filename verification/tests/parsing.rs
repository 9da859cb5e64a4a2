use snow_automata::statements::{Destination, StatementMatchKind};
use snow_automata::string_interning::{intern, Interner};
use snow_automata::syntax::{SyntaxParser, SyntaxErrorKind};

fn parse_source(
    source: &str,
    interner: &mut Interner,
) -> (Vec<snow_automata::states::StateDefinition>, SyntaxParser) {
    let input: Vec<char> = source.chars().collect();
    let mut parser = SyntaxParser::new(input);
    let defs = parser.parse(interner);
    (defs, parser)
}

#[test]
fn single_state_with_literal_statement() {
    let mut interner = Interner::new();
    let (defs, parser) = parse_source("state s { 'a' => b }", &mut interner);
    let s = intern(&mut interner, "s");
    let b = intern(&mut interner, "b");
    assert_eq!(defs.len(), 1);
    assert_eq!(defs[0].name, s);
    assert_eq!(defs[0].statements.len(), 1);
    assert_eq!(defs[0].statements[0].match_kind, StatementMatchKind::Literal('a'));
    assert_eq!(defs[0].statements[0].destination, Destination::State(b));
    assert!(parser.syntax_errors().is_empty());
    assert!(parser.lex_errors().is_empty());
}

#[test]
fn semicolons_separate_statements() {
    let mut interner = Interner::new();
    let (defs, parser) = parse_source("state s { 'a' => x; 'b' => y; }", &mut interner);
    assert_eq!(defs.len(), 1);
    assert_eq!(defs[0].statements.len(), 2);
    assert!(parser.syntax_errors().is_empty());
}

#[test]
fn range_statement_is_parsed() {
    let mut interner = Interner::new();
    let (defs, parser) = parse_source("state s { 'a'..'c' => nxt }", &mut interner);
    assert_eq!(defs.len(), 1);
    assert_eq!(defs[0].statements.len(), 1);
    assert!(matches!(defs[0].statements[0].match_kind, StatementMatchKind::Range(_)));
    assert!(parser.syntax_errors().is_empty());
}

#[test]
fn default_statement_is_parsed() {
    let mut interner = Interner::new();
    let (defs, parser) = parse_source("state s { _ => fallback }", &mut interner);
    assert_eq!(defs.len(), 1);
    assert_eq!(defs[0].statements[0].match_kind, StatementMatchKind::Default);
    assert!(parser.syntax_errors().is_empty());
}

#[test]
fn return_destination_is_parsed() {
    let mut interner = Interner::new();
    let (defs, parser) = parse_source("state s { 'q' => return accept; }", &mut interner);
    let accept = intern(&mut interner, "accept");
    assert_eq!(defs.len(), 1);
    assert_eq!(defs[0].statements[0].destination, Destination::Return(accept));
    assert!(parser.syntax_errors().is_empty());
}

#[test]
fn malformed_definition_still_yields_later_definition() {
    let mut interner = Interner::new();
    let (defs, parser) =
        parse_source("state broken 'x' => state ok { 'x' => y }", &mut interner);
    let ok = intern(&mut interner, "ok");
    assert_eq!(defs.len(), 2);
    assert_eq!(defs[1].name, ok);
    assert_eq!(defs[1].statements.len(), 1);
    assert!(!parser.syntax_errors().is_empty());
}

#[test]
fn definition_start_error() {
    let mut interner = Interner::new();
    let (defs, parser) = parse_source("foo", &mut interner);
    assert!(defs.is_empty());
    assert_eq!(parser.syntax_errors().len(), 1);
    assert_eq!(parser.syntax_errors()[0].kind, SyntaxErrorKind::DefinitionStart);
}

#[test]
fn missing_state_name_error() {
    let mut interner = Interner::new();
    let (defs, parser) = parse_source("state", &mut interner);
    assert_eq!(defs.len(), 1);
    assert_eq!(parser.syntax_errors().len(), 1);
    assert_eq!(parser.syntax_errors()[0].kind, SyntaxErrorKind::MissingStateName);
}

#[test]
fn missing_open_brace_error() {
    let mut interner = Interner::new();
    let (defs, parser) = parse_source("state s 'a'", &mut interner);
    assert_eq!(defs.len(), 1);
    assert!(defs[0].statements.is_empty());
    assert!(parser
        .syntax_errors()
        .iter()
        .any(|e| e.kind == SyntaxErrorKind::MissingOpenBrace));
}

#[test]
fn unclosed_state_body_error() {
    let mut interner = Interner::new();
    let (defs, parser) = parse_source("state s {", &mut interner);
    assert_eq!(defs.len(), 1);
    assert!(parser
        .syntax_errors()
        .iter()
        .any(|e| e.kind == SyntaxErrorKind::UnclosedStateBody));
}

#[test]
fn unseparated_match_error() {
    let mut interner = Interner::new();
    let (defs, parser) = parse_source("state s { 'a' 'b' => x }", &mut interner);
    assert_eq!(defs.len(), 1);
    assert_eq!(defs[0].statements.len(), 2);
    assert!(parser
        .syntax_errors()
        .iter()
        .any(|e| e.kind == SyntaxErrorKind::UnseparatedMatch));
}

#[test]
fn range_needs_opening_literal_error() {
    let mut interner = Interner::new();
    let (_defs, parser) = parse_source("state s { .. => x }", &mut interner);
    assert!(parser
        .syntax_errors()
        .iter()
        .any(|e| e.kind == SyntaxErrorKind::RangeNeedsOpeningLiteral));
}

#[test]
fn range_open_not_literal_error() {
    let mut interner = Interner::new();
    let (_defs, parser) = parse_source("state s { _ .. => x }", &mut interner);
    assert!(parser
        .syntax_errors()
        .iter()
        .any(|e| e.kind == SyntaxErrorKind::RangeOpenNotLiteral));
}

#[test]
fn missing_range_close_error() {
    let mut interner = Interner::new();
    let (_defs, parser) = parse_source("state s { 'a' .. x => y }", &mut interner);
    assert!(parser
        .syntax_errors()
        .iter()
        .any(|e| e.kind == SyntaxErrorKind::MissingRangeClose));
}

#[test]
fn missing_destination_error() {
    let mut interner = Interner::new();
    let (_defs, parser) = parse_source("state s { 'a' => 12 }", &mut interner);
    assert!(parser
        .syntax_errors()
        .iter()
        .any(|e| e.kind == SyntaxErrorKind::MissingDestination));
}

#[test]
fn missing_return_identifier_error() {
    let mut interner = Interner::new();
    let (_defs, parser) = parse_source("state s { 'a' => return 12 }", &mut interner);
    assert!(parser
        .syntax_errors()
        .iter()
        .any(|e| e.kind == SyntaxErrorKind::MissingReturnIdentifier));
}

#[test]
fn missing_return_identifier_at_end_of_input() {
    let mut interner = Interner::new();
    let (_defs, parser) = parse_source("state s { 'a' => return", &mut interner);
    assert!(parser
        .syntax_errors()
        .iter()
        .any(|e| e.kind == SyntaxErrorKind::MissingReturnIdentifier));
}

#[test]
fn empty_source_parses_to_nothing() {
    let mut interner = Interner::new();
    let (defs, parser) = parse_source("", &mut interner);
    assert!(defs.is_empty());
    assert!(parser.syntax_errors().is_empty());
    assert!(parser.lex_errors().is_empty());
}
