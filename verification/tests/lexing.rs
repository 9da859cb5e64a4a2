use snow_automata::lexer::{AutomataParser, LexErrorKind};
use snow_automata::string_interning::{intern, Interner};
use snow_automata::tokens::{ScopeType, TokenKind};

fn lex_all_kinds(source: &str, interner: &mut Interner) -> (Vec<TokenKind>, AutomataParser) {
    let input: Vec<char> = source.chars().collect();
    let mut lexer = AutomataParser::new(input);
    let mut kinds = Vec::new();
    while let Some(token) = lexer.get_next_token(interner) {
        kinds.push(token.kind);
    }
    (kinds, lexer)
}

#[test]
fn token_kinds_in_order() {
    let mut interner = Interner::new();
    let (kinds, lexer) = lex_all_kinds("ab 12 => z; { } .. ' c ' _", &mut interner);
    let ab = intern(&mut interner, "ab");
    let z = intern(&mut interner, "z");
    assert_eq!(
        kinds,
        vec![
            TokenKind::Identifier(ab),
            TokenKind::Integer(12),
            TokenKind::Arrow,
            TokenKind::Identifier(z),
            TokenKind::SemiColumn,
            TokenKind::Scope(ScopeType::Open),
            TokenKind::Scope(ScopeType::Close),
            TokenKind::Range,
            TokenKind::Char('c'),
            TokenKind::UnderScore,
        ]
    );
    assert!(lexer.errors().is_empty());
}

#[test]
fn line_and_column_positions() {
    let mut interner = Interner::new();
    let input: Vec<char> = "ab\ncd".chars().collect();
    let mut lexer = AutomataParser::new(input);
    let first = lexer.get_next_token(&mut interner).unwrap();
    let second = lexer.get_next_token(&mut interner).unwrap();
    assert_eq!(first.debug_info.line_location, (0, 0));
    assert_eq!(first.debug_info.column_location, (0, 2));
    assert_eq!(first.debug_info.index_location, (0, 2));
    assert_eq!(second.debug_info.line_location, (1, 1));
    assert_eq!(second.debug_info.column_location, (0, 2));
    assert_eq!(second.debug_info.index_location, (3, 5));
    assert!(lexer.get_next_token(&mut interner).is_none());
}

#[test]
fn digit_followed_by_letter_is_signaled() {
    let mut interner = Interner::new();
    let (kinds, lexer) = lex_all_kinds("12x", &mut interner);
    let x = intern(&mut interner, "x");
    assert_eq!(kinds, vec![TokenKind::Integer(12), TokenKind::Identifier(x)]);
    assert_eq!(lexer.errors().len(), 1);
    assert_eq!(lexer.errors()[0].kind, LexErrorKind::DigitFollowedByLetter);
}

#[test]
fn malformed_arrow_is_signaled_and_lexing_continues() {
    let mut interner = Interner::new();
    let (kinds, lexer) = lex_all_kinds("= a", &mut interner);
    let a = intern(&mut interner, "a");
    assert_eq!(kinds, vec![TokenKind::Identifier(a)]);
    assert_eq!(lexer.errors().len(), 1);
    assert_eq!(lexer.errors()[0].kind, LexErrorKind::MalformedArrow);
}

#[test]
fn malformed_range_is_signaled_and_lexing_continues() {
    let mut interner = Interner::new();
    let (kinds, lexer) = lex_all_kinds(". a", &mut interner);
    let a = intern(&mut interner, "a");
    assert_eq!(kinds, vec![TokenKind::Identifier(a)]);
    assert_eq!(lexer.errors().len(), 1);
    assert_eq!(lexer.errors()[0].kind, LexErrorKind::MalformedRange);
}

#[test]
fn unterminated_char_literal_is_signaled() {
    let mut interner = Interner::new();
    let (kinds, lexer) = lex_all_kinds("'a", &mut interner);
    assert_eq!(kinds, Vec::<TokenKind>::new());
    assert_eq!(lexer.errors().len(), 1);
    assert_eq!(lexer.errors()[0].kind, LexErrorKind::UnterminatedCharLiteral);
}

#[test]
fn char_literal_missing_close_continues_at_next_token() {
    let mut interner = Interner::new();
    let (kinds, lexer) = lex_all_kinds("'a b", &mut interner);
    let b = intern(&mut interner, "b");
    assert_eq!(kinds, vec![TokenKind::Identifier(b)]);
    assert_eq!(lexer.errors().len(), 1);
    assert_eq!(lexer.errors()[0].kind, LexErrorKind::UnterminatedCharLiteral);
}

#[test]
fn unrecognized_character_is_skipped() {
    let mut interner = Interner::new();
    let (kinds, lexer) = lex_all_kinds("@ ab", &mut interner);
    let ab = intern(&mut interner, "ab");
    assert_eq!(kinds, vec![TokenKind::Identifier(ab)]);
    assert_eq!(lexer.errors().len(), 1);
    assert_eq!(lexer.errors()[0].kind, LexErrorKind::UnrecognizedCharacter);
}

#[test]
fn integer_saturates_at_largest_value() {
    let mut interner = Interner::new();
    let (kinds, lexer) = lex_all_kinds("2147483650", &mut interner);
    assert_eq!(kinds, vec![TokenKind::Integer(i32::MAX)]);
    assert!(lexer.errors().is_empty());
}

#[test]
fn empty_input_yields_no_tokens() {
    let mut interner = Interner::new();
    let (kinds, lexer) = lex_all_kinds("", &mut interner);
    assert!(kinds.is_empty());
    assert!(lexer.errors().is_empty());
}

#[test]
fn tokenize_collects_every_token() {
    let mut interner = Interner::new();
    let input: Vec<char> = "state s { 'a' => b }".chars().collect();
    let mut lexer = AutomataParser::new(input);
    let tokens = lexer.tokenize(&mut interner);
    assert_eq!(tokens.len(), 7);
    assert!(lexer.errors().is_empty());
    assert!(lexer.get_next_token(&mut interner).is_none());
}
