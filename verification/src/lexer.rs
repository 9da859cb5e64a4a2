//! The lexer: turns source text into positioned tokens.
//!
//! Whitespace is consumed and never emitted; a newline advances the line
//! counter and resets the column counter. Any run of whitespace acts as a
//! single separator, inside character literals too — `' c '` lexes as the
//! character `c`, which also means a literal space character cannot be
//! written. Lexical errors are recorded as structured [`LexError`]
//! diagnostics and never halt lexing: scanning continues at the next
//! plausible position. The end of the input yields no further tokens,
//! which is a normal terminal condition, not an error.

use vstd::assert_seqs_equal;
use vstd::prelude::*;
use crate::string_interning::{
    intern_index, intern_insert, lemma_intern_index, lemma_intern_resolve, lemma_sym_id, sym,
    Interner,
};
use crate::tokens::{ScopeType, Token, TokenDebugInfo, TokenKind};
use crate::text::push_char;

verus! {

/// Whitespace: space, tab, carriage return or newline.
pub open spec fn is_ws(c: char) -> bool {
    c == ' ' || c == '\t' || c == '\r' || c == '\n'
}

/// An ASCII letter: identifiers start with one.
pub open spec fn is_alpha(c: char) -> bool {
    ('a' as u32 <= c as u32 && c as u32 <= 'z' as u32) || ('A' as u32 <= c as u32 && c as u32
        <= 'Z' as u32)
}

/// A decimal digit.
pub open spec fn is_digit(c: char) -> bool {
    '0' as u32 <= c as u32 && c as u32 <= '9' as u32
}

/// A character that may continue an identifier.
pub open spec fn is_ident_char(c: char) -> bool {
    is_alpha(c) || is_digit(c) || c == '_'
}

/// The length of the whitespace run starting at `p`.
pub open spec fn ws_run(input: Seq<char>, p: int) -> nat
    decreases input.len() - p,
{
    if 0 <= p < input.len() && is_ws(input[p]) {
        1nat + ws_run(input, p + 1)
    } else {
        0
    }
}

/// The first position at or after `p` that does not hold whitespace.
pub open spec fn skip_ws_from(input: Seq<char>, p: int) -> int {
    p + ws_run(input, p)
}

/// The end of the identifier run starting at `p`.
pub open spec fn ident_end(input: Seq<char>, p: int) -> int
    decreases input.len() - p,
{
    if 0 <= p < input.len() && is_ident_char(input[p]) {
        ident_end(input, p + 1)
    } else {
        p
    }
}

/// The end of the digit run starting at `p`.
pub open spec fn digit_end(input: Seq<char>, p: int) -> int
    decreases input.len() - p,
{
    if 0 <= p < input.len() && is_digit(input[p]) {
        digit_end(input, p + 1)
    } else {
        p
    }
}

/// The numeric value of a digit character.
pub open spec fn digit_val(c: char) -> int {
    c as u32 - '0' as u32
}

/// The value of a run of decimal digits.
pub open spec fn digits_value(s: Seq<char>) -> int
    decreases s.len(),
{
    if s.len() == 0 {
        0
    } else {
        digits_value(s.drop_last()) * 10 + digit_val(s.last())
    }
}

/// The value of a digit run, saturated at the largest representable
/// integer.
pub open spec fn sat_i32(v: int) -> int {
    if v > i32::MAX {
        i32::MAX as int
    } else {
        v
    }
}

/// The line a position stands on: the number of newlines before it.
pub open spec fn line_of(input: Seq<char>, p: int) -> int
    decreases p,
{
    if p <= 0 {
        0
    } else {
        line_of(input, p - 1) + if input[p - 1] == '\n' {
            1int
        } else {
            0int
        }
    }
}

/// The column of a position: how far it stands from the last newline.
pub open spec fn col_of(input: Seq<char>, p: int) -> int
    decreases p,
{
    if p <= 0 {
        0
    } else if input[p - 1] == '\n' {
        0
    } else {
        col_of(input, p - 1) + 1
    }
}

/// Line and column numbers never exceed the position itself.
pub proof fn lemma_line_col_bounds(input: Seq<char>, p: int)
    requires
        p >= 0,
    ensures
        0 <= line_of(input, p) <= p,
        0 <= col_of(input, p) <= p,
    decreases p,
{
    if p > 0 {
        lemma_line_col_bounds(input, p - 1);
    }
}

/// The debug info of a token spanning `[start, end)`.
pub open spec fn debug_of(input: Seq<char>, start: int, end: int) -> TokenDebugInfo {
    TokenDebugInfo {
        column_location: (col_of(input, start) as usize, col_of(input, end) as usize),
        line_location: (line_of(input, start) as usize, line_of(input, end) as usize),
        index_location: (start as usize, end as usize),
    }
}

/// The kinds of lexical error.
#[derive(Debug, Copy, Clone, PartialEq, Eq, Structural)]
pub enum LexErrorKind {
    /// A run of digits was immediately followed by a letter.
    DigitFollowedByLetter,
    /// `=` was not followed by `>`.
    MalformedArrow,
    /// `.` was not followed by a second `.`.
    MalformedRange,
    /// A character literal missed its character or its closing quote.
    UnterminatedCharLiteral,
    /// A character no token starts with.
    UnrecognizedCharacter,
}

/// A structured lexical diagnostic: what went wrong, and where.
#[derive(Debug, Clone, PartialEq, Eq)]
pub struct LexError {
    pub kind: LexErrorKind,
    pub debug_info: TokenDebugInfo,
}

/// A token without its interned identifier handle: what the lexer finds
/// in the text, before the interner is consulted.
pub ghost enum TokenM {
    Ident(Seq<char>),
    Integer(int),
    Chr(char),
    Arrow,
    Column,
    Rng,
    SemiColumn,
    ScopeOpen,
    ScopeClose,
    UnderScore,
}

/// A lexical diagnostic in the model: its kind and span.
pub ghost struct LexErrM {
    pub kind: LexErrorKind,
    pub start: int,
    pub end: int,
}

/// The outcome of scanning for one token: the token found (or none at
/// the end of the input), its span, the position scanning stopped at,
/// and the diagnostics recorded on the way.
pub ghost struct ScanResult {
    pub token: Option<TokenM>,
    pub start: int,
    pub end: int,
    pub errs: Seq<LexErrM>,
}

/// Scan for one token at position `p`, which must not hold whitespace.
/// Malformed input is recorded as a diagnostic and scanning continues at
/// the next plausible position.
pub open spec fn scan_measure(input: Seq<char>, p: int) -> int {
    if p <= input.len() {
        input.len() - p
    } else {
        0
    }
}

pub open spec fn scan_at(input: Seq<char>, p: int) -> ScanResult
    decreases scan_measure(input, p),
{
    if !(0 <= p < input.len()) {
        ScanResult { token: None, start: p, end: p, errs: Seq::empty() }
    } else {
        let c = input[p];
        if is_alpha(c) {
            let e = ident_end(input, p + 1);
            ScanResult {
                token: Some(TokenM::Ident(input.subrange(p, e))),
                start: p,
                end: e,
                errs: Seq::empty(),
            }
        } else if is_digit(c) {
            let e = digit_end(input, p + 1);
            let v = sat_i32(digits_value(input.subrange(p, e)));
            let errs = if e < input.len() && is_alpha(input[e]) {
                seq![LexErrM { kind: LexErrorKind::DigitFollowedByLetter, start: p, end: e }]
            } else {
                Seq::empty()
            };
            ScanResult { token: Some(TokenM::Integer(v)), start: p, end: e, errs }
        } else if c == '=' {
            if p + 1 < input.len() && input[p + 1] == '>' {
                ScanResult { token: Some(TokenM::Arrow), start: p, end: p + 2, errs: Seq::empty() }
            } else {
                let rest = scan_at(input, skip_ws_from(input, p + 1));
                ScanResult {
                    token: rest.token,
                    start: rest.start,
                    end: rest.end,
                    errs: seq![
                        LexErrM { kind: LexErrorKind::MalformedArrow, start: p, end: p + 1 },
                    ] + rest.errs,
                }
            }
        } else if c == '.' {
            if p + 1 < input.len() && input[p + 1] == '.' {
                ScanResult { token: Some(TokenM::Rng), start: p, end: p + 2, errs: Seq::empty() }
            } else {
                let rest = scan_at(input, skip_ws_from(input, p + 1));
                ScanResult {
                    token: rest.token,
                    start: rest.start,
                    end: rest.end,
                    errs: seq![
                        LexErrM { kind: LexErrorKind::MalformedRange, start: p, end: p + 1 },
                    ] + rest.errs,
                }
            }
        } else if c == ':' {
            ScanResult { token: Some(TokenM::Column), start: p, end: p + 1, errs: Seq::empty() }
        } else if c == ';' {
            ScanResult { token: Some(TokenM::SemiColumn), start: p, end: p + 1, errs: Seq::empty() }
        } else if c == '{' {
            ScanResult { token: Some(TokenM::ScopeOpen), start: p, end: p + 1, errs: Seq::empty() }
        } else if c == '}' {
            ScanResult { token: Some(TokenM::ScopeClose), start: p, end: p + 1, errs: Seq::empty() }
        } else if c == '_' {
            ScanResult { token: Some(TokenM::UnderScore), start: p, end: p + 1, errs: Seq::empty() }
        } else if c == '\'' {
            let q = skip_ws_from(input, p + 1);
            if q >= input.len() {
                ScanResult {
                    token: None,
                    start: q,
                    end: q,
                    errs: seq![
                        LexErrM {
                            kind: LexErrorKind::UnterminatedCharLiteral,
                            start: p,
                            end: input.len() as int,
                        },
                    ],
                }
            } else {
                let mid = input[q];
                let r = skip_ws_from(input, q + 1);
                if r >= input.len() {
                    ScanResult {
                        token: None,
                        start: r,
                        end: r,
                        errs: seq![
                            LexErrM {
                                kind: LexErrorKind::UnterminatedCharLiteral,
                                start: p,
                                end: input.len() as int,
                            },
                        ],
                    }
                } else if input[r] == '\'' {
                    ScanResult {
                        token: Some(TokenM::Chr(mid)),
                        start: p,
                        end: r + 1,
                        errs: Seq::empty(),
                    }
                } else {
                    let rest = scan_at(input, r);
                    ScanResult {
                        token: rest.token,
                        start: rest.start,
                        end: rest.end,
                        errs: seq![
                            LexErrM {
                                kind: LexErrorKind::UnterminatedCharLiteral,
                                start: p,
                                end: r,
                            },
                        ] + rest.errs,
                    }
                }
            }
        } else {
            let rest = scan_at(input, skip_ws_from(input, p + 1));
            ScanResult {
                token: rest.token,
                start: rest.start,
                end: rest.end,
                errs: seq![
                    LexErrM { kind: LexErrorKind::UnrecognizedCharacter, start: p, end: p + 1 },
                ] + rest.errs,
            }
        }
    }
}

/// Scan for the next token from position `pos`: skip whitespace, then
/// scan.
pub open spec fn next_token_from(input: Seq<char>, pos: int) -> ScanResult {
    scan_at(input, skip_ws_from(input, pos))
}

/// The exec diagnostic a model diagnostic stands for.
pub open spec fn lex_err_of(input: Seq<char>, e: LexErrM) -> LexError {
    LexError { kind: e.kind, debug_info: debug_of(input, e.start, e.end) }
}

/// The exec diagnostics a run of model diagnostics stands for.
pub open spec fn lex_errs_of(input: Seq<char>, errs: Seq<LexErrM>) -> Seq<LexError> {
    errs.map(|i: int, e: LexErrM| lex_err_of(input, e))
}

/// The token kind a model token stands for, for every kind that carries
/// no identifier handle.
pub open spec fn plain_kind_of(tm: TokenM) -> TokenKind
    recommends
        !(tm is Ident),
{
    match tm {
        TokenM::Ident(_) => arbitrary(),
        TokenM::Integer(v) => TokenKind::Integer(v as i32),
        TokenM::Chr(c) => TokenKind::Char(c),
        TokenM::Arrow => TokenKind::Arrow,
        TokenM::Column => TokenKind::Column,
        TokenM::Rng => TokenKind::Range,
        TokenM::SemiColumn => TokenKind::SemiColumn,
        TokenM::ScopeOpen => TokenKind::Scope(ScopeType::Open),
        TokenM::ScopeClose => TokenKind::Scope(ScopeType::Close),
        TokenM::UnderScore => TokenKind::UnderScore,
    }
}

/// Skipping whitespace stops at the first non-whitespace position, and
/// skipping again moves no further.
pub proof fn lemma_skip_ws(input: Seq<char>, p: int)
    requires
        0 <= p,
    ensures
        p <= skip_ws_from(input, p),
        p <= input.len() ==> skip_ws_from(input, p) <= input.len(),
        p > input.len() ==> skip_ws_from(input, p) == p,
        skip_ws_from(input, p) < input.len() ==> !is_ws(input[skip_ws_from(input, p)]),
        skip_ws_from(input, skip_ws_from(input, p)) == skip_ws_from(input, p),
    decreases input.len() - p,
{
    if 0 <= p < input.len() && is_ws(input[p]) {
        lemma_skip_ws(input, p + 1);
    }
}

/// Digit runs have nonnegative values.
pub proof fn lemma_digits_value_nonneg(s: Seq<char>)
    requires
        forall|k: int| 0 <= k < s.len() ==> is_digit(#[trigger] s[k]),
    ensures
        digits_value(s) >= 0,
    decreases s.len(),
{
    if s.len() > 0 {
        assert(forall|k: int|
            0 <= k < s.drop_last().len() ==> is_digit(#[trigger] s.drop_last()[k]));
        lemma_digits_value_nonneg(s.drop_last());
        let v = digits_value(s.drop_last());
        assert(is_digit(s.last()));
        assert(v * 10 >= 0) by (nonlinear_arith)
            requires
                v >= 0,
        ;
    }
}

fn is_ws_exec(c: char) -> (b: bool)
    ensures
        b == is_ws(c),
{
    c == ' ' || c == '\t' || c == '\r' || c == '\n'
}

fn is_alpha_exec(c: char) -> (b: bool)
    ensures
        b == is_alpha(c),
{
    let u = c as u32;
    ('a' as u32 <= u && u <= 'z' as u32) || ('A' as u32 <= u && u <= 'Z' as u32)
}

fn is_digit_exec(c: char) -> (b: bool)
    ensures
        b == is_digit(c),
{
    let u = c as u32;
    '0' as u32 <= u && u <= '9' as u32
}

fn is_ident_char_exec(c: char) -> (b: bool)
    ensures
        b == is_ident_char(c),
{
    is_alpha_exec(c) || is_digit_exec(c) || c == '_'
}


/// Identifier runs end at or after where they start, inside the input.
pub proof fn lemma_ident_end_bounds(input: Seq<char>, p: int)
    requires
        0 <= p,
    ensures
        p <= ident_end(input, p),
        ident_end(input, p) <= input.len() || ident_end(input, p) == p,
    decreases input.len() - p,
{
    if 0 <= p < input.len() && is_ident_char(input[p]) {
        lemma_ident_end_bounds(input, p + 1);
    }
}

/// Digit runs end at or after where they start, inside the input.
pub proof fn lemma_digit_end_bounds(input: Seq<char>, p: int)
    requires
        0 <= p,
    ensures
        p <= digit_end(input, p),
        digit_end(input, p) <= input.len() || digit_end(input, p) == p,
    decreases input.len() - p,
{
    if 0 <= p < input.len() && is_digit(input[p]) {
        lemma_digit_end_bounds(input, p + 1);
    }
}

/// Scanning moves forward: a token ends past the position scanning
/// began at, and never past the end of the input.
pub proof fn lemma_scan_advances(input: Seq<char>, pos: int)
    requires
        0 <= pos <= input.len(),
    ensures
        ({
            let sr = next_token_from(input, pos);
            &&& sr.token is Some ==> pos < sr.end <= input.len()
            &&& sr.token is None ==> sr.end == input.len()
        }),
    decreases scan_measure(input, pos),
{
    lemma_skip_ws(input, pos);
    let p = skip_ws_from(input, pos);
    if 0 <= p < input.len() {
        let c = input[p];
        if is_alpha(c) {
            lemma_ident_end_bounds(input, p + 1);
        } else if is_digit(c) {
            lemma_digit_end_bounds(input, p + 1);
        } else if c == '=' {
            if !(p + 1 < input.len() && input[p + 1] == '>') {
                lemma_skip_ws(input, p + 1);
                lemma_scan_advances(input, p + 1);
                assert(next_token_from(input, p + 1) == scan_at(input, skip_ws_from(input, p + 1)));
            }
        } else if c == '.' {
            if !(p + 1 < input.len() && input[p + 1] == '.') {
                lemma_skip_ws(input, p + 1);
                lemma_scan_advances(input, p + 1);
            }
        } else if c == ':' || c == ';' || c == '{' || c == '}' || c == '_' {
        } else if c == '\'' {
            lemma_skip_ws(input, p + 1);
            let q = skip_ws_from(input, p + 1);
            if q < input.len() {
                lemma_skip_ws(input, q + 1);
                let r = skip_ws_from(input, q + 1);
                if r < input.len() && input[r] != '\'' {
                    lemma_scan_advances(input, r);
                    assert(skip_ws_from(input, r) == r);
                    assert(next_token_from(input, r) == scan_at(input, r));
                }
            }
        } else {
            lemma_skip_ws(input, p + 1);
            lemma_scan_advances(input, p + 1);
        }
    }
}


/// An identifier's text begins with a letter, never with a digit: no
/// identifier can spell a synthetic state name.
pub proof fn lemma_identifier_starts_with_letter(input: Seq<char>, pos: int)
    requires
        0 <= pos,
    ensures
        ({
            let sr = next_token_from(input, pos);
            match sr.token {
                Some(tm) => match tm {
                    TokenM::Ident(text) => text.len() > 0 && is_alpha(text[0]) && !is_digit(
                        text[0],
                    ),
                    _ => true,
                },
                None => true,
            }
        }),
    decreases scan_measure(input, pos),
{
    lemma_skip_ws(input, pos);
    let p = skip_ws_from(input, pos);
    if 0 <= p < input.len() {
        let c = input[p];
        if is_alpha(c) {
            lemma_ident_end_bounds(input, p + 1);
            let e = ident_end(input, p + 1);
            assert(input.subrange(p, e)[0] == input[p]);
        } else if is_digit(c) {
        } else if c == '=' {
            if !(p + 1 < input.len() && input[p + 1] == '>') {
                lemma_identifier_starts_with_letter(input, p + 1);
            }
        } else if c == '.' {
            if !(p + 1 < input.len() && input[p + 1] == '.') {
                lemma_identifier_starts_with_letter(input, p + 1);
            }
        } else if c == ':' || c == ';' || c == '{' || c == '}' || c == '_' {
        } else if c == '\'' {
            lemma_skip_ws(input, p + 1);
            let q = skip_ws_from(input, p + 1);
            if q < input.len() {
                lemma_skip_ws(input, q + 1);
                let r = skip_ws_from(input, q + 1);
                if r < input.len() && input[r] != '\'' {
                    lemma_identifier_starts_with_letter(input, r);
                    assert(skip_ws_from(input, r) == r);
                }
            }
        } else {
            lemma_identifier_starts_with_letter(input, p + 1);
        }
    }
}

/// The outcome of lexing the whole input: the interner table after every
/// identifier was interned, the tokens in order, and the diagnostics
/// recorded on the way.
pub ghost struct LexAllResult {
    pub strs: Seq<Seq<char>>,
    pub toks: Seq<Token>,
    pub errs: Seq<LexError>,
}

/// The token a scan outcome stands for, given the interner table it is
/// materialized against, and the table afterwards.
pub open spec fn materialize(
    strs: Seq<Seq<char>>,
    input: Seq<char>,
    sr: ScanResult,
    tm: TokenM,
) -> (Seq<Seq<char>>, Token) {
    match tm {
        TokenM::Ident(text) => (
            intern_insert(strs, text),
            Token {
                kind: TokenKind::Identifier(sym(intern_index(strs, text))),
                debug_info: debug_of(input, sr.start, sr.end),
            },
        ),
        _ => (
            strs,
            Token { kind: plain_kind_of(tm), debug_info: debug_of(input, sr.start, sr.end) },
        ),
    }
}

/// Lex the whole input from `pos`: every token in order, every
/// identifier interned as it completes.
pub open spec fn lex_all_m(strs: Seq<Seq<char>>, input: Seq<char>, pos: int) -> LexAllResult
    decreases scan_measure(input, pos),
{
    let sr = next_token_from(input, pos);
    match sr.token {
        None => LexAllResult { strs, toks: Seq::empty(), errs: lex_errs_of(input, sr.errs) },
        Some(tm) => {
            if !(pos < sr.end <= input.len()) {
                LexAllResult { strs, toks: Seq::empty(), errs: lex_errs_of(input, sr.errs) }
            } else {
                let m = materialize(strs, input, sr, tm);
                let rest = lex_all_m(m.0, input, sr.end);
                LexAllResult {
                    strs: rest.strs,
                    toks: seq![m.1] + rest.toks,
                    errs: lex_errs_of(input, sr.errs) + rest.errs,
                }
            }
        },
    }
}


/// No token of the sequence carries a literal character sequence.
pub open spec fn no_char_sequences(toks: Seq<Token>) -> bool {
    forall|j: int| 0 <= j < toks.len() ==> !((#[trigger] toks[j]).kind is CharSequence)
}

/// The lexer never produces a literal-sequence token.
pub proof fn lemma_lex_all_no_charseq(strs: Seq<Seq<char>>, input: Seq<char>, pos: int)
    ensures
        no_char_sequences(lex_all_m(strs, input, pos).toks),
    decreases scan_measure(input, pos),
{
    let sr = next_token_from(input, pos);
    match sr.token {
        None => {},
        Some(tm) => {
            if !(pos < sr.end <= input.len()) {
            } else {
                let m = materialize(strs, input, sr, tm);
                assert(!(m.1.kind is CharSequence));
                lemma_lex_all_no_charseq(m.0, input, sr.end);
                let rest = lex_all_m(m.0, input, sr.end);
                assert forall|j: int|
                    0 <= j < lex_all_m(strs, input, pos).toks.len() implies !((
                #[trigger] lex_all_m(strs, input, pos).toks[j]).kind is CharSequence) by {
                    if j > 0 {
                        assert(lex_all_m(strs, input, pos).toks[j] == rest.toks[j - 1]);
                    }
                }
            }
        },
    }
}


/// Every identifier token of a lexed stream carries a handle that
/// resolves, in the table lexing ends with, to a nonempty text beginning
/// with a letter.
pub open spec fn ident_syms_alpha(toks: Seq<Token>, strs: Seq<Seq<char>>) -> bool {
    forall|j: int|
        0 <= j < toks.len() ==> match (#[trigger] toks[j]).kind {
            TokenKind::Identifier(s) => {
                &&& 0 <= s.id() < strs.len()
                &&& strs[s.id()].len() > 0
                &&& is_alpha(strs[s.id()][0])
            },
            _ => true,
        }
}

/// Lexing only appends to the interner table, and every identifier it
/// hands out names a letter-initial text there.
pub proof fn lemma_lex_all_idents_alpha(strs: Seq<Seq<char>>, input: Seq<char>, pos: int)
    requires
        0 <= pos <= input.len(),
        strs.len() + input.len() - pos <= usize::MAX,
    ensures
        ({
            let r = lex_all_m(strs, input, pos);
            &&& strs.len() <= r.strs.len()
            &&& forall|k: int| 0 <= k < strs.len() ==> r.strs[k] == strs[k]
            &&& ident_syms_alpha(r.toks, r.strs)
        }),
    decreases scan_measure(input, pos),
{
    let sr = next_token_from(input, pos);
    lemma_scan_advances(input, pos);
    lemma_identifier_starts_with_letter(input, pos);
    let r = lex_all_m(strs, input, pos);
    match sr.token {
        None => {},
        Some(tm) => {
            if !(pos < sr.end <= input.len()) {
            } else {
                let m = materialize(strs, input, sr, tm);
                lemma_lex_all_idents_alpha(m.0, input, sr.end);
                let rest = lex_all_m(m.0, input, sr.end);
                match tm {
                    TokenM::Ident(text) => {
                        lemma_intern_index(strs, text);
                        lemma_sym_id(intern_index(strs, text));
                        lemma_intern_resolve(strs, text);
                        let h = sym(intern_index(strs, text));
                        assert(m.0[h.id()] == text);
                        assert(rest.strs[h.id()] == text);
                    },
                    _ => {},
                }
                assert forall|j: int|
                    0 <= j < r.toks.len() implies match (#[trigger] r.toks[j]).kind {
                    TokenKind::Identifier(s) => {
                        &&& 0 <= s.id() < r.strs.len()
                        &&& r.strs[s.id()].len() > 0
                        &&& is_alpha(r.strs[s.id()][0])
                    },
                    _ => true,
                } by {
                    if j == 0 {
                        assert(r.toks[0] == m.1);
                    } else {
                        assert(r.toks[j] == rest.toks[j - 1]);
                    }
                }
                assert(ident_syms_alpha(r.toks, r.strs));
                assert(strs.len() <= r.strs.len());
                assert forall|k: int| 0 <= k < strs.len() implies r.strs[k] == strs[k] by {
                    assert(m.0[k] == strs[k]);
                    assert(rest.strs[k] == m.0[k]);
                }
            }
        },
    }
}

/// What the lexer's state stands for: the input, the current position,
/// and the diagnostics recorded so far.
pub ghost struct LexerModel {
    pub input: Seq<char>,
    pub pos: int,
    pub errors: Seq<LexError>,
}

/// Parses input into a series of tokens.
#[derive(Debug)]
pub struct AutomataParser {
    input: Vec<char>,
    index: usize,
    line: usize,
    column: usize,
    errors: Vec<LexError>,
}

impl View for AutomataParser {
    type V = LexerModel;

    closed spec fn view(&self) -> LexerModel {
        LexerModel { input: self.input@, pos: self.index as int, errors: self.errors@ }
    }
}

impl AutomataParser {
    /// The position is inside the input and the line and column counters
    /// agree with it.
    pub closed spec fn wf(self) -> bool {
        &&& self.index <= self.input@.len()
        &&& self.line as int == line_of(self.input@, self.index as int)
        &&& self.column as int == col_of(self.input@, self.index as int)
    }

    /// Create a new lexer over the given input characters.
    pub fn new(input: Vec<char>) -> (r: AutomataParser)
        ensures
            r.wf(),
            r@.input == input@,
            r@.pos == 0,
            r@.errors == Seq::<LexError>::empty(),
    {
        AutomataParser { input, index: 0, line: 0, column: 0, errors: Vec::new() }
    }

    /// The diagnostics recorded so far, in the order they were found.
    pub fn errors(&self) -> (r: &Vec<LexError>)
        ensures
            r@ == self@.errors,
    {
        &self.errors
    }

    /// Step one character ahead, keeping the line and column counters
    /// right.
    fn advance(&mut self)
        requires
            old(self).wf(),
            old(self)@.pos < old(self)@.input.len(),
        ensures
            final(self).wf(),
            final(self)@.input == old(self)@.input,
            final(self)@.errors == old(self)@.errors,
            final(self)@.pos == old(self)@.pos + 1,
    {
        proof {
            lemma_line_col_bounds(self.input@, self.index as int);
        }
        let n = self.input.len();
        let c = self.input[self.index];
        self.index = self.index + 1;
        if c == '\n' {
            self.line = self.line + 1;
            self.column = 0;
        } else {
            self.column = self.column + 1;
        }
    }

    /// Consume the whitespace run at the current position.
    fn skip_whitespace(&mut self)
        requires
            old(self).wf(),
        ensures
            final(self).wf(),
            final(self)@.input == old(self)@.input,
            final(self)@.errors == old(self)@.errors,
            final(self)@.pos == skip_ws_from(old(self)@.input, old(self)@.pos),
    {
        while self.index < self.input.len() && is_ws_exec(self.input[self.index])
            invariant
                self.wf(),
                self@.input == old(self)@.input,
                self@.errors == old(self)@.errors,
                skip_ws_from(self@.input, self@.pos) == skip_ws_from(
                    old(self)@.input,
                    old(self)@.pos,
                ),
            decreases self@.input.len() - self@.pos,
        {
            self.advance();
        }
    }

    /// Consume the identifier run at the current position, returning its
    /// text.
    fn ident_run(&mut self) -> (s: String)
        requires
            old(self).wf(),
            old(self)@.pos < old(self)@.input.len(),
            is_ident_char(old(self)@.input[old(self)@.pos]),
        ensures
            final(self).wf(),
            final(self)@.input == old(self)@.input,
            final(self)@.errors == old(self)@.errors,
            final(self)@.pos == ident_end(old(self)@.input, old(self)@.pos),
            s@ == old(self)@.input.subrange(old(self)@.pos, final(self)@.pos),
    {
        let mut s = String::new();
        let ghost p0 = self@.pos;
        proof {
            assert(s@ =~= self@.input.subrange(p0, p0));
        }
        while self.index < self.input.len() && is_ident_char_exec(self.input[self.index])
            invariant
                self.wf(),
                self@.input == old(self)@.input,
                self@.errors == old(self)@.errors,
                0 <= p0 <= self@.pos,
                ident_end(self@.input, self@.pos) == ident_end(old(self)@.input, p0),
                s@ == self@.input.subrange(p0, self@.pos),
            decreases self@.input.len() - self@.pos,
        {
            push_char(&mut s, self.input[self.index]);
            self.advance();
            proof {
                let inp = self@.input;
                let q = self@.pos;
                assert_seqs_equal!(inp.subrange(p0, q) == inp.subrange(p0, q - 1).push(inp[q - 1]));
            }
        }
        s
    }

    /// Consume the digit run at the current position, returning its
    /// decimal value, saturated at the largest representable integer.
    fn digit_run(&mut self) -> (n: i32)
        requires
            old(self).wf(),
            old(self)@.pos < old(self)@.input.len(),
            is_digit(old(self)@.input[old(self)@.pos]),
        ensures
            final(self).wf(),
            final(self)@.input == old(self)@.input,
            final(self)@.errors == old(self)@.errors,
            final(self)@.pos == digit_end(old(self)@.input, old(self)@.pos),
            n >= 0,
            n as int == sat_i32(
                digits_value(
                    old(self)@.input.subrange(old(self)@.pos, final(self)@.pos),
                ),
            ),
    {
        let mut n: i32 = 0;
        let ghost p0 = self@.pos;
        let limit: i32 = i32::MAX / 10;
        proof {
            assert(self@.input.subrange(p0, p0) =~= Seq::<char>::empty());
        }
        while self.index < self.input.len() && is_digit_exec(self.input[self.index])
            invariant
                self.wf(),
                self@.input == old(self)@.input,
                self@.errors == old(self)@.errors,
                0 <= p0 <= self@.pos,
                limit == i32::MAX / 10,
                digit_end(self@.input, self@.pos) == digit_end(old(self)@.input, p0),
                forall|k: int| p0 <= k < self@.pos ==> is_digit(#[trigger] self@.input[k]),
                n >= 0,
                n as int == sat_i32(digits_value(self@.input.subrange(p0, self@.pos))),
            decreases self@.input.len() - self@.pos,
        {
            let c = self.input[self.index];
            let d: i32 = (c as u32 - '0' as u32) as i32;
            let ghost pre = self@.input.subrange(p0, self@.pos);
            let ghost v_pre = digits_value(pre);
            proof {
                assert(forall|k: int| 0 <= k < pre.len() ==> is_digit(#[trigger] pre[k]));
                lemma_digits_value_nonneg(pre);
            }
            if n < limit || (n == limit && d <= 7) {
                n = n * 10 + d;
            } else {
                proof {
                    if v_pre <= i32::MAX {
                        assert(v_pre * 10 + d > i32::MAX);
                    } else {
                        assert(v_pre * 10 + d > i32::MAX) by (nonlinear_arith)
                            requires
                                v_pre > i32::MAX,
                                d >= 0,
                        ;
                    }
                }
                n = i32::MAX;
            }
            self.advance();
            proof {
                let inp = self@.input;
                let q = self@.pos;
                let cur = inp.subrange(p0, q);
                assert_seqs_equal!(cur == pre.push(inp[q - 1]));
                assert(cur.drop_last() =~= pre);
                assert(digits_value(cur) == v_pre * 10 + digit_val(inp[q - 1]));
            }
        }
        n
    }

    /// Get the next token from the input, or `None` at the end of the
    /// input. An identifier is interned on completion. Malformed input is
    /// recorded in the diagnostic list and scanning continues at the next
    /// plausible position; lexing never halts before the end of the
    /// input.
    #[verifier::rlimit(100)]
    pub fn get_next_token(&mut self, interner: &mut Interner) -> (t: Option<Token>)
        requires
            old(self).wf(),
            old(interner).wf(),
        ensures
            final(self).wf(),
            final(interner).wf(),
            final(self)@.input == old(self)@.input,
            ({
                let input = old(self)@.input;
                let sr = next_token_from(input, old(self)@.pos);
                &&& final(self)@.pos == sr.end
                &&& final(self)@.errors == old(self)@.errors + lex_errs_of(input, sr.errs)
                &&& (match sr.token {
                    Some(tm) => match tm {
                        TokenM::Ident(text) => {
                            &&& final(interner)@ == intern_insert(old(interner)@, text)
                            &&& t == Some(
                                (Token {
                                    kind: TokenKind::Identifier(
                                        sym(intern_index(old(interner)@, text)),
                                    ),
                                    debug_info: debug_of(input, sr.start, sr.end),
                                }),
                            )
                        },
                        _ => {
                            &&& final(interner)@ == old(interner)@
                            &&& t == Some(
                                (Token {
                                    kind: plain_kind_of(tm),
                                    debug_info: debug_of(input, sr.start, sr.end),
                                }),
                            )
                        },
                    },
                    None => final(interner)@ == old(interner)@ && t is None,
                })
            }),
        decreases old(self)@.input.len() - old(self)@.pos,
    {
        let ghost input = self@.input;
        let ghost pos0 = self@.pos;
        let ghost errors0 = self@.errors;
        self.skip_whitespace();
        proof {
            lemma_skip_ws(input, pos0);
        }
        let ghost p = self@.pos;
        let ghost sr = next_token_from(input, pos0);
        let start_index = self.index;
        let start_line = self.line;
        let start_column = self.column;
        if self.index >= self.input.len() {
            proof {
                assert(sr.errs =~= Seq::<LexErrM>::empty());
                assert(errors0 + lex_errs_of(input, sr.errs) =~= errors0);
            }
            return None;
        }
        let c = self.input[self.index];
        if is_alpha_exec(c) {
            let s = self.ident_run();
            let symbol = interner.intern(s.as_str());
            let token = Token::new(
                TokenKind::Identifier(symbol),
                TokenDebugInfo::new(
                    (start_column, self.column),
                    (start_line, self.line),
                    (start_index, self.index),
                ),
            );
            proof {
                assert(sr.end == ident_end(input, p + 1));
                assert(ident_end(input, p) == ident_end(input, p + 1));
                assert(s@ == input.subrange(p, sr.end));
                assert(errors0 + lex_errs_of(input, sr.errs) =~= errors0);
                assert(token.debug_info == debug_of(input, sr.start, sr.end));
            }
            return Some(token);
        }
        if is_digit_exec(c) {
            let number = self.digit_run();
            proof {
                assert(digit_end(input, p) == digit_end(input, p + 1));
                assert(number as int == sat_i32(digits_value(input.subrange(p, sr.end))));
            }
            let token = Token::new(
                TokenKind::Integer(number),
                TokenDebugInfo::new(
                    (start_column, self.column),
                    (start_line, self.line),
                    (start_index, self.index),
                ),
            );
            if self.index < self.input.len() && is_alpha_exec(self.input[self.index]) {
                let err = LexError {
                    kind: LexErrorKind::DigitFollowedByLetter,
                    debug_info: token.debug_info,
                };
                self.errors.push(err);
                proof {
                    assert(errors0 + lex_errs_of(input, sr.errs) =~= errors0.push(err));
                }
            } else {
                proof {
                    assert(errors0 + lex_errs_of(input, sr.errs) =~= errors0);
                }
            }
            return Some(token);
        }
        if c == '=' {
            self.advance();
            if self.index < self.input.len() {
                let c2 = self.input[self.index];
                if c2 == '>' {
                    self.advance();
                    let token = Token::new(
                        TokenKind::Arrow,
                        TokenDebugInfo::new(
                            (start_column, self.column),
                            (start_line, self.line),
                            (start_index, self.index),
                        ),
                    );
                    proof {
                        assert(errors0 + lex_errs_of(input, sr.errs) =~= errors0);
                    }
                    return Some(token);
                }
            }
            let err = LexError {
                kind: LexErrorKind::MalformedArrow,
                debug_info: TokenDebugInfo::new(
                    (start_column, self.column),
                    (start_line, self.line),
                    (start_index, self.index),
                ),
            };
            self.errors.push(err);
            let ghost errm = LexErrM { kind: LexErrorKind::MalformedArrow, start: p, end: p + 1 };
            let r = self.get_next_token(interner);
            proof {
                let rest = next_token_from(input, p + 1);
                assert(sr.errs == seq![errm] + rest.errs);
                assert(lex_err_of(input, errm) == err);
                assert(lex_errs_of(input, sr.errs) =~= seq![err] + lex_errs_of(input, rest.errs));
                assert(errors0 + lex_errs_of(input, sr.errs) =~= errors0.push(err) + lex_errs_of(
                    input,
                    rest.errs,
                ));
            }
            return r;
        }
        if c == '.' {
            self.advance();
            if self.index < self.input.len() {
                let c2 = self.input[self.index];
                if c2 == '.' {
                    self.advance();
                    let token = Token::new(
                        TokenKind::Range,
                        TokenDebugInfo::new(
                            (start_column, self.column),
                            (start_line, self.line),
                            (start_index, self.index),
                        ),
                    );
                    proof {
                        assert(errors0 + lex_errs_of(input, sr.errs) =~= errors0);
                    }
                    return Some(token);
                }
            }
            let err = LexError {
                kind: LexErrorKind::MalformedRange,
                debug_info: TokenDebugInfo::new(
                    (start_column, self.column),
                    (start_line, self.line),
                    (start_index, self.index),
                ),
            };
            self.errors.push(err);
            let ghost errm = LexErrM { kind: LexErrorKind::MalformedRange, start: p, end: p + 1 };
            let r = self.get_next_token(interner);
            proof {
                let rest = next_token_from(input, p + 1);
                assert(sr.errs == seq![errm] + rest.errs);
                assert(lex_err_of(input, errm) == err);
                assert(lex_errs_of(input, sr.errs) =~= seq![err] + lex_errs_of(input, rest.errs));
                assert(errors0 + lex_errs_of(input, sr.errs) =~= errors0.push(err) + lex_errs_of(
                    input,
                    rest.errs,
                ));
            }
            return r;
        }
        if c == ':' || c == ';' || c == '{' || c == '}' || c == '_' {
            self.advance();
            let kind = match c {
                ':' => TokenKind::Column,
                ';' => TokenKind::SemiColumn,
                '{' => TokenKind::Scope(ScopeType::Open),
                '}' => TokenKind::Scope(ScopeType::Close),
                _ => TokenKind::UnderScore,
            };
            let token = Token::new(
                kind,
                TokenDebugInfo::new(
                    (start_column, self.column),
                    (start_line, self.line),
                    (start_index, self.index),
                ),
            );
            proof {
                assert(errors0 + lex_errs_of(input, sr.errs) =~= errors0);
            }
            return Some(token);
        }
        if c == '\'' {
            self.advance();
            self.skip_whitespace();
            proof {
                lemma_skip_ws(input, p + 1);
            }
            let ghost q = self@.pos;
            if self.index >= self.input.len() {
                let err = LexError {
                    kind: LexErrorKind::UnterminatedCharLiteral,
                    debug_info: TokenDebugInfo::new(
                        (start_column, self.column),
                        (start_line, self.line),
                        (start_index, self.index),
                    ),
                };
                self.errors.push(err);
                proof {
                    let errm = LexErrM {
                        kind: LexErrorKind::UnterminatedCharLiteral,
                        start: p,
                        end: input.len() as int,
                    };
                    assert(sr.errs == seq![errm]);
                    assert(lex_err_of(input, errm) == err);
                    assert(lex_errs_of(input, sr.errs) =~= seq![err]);
                    assert(errors0 + lex_errs_of(input, sr.errs) =~= errors0.push(err));
                }
                return None;
            }
            let middle = self.input[self.index];
            self.advance();
            self.skip_whitespace();
            proof {
                lemma_skip_ws(input, q + 1);
            }
            let ghost rr = self@.pos;
            if self.index >= self.input.len() {
                let err = LexError {
                    kind: LexErrorKind::UnterminatedCharLiteral,
                    debug_info: TokenDebugInfo::new(
                        (start_column, self.column),
                        (start_line, self.line),
                        (start_index, self.index),
                    ),
                };
                self.errors.push(err);
                proof {
                    let errm = LexErrM {
                        kind: LexErrorKind::UnterminatedCharLiteral,
                        start: p,
                        end: input.len() as int,
                    };
                    assert(sr.errs == seq![errm]);
                    assert(lex_err_of(input, errm) == err);
                    assert(lex_errs_of(input, sr.errs) =~= seq![err]);
                    assert(errors0 + lex_errs_of(input, sr.errs) =~= errors0.push(err));
                }
                return None;
            }
            let c3 = self.input[self.index];
            if c3 == '\'' {
                self.advance();
                let token = Token::new(
                    TokenKind::Char(middle),
                    TokenDebugInfo::new(
                        (start_column, self.column),
                        (start_line, self.line),
                        (start_index, self.index),
                    ),
                );
                proof {
                    assert(errors0 + lex_errs_of(input, sr.errs) =~= errors0);
                }
                return Some(token);
            }
            let err = LexError {
                kind: LexErrorKind::UnterminatedCharLiteral,
                debug_info: TokenDebugInfo::new(
                    (start_column, self.column),
                    (start_line, self.line),
                    (start_index, self.index),
                ),
            };
            self.errors.push(err);
            let ghost errm = LexErrM {
                kind: LexErrorKind::UnterminatedCharLiteral,
                start: p,
                end: rr,
            };
            let r = self.get_next_token(interner);
            proof {
                let rest = next_token_from(input, rr);
                assert(skip_ws_from(input, rr) == rr);
                assert(rest == scan_at(input, rr));
                assert(sr.errs == seq![errm] + rest.errs);
                assert(lex_err_of(input, errm) == err);
                assert(lex_errs_of(input, sr.errs) =~= seq![err] + lex_errs_of(input, rest.errs));
                assert(errors0 + lex_errs_of(input, sr.errs) =~= errors0.push(err) + lex_errs_of(
                    input,
                    rest.errs,
                ));
            }
            return r;
        }
        self.advance();
        let err = LexError {
            kind: LexErrorKind::UnrecognizedCharacter,
            debug_info: TokenDebugInfo::new(
                (start_column, self.column),
                (start_line, self.line),
                (start_index, self.index),
            ),
        };
        self.errors.push(err);
        let ghost errm = LexErrM { kind: LexErrorKind::UnrecognizedCharacter, start: p, end: p + 1 };
        let r = self.get_next_token(interner);
        proof {
            let rest = next_token_from(input, p + 1);
            assert(sr.errs == seq![errm] + rest.errs);
            assert(lex_err_of(input, errm) == err);
            assert(lex_errs_of(input, sr.errs) =~= seq![err] + lex_errs_of(input, rest.errs));
            assert(errors0 + lex_errs_of(input, sr.errs) =~= errors0.push(err) + lex_errs_of(
                input,
                rest.errs,
            ));
        }
        return r;
    }

    /// Lex the whole remaining input into a token vector, interning
    /// every identifier and recording every lexical diagnostic.
    pub fn tokenize(&mut self, interner: &mut Interner) -> (toks: Vec<Token>)
        requires
            old(self).wf(),
            old(interner).wf(),
        ensures
            final(self).wf(),
            final(interner).wf(),
            final(self)@.input == old(self)@.input,
            ({
                let r = lex_all_m(old(interner)@, old(self)@.input, old(self)@.pos);
                &&& final(interner)@ == r.strs
                &&& toks@ == r.toks
                &&& final(self)@.errors == old(self)@.errors + r.errs
            }),
    {
        let ghost input = self@.input;
        let ghost target = lex_all_m(old(interner)@, input, old(self)@.pos);
        let ghost errors0 = old(self)@.errors;
        let mut toks: Vec<Token> = Vec::new();
        proof {
            assert(toks@ + target.toks =~= target.toks);
        }
        loop
            invariant
                self.wf(),
                interner.wf(),
                self@.input == input,
                ({
                    let rem = lex_all_m(interner@, input, self@.pos);
                    &&& rem.strs == target.strs
                    &&& toks@ + rem.toks == target.toks
                    &&& self@.errors + rem.errs == errors0 + target.errs
                }),
            ensures
                self.wf(),
                interner.wf(),
                self@.input == input,
                interner@ == target.strs,
                toks@ == target.toks,
                self@.errors == errors0 + target.errs,
            decreases scan_measure(input, self@.pos),
        {
            let ghost strs_before = interner@;
            let ghost pos_before = self@.pos;
            let ghost errors_before = self@.errors;
            let ghost toks_before = toks@;
            let ghost rem = lex_all_m(strs_before, input, pos_before);
            let ghost sr = next_token_from(input, pos_before);
            proof {
                lemma_scan_advances(input, pos_before);
            }
            match self.get_next_token(interner) {
                Some(t) => {
                    toks.push(t);
                    proof {
                        let tm = sr.token->0;
                        let m = materialize(strs_before, input, sr, tm);
                        assert(t == m.1);
                        assert(interner@ == m.0);
                        let rest = lex_all_m(interner@, input, sr.end);
                        assert(rem.strs == rest.strs);
                        assert(rem.toks == seq![t] + rest.toks);
                        assert(rem.errs == lex_errs_of(input, sr.errs) + rest.errs);
                        assert(toks@ + rest.toks =~= toks_before + rem.toks);
                        assert(self@.errors + rest.errs =~= errors_before + rem.errs);
                    }
                },
                None => {
                    proof {
                        assert(rem.toks =~= Seq::<Token>::empty());
                        assert(toks@ =~= toks@ + rem.toks);
                        assert(self@.errors == errors_before + lex_errs_of(input, sr.errs));
                        assert(self@.errors =~= errors_before + rem.errs);
                        assert(sr.end == input.len());
                        let sr2 = next_token_from(input, input.len() as int);
                        assert(sr2.token is None && sr2.errs =~= Seq::<LexErrM>::empty());
                        let rem2 = lex_all_m(interner@, input, self@.pos);
                        assert(rem2.toks =~= Seq::<Token>::empty());
                        assert(rem2.errs =~= Seq::<LexError>::empty());
                        assert(rem2.strs == interner@);
                        assert(toks@ + rem2.toks =~= toks@);
                        assert(self@.errors + rem2.errs =~= self@.errors);
                    }
                    break;
                },
            }
        }
        toks
    }
}

} // verus!