//! The syntax parser: consumes the token stream through a recursive
//! descent grammar and produces an ordered list of state definitions.
//!
//! Parsing is best-effort: a malformed construct is recorded as a
//! structured [`SyntaxError`] and parsing resynchronizes at the next
//! plausible token boundary, so a single bad state definition degrades
//! the output locally instead of aborting the whole run.

use vstd::prelude::*;
use crate::lexer::{AutomataParser, LexError};
use crate::statements::{spec_char_range, CharRange, Destination, Statement, StatementMatchKind};
use crate::states::{StateDefM, StateDefinition};
use crate::string_interning::{intern_index, intern_insert, sym, InternedString, Interner};
use crate::tokens::{ScopeType, Token, TokenKind};

verus! {

/// The kinds of syntax error.
#[derive(Debug, Copy, Clone, PartialEq, Eq, Structural)]
pub enum SyntaxErrorKind {
    /// A definition did not begin with the `state` keyword.
    DefinitionStart,
    /// The input ended where a state's name was expected.
    MissingStateName,
    /// The opening brace after a state's name was missing.
    MissingOpenBrace,
    /// A state body held a token no statement starts with, or ended
    /// before its closing brace.
    UnclosedStateBody,
    /// Two match patterns stood side by side without a separator.
    UnseparatedMatch,
    /// A range marker had no opening literal before it.
    RangeNeedsOpeningLiteral,
    /// The pattern before a range marker was not a character literal.
    RangeOpenNotLiteral,
    /// The closing literal of a range was missing.
    MissingRangeClose,
    /// The arrow after a match pattern was missing.
    MissingArrow,
    /// The destination after an arrow was missing.
    MissingDestination,
    /// The identifier after `return` was missing.
    MissingReturnIdentifier,
}

/// A structured syntax diagnostic: what went wrong, and at which token,
/// if the input had one at that place.
#[derive(Debug, Clone, PartialEq, Eq)]
pub struct SyntaxError {
    pub kind: SyntaxErrorKind,
    pub token: Option<Token>,
}

/// The outcome of gathering the match patterns on the left side of a
/// statement: the patterns, whether a token ended the gathering (it then
/// stands just before `at`), the position parsing continues at, and the
/// diagnostics recorded.
pub ghost struct LeftResult {
    pub kinds: Seq<StatementMatchKind>,
    pub ended: bool,
    pub at: int,
    pub errs: Seq<SyntaxError>,
}

/// Gather match patterns from position `i` until a token that cannot
/// continue the left side of a statement. Semicolons are skipped as
/// statement separators. An arrow ends the gathering and hands the
/// patterns out; any other ending token hands none out.
pub open spec fn parse_left_m(
    toks: Seq<Token>,
    i: int,
    acc: Seq<StatementMatchKind>,
    errs: Seq<SyntaxError>,
) -> LeftResult
    decreases toks.len() - i,
{
    if !(0 <= i < toks.len()) {
        LeftResult { kinds: Seq::empty(), ended: false, at: i, errs }
    } else {
        let t = toks[i];
        match t.kind {
            TokenKind::Arrow => LeftResult { kinds: acc, ended: true, at: i + 1, errs },
            TokenKind::UnderScore => parse_left_m(
                toks,
                i + 1,
                acc.push(StatementMatchKind::Default),
                errs + sep_errs(acc, t),
            ),
            TokenKind::Char(c) => parse_left_m(
                toks,
                i + 1,
                acc.push(StatementMatchKind::Literal(c)),
                errs + sep_errs(acc, t),
            ),
            TokenKind::CharSequence(v) => parse_left_m(
                toks,
                i + 1,
                acc.push(StatementMatchKind::Sequence(v)),
                errs + sep_errs(acc, t),
            ),
            TokenKind::SemiColumn => parse_left_m(toks, i + 1, acc, errs),
            TokenKind::Range => if acc.len() == 0 {
                parse_left_m(
                    toks,
                    i + 1,
                    acc,
                    errs + seq![
                        SyntaxError {
                            kind: SyntaxErrorKind::RangeNeedsOpeningLiteral,
                            token: Some(t),
                        },
                    ],
                )
            } else {
                match acc.last() {
                    StatementMatchKind::Literal(c0) => if i + 1 < toks.len() {
                        match toks[i + 1].kind {
                            TokenKind::Char(c1) => parse_left_m(
                                toks,
                                i + 2,
                                acc.drop_last().push(
                                    StatementMatchKind::Range(spec_char_range(c0, c1)),
                                ),
                                errs,
                            ),
                            _ => parse_left_m(
                                toks,
                                i + 2,
                                acc,
                                errs + seq![
                                    SyntaxError {
                                        kind: SyntaxErrorKind::MissingRangeClose,
                                        token: Some(toks[i + 1]),
                                    },
                                ],
                            ),
                        }
                    } else {
                        parse_left_m(
                            toks,
                            i + 1,
                            acc,
                            errs + seq![
                                SyntaxError {
                                    kind: SyntaxErrorKind::MissingRangeClose,
                                    token: None,
                                },
                            ],
                        )
                    },
                    _ => parse_left_m(
                        toks,
                        i + 1,
                        acc,
                        errs + seq![
                            SyntaxError {
                                kind: SyntaxErrorKind::RangeOpenNotLiteral,
                                token: Some(t),
                            },
                        ],
                    ),
                }
            },
            _ => LeftResult { kinds: Seq::empty(), ended: true, at: i + 1, errs },
        }
    }
}

/// The separator diagnostic due when a second pattern follows a first.
pub open spec fn sep_errs(acc: Seq<StatementMatchKind>, t: Token) -> Seq<SyntaxError> {
    if acc.len() > 0 {
        seq![SyntaxError { kind: SyntaxErrorKind::UnseparatedMatch, token: Some(t) }]
    } else {
        Seq::empty()
    }
}

/// The outcome of parsing a destination: the destination, if one was
/// found, the position parsing continues at, and the diagnostics
/// recorded.
pub ghost struct DestResult {
    pub dest: Option<Destination>,
    pub at: int,
    pub errs: Seq<SyntaxError>,
}

/// Parse the destination after an arrow: a plain identifier names a
/// state; the reserved identifier `return` followed by an identifier
/// names a return point.
pub open spec fn parse_destination_m(toks: Seq<Token>, i: int, kwr: InternedString) -> DestResult {
    if !(0 <= i < toks.len()) {
        DestResult {
            dest: None,
            at: i,
            errs: seq![
                SyntaxError { kind: SyntaxErrorKind::MissingDestination, token: None },
            ],
        }
    } else {
        match toks[i].kind {
            TokenKind::Identifier(d) => if d == kwr {
                if i + 1 < toks.len() {
                    match toks[i + 1].kind {
                        TokenKind::Identifier(r) => DestResult {
                            dest: Some(Destination::Return(r)),
                            at: i + 2,
                            errs: Seq::empty(),
                        },
                        _ => DestResult {
                            dest: None,
                            at: i + 2,
                            errs: seq![
                                SyntaxError {
                                    kind: SyntaxErrorKind::MissingReturnIdentifier,
                                    token: Some(toks[i + 1]),
                                },
                            ],
                        },
                    }
                } else {
                    DestResult {
                        dest: None,
                        at: i + 1,
                        errs: seq![
                            SyntaxError {
                                kind: SyntaxErrorKind::MissingReturnIdentifier,
                                token: None,
                            },
                        ],
                    }
                }
            } else {
                DestResult { dest: Some(Destination::State(d)), at: i + 1, errs: Seq::empty() }
            },
            _ => DestResult {
                dest: None,
                at: i + 1,
                errs: seq![
                    SyntaxError {
                        kind: SyntaxErrorKind::MissingDestination,
                        token: Some(toks[i]),
                    },
                ],
            },
        }
    }
}

/// How much input is left at a position, for termination measures.
pub open spec fn scan_measure_toks(toks: Seq<Token>, i: int) -> int {
    if i <= toks.len() {
        toks.len() - i
    } else {
        0
    }
}

/// The outcome of parsing a state body: the statements gathered, the
/// position parsing continues at, and the diagnostics recorded.
pub ghost struct BodyResult {
    pub statements: Seq<Statement>,
    pub at: int,
    pub errs: Seq<SyntaxError>,
}

/// The statements one left side and one destination give rise to: one
/// statement per pattern, all to the same destination.
pub open spec fn statements_of(kinds: Seq<StatementMatchKind>, dest: Destination) -> Seq<Statement> {
    kinds.map(|k: int, mk: StatementMatchKind| Statement { match_kind: mk, destination: dest })
}

/// Parse the statements of a state body until its closing brace, the end
/// of the input, or a token no statement starts with.
pub open spec fn parse_body_m(
    toks: Seq<Token>,
    i: int,
    kwr: InternedString,
    acc: Seq<Statement>,
    errs: Seq<SyntaxError>,
) -> BodyResult
    decreases scan_measure_toks(toks, i),
{
    let lr = parse_left_m(toks, i, Seq::empty(), Seq::empty());
    if lr.kinds.len() == 0 {
        if !lr.ended {
            BodyResult {
                statements: acc,
                at: lr.at,
                errs: errs + lr.errs + seq![
                    SyntaxError { kind: SyntaxErrorKind::UnclosedStateBody, token: None },
                ],
            }
        } else if toks[lr.at - 1].kind == TokenKind::Scope(ScopeType::Close) {
            BodyResult { statements: acc, at: lr.at, errs: errs + lr.errs }
        } else {
            BodyResult {
                statements: acc,
                at: lr.at,
                errs: errs + lr.errs + seq![
                    SyntaxError {
                        kind: SyntaxErrorKind::UnclosedStateBody,
                        token: Some(toks[lr.at - 1]),
                    },
                ],
            }
        }
    } else if !lr.ended {
        BodyResult {
            statements: acc,
            at: lr.at,
            errs: errs + lr.errs + seq![
                SyntaxError { kind: SyntaxErrorKind::MissingArrow, token: None },
                SyntaxError { kind: SyntaxErrorKind::UnclosedStateBody, token: None },
            ],
        }
    } else if toks[lr.at - 1].kind == TokenKind::Arrow {
        let dr = parse_destination_m(toks, lr.at, kwr);
        let acc2 = if dr.dest is Some {
            acc + statements_of(lr.kinds, dr.dest->0)
        } else {
            acc
        };
        if dr.at <= i {
            BodyResult { statements: acc2, at: dr.at, errs: errs + lr.errs + dr.errs }
        } else {
            parse_body_m(toks, dr.at, kwr, acc2, errs + lr.errs + dr.errs)
        }
    } else {
        let e2 = errs + lr.errs + seq![
            SyntaxError {
                kind: SyntaxErrorKind::MissingArrow,
                token: Some(toks[lr.at - 1]),
            },
        ];
        if lr.at <= i {
            BodyResult { statements: acc, at: lr.at, errs: e2 }
        } else {
            parse_body_m(toks, lr.at, kwr, acc, e2)
        }
    }
}

/// The outcome of parsing one state definition: the definition, the
/// position parsing continues at, and the diagnostics recorded.
pub ghost struct DefResult {
    pub def: StateDefM,
    pub at: int,
    pub errs: Seq<SyntaxError>,
}

/// Parse one state definition, entered just after the `state` keyword:
/// its name, its opening brace, its body. A malformed definition is
/// still handed out, with the statements gathered up to the error.
pub open spec fn parse_state_def_m(
    toks: Seq<Token>,
    i: int,
    kwr: InternedString,
    empty_name: InternedString,
    missing_name: InternedString,
) -> DefResult {
    if !(0 <= i < toks.len()) {
        DefResult {
            def: StateDefM { name: missing_name, statements: Seq::empty() },
            at: i,
            errs: seq![
                SyntaxError { kind: SyntaxErrorKind::MissingStateName, token: None },
            ],
        }
    } else {
        let name = match toks[i].kind {
            TokenKind::Identifier(n) => n,
            _ => empty_name,
        };
        let j = i + 1;
        if !(j < toks.len()) {
            DefResult {
                def: StateDefM { name, statements: Seq::empty() },
                at: j,
                errs: seq![
                    SyntaxError { kind: SyntaxErrorKind::MissingOpenBrace, token: None },
                ],
            }
        } else if toks[j].kind == TokenKind::Scope(ScopeType::Open) {
            let br = parse_body_m(toks, j + 1, kwr, Seq::empty(), Seq::empty());
            DefResult {
                def: StateDefM { name, statements: br.statements },
                at: br.at,
                errs: br.errs,
            }
        } else {
            DefResult {
                def: StateDefM { name, statements: Seq::empty() },
                at: j + 1,
                errs: seq![
                    SyntaxError {
                        kind: SyntaxErrorKind::MissingOpenBrace,
                        token: Some(toks[j]),
                    },
                ],
            }
        }
    }
}

/// Parse a whole program: a sequence of state definitions. A token that
/// starts no definition is recorded and skipped.
pub open spec fn parse_program_m(
    toks: Seq<Token>,
    i: int,
    kws: InternedString,
    kwr: InternedString,
    empty_name: InternedString,
    missing_name: InternedString,
) -> (Seq<StateDefM>, Seq<SyntaxError>)
    decreases scan_measure_toks(toks, i),
{
    if !(0 <= i < toks.len()) {
        (Seq::empty(), Seq::empty())
    } else {
        match toks[i].kind {
            TokenKind::Identifier(n) => if n == kws {
                let dr = parse_state_def_m(toks, i + 1, kwr, empty_name, missing_name);
                if dr.at <= i {
                    (seq![dr.def], dr.errs)
                } else {
                    let rest = parse_program_m(toks, dr.at, kws, kwr, empty_name, missing_name);
                    (seq![dr.def] + rest.0, dr.errs + rest.1)
                }
            } else {
                let rest = parse_program_m(toks, i + 1, kws, kwr, empty_name, missing_name);
                (
                    rest.0,
                    seq![
                        SyntaxError {
                            kind: SyntaxErrorKind::DefinitionStart,
                            token: Some(toks[i]),
                        },
                    ] + rest.1,
                )
            },
            _ => {
                let rest = parse_program_m(toks, i + 1, kws, kwr, empty_name, missing_name);
                (
                    rest.0,
                    seq![
                        SyntaxError {
                            kind: SyntaxErrorKind::DefinitionStart,
                            token: Some(toks[i]),
                        },
                    ] + rest.1,
                )
            },
        }
    }
}

/// Whether a token begins a state definition: it is the `state` keyword.
pub open spec fn starts_definition(t: Token, kws: InternedString) -> bool {
    t.kind == TokenKind::Identifier(kws)
}

/// The diagnostics recorded for a run of tokens that begin no
/// definition, one per token, in order.
pub open spec fn bad_start_errs(toks: Seq<Token>, i: int, k: int) -> Seq<SyntaxError>
    decreases k - i,
{
    if i >= k {
        Seq::empty()
    } else {
        seq![
            SyntaxError { kind: SyntaxErrorKind::DefinitionStart, token: Some(toks[i]) },
        ] + bad_start_errs(toks, i + 1, k)
    }
}

/// Whether a definition's name is the payload of some identifier token,
/// or one of the parser's two reserved fallback names.
pub open spec fn name_from_tokens(
    name: InternedString,
    toks: Seq<Token>,
    en: InternedString,
    mn: InternedString,
) -> bool {
    ||| name == en
    ||| name == mn
    ||| exists|j: int|
        0 <= j < toks.len() && (#[trigger] toks[j]).kind == TokenKind::Identifier(name)
}

/// A parsed definition's name is read from an identifier token or falls
/// back to a reserved name.
pub proof fn lemma_parse_def_name(
    toks: Seq<Token>,
    i: int,
    kwr: InternedString,
    en: InternedString,
    mn: InternedString,
)
    ensures
        name_from_tokens(parse_state_def_m(toks, i, kwr, en, mn).def.name, toks, en, mn),
{
    if 0 <= i < toks.len() {
        match toks[i].kind {
            TokenKind::Identifier(n) => {
                assert(toks[i].kind == TokenKind::Identifier(n));
            },
            _ => {},
        }
    }
}

/// Every definition a parse of the token stream hands out carries a name
/// read from an identifier token, or a reserved fallback name.
pub proof fn lemma_parse_program_names(
    toks: Seq<Token>,
    i: int,
    kws: InternedString,
    kwr: InternedString,
    en: InternedString,
    mn: InternedString,
)
    requires
        0 <= i,
    ensures
        ({
            let r = parse_program_m(toks, i, kws, kwr, en, mn);
            forall|k: int|
                0 <= k < r.0.len() ==> name_from_tokens(
                    (#[trigger] r.0[k]).name,
                    toks,
                    en,
                    mn,
                )
        }),
    decreases scan_measure_toks(toks, i),
{
    let r = parse_program_m(toks, i, kws, kwr, en, mn);
    if 0 <= i < toks.len() {
        match toks[i].kind {
            TokenKind::Identifier(n) => {
                if n == kws {
                    let dr = parse_state_def_m(toks, i + 1, kwr, en, mn);
                    lemma_parse_def_name(toks, i + 1, kwr, en, mn);
                    lemma_parse_def_bounds(toks, i + 1, kwr, en, mn);
                    if dr.at <= i {
                    } else {
                        lemma_parse_program_names(toks, dr.at, kws, kwr, en, mn);
                        let rest = parse_program_m(toks, dr.at, kws, kwr, en, mn);
                        assert forall|k: int|
                            0 <= k < r.0.len() implies name_from_tokens(
                            (#[trigger] r.0[k]).name,
                            toks,
                            en,
                            mn,
                        ) by {
                            if k == 0 {
                                assert(r.0[0] == dr.def);
                            } else {
                                assert(r.0[k] == rest.0[k - 1]);
                            }
                        }
                    }
                } else {
                    lemma_parse_program_names(toks, i + 1, kws, kwr, en, mn);
                    let rest = parse_program_m(toks, i + 1, kws, kwr, en, mn);
                    assert(r.0 == rest.0);
                }
            },
            _ => {
                lemma_parse_program_names(toks, i + 1, kws, kwr, en, mn);
                let rest = parse_program_m(toks, i + 1, kws, kwr, en, mn);
                assert(r.0 == rest.0);
            },
        }
    }
}

/// Positions only move forward while gathering a left side, and a token
/// that ends the gathering was consumed.
pub proof fn lemma_parse_left_bounds(
    toks: Seq<Token>,
    i: int,
    acc: Seq<StatementMatchKind>,
    errs: Seq<SyntaxError>,
)
    requires
        0 <= i,
    ensures
        ({
            let lr = parse_left_m(toks, i, acc, errs);
            &&& i <= lr.at
            &&& lr.at <= toks.len() || lr.at == i
            &&& lr.ended ==> i + 1 <= lr.at <= toks.len()
            &&& !lr.ended ==> lr.kinds.len() == 0
        }),
    decreases toks.len() - i,
{
    if 0 <= i < toks.len() {
        let t = toks[i];
        match t.kind {
            TokenKind::Arrow => {},
            TokenKind::UnderScore => {
                lemma_parse_left_bounds(
                    toks,
                    i + 1,
                    acc.push(StatementMatchKind::Default),
                    errs + sep_errs(acc, t),
                );
            },
            TokenKind::Char(c) => {
                lemma_parse_left_bounds(
                    toks,
                    i + 1,
                    acc.push(StatementMatchKind::Literal(c)),
                    errs + sep_errs(acc, t),
                );
            },
            TokenKind::CharSequence(v) => {
                lemma_parse_left_bounds(
                    toks,
                    i + 1,
                    acc.push(StatementMatchKind::Sequence(v)),
                    errs + sep_errs(acc, t),
                );
            },
            TokenKind::SemiColumn => {
                lemma_parse_left_bounds(toks, i + 1, acc, errs);
            },
            TokenKind::Range => {
                if acc.len() == 0 {
                    lemma_parse_left_bounds(
                        toks,
                        i + 1,
                        acc,
                        errs + seq![
                            SyntaxError {
                                kind: SyntaxErrorKind::RangeNeedsOpeningLiteral,
                                token: Some(t),
                            },
                        ],
                    );
                } else {
                    match acc.last() {
                        StatementMatchKind::Literal(c0) => {
                            if i + 1 < toks.len() {
                                match toks[i + 1].kind {
                                    TokenKind::Char(c1) => {
                                        lemma_parse_left_bounds(
                                            toks,
                                            i + 2,
                                            acc.drop_last().push(
                                                StatementMatchKind::Range(
                                                    spec_char_range(c0, c1),
                                                ),
                                            ),
                                            errs,
                                        );
                                    },
                                    _ => {
                                        lemma_parse_left_bounds(
                                            toks,
                                            i + 2,
                                            acc,
                                            errs + seq![
                                                SyntaxError {
                                                    kind: SyntaxErrorKind::MissingRangeClose,
                                                    token: Some(toks[i + 1]),
                                                },
                                            ],
                                        );
                                    },
                                }
                            } else {
                                lemma_parse_left_bounds(
                                    toks,
                                    i + 1,
                                    acc,
                                    errs + seq![
                                        SyntaxError {
                                            kind: SyntaxErrorKind::MissingRangeClose,
                                            token: None,
                                        },
                                    ],
                                );
                            }
                        },
                        _ => {
                            lemma_parse_left_bounds(
                                toks,
                                i + 1,
                                acc,
                                errs + seq![
                                    SyntaxError {
                                        kind: SyntaxErrorKind::RangeOpenNotLiteral,
                                        token: Some(t),
                                    },
                                ],
                            );
                        },
                    }
                }
            },
            _ => {},
        }
    }
}

/// Positions only move forward while parsing a state body.
pub proof fn lemma_parse_body_bounds(
    toks: Seq<Token>,
    i: int,
    kwr: InternedString,
    acc: Seq<Statement>,
    errs: Seq<SyntaxError>,
)
    requires
        0 <= i,
    ensures
        ({
            let br = parse_body_m(toks, i, kwr, acc, errs);
            i <= br.at && (br.at <= toks.len() || br.at == i)
        }),
    decreases toks.len() - i,
{
    let lr = parse_left_m(toks, i, Seq::empty(), Seq::empty());
    lemma_parse_left_bounds(toks, i, Seq::empty(), Seq::empty());
    if lr.kinds.len() == 0 {
    } else if !lr.ended {
    } else if toks[lr.at - 1].kind == TokenKind::Arrow {
        let dr = parse_destination_m(toks, lr.at, kwr);
        let acc2 = if dr.dest is Some {
            acc + statements_of(lr.kinds, dr.dest->0)
        } else {
            acc
        };
        if dr.at <= i {
        } else {
            lemma_parse_body_bounds(toks, dr.at, kwr, acc2, errs + lr.errs + dr.errs);
        }
    } else {
        let e2 = errs + lr.errs + seq![
            SyntaxError {
                kind: SyntaxErrorKind::MissingArrow,
                token: Some(toks[lr.at - 1]),
            },
        ];
        if lr.at <= i {
        } else {
            lemma_parse_body_bounds(toks, lr.at, kwr, acc, e2);
        }
    }
}

/// Positions only move forward while parsing a state definition.
pub proof fn lemma_parse_def_bounds(
    toks: Seq<Token>,
    i: int,
    kwr: InternedString,
    empty_name: InternedString,
    missing_name: InternedString,
)
    requires
        0 <= i,
    ensures
        ({
            let dr = parse_state_def_m(toks, i, kwr, empty_name, missing_name);
            i <= dr.at && (dr.at <= toks.len() || dr.at == i || dr.at == i + 1)
        }),
{
    if 0 <= i < toks.len() {
        let j = i + 1;
        if j < toks.len() && toks[j].kind == TokenKind::Scope(ScopeType::Open) {
            lemma_parse_body_bounds(toks, j + 1, kwr, Seq::empty(), Seq::empty());
        }
    }
}


/// Without literal-sequence tokens, gathering produces no sequence
/// patterns.
pub proof fn lemma_parse_left_no_sequence(
    toks: Seq<Token>,
    i: int,
    acc: Seq<StatementMatchKind>,
    errs: Seq<SyntaxError>,
)
    requires
        crate::lexer::no_char_sequences(toks),
        forall|k: int| 0 <= k < acc.len() ==> !((#[trigger] acc[k]) is Sequence),
    ensures
        ({
            let lr = parse_left_m(toks, i, acc, errs);
            forall|k: int| 0 <= k < lr.kinds.len() ==> !((#[trigger] lr.kinds[k]) is Sequence)
        }),
    decreases toks.len() - i,
{
    if 0 <= i < toks.len() {
        let t = toks[i];
        match t.kind {
            TokenKind::Arrow => {},
            TokenKind::UnderScore => {
                let acc2 = acc.push(StatementMatchKind::Default);
                assert(forall|k: int| 0 <= k < acc2.len() ==> !((#[trigger] acc2[k]) is Sequence));
                lemma_parse_left_no_sequence(toks, i + 1, acc2, errs + sep_errs(acc, t));
            },
            TokenKind::Char(c) => {
                let acc2 = acc.push(StatementMatchKind::Literal(c));
                assert(forall|k: int| 0 <= k < acc2.len() ==> !((#[trigger] acc2[k]) is Sequence));
                lemma_parse_left_no_sequence(toks, i + 1, acc2, errs + sep_errs(acc, t));
            },
            TokenKind::CharSequence(v) => {
                assert(false);
            },
            TokenKind::SemiColumn => {
                lemma_parse_left_no_sequence(toks, i + 1, acc, errs);
            },
            TokenKind::Range => {
                if acc.len() == 0 {
                    lemma_parse_left_no_sequence(
                        toks,
                        i + 1,
                        acc,
                        errs + seq![
                            SyntaxError {
                                kind: SyntaxErrorKind::RangeNeedsOpeningLiteral,
                                token: Some(t),
                            },
                        ],
                    );
                } else {
                    match acc.last() {
                        StatementMatchKind::Literal(c0) => {
                            if i + 1 < toks.len() {
                                match toks[i + 1].kind {
                                    TokenKind::Char(c1) => {
                                        let acc2 = acc.drop_last().push(
                                            StatementMatchKind::Range(spec_char_range(c0, c1)),
                                        );
                                        assert(forall|k: int|
                                            0 <= k < acc2.len() ==> !((#[trigger] acc2[k])
                                                is Sequence));
                                        lemma_parse_left_no_sequence(toks, i + 2, acc2, errs);
                                    },
                                    _ => {
                                        lemma_parse_left_no_sequence(
                                            toks,
                                            i + 2,
                                            acc,
                                            errs + seq![
                                                SyntaxError {
                                                    kind: SyntaxErrorKind::MissingRangeClose,
                                                    token: Some(toks[i + 1]),
                                                },
                                            ],
                                        );
                                    },
                                }
                            } else {
                                lemma_parse_left_no_sequence(
                                    toks,
                                    i + 1,
                                    acc,
                                    errs + seq![
                                        SyntaxError {
                                            kind: SyntaxErrorKind::MissingRangeClose,
                                            token: None,
                                        },
                                    ],
                                );
                            }
                        },
                        _ => {
                            lemma_parse_left_no_sequence(
                                toks,
                                i + 1,
                                acc,
                                errs + seq![
                                    SyntaxError {
                                        kind: SyntaxErrorKind::RangeOpenNotLiteral,
                                        token: Some(t),
                                    },
                                ],
                            );
                        },
                    }
                }
            },
            _ => {},
        }
    }
}


/// The interner table after the parser's reserved identifiers are
/// interned, in the order the parser interns them.
pub open spec fn keywords_interned(strs: Seq<Seq<char>>) -> Seq<Seq<char>> {
    intern_insert(
        intern_insert(intern_insert(intern_insert(strs, "state"@), "return"@), ""@),
        "no name provided"@,
    )
}

/// The handle of the `state` keyword, given the table the parser
/// started from.
pub open spec fn kw_state_sym(strs: Seq<Seq<char>>) -> InternedString {
    sym(intern_index(strs, "state"@))
}

/// The handle of the `return` keyword.
pub open spec fn kw_return_sym(strs: Seq<Seq<char>>) -> InternedString {
    sym(intern_index(intern_insert(strs, "state"@), "return"@))
}

/// The handle a definition without a readable name falls back to.
pub open spec fn empty_name_sym(strs: Seq<Seq<char>>) -> InternedString {
    sym(intern_index(intern_insert(intern_insert(strs, "state"@), "return"@), ""@))
}

/// The handle a definition cut short by the end of the input falls back
/// to.
pub open spec fn missing_name_sym(strs: Seq<Seq<char>>) -> InternedString {
    sym(
        intern_index(
            intern_insert(intern_insert(intern_insert(strs, "state"@), "return"@), ""@),
            "no name provided"@,
        ),
    )
}

/// What a whole parse stands for: the interner table afterwards, the
/// state definitions, and the diagnostics of both stages.
pub ghost struct ParseOutcome {
    pub strs: Seq<Seq<char>>,
    pub defs: Seq<StateDefM>,
    pub lex_errors: Seq<LexError>,
    pub syntax_errors: Seq<SyntaxError>,
}

/// Parse the input from `pos`: intern the reserved identifiers, lex the
/// whole input, then parse the token stream as a program.
pub open spec fn parse_m(strs: Seq<Seq<char>>, input: Seq<char>, pos: int) -> ParseOutcome {
    let s4 = keywords_interned(strs);
    let lr = crate::lexer::lex_all_m(s4, input, pos);
    let pr = parse_program_m(
        lr.toks,
        0,
        kw_state_sym(strs),
        kw_return_sym(strs),
        empty_name_sym(strs),
        missing_name_sym(strs),
    );
    ParseOutcome { strs: lr.strs, defs: pr.0, lex_errors: lr.errs, syntax_errors: pr.1 }
}

/// The views of a vector of state definitions.
pub open spec fn defs_view(defs: Seq<StateDefinition>) -> Seq<StateDefM> {
    defs.map(|i: int, d: StateDefinition| d@)
}

/// What the syntax parser's state stands for: the remaining input, the
/// position in it, and the diagnostics of both stages recorded so far.
pub ghost struct SynModel {
    pub input: Seq<char>,
    pub pos: int,
    pub lex_errors: Seq<LexError>,
    pub syntax_errors: Seq<SyntaxError>,
}

/// Parses the syntax of some input, using the lexer as the token
/// source.
pub struct SyntaxParser {
    parser: AutomataParser,
    errors: Vec<SyntaxError>,
}

impl View for SyntaxParser {
    type V = SynModel;

    closed spec fn view(&self) -> SynModel {
        SynModel {
            input: self.parser@.input,
            pos: self.parser@.pos,
            lex_errors: self.parser@.errors,
            syntax_errors: self.errors@,
        }
    }
}

impl SyntaxParser {
    /// The lexer's counters agree with its position.
    pub closed spec fn wf(self) -> bool {
        self.parser.wf()
    }

    /// Create a new syntax parser for some input.
    pub fn new(input: Vec<char>) -> (r: SyntaxParser)
        ensures
            r.wf(),
            r@.input == input@,
            r@.pos == 0,
            r@.lex_errors == Seq::<LexError>::empty(),
            r@.syntax_errors == Seq::<SyntaxError>::empty(),
    {
        SyntaxParser { parser: AutomataParser::new(input), errors: Vec::new() }
    }

    /// The syntax diagnostics recorded so far, in order.
    pub fn syntax_errors(&self) -> (r: &Vec<SyntaxError>)
        ensures
            r@ == self@.syntax_errors,
    {
        &self.errors
    }

    /// The lexical diagnostics recorded so far, in order.
    pub fn lex_errors(&self) -> (r: &Vec<LexError>)
        ensures
            r@ == self@.lex_errors,
    {
        self.parser.errors()
    }

    /// Parse the destination after an arrow.
    fn parse_destination(
        &mut self,
        tokens: &Vec<Token>,
        at: usize,
        kw_return: InternedString,
    ) -> (r: (Option<Destination>, usize))
        requires
            old(self).wf(),
            crate::lexer::no_char_sequences(tokens@),
            at <= tokens@.len(),
        ensures
            final(self).wf(),
            final(self)@.input == old(self)@.input,
            final(self)@.pos == old(self)@.pos,
            final(self)@.lex_errors == old(self)@.lex_errors,
            ({
                let dr = parse_destination_m(tokens@, at as int, kw_return);
                &&& r.0 == dr.dest
                &&& r.1 as int == dr.at
                &&& r.1 <= tokens@.len()
                &&& final(self)@.syntax_errors == old(self)@.syntax_errors + dr.errs
            }),
    {
        let ghost errors0 = self@.syntax_errors;
        if at >= tokens.len() {
            self.errors.push(
                SyntaxError { kind: SyntaxErrorKind::MissingDestination, token: None },
            );
            proof {
                assert(self@.syntax_errors =~= errors0 + parse_destination_m(
                    tokens@,
                    at as int,
                    kw_return,
                ).errs);
            }
            return (None, at);
        }
        match &tokens[at].kind {
            TokenKind::Identifier(d) => {
                let d = *d;
                if d == kw_return {
                    if at + 1 >= tokens.len() {
                        self.errors.push(
                            SyntaxError {
                                kind: SyntaxErrorKind::MissingReturnIdentifier,
                                token: None,
                            },
                        );
                        proof {
                            assert(self@.syntax_errors =~= errors0 + parse_destination_m(
                                tokens@,
                                at as int,
                                kw_return,
                            ).errs);
                        }
                        return (None, at + 1);
                    }
                    match &tokens[at + 1].kind {
                        TokenKind::Identifier(r2) => {
                            let r2 = *r2;
                            proof {
                                assert(self@.syntax_errors =~= errors0);
                            }
                            (Some(Destination::Return(r2)), at + 2)
                        },
                        _ => {
                            self.errors.push(
                                SyntaxError {
                                    kind: SyntaxErrorKind::MissingReturnIdentifier,
                                    token: Some(tokens[at + 1].duplicate()),
                                },
                            );
                            proof {
                                assert(self@.syntax_errors =~= errors0 + parse_destination_m(
                                    tokens@,
                                    at as int,
                                    kw_return,
                                ).errs);
                            }
                            (None, at + 2)
                        },
                    }
                } else {
                    proof {
                        assert(self@.syntax_errors =~= errors0);
                    }
                    (Some(Destination::State(d)), at + 1)
                }
            },
            _ => {
                self.errors.push(
                    SyntaxError {
                        kind: SyntaxErrorKind::MissingDestination,
                        token: Some(tokens[at].duplicate()),
                    },
                );
                proof {
                    assert(self@.syntax_errors =~= errors0 + parse_destination_m(
                        tokens@,
                        at as int,
                        kw_return,
                    ).errs);
                }
                (None, at + 1)
            },
        }
    }

    /// Gather the match patterns on the left side of a statement, until
    /// a token that cannot continue it. Returns the patterns, whether a
    /// token ended the gathering (it then stands just before the returned
    /// position), and the position parsing continues at.
    #[verifier::loop_isolation(false)]
    fn parse_left_side_inputs(&mut self, tokens: &Vec<Token>, at: usize) -> (r: (
        Vec<StatementMatchKind>,
        bool,
        usize,
    ))
        requires
            old(self).wf(),
            crate::lexer::no_char_sequences(tokens@),
            at <= tokens@.len(),
        ensures
            final(self).wf(),
            final(self)@.input == old(self)@.input,
            final(self)@.pos == old(self)@.pos,
            final(self)@.lex_errors == old(self)@.lex_errors,
            ({
                let lr = parse_left_m(tokens@, at as int, Seq::empty(), Seq::empty());
                &&& r.0@ == lr.kinds
                &&& r.1 == lr.ended
                &&& r.2 as int == lr.at
                &&& r.2 <= tokens@.len()
                &&& final(self)@.syntax_errors == old(self)@.syntax_errors + lr.errs
                &&& forall|k: int| 0 <= k < r.0@.len() ==> !((#[trigger] r.0@[k]) is Sequence)
            }),
    {
        let ghost target = parse_left_m(
            tokens@,
            at as int,
            Seq::<StatementMatchKind>::empty(),
            Seq::<SyntaxError>::empty(),
        );
        let ghost errors0 = self@.syntax_errors;
        let mut e_track: Ghost<Seq<SyntaxError>> = Ghost(Seq::empty());
        let mut kinds: Vec<StatementMatchKind> = Vec::new();
        let mut i: usize = at;
        proof {
            lemma_parse_left_no_sequence(
                tokens@,
                at as int,
                Seq::empty(),
                Seq::empty(),
            );
            assert(errors0 + Seq::<SyntaxError>::empty() =~= errors0);
        }
        loop
            invariant
                self.wf(),
                self@.input == old(self)@.input,
                self@.pos == old(self)@.pos,
                self@.lex_errors == old(self)@.lex_errors,
                at <= i <= tokens@.len(),
                self@.syntax_errors == errors0 + e_track@,
                parse_left_m(tokens@, i as int, kinds@, e_track@) == target,
                forall|k: int| 0 <= k < kinds@.len() ==> !((#[trigger] kinds@[k]) is Sequence),
            decreases tokens@.len() - i,
        {
            if i >= tokens.len() {
                proof {
                    assert(target.kinds =~= Seq::<StatementMatchKind>::empty());
                }
                return (Vec::new(), false, i);
            }
            let ghost e0 = e_track@;
            let ghost kinds0 = kinds@;
            match &tokens[i].kind {
                TokenKind::Arrow => {
                    return (kinds, true, i + 1);
                },
                TokenKind::UnderScore => {
                    if kinds.len() > 0 {
                        self.errors.push(
                            SyntaxError {
                                kind: SyntaxErrorKind::UnseparatedMatch,
                                token: Some(tokens[i].duplicate()),
                            },
                        );
                    }
                    kinds.push(StatementMatchKind::Default);
                    proof {
                        e_track@ = e0 + sep_errs(kinds0, tokens@[i as int]);
                        assert(self@.syntax_errors =~= errors0 + e_track@);
                    }
                    i = i + 1;
                },
                TokenKind::Char(c) => {
                    let c = *c;
                    if kinds.len() > 0 {
                        self.errors.push(
                            SyntaxError {
                                kind: SyntaxErrorKind::UnseparatedMatch,
                                token: Some(tokens[i].duplicate()),
                            },
                        );
                    }
                    kinds.push(StatementMatchKind::Literal(c));
                    proof {
                        e_track@ = e0 + sep_errs(kinds0, tokens@[i as int]);
                        assert(self@.syntax_errors =~= errors0 + e_track@);
                    }
                    i = i + 1;
                },
                TokenKind::CharSequence(_) => {
                    proof {
                        assert(false);
                    }
                    return (Vec::new(), false, i);
                },
                TokenKind::SemiColumn => {
                    i = i + 1;
                },
                TokenKind::Range => {
                    if kinds.len() == 0 {
                        self.errors.push(
                            SyntaxError {
                                kind: SyntaxErrorKind::RangeNeedsOpeningLiteral,
                                token: Some(tokens[i].duplicate()),
                            },
                        );
                        proof {
                            e_track@ = e0 + seq![
                                SyntaxError {
                                    kind: SyntaxErrorKind::RangeNeedsOpeningLiteral,
                                    token: Some(tokens@[i as int]),
                                },
                            ];
                            assert(self@.syntax_errors =~= errors0 + e_track@);
                        }
                        i = i + 1;
                    } else {
                        let li = kinds.len() - 1;
                        let mut open_literal: Option<char> = None;
                        match &kinds[li] {
                            StatementMatchKind::Literal(c0) => {
                                open_literal = Some(*c0);
                            },
                            _ => {},
                        }
                        match open_literal {
                            Some(c0) => {
                                if i + 1 < tokens.len() {
                                    let mut close_literal: Option<char> = None;
                                    match &tokens[i + 1].kind {
                                        TokenKind::Char(c1) => {
                                            close_literal = Some(*c1);
                                        },
                                        _ => {},
                                    }
                                    match close_literal {
                                        Some(c1) => {
                                            let _ = kinds.pop();
                                            kinds.push(
                                                StatementMatchKind::Range(
                                                    CharRange::new(c0, c1),
                                                ),
                                            );
                                            proof {
                                                assert(kinds@ =~= kinds0.drop_last().push(
                                                    StatementMatchKind::Range(
                                                        spec_char_range(c0, c1),
                                                    ),
                                                ));
                                            }
                                            i = i + 2;
                                        },
                                        None => {
                                            self.errors.push(
                                                SyntaxError {
                                                    kind: SyntaxErrorKind::MissingRangeClose,
                                                    token: Some(tokens[i + 1].duplicate()),
                                                },
                                            );
                                            proof {
                                                e_track@ = e0 + seq![
                                                    SyntaxError {
                                                        kind: SyntaxErrorKind::MissingRangeClose,
                                                        token: Some(tokens@[i as int + 1]),
                                                    },
                                                ];
                                                assert(self@.syntax_errors =~= errors0
                                                    + e_track@);
                                            }
                                            i = i + 2;
                                        },
                                    }
                                } else {
                                    self.errors.push(
                                        SyntaxError {
                                            kind: SyntaxErrorKind::MissingRangeClose,
                                            token: None,
                                        },
                                    );
                                    proof {
                                        e_track@ = e0 + seq![
                                            SyntaxError {
                                                kind: SyntaxErrorKind::MissingRangeClose,
                                                token: None,
                                            },
                                        ];
                                        assert(self@.syntax_errors =~= errors0 + e_track@);
                                    }
                                    i = i + 1;
                                }
                            },
                            None => {
                                self.errors.push(
                                    SyntaxError {
                                        kind: SyntaxErrorKind::RangeOpenNotLiteral,
                                        token: Some(tokens[i].duplicate()),
                                    },
                                );
                                proof {
                                    e_track@ = e0 + seq![
                                        SyntaxError {
                                            kind: SyntaxErrorKind::RangeOpenNotLiteral,
                                            token: Some(tokens@[i as int]),
                                        },
                                    ];
                                    assert(self@.syntax_errors =~= errors0 + e_track@);
                                }
                                i = i + 1;
                            },
                        }
                    }
                },
                _ => {
                    return (Vec::new(), true, i + 1);
                },
            }
        }
    }

    /// Parse one state definition, entered just after the `state`
    /// keyword: its name, its opening brace, its statements until the
    /// closing brace. A malformed definition is still handed out, with
    /// whatever statements were gathered before the error.
    fn parse_state_definition(
        &mut self,
        tokens: &Vec<Token>,
        at: usize,
        kw_return: InternedString,
        empty_name: InternedString,
        missing_name: InternedString,
    ) -> (r: (StateDefinition, usize))
        requires
            old(self).wf(),
            crate::lexer::no_char_sequences(tokens@),
            at <= tokens@.len(),
        ensures
            final(self).wf(),
            final(self)@.input == old(self)@.input,
            final(self)@.pos == old(self)@.pos,
            final(self)@.lex_errors == old(self)@.lex_errors,
            ({
                let dr = parse_state_def_m(
                    tokens@,
                    at as int,
                    kw_return,
                    empty_name,
                    missing_name,
                );
                &&& r.0@ == dr.def
                &&& r.1 as int == dr.at
                &&& at <= r.1 <= tokens@.len()
                &&& final(self)@.syntax_errors == old(self)@.syntax_errors + dr.errs
            }),
    {
        let ghost errors0 = self@.syntax_errors;
        if at >= tokens.len() {
            self.errors.push(
                SyntaxError { kind: SyntaxErrorKind::MissingStateName, token: None },
            );
            let def = StateDefinition::new(missing_name);
            proof {
                let dr = parse_state_def_m(
                    tokens@,
                    at as int,
                    kw_return,
                    empty_name,
                    missing_name,
                );
                assert(self@.syntax_errors =~= errors0 + dr.errs);
            }
            return (def, at);
        }
        let mut name = empty_name;
        match &tokens[at].kind {
            TokenKind::Identifier(n) => {
                name = *n;
            },
            _ => {},
        }
        let j = at + 1;
        let mut current_state_definition = StateDefinition::new(name);
        if j >= tokens.len() {
            self.errors.push(
                SyntaxError { kind: SyntaxErrorKind::MissingOpenBrace, token: None },
            );
            proof {
                let dr = parse_state_def_m(
                    tokens@,
                    at as int,
                    kw_return,
                    empty_name,
                    missing_name,
                );
                assert(self@.syntax_errors =~= errors0 + dr.errs);
            }
            return (current_state_definition, j);
        }
        let mut saw_open = false;
        match &tokens[j].kind {
            TokenKind::Scope(ScopeType::Open) => {
                saw_open = true;
            },
            _ => {},
        }
        if !saw_open {
            self.errors.push(
                SyntaxError {
                    kind: SyntaxErrorKind::MissingOpenBrace,
                    token: Some(tokens[j].duplicate()),
                },
            );
            proof {
                let dr = parse_state_def_m(
                    tokens@,
                    at as int,
                    kw_return,
                    empty_name,
                    missing_name,
                );
                assert(self@.syntax_errors =~= errors0 + dr.errs);
            }
            return (current_state_definition, j + 1);
        }
        let ghost br_target = parse_body_m(
            tokens@,
            j as int + 1,
            kw_return,
            Seq::<Statement>::empty(),
            Seq::<SyntaxError>::empty(),
        );
        let mut e_track: Ghost<Seq<SyntaxError>> = Ghost(Seq::empty());
        let mut i: usize = j + 1;
        proof {
            assert(current_state_definition@.statements =~= Seq::<Statement>::empty());
            assert(errors0 + Seq::<SyntaxError>::empty() =~= errors0);
        }
        loop
            invariant
                self.wf(),
                crate::lexer::no_char_sequences(tokens@),
                self@.input == old(self)@.input,
                self@.pos == old(self)@.pos,
                self@.lex_errors == old(self)@.lex_errors,
                j + 1 <= i <= tokens@.len(),
                j == at + 1,
                current_state_definition@.name == name,
                errors0 == old(self)@.syntax_errors,
                self@.syntax_errors == errors0 + e_track@,
                parse_body_m(
                    tokens@,
                    i as int,
                    kw_return,
                    current_state_definition@.statements,
                    e_track@,
                ) == br_target,
                parse_state_def_m(
                    tokens@,
                    at as int,
                    kw_return,
                    empty_name,
                    missing_name,
                ) == (DefResult {
                    def: StateDefM { name, statements: br_target.statements },
                    at: br_target.at,
                    errs: br_target.errs,
                }),
            decreases scan_measure_toks(tokens@, i as int),
        {
            let ghost e0 = e_track@;
            let ghost stmts0 = current_state_definition@.statements;
            let ghost lr = parse_left_m(
                tokens@,
                i as int,
                Seq::<StatementMatchKind>::empty(),
                Seq::<SyntaxError>::empty(),
            );
            let (kinds, ended, nx) = self.parse_left_side_inputs(tokens, i);
            proof {
                lemma_parse_left_bounds(
                    tokens@,
                    i as int,
                    Seq::<StatementMatchKind>::empty(),
                    Seq::<SyntaxError>::empty(),
                );
            }
            if kinds.len() == 0 {
                if !ended {
                    self.errors.push(
                        SyntaxError { kind: SyntaxErrorKind::UnclosedStateBody, token: None },
                    );
                    proof {
                        let br = parse_body_m(tokens@, i as int, kw_return, stmts0, e0);
                        assert(br == br_target);
                        let dr = parse_state_def_m(
                            tokens@,
                            at as int,
                            kw_return,
                            empty_name,
                            missing_name,
                        );
                        assert(current_state_definition@ == dr.def);
                        assert(self@.syntax_errors =~= errors0 + (e0 + lr.errs + seq![
                            SyntaxError {
                                kind: SyntaxErrorKind::UnclosedStateBody,
                                token: None,
                            },
                        ]));
                        assert(self@.syntax_errors =~= errors0 + dr.errs);
                    }
                    return (current_state_definition, nx);
                }
                let mut closed = false;
                match &tokens[nx - 1].kind {
                    TokenKind::Scope(ScopeType::Close) => {
                        closed = true;
                    },
                    _ => {},
                }
                if closed {
                    proof {
                        let br = parse_body_m(tokens@, i as int, kw_return, stmts0, e0);
                        assert(br == br_target);
                        let dr = parse_state_def_m(
                            tokens@,
                            at as int,
                            kw_return,
                            empty_name,
                            missing_name,
                        );
                        assert(current_state_definition@ == dr.def);
                        assert(self@.syntax_errors =~= errors0 + (e0 + lr.errs));
                        assert(self@.syntax_errors =~= errors0 + dr.errs);
                    }
                    return (current_state_definition, nx);
                }
                self.errors.push(
                    SyntaxError {
                        kind: SyntaxErrorKind::UnclosedStateBody,
                        token: Some(tokens[nx - 1].duplicate()),
                    },
                );
                proof {
                    let br = parse_body_m(tokens@, i as int, kw_return, stmts0, e0);
                    assert(br == br_target);
                    let dr = parse_state_def_m(
                        tokens@,
                        at as int,
                        kw_return,
                        empty_name,
                        missing_name,
                    );
                    assert(current_state_definition@ == dr.def);
                    assert(self@.syntax_errors =~= errors0 + (e0 + lr.errs + seq![
                        SyntaxError {
                            kind: SyntaxErrorKind::UnclosedStateBody,
                            token: Some(tokens@[nx as int - 1]),
                        },
                    ]));
                    assert(self@.syntax_errors =~= errors0 + dr.errs);
                }
                return (current_state_definition, nx);
            }
            if !ended {
                self.errors.push(
                    SyntaxError { kind: SyntaxErrorKind::MissingArrow, token: None },
                );
                self.errors.push(
                    SyntaxError { kind: SyntaxErrorKind::UnclosedStateBody, token: None },
                );
                proof {
                    let br = parse_body_m(tokens@, i as int, kw_return, stmts0, e0);
                    assert(br == br_target);
                    let dr = parse_state_def_m(
                        tokens@,
                        at as int,
                        kw_return,
                        empty_name,
                        missing_name,
                    );
                    assert(current_state_definition@ == dr.def);
                    assert(self@.syntax_errors =~= errors0 + (e0 + lr.errs + seq![
                        SyntaxError { kind: SyntaxErrorKind::MissingArrow, token: None },
                        SyntaxError {
                            kind: SyntaxErrorKind::UnclosedStateBody,
                            token: None,
                        },
                    ]));
                    assert(self@.syntax_errors =~= errors0 + dr.errs);
                }
                return (current_state_definition, nx);
            }
            let mut is_arrow = false;
            match &tokens[nx - 1].kind {
                TokenKind::Arrow => {
                    is_arrow = true;
                },
                _ => {},
            }
            if is_arrow {
                let ghost drm = parse_destination_m(tokens@, nx as int, kw_return);
                let (dopt, dat) = self.parse_destination(tokens, nx, kw_return);
                match dopt {
                    Some(destination) => {
                        let n_k = kinds.len();
                        let mut k: usize = 0;
                        while k < n_k
                            invariant
                                0 <= k <= n_k,
                                n_k == kinds@.len(),
                                forall|m: int|
                                    0 <= m < kinds@.len() ==> !((#[trigger] kinds@[m])
                                        is Sequence),
                                current_state_definition@.name == name,
                                current_state_definition@.statements == stmts0
                                    + statements_of(kinds@, destination).take(k as int),
                            decreases n_k - k,
                        {
                            current_state_definition.push_statement(
                                Statement::new(destination, kinds[k].duplicate()),
                            );
                            proof {
                                let so = statements_of(kinds@, destination);
                                assert(so[k as int] == (Statement {
                                    match_kind: kinds@[k as int],
                                    destination,
                                }));
                                assert(so.take(k as int + 1) =~= so.take(k as int).push(
                                    so[k as int],
                                ));
                                assert(stmts0 + so.take(k as int + 1) =~= (stmts0 + so.take(
                                    k as int,
                                )).push(so[k as int]));
                            }
                            k = k + 1;
                        }
                        proof {
                            let so = statements_of(kinds@, destination);
                            assert(so.take(n_k as int) =~= so);
                            e_track@ = e0 + lr.errs + drm.errs;
                            assert(self@.syntax_errors =~= errors0 + e_track@);
                            assert(dat as int > i as int);
                        }
                        i = dat;
                    },
                    None => {
                        proof {
                            e_track@ = e0 + lr.errs + drm.errs;
                            assert(self@.syntax_errors =~= errors0 + e_track@);
                            assert(dat as int > i as int);
                        }
                        i = dat;
                    },
                }
            } else {
                self.errors.push(
                    SyntaxError {
                        kind: SyntaxErrorKind::MissingArrow,
                        token: Some(tokens[nx - 1].duplicate()),
                    },
                );
                proof {
                    e_track@ = e0 + lr.errs + seq![
                        SyntaxError {
                            kind: SyntaxErrorKind::MissingArrow,
                            token: Some(tokens@[nx as int - 1]),
                        },
                    ];
                    assert(self@.syntax_errors =~= errors0 + e_track@);
                }
                i = nx;
            }
        }
    }

    /// Parse the input: lex it whole, then read state definitions until
    /// the tokens run out. Returns the ordered list of definitions
    /// assembled, even in the presence of diagnostics; identifiers and
    /// the reserved names are interned in `interner`.
    #[verifier::loop_isolation(false)]
    pub fn parse(&mut self, interner: &mut Interner) -> (defs: Vec<StateDefinition>)
        requires
            old(self).wf(),
            old(interner).wf(),
        ensures
            final(self).wf(),
            final(interner).wf(),
            final(self)@.input == old(self)@.input,
            ({
                let po = parse_m(old(interner)@, old(self)@.input, old(self)@.pos);
                &&& final(interner)@ == po.strs
                &&& defs_view(defs@) == po.defs
                &&& final(self)@.lex_errors == old(self)@.lex_errors + po.lex_errors
                &&& final(self)@.syntax_errors == old(self)@.syntax_errors + po.syntax_errors
            }),
    {
        let ghost strs0 = interner@;
        let ghost errors0 = self@.syntax_errors;
        let kw_state = interner.intern("state");
        let kw_return = interner.intern("return");
        let empty_name = interner.intern("");
        let missing_name = interner.intern("no name provided");
        proof {
            assert(interner@ == keywords_interned(strs0));
            assert(kw_state == kw_state_sym(strs0));
            assert(kw_return == kw_return_sym(strs0));
            assert(empty_name == empty_name_sym(strs0));
            assert(missing_name == missing_name_sym(strs0));
        }
        let tokens = self.parser.tokenize(interner);
        proof {
            crate::lexer::lemma_lex_all_no_charseq(
                keywords_interned(strs0),
                old(self)@.input,
                old(self)@.pos,
            );
        }
        let ghost pr_target = parse_program_m(
            tokens@,
            0,
            kw_state,
            kw_return,
            empty_name,
            missing_name,
        );
        let mut e_track: Ghost<Seq<SyntaxError>> = Ghost(Seq::empty());
        let ghost input0 = self@.input;
        let ghost lex_after = self@.lex_errors;
        let mut defs: Vec<StateDefinition> = Vec::new();
        let mut i: usize = 0;
        proof {
            assert(errors0 + Seq::<SyntaxError>::empty() =~= errors0);
            assert(defs_view(defs@) =~= Seq::<StateDefM>::empty());
        }
        while i < tokens.len()
            invariant
                self.wf(),
                0 <= i <= tokens@.len(),
                self@.input == input0,
                self@.lex_errors == lex_after,
                self@.syntax_errors == errors0 + e_track@,
                ({
                    let rest = parse_program_m(
                        tokens@,
                        i as int,
                        kw_state,
                        kw_return,
                        empty_name,
                        missing_name,
                    );
                    &&& defs_view(defs@) + rest.0 == pr_target.0
                    &&& e_track@ + rest.1 == pr_target.1
                }),
            decreases tokens@.len() - i,
        {
            let ghost e0 = e_track@;
            let ghost defs0 = defs@;
            let mut is_state_kw = false;
            match &tokens[i].kind {
                TokenKind::Identifier(n) => {
                    if *n == kw_state {
                        is_state_kw = true;
                    }
                },
                _ => {},
            }
            if is_state_kw {
                let ghost drm = parse_state_def_m(
                    tokens@,
                    i as int + 1,
                    kw_return,
                    empty_name,
                    missing_name,
                );
                let (def, nx) = self.parse_state_definition(
                    &tokens,
                    i + 1,
                    kw_return,
                    empty_name,
                    missing_name,
                );
                defs.push(def);
                proof {
                    e_track@ = e0 + drm.errs;
                    assert(self@.syntax_errors =~= errors0 + e_track@);
                    assert(defs_view(defs@) =~= defs_view(defs0).push(drm.def));
                    assert(nx as int > i as int);
                    let rest = parse_program_m(
                        tokens@,
                        nx as int,
                        kw_state,
                        kw_return,
                        empty_name,
                        missing_name,
                    );
                    assert(defs_view(defs@) + rest.0 =~= defs_view(defs0) + (seq![drm.def]
                        + rest.0));
                    assert(e_track@ + rest.1 =~= e0 + (drm.errs + rest.1));
                }
                i = nx;
            } else {
                self.errors.push(
                    SyntaxError {
                        kind: SyntaxErrorKind::DefinitionStart,
                        token: Some(tokens[i].duplicate()),
                    },
                );
                proof {
                    let err = SyntaxError {
                        kind: SyntaxErrorKind::DefinitionStart,
                        token: Some(tokens@[i as int]),
                    };
                    e_track@ = e0 + seq![err];
                    assert(self@.syntax_errors =~= errors0 + e_track@);
                    let rest = parse_program_m(
                        tokens@,
                        i as int + 1,
                        kw_state,
                        kw_return,
                        empty_name,
                        missing_name,
                    );
                    assert(e_track@ + rest.1 =~= e0 + (seq![err] + rest.1));
                }
                i = i + 1;
            }
        }
        proof {
            let rest = parse_program_m(
                tokens@,
                i as int,
                kw_state,
                kw_return,
                empty_name,
                missing_name,
            );
            assert(rest.0 =~= Seq::<StateDefM>::empty());
            assert(rest.1 =~= Seq::<SyntaxError>::empty());
            assert(defs_view(defs@) + rest.0 =~= defs_view(defs@));
            assert(e_track@ + rest.1 =~= e_track@);
        }
        defs
    }
}

} // verus!
