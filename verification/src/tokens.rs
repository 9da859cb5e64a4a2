//! Tokens produced by the lexer.
//!
//! A token pairs a [`TokenKind`] with [`TokenDebugInfo`], the exact source
//! position the token was read from. Tokens are immutable once produced.

use vstd::prelude::*;
use crate::string_interning::InternedString;
use crate::text::copy_chars;

verus! {

/// A lexed token: its kind and where in the source it stands.
#[derive(Debug, Clone, PartialEq, Eq)]
pub struct Token {
    pub kind: TokenKind,
    pub debug_info: TokenDebugInfo,
}

/// The kinds of token the language knows.
#[derive(Debug, Clone, PartialEq, Eq)]
pub enum TokenKind {
    /// An identifier, interned on completion.
    Identifier(InternedString),
    /// The arrow `=>` between a match pattern and its destination.
    Arrow,
    /// A colon `:`.
    Column,
    /// A character literal such as `'a'`.
    Char(char),
    /// A literal sequence of characters, matched one after another.
    CharSequence(Vec<char>),
    /// The range marker `..` between two character literals.
    Range,
    /// A semicolon `;`, separating statements.
    SemiColumn,
    /// A run of decimal digits.
    Integer(i32),
    /// An opening or closing brace.
    Scope(ScopeType),
    /// The wildcard `_`.
    UnderScore,
}

/// Whether a brace opens or closes a scope.
#[derive(Debug, Copy, Clone, PartialEq, Eq, Structural)]
pub enum ScopeType {
    Open,
    Close,
}

impl TokenKind {
    /// An equal copy of the kind. A literal sequence's characters live in
    /// one place, so only kinds without one can be copied as equal values.
    pub fn duplicate(&self) -> (r: TokenKind)
        requires
            !(self is CharSequence),
        ensures
            r == *self,
    {
        match self {
            TokenKind::Identifier(s) => TokenKind::Identifier(*s),
            TokenKind::Arrow => TokenKind::Arrow,
            TokenKind::Column => TokenKind::Column,
            TokenKind::Char(c) => TokenKind::Char(*c),
            TokenKind::CharSequence(v) => TokenKind::CharSequence(copy_chars(v)),
            TokenKind::Range => TokenKind::Range,
            TokenKind::SemiColumn => TokenKind::SemiColumn,
            TokenKind::Integer(n) => TokenKind::Integer(*n),
            TokenKind::Scope(t) => TokenKind::Scope(*t),
            TokenKind::UnderScore => TokenKind::UnderScore,
        }
    }
}

impl Token {
    /// An equal copy of the token; see [`TokenKind::duplicate`].
    pub fn duplicate(&self) -> (r: Token)
        requires
            !(self.kind is CharSequence),
        ensures
            r == *self,
    {
        Token { kind: self.kind.duplicate(), debug_info: self.debug_info }
    }

    /// Pair a kind with its position.
    pub fn new(kind: TokenKind, debug_info: TokenDebugInfo) -> (r: Token)
        ensures
            r == (Token { kind, debug_info }),
    {
        Token { kind, debug_info }
    }
}

/// Source position of a token: `(start, end)` for column, line and
/// absolute character index.
#[derive(Debug, Copy, Clone, PartialEq, Eq)]
pub struct TokenDebugInfo {
    pub column_location: (usize, usize),
    pub line_location: (usize, usize),
    pub index_location: (usize, usize),
}

impl TokenDebugInfo {
    /// Build debug info from the three `(start, end)` pairs.
    pub fn new(
        column_location: (usize, usize),
        line_location: (usize, usize),
        index_location: (usize, usize),
    ) -> (r: TokenDebugInfo)
        ensures
            r == (TokenDebugInfo { column_location, line_location, index_location }),
    {
        TokenDebugInfo { column_location, line_location, index_location }
    }
}

} // verus!
