//! Tokens of the input and their places in it.

use crate::symbol::{symbol_name, Symbol, END, NULL};
use vstd::prelude::*;

verus! {

/// The `Span` struct denotes the location of a `Token` in a source file.
/// The position is indicated by a row and a column number.
#[derive(Clone, Copy, Debug)]
pub struct Span {
    pub start: (usize, usize),
    pub end: (usize, usize),
}

impl Span {
    /// Constructs the span that starts and ends at the position.
    pub fn new(position: (usize, usize)) -> (span: Span)
        ensures
            span.start == position,
            span.end == position,
    {
        Span { start: position, end: position }
    }
}

impl Default for Span {
    fn default() -> (span: Span)
        ensures
            span.start == (0usize, 0usize),
            span.end == (0usize, 0usize),
    {
        Span { start: (0, 0), end: (0, 0) }
    }
}

/// The `Token` struct describes an element in the input file.
#[derive(Debug)]
pub struct Token {
    pub symbol: usize,
    pub lexeme: String,
    pub span: Span,
}

impl Token {
    /// Constructs a new token.
    pub fn new(symbol: usize, lexeme: String, span: Span) -> (token: Token)
        ensures
            token.symbol == symbol,
            token.lexeme == lexeme,
            token.span == span,
    {
        Token { symbol, lexeme, span }
    }

    /// Constructs a token representing the $ symbol.
    pub fn end() -> (token: Token)
        ensures
            token.symbol == END,
            token.lexeme@ == symbol_name(Symbol::End),
            token.span == (Span { start: (0, 0), end: (0, 0) }),
    {
        Token { symbol: END, lexeme: Symbol::End.name(), span: Span::default() }
    }

    /// Constructs a token representing the ϵ symbol.
    pub fn null() -> (token: Token)
        ensures
            token.symbol == NULL,
            token.lexeme@ == symbol_name(Symbol::Null),
            token.span == (Span { start: (0, 0), end: (0, 0) }),
    {
        Token { symbol: NULL, lexeme: Symbol::Null.name(), span: Span::default() }
    }

    /// Returns the last character of the lexeme.
    pub fn last(&self) -> (last: Option<char>)
        ensures
            last == (if self.lexeme@.len() > 0 {
                Some(self.lexeme@.last())
            } else {
                None
            }),
    {
        let len = self.lexeme.as_str().unicode_len();
        if len == 0 {
            None
        } else {
            Some(self.lexeme.as_str().get_char(len - 1))
        }
    }
}

impl Clone for Token {
    fn clone(&self) -> (copy: Token)
        ensures
            copy == *self,
    {
        Token { symbol: self.symbol, lexeme: self.lexeme.clone(), span: self.span }
    }
}

} // verus!
