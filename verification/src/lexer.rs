//! Lexical analysis: the tokens of a source text.

use crate::grammar::{find_spec, Grammar};
use crate::matcher::{chars_of, Matcher};
use crate::symbol::NULL;
use crate::token::{Span, Token};
use vstd::prelude::*;

verus! {

/// What stops the lexical analysis.
#[derive(Debug)]
pub enum Error {
    /// The file cannot be read.
    File(String),
    /// No symbol matches the text at the span.
    Token(String, Span),
}

/// A token, as mathematical values.
pub struct Lexeme {
    pub symbol: usize,
    pub text: Seq<char>,
    pub span: Span,
}

/// The last full match: its symbol, the indices of its first and last
/// character, and its span.
pub struct Found {
    pub symbol: usize,
    pub first: int,
    pub last: int,
    pub span: Span,
}

/// What the lexical analysis has come to: the index of the next character,
/// the index at which the text of the current token begins, the position of
/// the next character, the span of the current text, the last full match, and
/// the tokens so far.
pub struct LexState {
    pub idx: int,
    pub start: int,
    pub position: (usize, usize),
    pub span: Span,
    pub last: Option<Found>,
    pub tokens: Seq<Lexeme>,
}

/// What one step of the lexical analysis leads to.
pub enum LexStep {
    /// The analysis goes on.
    Go(LexState),
    /// The analysis ends with the tokens.
    Done(Seq<Lexeme>),
    /// The analysis ends at a text that no symbol matches.
    Fail(Seq<char>, Span),
}

/// The position behind a character: the start of the next row behind a
/// line feed, else the next column.
pub open spec fn advanced(position: (usize, usize), ch: char) -> (usize, usize) {
    if ch == '\n' {
        ((position.0 + 1) as usize, 1)
    } else {
        (position.0, (position.1 + 1) as usize)
    }
}

/// One step of the lexical analysis. The next character is added to the
/// text. Where a symbol matches the text, in full or in part, the analysis
/// moves on by one character, and a full match is kept as the last one. Where
/// none does, the last full match becomes a token, unless its symbol is ϵ,
/// and the analysis goes back to the character behind it; without a full
/// match it fails. At the end of the source the analysis fails unless a full
/// match is kept; that match gives no token.
pub open spec fn lex_step(matchers: Seq<(usize, Matcher)>, source: Seq<char>, c: LexState) -> LexStep {
    if c.idx >= source.len() {
        if c.last is None {
            LexStep::Fail(source.subrange(c.start, c.idx), c.span)
        } else {
            LexStep::Done(c.tokens)
        }
    } else {
        let text = source.subrange(c.start, c.idx + 1);
        match find_spec(matchers, text) {
            None => match c.last {
                None => LexStep::Fail(text, c.span),
                Some(found) => {
                    let position = advanced(found.span.end, source[found.last]);
                    LexStep::Go(
                        LexState {
                            idx: found.last + 1,
                            start: found.last + 1,
                            position,
                            span: Span { start: position, end: position },
                            last: None,
                            tokens: if found.symbol != NULL {
                                c.tokens.push(
                                    Lexeme {
                                        symbol: found.symbol,
                                        text: source.subrange(found.first, found.last + 1),
                                        span: found.span,
                                    },
                                )
                            } else {
                                c.tokens
                            },
                        },
                    )
                },
            },
            Some((id, full)) => {
                let position = advanced(c.position, source[c.idx]);
                LexStep::Go(
                    LexState {
                        idx: c.idx + 1,
                        start: c.start,
                        position,
                        span: Span { start: c.span.start, end: position },
                        last: if full {
                            Some(Found { symbol: id, first: c.start, last: c.idx, span: c.span })
                        } else {
                            c.last
                        },
                        tokens: c.tokens,
                    },
                )
            },
        }
    }
}

/// How the lexical analysis ends within `fuel` steps.
pub open spec fn lex_run(
    matchers: Seq<(usize, Matcher)>,
    source: Seq<char>,
    c: LexState,
    fuel: nat,
) -> Option<LexStep>
    decreases fuel,
{
    match lex_step(matchers, source, c) {
        LexStep::Go(next) => if fuel == 0 {
            None
        } else {
            lex_run(matchers, source, next, (fuel - 1) as nat)
        },
        end => Some(end),
    }
}

/// Where the lexical analysis starts: at the first character, in row 1 and
/// column 1.
pub open spec fn lex_start() -> LexState {
    LexState {
        idx: 0,
        start: 0,
        position: (1, 1),
        span: Span { start: (1, 1), end: (1, 1) },
        last: None,
        tokens: Seq::empty(),
    }
}

/// The tokens, as mathematical values.
pub open spec fn lexemes(tokens: Seq<Token>) -> Seq<Lexeme> {
    tokens.map_values(
        |token: Token| Lexeme { symbol: token.symbol, text: token.lexeme@, span: token.span },
    )
}

/// What `get_tokens` returns: the tokens with which the lexical analysis
/// of the source ends, or the text and the span at which it fails.
pub open spec fn lex_outcome(
    matchers: Seq<(usize, Matcher)>,
    source: Seq<char>,
    result: Result<Vec<Token>, Error>,
) -> bool {
    exists|fuel: nat|
        match #[trigger] lex_run(matchers, source, lex_start(), fuel) {
            Some(LexStep::Done(tokens)) => result matches Ok(list) && lexemes(list@) == tokens,
            Some(LexStep::Fail(text, span)) => result matches Err(Error::Token(lexeme, at))
                && lexeme@ == text && at == span,
            _ => false,
        }
}

/// Advances the position in the file based on the current character.
pub fn advance(position: (usize, usize), ch: char) -> (next: (usize, usize))
    requires
        position.0 < usize::MAX,
        position.1 < usize::MAX,
    ensures
        next == advanced(position, ch),
{
    let (row, column) = position;
    if ch == '\n' {
        return (row + 1, 1);
    }
    (row, column + 1)
}

/// Returns the list of tokens in the source text using lexical analysis.
///
/// Every token is the longest text that a symbol of the grammar matches in
/// full; of several symbols the one that was declared first. Tokens of the
/// symbol ϵ are left out.
pub fn get_tokens(source: &str, grammar: &Grammar) -> (result: Result<Vec<Token>, Error>)
    requires
        source@.len() < usize::MAX,
    ensures
        lex_outcome(grammar.tokens@, source@, result),
{
    let ghost matchers = grammar.tokens@;
    let chars = chars_of(source);
    let ghost text_all = source@;
    let len = chars.len();
    let mut idx: usize = 0;
    let mut start: usize = 0;
    let mut position: (usize, usize) = (1, 1);
    let mut span = Span::new(position);
    let mut last_match: Option<(Token, usize)> = None;
    let mut tokens: Vec<Token> = Vec::new();
    let ghost mut steps: nat = 0;
    let ghost mut seen: Option<Found> = None;
    assert(lexemes(tokens@) =~= Seq::<Lexeme>::empty());
    loop
        invariant
            matchers == grammar.tokens@,
            text_all == source@,
            chars@ == text_all,
            len == chars.len(),
            len < usize::MAX,
            start <= idx <= len,
            position.0 <= idx + 1,
            position.1 <= idx + 1,
            span.end == position,
            match last_match {
                Some((token, end)) => seen matches Some(found) && found.symbol == token.symbol
                    && found.first == start && found.last == end && start <= end < idx
                    && found.span == token.span && token.lexeme@ == text_all.subrange(
                    start as int,
                    end + 1,
                ) && token.span.end.0 <= end + 1 && token.span.end.1 <= end + 1,
                None => seen is None,
            },
            forall|f: nat|
                lex_run(matchers, text_all, lex_start(), steps + f) == #[trigger] lex_run(
                    matchers,
                    text_all,
                    LexState {
                        idx: idx as int,
                        start: start as int,
                        position,
                        span,
                        last: seen,
                        tokens: lexemes(tokens@),
                    },
                    f,
                ),
        decreases len - start, len - idx,
    {
        let ghost cur = LexState {
            idx: idx as int,
            start: start as int,
            position,
            span,
            last: seen,
            tokens: lexemes(tokens@),
        };
        proof {
            assert(lex_run(matchers, text_all, lex_start(), steps + 0) == lex_run(
                matchers,
                text_all,
                cur,
                0,
            ));
        }
        if idx >= len {
            if last_match.is_none() {
                let text = source.substring_char(start, idx);
                return Err(Error::Token(text.to_owned(), span));
            }
            return Ok(tokens);
        }
        let ch = chars[idx];
        let text = source.substring_char(start, idx + 1);
        let current_match = grammar.find_symbol(text);
        match current_match {
            None => {
                // If there's no match for the current string, take the last match.
                match last_match {
                    // There should always be at least a partial match.
                    None => {
                        return Err(Error::Token(text.to_owned(), span));
                    },
                    Some((token, end)) => {
                        let ghost before = lexemes(tokens@);
                        let last_char = chars[end];
                        position = advance(token.span.end, last_char);
                        // Ignore ϵ symbols.
                        if token.symbol != NULL {
                            let ghost pushed = Lexeme {
                                symbol: token.symbol,
                                text: token.lexeme@,
                                span: token.span,
                            };
                            tokens.push(token);
                            assert(lexemes(tokens@) =~= before.push(pushed));
                        }
                        // Seek back to the end of the last match.
                        idx = end + 1;
                        start = idx;
                        span = Span::new(position);
                        last_match = None;
                        proof {
                            seen = None;
                        }
                    },
                }
            },
            Some((id, full)) => {
                // Save the current full match.
                if full {
                    let token = Token::new(id, text.to_owned(), span);
                    last_match = Some((token, idx));
                    proof {
                        seen = Some(
                            Found { symbol: id, first: start as int, last: idx as int, span },
                        );
                    }
                }
                position = advance(position, ch);
                span = Span { start: span.start, end: position };
                idx += 1;
            },
        }
        proof {
            let after = LexState {
                idx: idx as int,
                start: start as int,
                position,
                span,
                last: seen,
                tokens: lexemes(tokens@),
            };
            assert(lex_step(matchers, text_all, cur) == LexStep::Go(after));
            assert forall|f: nat|
                lex_run(matchers, text_all, lex_start(), (steps + 1) + f) == #[trigger] lex_run(
                    matchers,
                    text_all,
                    after,
                    f,
                ) by {
                assert(lex_run(matchers, text_all, lex_start(), steps + (f + 1)) == lex_run(
                    matchers,
                    text_all,
                    cur,
                    f + 1,
                ));
            }
            steps = steps + 1;
        }
    }
}

} // verus!
