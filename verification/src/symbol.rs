//! Grammar symbols.

use vstd::prelude::*;
use vstd::string::StringExecFns;

verus! {

/// ID of the symbol that marks the start of the parse stack.
pub const START: usize = 0;

/// ID of the symbol that marks the end of the input.
pub const END: usize = 1;

/// ID of the empty symbol ϵ.
pub const NULL: usize = 2;

/// Number of internal symbols; they occupy the first IDs of every grammar.
pub const INTERNAL: usize = 3;

/// The `Symbol` enum describes an element of a grammar rule.
#[derive(Debug)]
pub enum Symbol {
    /// Start of the parse stack.
    Start,
    /// End of the parse stack.
    End,
    /// An empty symbol.
    Null,
    /// A nonterminal symbol, which is replaced with a set of terminal symbols.
    NonTerminal(usize, String),
    /// A terminal symbol, indicating a token in the input file.
    Terminal(usize, String),
}

/// The text that names a symbol: internal symbols have fixed names, a
/// nonterminal is named as written, a terminal is put in single quotes, or
/// in double quotes where its text holds a single quote.
pub open spec fn symbol_name(symbol: Symbol) -> Seq<char> {
    match symbol {
        Symbol::Start => seq!['^'],
        Symbol::End => seq!['$'],
        Symbol::Null => seq!['ϵ'],
        Symbol::NonTerminal(_, name) => name@,
        Symbol::Terminal(_, name) => if name@.contains('\'') {
            seq!['"'] + name@ + seq!['"']
        } else {
            seq!['\''] + name@ + seq!['\'']
        },
    }
}

/// Returns `true` if the text holds the character.
pub fn has_char(text: &str, ch: char) -> (found: bool)
    ensures
        found == text@.contains(ch),
{
    let len = text.unicode_len();
    let mut idx: usize = 0;
    while idx < len
        invariant
            len == text@.len(),
            idx <= len,
            forall|i: int| 0 <= i < idx ==> text@[i] != ch,
        decreases len - idx,
    {
        if text.get_char(idx) == ch {
            return true;
        }
        idx += 1;
    }
    false
}

impl Symbol {
    /// The ID of the symbol.
    pub open spec fn spec_id(&self) -> usize {
        match self {
            Symbol::Start => START,
            Symbol::End => END,
            Symbol::Null => NULL,
            Symbol::NonTerminal(id, _) => *id,
            Symbol::Terminal(id, _) => *id,
        }
    }

    /// Returns a list of internal symbols.
    pub fn internal() -> (symbols: Vec<Symbol>)
        ensures
            symbols@ == seq![Symbol::Start, Symbol::End, Symbol::Null],
    {
        let mut symbols = Vec::new();
        symbols.push(Symbol::Start);
        symbols.push(Symbol::End);
        symbols.push(Symbol::Null);
        assert(symbols@ =~= seq![Symbol::Start, Symbol::End, Symbol::Null]);
        symbols
    }

    /// Returns the ID of the symbol.
    pub fn id(&self) -> (id: usize)
        ensures
            id == self.spec_id(),
    {
        match self {
            Symbol::Start => START,
            Symbol::End => END,
            Symbol::Null => NULL,
            Symbol::NonTerminal(id, _) => *id,
            Symbol::Terminal(id, _) => *id,
        }
    }

    /// Returns the name of the symbol.
    pub fn name(&self) -> (name: String)
        ensures
            name@ == symbol_name(*self),
    {
        match self {
            Symbol::Start => {
                proof {
                    reveal_strlit("^");
                }
                let name = "^".to_owned();
                assert(name@ =~= seq!['^']);
                name
            },
            Symbol::End => {
                proof {
                    reveal_strlit("$");
                }
                let name = "$".to_owned();
                assert(name@ =~= seq!['$']);
                name
            },
            Symbol::Null => {
                proof {
                    reveal_strlit("ϵ");
                }
                let name = "ϵ".to_owned();
                assert(name@ =~= seq!['ϵ']);
                name
            },
            Symbol::NonTerminal(_, name) => name.clone(),
            Symbol::Terminal(_, name) => {
                proof {
                    reveal_strlit("\"");
                    reveal_strlit("'");
                }
                let quote = if has_char(name.as_str(), '\'') {
                    "\""
                } else {
                    "'"
                };
                let quoted = quote.to_owned().concat(name.as_str()).concat(quote);
                assert("\""@ =~= seq!['"']);
                assert("'"@ =~= seq!['\'']);
                quoted
            },
        }
    }

    /// Returns `true` if the symbol is terminal: every symbol but a
    /// nonterminal one, the internal symbols included.
    pub fn is_terminal(&self) -> (terminal: bool)
        ensures
            terminal == !(*self is NonTerminal),
    {
        match self {
            Symbol::NonTerminal(..) => false,
            _ => true,
        }
    }

    /// Returns `true` if the symbol is nonterminal.
    pub fn is_nonterminal(&self) -> (nonterminal: bool)
        ensures
            nonterminal == (*self is NonTerminal),
    {
        match self {
            Symbol::NonTerminal(..) => true,
            _ => false,
        }
    }

    /// Returns `true` if the symbol is internal.
    pub fn is_internal(&self) -> (internal: bool)
        ensures
            internal == (*self is Start || *self is End || *self is Null),
    {
        match self {
            Symbol::NonTerminal(..) | Symbol::Terminal(..) => false,
            _ => true,
        }
    }
}

impl Clone for Symbol {
    fn clone(&self) -> (copy: Symbol)
        ensures
            copy == *self,
    {
        match self {
            Symbol::Start => Symbol::Start,
            Symbol::End => Symbol::End,
            Symbol::Null => Symbol::Null,
            Symbol::NonTerminal(id, name) => Symbol::NonTerminal(*id, name.clone()),
            Symbol::Terminal(id, name) => Symbol::Terminal(*id, name.clone()),
        }
    }
}

} // verus!
