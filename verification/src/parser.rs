//! What the three parsers share: their errors, their input, and the
//! reductions of the LR(1) stack.

use crate::symbol::{Symbol, END, NULL};
use crate::token::Token;
use std::collections::VecDeque;
use vstd::prelude::*;

verus! {

/// What stops a parse.
#[derive(Debug)]
pub enum Error {
    /// The LL(1) table has two rules in one cell for the symbol.
    Conflict(Symbol),
    /// The input ended although the stack is not empty.
    Eof,
    /// The tables do not fit the stack.
    Internal,
    /// No rule or action takes the token.
    Parse(Token),
    /// No wrapper rule can be made for the symbol.
    Symbol(Symbol),
}

/// The symbols of a sequence of tokens.
pub open spec fn symbols_of(tokens: Seq<Token>) -> Seq<usize> {
    tokens.map_values(|token: Token| token.symbol)
}

/// Every token stands for a symbol below `count`.
pub open spec fn tokens_within(tokens: Seq<Token>, count: nat) -> bool {
    forall|i: int| 0 <= i < tokens.len() ==> (#[trigger] tokens[i]).symbol < count
}

/// The symbol is one of the three internal ones.
pub open spec fn is_internal(symbols: Seq<Symbol>, id: usize) -> bool {
    symbols[id as int] is Start || symbols[id as int] is End || symbols[id as int] is Null
}

/// The stack after the symbols have been taken from its top, last symbol
/// first; ϵ takes nothing. `None` where the stack does not end in the
/// symbols.
pub open spec fn unwind(stack: Seq<(usize, usize)>, symbols: Seq<usize>) -> Option<
    Seq<(usize, usize)>,
>
    decreases symbols.len(),
{
    if symbols.len() == 0 {
        Some(stack)
    } else if symbols.last() == NULL {
        unwind(stack, symbols.drop_last())
    } else if stack.len() > 0 && stack.last().0 == symbols.last() {
        unwind(stack.drop_last(), symbols.drop_last())
    } else {
        None
    }
}

/// What the buffers hold.
pub open spec fn views(buffers: Seq<Vec<usize>>) -> Seq<Seq<usize>> {
    buffers.map_values(|buffer: Vec<usize>| buffer@)
}

/// The buffers in the order in which they were pushed, joined.
pub open spec fn joined(buffers: Seq<Seq<usize>>) -> Seq<usize>
    decreases buffers.len(),
{
    if buffers.len() == 0 {
        Seq::empty()
    } else {
        joined(buffers.drop_last()) + buffers.last()
    }
}

/// Converts tokens to a parser input: the tokens between two end markers.
pub fn get_input(tokens: &[Token]) -> (input: VecDeque<Token>)
    ensures
        input@.len() == tokens.len() + 2,
        input@[0].symbol == END,
        input@[input@.len() - 1].symbol == END,
        input@.subrange(1, input@.len() - 1) == tokens@,
        symbols_of(input@) == seq![END] + symbols_of(tokens@) + seq![END],
{
    let mut input: VecDeque<Token> = VecDeque::new();
    input.push_back(Token::end());
    let mut i: usize = 0;
    while i < tokens.len()
        invariant
            i <= tokens.len(),
            input@.len() == i + 1,
            input@[0].symbol == END,
            input@.subrange(1, i + 1) == tokens@.subrange(0, i as int),
        decreases tokens.len() - i,
    {
        let ghost before = input@;
        input.push_back(tokens[i].clone());
        assert(input@.subrange(1, i + 2) =~= before.subrange(1, i + 1).push(tokens[i as int]));
        assert(tokens@.subrange(0, i + 1) =~= tokens@.subrange(0, i as int).push(tokens[i as int]));
        i += 1;
    }
    assert(tokens@.subrange(0, i as int) =~= tokens@);
    let ghost before = input@;
    input.push_back(Token::end());
    proof {
        assert(input@.subrange(1, input@.len() - 1) =~= before.subrange(1, i + 1));
        let middle = input@.subrange(1, input@.len() - 1);
        assert(symbols_of(input@) =~= seq![END] + symbols_of(tokens@) + seq![END]) by {
            assert forall|k: int| 0 <= k < input@.len() implies symbols_of(input@)[k] == (seq![END]
                + symbols_of(tokens@) + seq![END])[k] by {
                if 0 < k < input@.len() - 1 {
                    assert(middle[k - 1] == input@[k]);
                }
            }
        }
    }
    input
}

/// Returns the next input token, ignoring internal symbols.
pub fn next_token(input: &mut VecDeque<Token>, symbols: &[Symbol]) -> (token: Option<Token>)
    requires
        old(input)@.len() > 0 ==> old(input)@[0].symbol < symbols.len(),
    ensures
        old(input)@.len() == 0 ==> token is None && final(input)@ == old(input)@,
        old(input)@.len() > 0 ==> final(input)@ == old(input)@.subrange(
            1,
            old(input)@.len() as int,
        ) && token == (if is_internal(symbols@, old(input)@[0].symbol) {
            None
        } else {
            Some(old(input)@[0])
        }),
{
    match input.pop_front() {
        Some(token) => {
            if symbols[token.symbol].is_internal() {
                None
            } else {
                Some(token)
            }
        },
        None => None,
    }
}

/// Removes the rule symbols from the stack.
///
/// The symbols are taken from the top of the stack, the last one first;
/// ϵ takes nothing. Where the stack does not end in the symbols, the result
/// is an internal error.
pub fn reduce_stack(stack: &mut Vec<(usize, usize)>, symbols: &[usize]) -> (result: Result<
    (),
    Error,
>)
    ensures
        match result {
            Ok(()) => unwind(old(stack)@, symbols@) == Some(final(stack)@),
            Err(error) => error is Internal && unwind(old(stack)@, symbols@) is None,
        },
{
    let mut at: usize = symbols.len();
    assert(symbols@.subrange(0, at as int) =~= symbols@);
    while at > 0
        invariant
            at <= symbols.len(),
            unwind(old(stack)@, symbols@) == unwind(stack@, symbols@.subrange(0, at as int)),
        decreases at,
    {
        let ghost part = symbols@.subrange(0, at as int);
        assert(part.drop_last() =~= symbols@.subrange(0, at - 1));
        assert(part.last() == symbols@[at - 1]);
        at -= 1;
        let id = symbols[at];
        if id == NULL {
            continue;
        }
        let ghost before = stack@;
        match stack.pop() {
            Some((symbol, _)) => {
                if symbol != id {
                    return Err(Error::Internal);
                }
                assert(stack@ =~= before.drop_last());
            },
            None => {
                return Err(Error::Internal);
            },
        }
    }
    Ok(())
}

/// Merges the left-parse rules: takes the last `count` buffers away and adds
/// what they hold, in the order in which they were pushed, to the buffer
/// before them.
pub fn reduce_rules(rules: &mut Vec<Vec<usize>>, count: usize)
    requires
        count < old(rules).len(),
    ensures
        final(rules).len() == old(rules).len() - count,
        forall|i: int| 0 <= i < final(rules).len() - 1 ==> final(rules)[i] == old(rules)[i],
        final(rules)@.last()@ == joined(
            views(old(rules)@).subrange(old(rules).len() - count - 1, old(rules).len() as int),
        ),
{
    let keep = rules.len() - count;
    let ghost all = rules@;
    let ghost held = views(all);
    let mut at: usize = keep;
    proof {
        assert(held.subrange(keep - 1, keep as int) =~= seq![all[keep - 1]@]);
        assert(joined(held.subrange(keep - 1, keep as int)) =~= all[keep - 1]@) by {
            assert(held.subrange(keep - 1, keep as int).drop_last() =~= Seq::<Seq<usize>>::empty());
            reveal_with_fuel(joined, 2);
        }
    }
    while at < rules.len()
        invariant
            keep >= 1,
            keep <= at <= rules.len(),
            rules.len() == all.len(),
            held == views(all),
            forall|i: int| 0 <= i < rules.len() && i != keep - 1 ==> rules[i] == all[i],
            rules[keep - 1]@ == joined(held.subrange(keep - 1, at as int)),
        decreases rules.len() - at,
    {
        let mut k: usize = 0;
        let ghost start = rules[keep - 1]@;
        let len = rules[at].len();
        while k < len
            invariant
                keep >= 1,
                keep <= at < rules.len(),
                rules.len() == all.len(),
                len == all[at as int].len(),
                k <= len,
                forall|i: int| 0 <= i < rules.len() && i != keep - 1 ==> rules[i] == all[i],
                rules[keep - 1]@ == start + all[at as int]@.subrange(0, k as int),
            decreases len - k,
        {
            let value = rules[at][k];
            rules[keep - 1].push(value);
            assert(all[at as int]@.subrange(0, k + 1) =~= all[at as int]@.subrange(0, k as int).push(
                value,
            ));
            assert(rules[keep - 1]@ =~= start + all[at as int]@.subrange(0, k + 1));
            k += 1;
        }
        proof {
            assert(all[at as int]@.subrange(0, len as int) =~= all[at as int]@);
            let longer = held.subrange(keep - 1, at + 1);
            assert(longer.drop_last() =~= held.subrange(keep - 1, at as int));
            assert(longer.last() == all[at as int]@);
        }
        at += 1;
    }
    rules.truncate(keep);
    assert(rules@.last() == rules@[keep - 1]);
}

} // verus!
