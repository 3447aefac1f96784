//! The LL(1) parser.

use crate::analysis::GrammarView;
use crate::grammar::Grammar;
use crate::lltable::{clash, first_offer, get_ll_table, lemma_ll_map, ll_map, ll_table_result};
use crate::parser::{get_input, is_internal, next_token, symbols_of, tokens_within, Error};
use crate::symbol::{END, NULL, START};
use crate::token::Token;
use std::collections::HashSet;
use vstd::prelude::*;

verus! {

broadcast use vstd::std_specs::hash::group_hash_axioms;

/// What an LL(1) parse has come to: its stack, the symbols of the input
/// that is left, and the rules it has emitted.
pub struct LlState {
    pub stack: Seq<usize>,
    pub input: Seq<usize>,
    pub rules: Seq<usize>,
}

/// What a rule body puts on the stack: its symbols but ϵ, the last one
/// first.
pub open spec fn unstacked(body: Seq<usize>) -> Seq<usize>
    decreases body.len(),
{
    if body.len() == 0 {
        Seq::empty()
    } else {
        unstacked(body.drop_first()) + (if body[0] != NULL {
            seq![body[0]]
        } else {
            Seq::empty()
        })
    }
}

/// The parse stops: the stack or the input is empty, or the table has no
/// rule for the top of the stack and the next symbol, and the two differ.
pub open spec fn ll_halted(table: Map<(usize, usize), usize>, c: LlState) -> bool {
    c.stack.len() == 0 || c.input.len() == 0 || (!table.contains_key((c.stack.last(), c.input[0]))
        && c.stack.last() != c.input[0])
}

/// One step of the parse. Where the table has a rule for the top of the
/// stack and the next symbol, the top is replaced with the body of the rule,
/// the input stays, and the rule is emitted. Otherwise the top is the next
/// symbol: both are taken away.
pub open spec fn ll_next(g: GrammarView, table: Map<(usize, usize), usize>, c: LlState) -> LlState {
    let key = (c.stack.last(), c.input[0]);
    if table.contains_key(key) {
        LlState {
            stack: c.stack.drop_last() + unstacked(g.rules[table[key] as int].body),
            input: c.input,
            rules: c.rules.push(table[key]),
        }
    } else {
        LlState { stack: c.stack.drop_last(), input: c.input.drop_first(), rules: c.rules }
    }
}

/// Where the parse stops within `fuel` steps.
pub open spec fn ll_run(
    g: GrammarView,
    table: Map<(usize, usize), usize>,
    c: LlState,
    fuel: nat,
) -> Option<LlState>
    decreases fuel,
{
    if ll_halted(table, c) {
        Some(c)
    } else if fuel == 0 {
        None
    } else {
        ll_run(g, table, ll_next(g, table, c), (fuel - 1) as nat)
    }
}

/// Where the parse starts: the start marker on the stack, and the symbols
/// of the tokens between two end markers as input.
pub open spec fn ll_start(tokens: Seq<Token>) -> LlState {
    LlState {
        stack: seq![START],
        input: seq![END] + symbols_of(tokens) + seq![END],
        rules: Seq::empty(),
    }
}

/// What the parser returns where the parse has stopped. With symbols left
/// on the stack the input has ended too early. With an empty stack and a
/// next token that is not internal, that token is refused; the token is the
/// one of `tokens` at that place. Otherwise the emitted rules are returned.
pub open spec fn verdict(
    symbols: Seq<crate::symbol::Symbol>,
    tokens: Seq<Token>,
    stack_empty: bool,
    left: Seq<usize>,
    rules: Seq<usize>,
    result: Result<Vec<usize>, Error>,
) -> bool {
    if !stack_empty {
        result matches Err(Error::Eof)
    } else if left.len() > 0 && !is_internal(symbols, left[0]) {
        result matches Err(Error::Parse(token)) && 0 < left.len() - 1 <= tokens.len() && token
            == tokens[tokens.len() - (left.len() - 1)]
    } else {
        result matches Ok(list) && list@ == rules
    }
}

/// The first of the heads for which two rules are chosen with the same
/// symbol.
pub open spec fn first_clash(g: GrammarView, h: usize) -> bool {
    clash(g, Set::empty(), g.rules.len() as int, h) && forall|x: usize|
        x < h ==> !clash(g, Set::empty(), g.rules.len() as int, x)
}

/// What `parse_ll` returns. Where the LL(1) table has a conflict, the first
/// conflicted head is reported. Otherwise the parse runs from its start
/// until it stops, and the result is the verdict on where it stopped.
pub open spec fn ll_outcome(
    g: GrammarView,
    tokens: Seq<Token>,
    result: Result<Vec<usize>, Error>,
) -> bool {
    if exists|h: usize| clash(g, Set::empty(), g.rules.len() as int, h) {
        result matches Err(Error::Conflict(symbol)) && exists|h: usize| #[trigger]
            first_clash(g, h) && symbol == g.symbols[h as int]
    } else {
        exists|fuel: nat|
            (#[trigger] ll_run(g, ll_map(g, Set::empty()), ll_start(tokens), fuel)) matches Some(c)
                && verdict(g.symbols, tokens, c.stack.len() == 0, c.input, c.rules, result)
    }
}

/// A rule with the empty body is emitted without a change of the input:
/// the step takes the head of the rule from the stack and puts nothing there.
pub proof fn lemma_empty_rule(g: GrammarView, table: Map<(usize, usize), usize>, c: LlState)
    requires
        c.stack.len() > 0,
        c.input.len() > 0,
        table.contains_key((c.stack.last(), c.input[0])),
        g.rules[table[(c.stack.last(), c.input[0])] as int].body == seq![NULL],
    ensures
        ll_next(g, table, c) == (LlState {
            stack: c.stack.drop_last(),
            input: c.input,
            rules: c.rules.push(table[(c.stack.last(), c.input[0])]),
        }),
{
    let body = seq![NULL];
    assert(body.drop_first() =~= Seq::<usize>::empty());
    assert(unstacked(body) =~= Seq::<usize>::empty()) by {
        reveal_with_fuel(unstacked, 2);
    }
    assert(c.stack.drop_last() + unstacked(body) =~= c.stack.drop_last());
}

/// Puts the symbols of a rule body but ϵ on the stack, the last one first.
pub fn push_body(stack: &mut Vec<usize>, body: &Vec<usize>)
    ensures
        final(stack)@ == old(stack)@ + unstacked(body@),
{
    let mut at: usize = body.len();
    assert(body@.subrange(at as int, body.len() as int) =~= Seq::<usize>::empty());
    assert(stack@ =~= old(stack)@ + unstacked(Seq::<usize>::empty()));
    while at > 0
        invariant
            at <= body.len(),
            stack@ == old(stack)@ + unstacked(body@.subrange(at as int, body.len() as int)),
        decreases at,
    {
        at -= 1;
        let ghost rest = body@.subrange(at as int, body.len() as int);
        assert(rest.drop_first() =~= body@.subrange(at + 1, body.len() as int));
        assert(rest[0] == body[at as int]);
        let ghost before = stack@;
        if body[at] != NULL {
            stack.push(body[at]);
            assert(stack@ =~= old(stack)@ + unstacked(rest));
        } else {
            assert(stack@ =~= old(stack)@ + unstacked(rest));
        }
    }
    assert(body@.subrange(0, body.len() as int) =~= body@);
}

/// Performs parsing using LL(1) and returns the list of rules.
pub fn parse_ll(tokens: &[Token], grammar: &Grammar) -> (result: Result<Vec<usize>, Error>)
    requires
        grammar.wf(),
        tokens_within(tokens@, grammar.symbols.len() as nat),
    ensures
        ll_outcome(grammar@, tokens@, result),
{
    let ghost g = grammar@;
    let ghost none = Set::<usize>::empty();
    let ignored: HashSet<usize> = HashSet::new();
    assert(ignored@ =~= none);
    let parse_table = match get_ll_table(grammar, &ignored) {
        Ok(parse_table) => parse_table,
        Err(conflicts) => {
            let head = conflicts[0];
            proof {
                assert(conflicts@.contains(head));
                assert(first_clash(g, head)) by {
                    assert forall|x: usize| x < head implies !clash(
                        g,
                        none,
                        g.rules.len() as int,
                        x,
                    ) by {
                        if clash(g, none, g.rules.len() as int, x) {
                            assert(conflicts@.contains(x));
                            let k = choose|k: int| 0 <= k < conflicts.len() && conflicts[k] == x;
                            if k > 0 {
                                assert(conflicts[0] < conflicts[k]);
                            }
                        }
                    }
                }
            }
            return Err(Error::Conflict(grammar.symbols[head].clone()));
        },
    };
    let ghost table = parse_table@;
    proof {
        lemma_ll_map(g, none, parse_table);
        assert forall|h: usize| !clash(g, none, g.rules.len() as int, h) by {}
    }
    let mut rules: Vec<usize> = Vec::new();
    let mut stack: Vec<usize> = Vec::new();
    stack.push(START);
    let mut input = get_input(tokens);
    let ghost full = input@;
    let ghost init = ll_start(tokens@);
    let ghost mut steps: nat = 0;
    proof {
        assert(stack@ =~= seq![START]);
        assert(full.subrange(1, full.len() - 1) == tokens@);
        assert forall|i: int| 0 <= i < full.len() implies (#[trigger] full[i]).symbol
            < grammar.symbols.len() by {
            if 0 < i < full.len() - 1 {
                assert(full.subrange(1, full.len() - 1)[i - 1] == full[i]);
            }
        }
    }
    while stack.len() > 0 && input.len() > 0
        invariant
            grammar.wf(),
            g == grammar@,
            table == parse_table@,
            ll_table_result(g, none, Ok(parse_table)),
            input@.len() <= full.len(),
            input@ == full.subrange(full.len() - input@.len(), full.len() as int),
            tokens_within(full, grammar.symbols.len() as nat),
            forall|f: nat|
                ll_run(g, table, init, steps + f) == #[trigger] ll_run(
                    g,
                    table,
                    LlState { stack: stack@, input: symbols_of(input@), rules: rules@ },
                    f,
                ),
        ensures
            ll_halted(table, (LlState { stack: stack@, input: symbols_of(input@), rules: rules@ })),
        decreases usize::MAX - rules.len(), input.len(),
    {
        let ghost cur = LlState { stack: stack@, input: symbols_of(input@), rules: rules@ };
        let symbol = stack[stack.len() - 1];
        let next = input[0].symbol;
        assert(cur.stack.last() == symbol && cur.input[0] == next);
        match parse_table.get(symbol, next) {
            Some(rule) => {
                proof {
                    assert(first_offer(g, none, g.rules.len() as int, symbol, next, rule as int));
                    assert(g.rules[rule as int] == grammar.rules[rule as int]@);
                }
                rules.push(rule);
                stack.pop();
                push_body(&mut stack, &grammar.rules[rule].body);
            },
            None => {
                if symbol != next {
                    break;
                }
                stack.pop();
                let ghost before = input@;
                input.pop_front();
                proof {
                    assert(symbols_of(input@) =~= symbols_of(before).drop_first());
                    assert(input@ =~= full.subrange(full.len() - input@.len(), full.len() as int));
                }
            },
        }
        proof {
            let after = LlState { stack: stack@, input: symbols_of(input@), rules: rules@ };
            assert(!ll_halted(table, cur));
            assert(after.stack =~= ll_next(g, table, cur).stack);
            assert(after == ll_next(g, table, cur));
            assert forall|f: nat|
                ll_run(g, table, init, (steps + 1) + f) == #[trigger] ll_run(
                    g,
                    table,
                    after,
                    f,
                ) by {
                assert(ll_run(g, table, init, steps + (f + 1)) == ll_run(g, table, cur, f + 1));
            }
            steps = steps + 1;
        }
    }
    let ghost last = LlState { stack: stack@, input: symbols_of(input@), rules: rules@ };
    proof {
        assert(ll_halted(table, last));
        assert(ll_run(g, table, init, steps + 0) == ll_run(g, table, last, 0));
        assert(ll_run(g, table, init, steps) == Some(last));
        assert(init.input == symbols_of(full));
        assert(!exists|h: usize| clash(g, none, g.rules.len() as int, h));
    }
    if stack.len() > 0 {
        return Err(Error::Eof);
    }
    proof {
        if input@.len() > 0 {
            assert(input@[0] == full[full.len() - input@.len()]);
        }
    }
    let ghost left = input@;
    match next_token(&mut input, grammar.symbols.as_slice()) {
        Some(token) => {
            proof {
                assert(!is_internal(g.symbols, left[0].symbol));
                let place = full.len() - left.len();
                assert(token == full[place]);
                assert(full[0].symbol == END && full[full.len() - 1].symbol == END);
                assert(g.symbols[END as int] is End);
                assert(0 < place < full.len() - 1);
                assert(full.subrange(1, full.len() - 1)[place - 1] == full[place]);
            }
            Err(Error::Parse(token))
        },
        None => Ok(rules),
    }
}

} // verus!
