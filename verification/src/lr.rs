//! The LR(1) parser.

use crate::action::Action;
use crate::analysis::GrammarView;
use crate::data::Data;
use crate::grammar::Grammar;
use crate::parser::{
    get_input, is_internal, next_token, reduce_stack, symbols_of, tokens_within, unwind, Error,
};
use crate::symbol::{Symbol, END, NULL, START};
use crate::token::Token;
use vstd::prelude::*;

verus! {

/// What an LR(1) parse has come to: its stack of symbols and states, the
/// symbols of the input that is left, and the rules it has reduced, in the
/// order of the reductions.
pub struct LrState {
    pub stack: Seq<(usize, usize)>,
    pub input: Seq<usize>,
    pub rules: Seq<usize>,
}

/// How an LR(1) parse ends.
pub enum LrEnd {
    /// The input is accepted.
    Accepted(LrState),
    /// No action takes the next symbol.
    Refused(LrState),
    /// The tables do not fit the stack.
    Broken,
}

/// What one step of an LR(1) parse leads to.
pub enum LrStep {
    /// The parse goes on.
    Go(LrState),
    /// The parse has ended.
    Stop(LrEnd),
}

/// The symbol that comes next: that of the first token, or ϵ where the
/// input has ended.
pub open spec fn lookahead(input: Seq<usize>) -> usize {
    if input.len() > 0 {
        input[0]
    } else {
        NULL
    }
}

/// One step of the parse, by the action for the state on top of the stack
/// and the next symbol. A shift puts the symbol and the new state on the
/// stack and takes the symbol from the input. A reduction takes the body of
/// the rule from the stack, emits the rule, and puts the head of the rule on
/// the stack, with the state that GOTO has for the state below and the head.
/// An acceptance takes the head and the body of the rule from the stack and
/// emits the rule.
pub open spec fn lr_step(
    g: GrammarView,
    action: Map<(usize, usize), Action>,
    goto: Map<(usize, usize), usize>,
    c: LrState,
) -> LrStep {
    if c.stack.len() == 0 {
        LrStep::Stop(LrEnd::Refused(c))
    } else {
        let key = (c.stack.last().1, lookahead(c.input));
        if !action.contains_key(key) {
            LrStep::Stop(LrEnd::Refused(c))
        } else {
            match action[key] {
                Action::Shift(state) => LrStep::Go(
                    LrState {
                        stack: c.stack.push((key.1, state)),
                        input: if c.input.len() > 0 {
                            c.input.drop_first()
                        } else {
                            c.input
                        },
                        rules: c.rules,
                    },
                ),
                Action::Reduce(rule) => match unwind(c.stack, g.rules[rule as int].body) {
                    None => LrStep::Stop(LrEnd::Broken),
                    Some(rest) => if rest.len() == 0 || !goto.contains_key(
                        (rest.last().1, g.rules[rule as int].head),
                    ) {
                        LrStep::Stop(LrEnd::Broken)
                    } else {
                        LrStep::Go(
                            LrState {
                                stack: rest.push(
                                    (
                                        g.rules[rule as int].head,
                                        goto[(rest.last().1, g.rules[rule as int].head)],
                                    ),
                                ),
                                input: c.input,
                                rules: c.rules.push(rule),
                            },
                        )
                    },
                },
                Action::Accept(rule) => match unwind(
                    c.stack,
                    seq![g.rules[rule as int].head] + g.rules[rule as int].body,
                ) {
                    None => LrStep::Stop(LrEnd::Broken),
                    Some(rest) => LrStep::Stop(
                        LrEnd::Accepted(
                            LrState { stack: rest, input: c.input, rules: c.rules.push(rule) },
                        ),
                    ),
                },
            }
        }
    }
}

/// How the parse ends within `fuel` steps.
pub open spec fn lr_run(
    g: GrammarView,
    action: Map<(usize, usize), Action>,
    goto: Map<(usize, usize), usize>,
    c: LrState,
    fuel: nat,
) -> Option<LrEnd>
    decreases fuel,
{
    match lr_step(g, action, goto, c) {
        LrStep::Stop(end) => Some(end),
        LrStep::Go(next) => if fuel == 0 {
            None
        } else {
            lr_run(g, action, goto, next, (fuel - 1) as nat)
        },
    }
}

/// Where the parse starts: the start marker with state 0 on the stack, and
/// the symbols of the tokens between two end markers as input.
pub open spec fn lr_start(tokens: Seq<Token>) -> LrState {
    LrState {
        stack: seq![(START, 0usize)],
        input: seq![END] + symbols_of(tokens) + seq![END],
        rules: Seq::empty(),
    }
}

/// What the parser returns for the end of a parse. An accepted input gives
/// the reduced rules, the last one first, unless symbols are left on the
/// stack, which is an internal error. A refused input gives the token that
/// was refused, one of `tokens`, or reports the end of the input where no
/// token or an internal one comes next.
pub open spec fn lr_verdict(
    symbols: Seq<Symbol>,
    tokens: Seq<Token>,
    end: LrEnd,
    result: Result<Vec<usize>, Error>,
) -> bool {
    match end {
        LrEnd::Broken => result matches Err(Error::Internal),
        LrEnd::Accepted(c) => if c.stack.len() > 0 {
            result matches Err(Error::Internal)
        } else {
            result matches Ok(list) && list@ == c.rules.reverse()
        },
        LrEnd::Refused(c) => if c.input.len() > 0 && !is_internal(symbols, c.input[0]) {
            result matches Err(Error::Parse(token)) && 0 < c.input.len() - 1 <= tokens.len()
                && token == tokens[tokens.len() - (c.input.len() - 1)]
        } else {
            result matches Err(Error::Eof)
        },
    }
}

/// What `parse_lr` returns: the verdict on the end of the parse that runs
/// from its start with the ACTION and GOTO tables.
pub open spec fn lr_outcome(
    g: GrammarView,
    action: Map<(usize, usize), Action>,
    goto: Map<(usize, usize), usize>,
    tokens: Seq<Token>,
    result: Result<Vec<usize>, Error>,
) -> bool {
    exists|fuel: nat|
        (#[trigger] lr_run(g, action, goto, lr_start(tokens), fuel)) matches Some(end)
            && lr_verdict(g.symbols, tokens, end, result)
}

/// Returns the list in reverse order.
pub fn reversed(list: &Vec<usize>) -> (out: Vec<usize>)
    ensures
        out@ == list@.reverse(),
{
    let mut out: Vec<usize> = Vec::new();
    let mut at: usize = list.len();
    while at > 0
        invariant
            at <= list.len(),
            out.len() == list.len() - at,
            forall|i: int| 0 <= i < out.len() ==> out[i] == list[list.len() - 1 - i],
        decreases at,
    {
        at -= 1;
        out.push(list[at]);
    }
    assert(out@ =~= list@.reverse());
    out
}

/// Returns the head of a rule followed by its body.
pub fn head_and_body(head: usize, body: &Vec<usize>) -> (out: Vec<usize>)
    ensures
        out@ == seq![head] + body@,
{
    let mut out: Vec<usize> = Vec::new();
    out.push(head);
    let mut i: usize = 0;
    while i < body.len()
        invariant
            i <= body.len(),
            out@ == seq![head] + body@.subrange(0, i as int),
        decreases body.len() - i,
    {
        out.push(body[i]);
        assert(body@.subrange(0, i + 1) =~= body@.subrange(0, i as int).push(body[i as int]));
        assert(out@ =~= seq![head] + body@.subrange(0, i + 1));
        i += 1;
    }
    assert(body@.subrange(0, i as int) =~= body@);
    out
}

/// Performs parsing using LR(1) and returns the list of rules.
///
/// The rules are those of the reductions, the last one first.
pub fn parse_lr(tokens: &[Token], grammar: &Grammar, data: &Data) -> (result: Result<
    Vec<usize>,
    Error,
>)
    requires
        grammar.wf(),
        data.wf(),
        grammar@ == data.grammar@,
        tokens_within(tokens@, grammar.symbols.len() as nat),
    ensures
        lr_outcome(grammar@, data.action_table@, data.goto_table@, tokens@, result),
{
    let ghost g = grammar@;
    let ghost action = data.action_table@;
    let ghost goto = data.goto_table@;
    let mut rules: Vec<usize> = Vec::new();
    let mut stack: Vec<(usize, usize)> = Vec::new();
    stack.push((START, 0));
    let mut input = get_input(tokens);
    let ghost full = input@;
    let ghost init = lr_start(tokens@);
    let ghost mut steps: nat = 0;
    let ghost mut end: LrEnd = LrEnd::Broken;
    let mut broken = false;
    let mut is_valid = false;
    proof {
        assert(stack@ =~= seq![(START, 0usize)]);
        assert(full.subrange(1, full.len() - 1) == tokens@);
        assert forall|i: int| 0 <= i < full.len() implies (#[trigger] full[i]).symbol
            < grammar.symbols.len() by {
            if 0 < i < full.len() - 1 {
                assert(full.subrange(1, full.len() - 1)[i - 1] == full[i]);
            }
        }
    }
    loop
        invariant_except_break
            forall|f: nat|
                lr_run(g, action, goto, init, steps + f) == #[trigger] lr_run(
                    g,
                    action,
                    goto,
                    LrState { stack: stack@, input: symbols_of(input@), rules: rules@ },
                    f,
                ),
            !broken,
        invariant
            grammar.wf(),
            data.wf(),
            g == grammar@,
            g == data.grammar@,
            action == data.action_table@,
            goto == data.goto_table@,
            input@.len() <= full.len(),
            input@ == full.subrange(full.len() - input@.len(), full.len() as int),
            tokens_within(full, grammar.symbols.len() as nat),
        ensures
            lr_run(g, action, goto, init, steps) == Some(end),
            broken ==> end is Broken,
            !broken && is_valid ==> end == LrEnd::Accepted(
                LrState { stack: stack@, input: symbols_of(input@), rules: rules@ },
            ),
            !broken && !is_valid ==> end == LrEnd::Refused(
                LrState { stack: stack@, input: symbols_of(input@), rules: rules@ },
            ),
        decreases usize::MAX - rules.len(), input.len(),
    {
        let ghost cur = LrState { stack: stack@, input: symbols_of(input@), rules: rules@ };
        proof {
            assert(lr_run(g, action, goto, init, steps + 0) == lr_run(g, action, goto, cur, 0));
        }
        if stack.len() == 0 {
            proof {
                end = LrEnd::Refused(cur);
            }
            is_valid = false;
            break;
        }
        let state = stack[stack.len() - 1].1;
        let symbol = if input.len() > 0 {
            input[0].symbol
        } else {
            NULL
        };
        assert(symbol == lookahead(cur.input));
        let found = data.action_table.get(state, symbol);
        match found {
            None => {
                proof {
                    end = LrEnd::Refused(cur);
                }
                is_valid = false;
                break;
            },
            Some(Action::Shift(next)) => {
                assert(action.contains_key((state, symbol)));
                assert(symbol != NULL);
                stack.push((symbol, next));
                let ghost before = input@;
                input.pop_front();
                proof {
                    assert(symbols_of(input@) =~= symbols_of(before).drop_first());
                    assert(input@ =~= full.subrange(full.len() - input@.len(), full.len() as int));
                }
            },
            Some(Action::Reduce(id)) => {
                assert(action.contains_key((state, symbol)));
                assert(g.rules[id as int] == grammar.rules[id as int]@);
                let rule = grammar.rule(id);
                match reduce_stack(&mut stack, rule.body.as_slice()) {
                    Err(_) => {
                        proof {
                            end = LrEnd::Broken;
                        }
                        broken = true;
                        break;
                    },
                    Ok(()) => {},
                }
                if stack.len() == 0 {
                    proof {
                        end = LrEnd::Broken;
                    }
                    broken = true;
                    break;
                }
                let below = stack[stack.len() - 1].1;
                let next_state = match data.goto_table.get(below, rule.head) {
                    Some(next_state) => next_state,
                    None => {
                        proof {
                            end = LrEnd::Broken;
                        }
                        broken = true;
                        break;
                    },
                };
                rules.push(rule.id);
                assert(g.rules[id as int].valid_in(id as int, g.symbols.len()));
                stack.push((rule.head, next_state));
            },
            Some(Action::Accept(id)) => {
                assert(action.contains_key((state, symbol)));
                assert(g.rules[id as int] == grammar.rules[id as int]@);
                assert(g.rules[id as int].valid_in(id as int, g.symbols.len()));
                let rule = grammar.rule(id);
                let body = head_and_body(rule.head, &rule.body);
                match reduce_stack(&mut stack, body.as_slice()) {
                    Err(_) => {
                        proof {
                            end = LrEnd::Broken;
                        }
                        broken = true;
                        break;
                    },
                    Ok(()) => {},
                }
                rules.push(rule.id);
                proof {
                    end = LrEnd::Accepted(
                        LrState { stack: stack@, input: symbols_of(input@), rules: rules@ },
                    );
                }
                is_valid = true;
                break;
            },
        }
        proof {
            let after = LrState { stack: stack@, input: symbols_of(input@), rules: rules@ };
            assert(lr_step(g, action, goto, cur) == LrStep::Go(after));
            assert forall|f: nat|
                lr_run(g, action, goto, init, (steps + 1) + f) == #[trigger] lr_run(
                    g,
                    action,
                    goto,
                    after,
                    f,
                ) by {
                assert(lr_run(g, action, goto, init, steps + (f + 1)) == lr_run(
                    g,
                    action,
                    goto,
                    cur,
                    f + 1,
                ));
            }
            steps = steps + 1;
        }
    }
    if broken {
        return Err(Error::Internal);
    }
    if !is_valid {
        proof {
            if input@.len() > 0 {
                assert(input@[0] == full[full.len() - input@.len()]);
            }
        }
        let ghost left = input@;
        return match next_token(&mut input, grammar.symbols.as_slice()) {
            Some(token) => {
                proof {
                    let place = full.len() - left.len();
                    assert(token == full[place]);
                    assert(full[0].symbol == END && full[full.len() - 1].symbol == END);
                    assert(g.symbols[END as int] is End);
                    assert(0 < place < full.len() - 1);
                    assert(full.subrange(1, full.len() - 1)[place - 1] == full[place]);
                }
                Err(Error::Parse(token))
            },
            None => Err(Error::Eof),
        };
    }
    if stack.len() > 0 {
        return Err(Error::Internal);
    }
    Ok(reversed(&rules))
}

} // verus!
