//! The LLLR(1) parser: an LL(1) parser that hands over to an embedded LR(1)
//! parser where it meets a conflicted nonterminal.

use crate::action::Action;
use crate::analysis::GrammarView;
use crate::data::{Data, DataView};
use crate::grammar::Grammar;
use crate::item::Item;
use crate::lr::lookahead;
use crate::ll::verdict;
use crate::parser::{
    get_input, is_internal, joined, next_token, reduce_rules, reduce_stack, symbols_of,
    tokens_within, unwind, views, Error,
};
use crate::symbol::{Symbol, START};
use crate::table::Table;
use std::collections::VecDeque;
use crate::rule::{positions_from, Position};
use crate::symbol::{END, NULL};
use crate::token::Token;
use vstd::prelude::*;

verus! {

/// A symbol on the stack of the parser, with the place in a rule body that
/// it was pushed for.
pub type Slot = (usize, Position);

/// What an embedded LR(1) parse has come to: the table in use, the stack of
/// symbols and states, one buffer of rules for each entry of the stack, the
/// number of reductions, and the lengths that the input and the emitted rules
/// had when it began.
pub struct Inner {
    pub index: int,
    pub stack: Seq<(usize, usize)>,
    pub buffers: Seq<Seq<usize>>,
    pub reductions: nat,
    pub left: nat,
}

/// What an LLLR(1) parse has come to: its stack, the symbols of the input
/// that is left, the rules it has emitted, and the embedded parse, if one is
/// under way.
pub struct LllrState {
    pub stack: Seq<Slot>,
    pub input: Seq<usize>,
    pub rules: Seq<usize>,
    pub inner: Option<Inner>,
}

/// How an LLLR(1) parse ends.
pub enum LllrEnd {
    /// The LL(1) parser has stopped.
    Halted(LllrState),
    /// The embedded parser has no action for the next symbol.
    Refused(LllrState),
    /// The tables do not fit the stacks.
    Broken,
}

/// What one step of an LLLR(1) parse leads to.
pub enum LllrStep {
    /// The parse goes on.
    Go(LllrState),
    /// The parse has ended.
    Stop(LllrEnd),
}

/// What symbols with their places put on the stack: all but ϵ, the last one
/// first.
pub open spec fn restack(slots: Seq<Slot>) -> Seq<Slot>
    decreases slots.len(),
{
    if slots.len() == 0 {
        Seq::empty()
    } else {
        restack(slots.drop_first()) + (if slots[0].0 != NULL {
            seq![slots[0]]
        } else {
            Seq::empty()
        })
    }
}

/// The number of symbols but ϵ.
pub open spec fn solid(body: Seq<usize>) -> nat
    decreases body.len(),
{
    if body.len() == 0 {
        0
    } else {
        solid(body.drop_last()) + (if body.last() != NULL {
            1nat
        } else {
            0nat
        })
    }
}

/// The buffers after a reduction that takes `n` entries from the stack:
/// the last `n` buffers are joined in the order in which they were pushed and
/// replaced with one buffer, which holds the rule followed by what they held.
pub open spec fn reduce_buffers(buffers: Seq<Seq<usize>>, n: nat, rule: usize) -> Seq<Seq<usize>> {
    buffers.subrange(0, buffers.len() - n).push(
        seq![rule] + joined(buffers.subrange(buffers.len() - n, buffers.len() as int)),
    )
}

/// The index of the first table that is registered for the place.
pub open spec fn table_at(tables: Seq<(Position, DataView)>, place: Position) -> Option<int>
    decreases tables.len(),
{
    if tables.len() == 0 {
        None
    } else if tables[0].0 == place {
        Some(0)
    } else {
        match table_at(tables.drop_first(), place) {
            Some(i) => Some(i + 1),
            None => None,
        }
    }
}

/// The symbols that are left of the rules that the BACKTRACK table crosses
/// on the way back from an item: whenever the way comes to an item of another
/// rule, the symbols behind the symbol at its dot. `None` where the way is
/// longer than `fuel` steps.
pub open spec fn walk(d: DataView, from: (usize, usize), current: usize, fuel: nat) -> Option<
    Seq<Slot>,
>
    decreases fuel,
{
    if !d.backtrack.contains_key(from) {
        Some(Seq::empty())
    } else if fuel == 0 {
        None
    } else {
        let to = d.backtrack[from];
        let item = d.items[to.1 as int];
        let body = d.g.rules[item.rule as int].body;
        let more = if item.rule != current {
            positions_from(item.rule, body, item.dot + 1)
        } else {
            Seq::empty()
        };
        match walk(d, to, item.rule, (fuel - 1) as nat) {
            None => None,
            Some(rest) => Some(more + rest),
        }
    }
}

/// Whether the embedded parser can stop in the state with the symbol as the
/// next one: the action for the two is no acceptance, the symbol is not
/// internal, and the LEFT table has an item for the two. The result is that
/// item and the symbols that are left: those of the rule of the item from its
/// dot on, and those of the rules crossed on the way back.
pub open spec fn early(d: DataView, state: usize, symbol: usize) -> Option<(Item, Seq<Slot>)> {
    let key = (state, symbol);
    if d.action.contains_key(key) && d.action[key] is Accept {
        None
    } else if is_internal(d.g.symbols, symbol) {
        None
    } else if !d.left.contains_key(key) {
        None
    } else {
        let item = d.items[d.left[key] as int];
        let body = d.g.rules[item.rule as int].body;
        match walk(d, (state, d.left[key]), item.rule, d.limit) {
            None => None,
            Some(rest) => Some((item, positions_from(item.rule, body, item.dot as int) + rest)),
        }
    }
}

/// The end of an embedded parse that has emitted `out` and leaves `stack`
/// to the LL(1) parser. A parse that has not taken the end marker in front
/// of the input, or has neither emitted a rule nor taken a token, is broken
/// off.
pub open spec fn finish(c: LllrState, inner: Inner, stack: Seq<Slot>, out: Seq<usize>) -> LllrStep {
    if c.input.len() > inner.left || (out.len() == 0 && c.input.len() == inner.left) {
        LllrStep::Stop(LllrEnd::Broken)
    } else {
        LllrStep::Go(LllrState { stack, input: c.input, rules: c.rules + out, inner: None })
    }
}

/// One step of the LL(1) parser. Where the table has a rule for the top of
/// the stack and the next symbol, the top is replaced with the body of the
/// rule and the rule is emitted. Otherwise, where a table is registered for
/// the place of the top, an embedded parse begins: the input gets an end
/// marker in front, and the stack of the embedded parser holds the top with
/// state 0. Otherwise the top is the next symbol, and both are taken away, or
/// the parser stops.
pub open spec fn outer_step(
    g: GrammarView,
    table: Map<(usize, usize), usize>,
    tables: Seq<(Position, DataView)>,
    c: LllrState,
) -> LllrStep {
    if c.stack.len() == 0 || c.input.len() == 0 {
        LllrStep::Stop(LllrEnd::Halted(c))
    } else {
        let top = c.stack.last();
        let key = (top.0, c.input[0]);
        if table.contains_key(key) {
            LllrStep::Go(
                LllrState {
                    stack: c.stack.drop_last() + restack(
                        positions_from(table[key], g.rules[table[key] as int].body, 0),
                    ),
                    input: c.input,
                    rules: c.rules.push(table[key]),
                    inner: None,
                },
            )
        } else {
            match table_at(tables, top.1) {
                Some(index) => LllrStep::Go(
                    LllrState {
                        stack: c.stack,
                        input: seq![END] + c.input,
                        rules: c.rules,
                        inner: Some(
                            Inner {
                                index,
                                stack: seq![(top.0, 0usize)],
                                buffers: seq![Seq::empty()],
                                reductions: 0,
                                left: c.input.len(),
                            },
                        ),
                    },
                ),
                None => if top.0 == c.input[0] {
                    LllrStep::Go(
                        LllrState {
                            stack: c.stack.drop_last(),
                            input: c.input.drop_first(),
                            rules: c.rules,
                            inner: None,
                        },
                    )
                } else {
                    LllrStep::Stop(LllrEnd::Halted(c))
                },
            }
        }
    }
}

/// One step of the embedded LR(1) parser. Where it can stop early, it emits
/// the rule of the unique item before the rules of the symbols of that rule
/// that it has parsed, and hands the symbols that are left to the LL(1)
/// parser in place of the wrapped symbols. Otherwise it follows the ACTION
/// table: a shift takes a token and opens a buffer; a reduction joins the
/// buffers of the symbols it takes from the stack behind its rule; an
/// acceptance hands over what all buffers hold.
pub open spec fn inner_step(tables: Seq<(Position, DataView)>, c: LllrState, inner: Inner) -> LllrStep {
    let d = tables[inner.index].1;
    if inner.stack.len() == 0 {
        LllrStep::Stop(LllrEnd::Refused(c))
    } else {
        let state = inner.stack.last().1;
        let symbol = lookahead(c.input);
        let wrapped = d.g.rules[d.start_rule as int].body.len() - 1;
        match early(d, state, symbol) {
            Some((item, tail)) => {
                let parsed = solid(d.g.rules[item.rule as int].body.subrange(0, item.dot as int));
                if parsed > inner.buffers.len() || wrapped > c.stack.len() {
                    LllrStep::Stop(LllrEnd::Broken)
                } else {
                    finish(
                        c,
                        inner,
                        c.stack.subrange(0, c.stack.len() - wrapped) + restack(tail),
                        joined(reduce_buffers(inner.buffers, parsed, item.rule)),
                    )
                }
            },
            None => if !d.action.contains_key((state, symbol)) {
                LllrStep::Stop(LllrEnd::Refused(c))
            } else {
                match d.action[(state, symbol)] {
                    Action::Shift(next) => LllrStep::Go(
                        LllrState {
                            stack: c.stack,
                            input: if c.input.len() > 0 {
                                c.input.drop_first()
                            } else {
                                c.input
                            },
                            rules: c.rules,
                            inner: Some(
                                Inner {
                                    index: inner.index,
                                    stack: inner.stack.push((symbol, next)),
                                    buffers: inner.buffers.push(Seq::empty()),
                                    reductions: inner.reductions,
                                    left: inner.left,
                                },
                            ),
                        },
                    ),
                    Action::Reduce(rule) => {
                        let body = d.g.rules[rule as int].body;
                        let head = d.g.rules[rule as int].head;
                        if inner.reductions >= usize::MAX {
                            LllrStep::Stop(LllrEnd::Broken)
                        } else {
                            match unwind(inner.stack, body) {
                                None => LllrStep::Stop(LllrEnd::Broken),
                                Some(rest) => if rest.len() == 0 || !d.goto.contains_key(
                                    (rest.last().1, head),
                                ) || solid(body) > inner.buffers.len() {
                                    LllrStep::Stop(LllrEnd::Broken)
                                } else {
                                    LllrStep::Go(
                                        LllrState {
                                            stack: c.stack,
                                            input: c.input,
                                            rules: c.rules,
                                            inner: Some(
                                                Inner {
                                                    index: inner.index,
                                                    stack: rest.push(
                                                        (head, d.goto[(rest.last().1, head)]),
                                                    ),
                                                    buffers: reduce_buffers(
                                                        inner.buffers,
                                                        solid(body),
                                                        rule,
                                                    ),
                                                    reductions: inner.reductions + 1,
                                                    left: inner.left,
                                                },
                                            ),
                                        },
                                    )
                                },
                            }
                        }
                    },
                    Action::Accept(rule) => {
                        let body = d.g.rules[rule as int].body.subrange(
                            1,
                            d.g.rules[rule as int].body.len() as int,
                        );
                        match unwind(inner.stack, body) {
                            None => LllrStep::Stop(LllrEnd::Broken),
                            Some(rest) => if body.len() > c.stack.len() {
                                LllrStep::Stop(LllrEnd::Broken)
                            } else {
                                finish(
                                    c,
                                    inner,
                                    c.stack.subrange(0, c.stack.len() - body.len()),
                                    joined(inner.buffers),
                                )
                            },
                        }
                    },
                }
            },
        }
    }
}

/// One step of the parse.
pub open spec fn lllr_step(
    g: GrammarView,
    table: Map<(usize, usize), usize>,
    tables: Seq<(Position, DataView)>,
    c: LllrState,
) -> LllrStep {
    match c.inner {
        None => outer_step(g, table, tables, c),
        Some(inner) => inner_step(tables, c, inner),
    }
}

/// How the parse ends within `fuel` steps.
pub open spec fn lllr_run(
    g: GrammarView,
    table: Map<(usize, usize), usize>,
    tables: Seq<(Position, DataView)>,
    c: LllrState,
    fuel: nat,
) -> Option<LllrEnd>
    decreases fuel,
{
    match lllr_step(g, table, tables, c) {
        LllrStep::Stop(end) => Some(end),
        LllrStep::Go(next) => if fuel == 0 {
            None
        } else {
            lllr_run(g, table, tables, next, (fuel - 1) as nat)
        },
    }
}

/// What the parser reads of the registered tables.
pub open spec fn table_views(tables: Seq<(Position, Data)>) -> Seq<(Position, DataView)> {
    tables.map_values(|entry: (Position, Data)| (entry.0, entry.1@))
}

/// Where the parse starts: the start marker on the stack, and the symbols
/// of the tokens between two end markers as input.
pub open spec fn lllr_start(tokens: Seq<Token>) -> LllrState {
    LllrState {
        stack: seq![(START, (0usize, 0usize))],
        input: seq![END] + symbols_of(tokens) + seq![END],
        rules: Seq::empty(),
        inner: None,
    }
}

/// What the parser returns for the end of a parse. Where the LL(1) parser
/// has stopped, symbols left on the stack mean that the input has ended too
/// early; with an empty stack a next token that is not internal is refused,
/// and otherwise the emitted rules are returned. Where the embedded parser
/// has no action, the next token is refused, or the end of the input is
/// reported where no token or an internal one comes next.
pub open spec fn lllr_verdict(
    symbols: Seq<Symbol>,
    tokens: Seq<Token>,
    end: LllrEnd,
    result: Result<Vec<usize>, Error>,
) -> bool {
    match end {
        LllrEnd::Broken => result matches Err(Error::Internal),
        LllrEnd::Halted(c) => verdict(symbols, tokens, c.stack.len() == 0, c.input, c.rules, result),
        LllrEnd::Refused(c) => if c.input.len() > 0 && !is_internal(symbols, c.input[0]) {
            result matches Err(Error::Parse(token)) && 0 < c.input.len() - 1 <= tokens.len()
                && token == tokens[tokens.len() - (c.input.len() - 1)]
        } else {
            result matches Err(Error::Eof)
        },
    }
}

/// What the parser returns: the verdict on the end of the parse that runs
/// from its start with the LL(1) table and the registered tables.
pub open spec fn lllr_outcome(
    g: GrammarView,
    table: Map<(usize, usize), usize>,
    tables: Seq<(Position, DataView)>,
    tokens: Seq<Token>,
    result: Result<Vec<usize>, Error>,
) -> bool {
    exists|fuel: nat|
        (#[trigger] lllr_run(g, table, tables, lllr_start(tokens), fuel)) matches Some(end)
            && lllr_verdict(g.symbols, tokens, end, result)
}

/// The parse comes from `a` to `b` in `k` steps.
pub open spec fn follows(
    g: GrammarView,
    table: Map<(usize, usize), usize>,
    tables: Seq<(Position, DataView)>,
    a: LllrState,
    b: LllrState,
    k: nat,
) -> bool {
    forall|f: nat| lllr_run(g, table, tables, a, k + f) == #[trigger] lllr_run(g, table, tables, b, f)
}

/// One more step.
pub proof fn lemma_follows_step(
    g: GrammarView,
    table: Map<(usize, usize), usize>,
    tables: Seq<(Position, DataView)>,
    a: LllrState,
    b: LllrState,
    c: LllrState,
    k: nat,
)
    requires
        follows(g, table, tables, a, b, k),
        lllr_step(g, table, tables, b) == LllrStep::Go(c),
    ensures
        follows(g, table, tables, a, c, k + 1),
{
    assert forall|f: nat|
        lllr_run(g, table, tables, a, (k + 1) + f) == #[trigger] lllr_run(g, table, tables, c, f) by {
        assert(lllr_run(g, table, tables, a, k + (f + 1)) == lllr_run(g, table, tables, b, f + 1));
    }
}

/// The last step.
pub proof fn lemma_follows_stop(
    g: GrammarView,
    table: Map<(usize, usize), usize>,
    tables: Seq<(Position, DataView)>,
    a: LllrState,
    b: LllrState,
    end: LllrEnd,
    k: nat,
)
    requires
        follows(g, table, tables, a, b, k),
        lllr_step(g, table, tables, b) == LllrStep::Stop(end),
    ensures
        lllr_run(g, table, tables, a, k) == Some(end),
{
    assert(lllr_run(g, table, tables, a, k + 0) == lllr_run(g, table, tables, b, 0));
}

/// Returns the index of the first table that is registered for the place.
pub fn find_table(tables: &Vec<(Position, Data)>, place: Position) -> (found: Option<usize>)
    ensures
        match found {
            Some(index) => index < tables.len() && table_at(table_views(tables@), place) == Some(
                index as int,
            ),
            None => table_at(table_views(tables@), place) is None,
        },
{
    let ghost all = table_views(tables@);
    let mut at: usize = 0;
    assert(all.subrange(0, all.len() as int) =~= all);
    while at < tables.len()
        invariant
            at <= tables.len(),
            all == table_views(tables@),
            match table_at(all.subrange(at as int, all.len() as int), place) {
                Some(i) => table_at(all, place) == Some(i + at),
                None => table_at(all, place) is None,
            },
        decreases tables.len() - at,
    {
        let ghost rest = all.subrange(at as int, all.len() as int);
        assert(rest.drop_first() =~= all.subrange(at + 1, all.len() as int));
        assert(rest[0] == all[at as int]);
        if tables[at].0.0 == place.0 && tables[at].0.1 == place.1 {
            return Some(at);
        }
        at += 1;
    }
    None
}

/// Puts the symbols but ϵ on the stack, the last one first.
pub fn push_slots(stack: &mut Vec<Slot>, slots: &Vec<Slot>)
    ensures
        final(stack)@ == old(stack)@ + restack(slots@),
{
    let mut at: usize = slots.len();
    assert(slots@.subrange(at as int, slots.len() as int) =~= Seq::<Slot>::empty());
    assert(stack@ =~= old(stack)@ + restack(Seq::<Slot>::empty()));
    while at > 0
        invariant
            at <= slots.len(),
            stack@ == old(stack)@ + restack(slots@.subrange(at as int, slots.len() as int)),
        decreases at,
    {
        at -= 1;
        let ghost rest = slots@.subrange(at as int, slots.len() as int);
        assert(rest.drop_first() =~= slots@.subrange(at + 1, slots.len() as int));
        assert(rest[0] == slots[at as int]);
        if slots[at].0 != NULL {
            stack.push(slots[at]);
            assert(stack@ =~= old(stack)@ + restack(rest));
        } else {
            assert(stack@ =~= old(stack)@ + restack(rest));
        }
    }
    assert(slots@.subrange(0, slots.len() as int) =~= slots@);
}

/// Returns the number of symbols but ϵ among the first `upto` symbols.
pub fn count_solid(body: &[usize], upto: usize) -> (count: usize)
    requires
        upto <= body.len(),
    ensures
        count == solid(body@.subrange(0, upto as int)),
        count <= upto,
{
    let mut count: usize = 0;
    let mut at: usize = 0;
    while at < upto
        invariant
            at <= upto <= body.len(),
            count <= at,
            count == solid(body@.subrange(0, at as int)),
        decreases upto - at,
    {
        let ghost part = body@.subrange(0, at + 1);
        assert(part.drop_last() =~= body@.subrange(0, at as int));
        assert(part.last() == body[at as int]);
        if body[at] != NULL {
            count += 1;
        }
        at += 1;
    }
    count
}

/// Joins the last `n` buffers behind the rule.
pub fn merge_buffers(buffers: &mut Vec<Vec<usize>>, n: usize, rule: usize)
    requires
        n <= old(buffers).len(),
    ensures
        views(final(buffers)@) == reduce_buffers(views(old(buffers)@), n as nat, rule),
{
    let ghost before = views(buffers@);
    if n == 0 {
        let mut fresh: Vec<usize> = Vec::new();
        fresh.push(rule);
        buffers.push(fresh);
        proof {
            assert(before.subrange(before.len() as int, before.len() as int) =~= Seq::<
                Seq<usize>,
            >::empty());
            assert(before.subrange(0, before.len() as int) =~= before);
            assert(views(buffers@) =~= reduce_buffers(before, 0, rule));
        }
    } else {
        reduce_rules(buffers, n - 1);
        let last = buffers.len() - 1;
        let ghost mid = buffers@;
        buffers[last].insert(0, rule);
        proof {
            let after = views(buffers@);
            let want = reduce_buffers(before, n as nat, rule);
            assert(after.len() == want.len());
            assert forall|i: int| 0 <= i < after.len() implies after[i] == want[i] by {
                if i < last {
                    assert(buffers@[i] == mid[i]);
                } else {
                    assert(buffers@[i]@ =~= seq![rule] + mid[i]@);
                }
            }
            assert(after =~= want);
        }
    }
}

/// Returns what the buffers hold, in the order in which they were pushed.
pub fn flatten(buffers: &Vec<Vec<usize>>) -> (out: Vec<usize>)
    ensures
        out@ == joined(views(buffers@)),
{
    let ghost held = views(buffers@);
    let mut out: Vec<usize> = Vec::new();
    let mut at: usize = 0;
    assert(held.subrange(0, 0) =~= Seq::<Seq<usize>>::empty());
    while at < buffers.len()
        invariant
            at <= buffers.len(),
            held == views(buffers@),
            out@ == joined(held.subrange(0, at as int)),
        decreases buffers.len() - at,
    {
        let ghost start = out@;
        let mut k: usize = 0;
        while k < buffers[at].len()
            invariant
                at < buffers.len(),
                k <= buffers[at as int].len(),
                out@ == start + buffers[at as int]@.subrange(0, k as int),
            decreases buffers[at as int].len() - k,
        {
            out.push(buffers[at][k]);
            assert(buffers[at as int]@.subrange(0, k + 1) =~= buffers[at as int]@.subrange(
                0,
                k as int,
            ).push(buffers[at as int][k as int]));
            assert(out@ =~= start + buffers[at as int]@.subrange(0, k + 1));
            k += 1;
        }
        proof {
            assert(buffers[at as int]@.subrange(0, k as int) =~= buffers[at as int]@);
            let longer = held.subrange(0, at + 1);
            assert(longer.drop_last() =~= held.subrange(0, at as int));
            assert(longer.last() == buffers[at as int]@);
        }
        at += 1;
    }
    assert(held.subrange(0, at as int) =~= held);
    out
}

/// Adds the rules to the list.
pub fn extend_rules(rules: &mut Vec<usize>, more: &Vec<usize>)
    ensures
        final(rules)@ == old(rules)@ + more@,
{
    let mut k: usize = 0;
    assert(rules@ =~= old(rules)@ + more@.subrange(0, 0));
    while k < more.len()
        invariant
            k <= more.len(),
            rules@ == old(rules)@ + more@.subrange(0, k as int),
        decreases more.len() - k,
    {
        rules.push(more[k]);
        assert(more@.subrange(0, k + 1) =~= more@.subrange(0, k as int).push(more[k as int]));
        assert(rules@ =~= old(rules)@ + more@.subrange(0, k + 1));
        k += 1;
    }
    assert(more@.subrange(0, k as int) =~= more@);
}

/// The tokens are the last tokens of the input.
pub open spec fn suffix_of(input: Seq<Token>, full: Seq<Token>) -> bool {
    input.len() <= full.len() && input == full.subrange(full.len() - input.len(), full.len() as int)
}

/// What is left of the input during an embedded parse: the end marker that
/// was put in front and the tokens that were left when the parse began, or
/// no more than those tokens.
pub open spec fn inner_input(input: Seq<Token>, full: Seq<Token>, left: nat) -> bool {
    if input.len() > left {
        input.len() == left + 1 && input[0].symbol == END && suffix_of(
            input.subrange(1, input.len() as int),
            full,
        )
    } else {
        suffix_of(input, full)
    }
}

/// How an embedded parse has ended.
enum Handover {
    /// The LL(1) parser goes on.
    Done,
    /// No action takes the next token.
    Refused,
    /// The tables do not fit the stacks.
    Broken,
}

/// Runs the embedded LR(1) parser for the symbol on top of the stack, with
/// the end marker in front of the input.
#[verifier::rlimit(100)]
fn embedded(
    data: &Data,
    stack: &mut Vec<Slot>,
    input: &mut VecDeque<Token>,
    rules: &mut Vec<usize>,
    symbol: usize,
    left: usize,
    Ghost(g): Ghost<GrammarView>,
    Ghost(table): Ghost<Map<(usize, usize), usize>>,
    Ghost(tables): Ghost<Seq<(Position, DataView)>>,
    Ghost(index): Ghost<int>,
    Ghost(full): Ghost<Seq<Token>>,
) -> (out: (Handover, Ghost<nat>))
    requires
        data.wf(),
        0 <= index < tables.len(),
        tables[index].1 == data@,
        old(input)@.len() == left + 1,
        inner_input(old(input)@, full, left as nat),
        tokens_within(full, data.grammar.symbols.len() as nat),
    ensures
        ({
            let entered = LllrState {
                stack: old(stack)@,
                input: symbols_of(old(input)@),
                rules: old(rules)@,
                inner: Some(
                    Inner {
                        index,
                        stack: seq![(symbol, 0usize)],
                        buffers: seq![Seq::<usize>::empty()],
                        reductions: 0,
                        left: left as nat,
                    },
                ),
            };
            match out.0 {
                Handover::Done => follows(
                    g,
                    table,
                    tables,
                    entered,
                    LllrState {
                        stack: final(stack)@,
                        input: symbols_of(final(input)@),
                        rules: final(rules)@,
                        inner: None,
                    },
                    out.1@,
                ) && suffix_of(final(input)@, full) && final(input)@.len() <= left && final(rules).len()
                    >= old(rules).len() && (final(rules).len() > old(rules).len()
                    || final(input)@.len() < left),
                Handover::Refused => exists|c: LllrState| #[trigger]
                    lllr_run(g, table, tables, entered, out.1@) == Some(LllrEnd::Refused(c))
                        && c.input == symbols_of(final(input)@) && inner_input(
                        final(input)@,
                        full,
                        left as nat,
                    ),
                Handover::Broken => lllr_run(g, table, tables, entered, out.1@) == Some(
                    LllrEnd::Broken,
                ),
            }
        }),
{
    let ghost d = data@;
    let ghost stack0 = stack@;
    let ghost rules0 = rules@;
    let ghost entered = LllrState {
        stack: stack0,
        input: symbols_of(input@),
        rules: rules0,
        inner: Some(
            Inner {
                index,
                stack: seq![(symbol, 0usize)],
                buffers: seq![Seq::<usize>::empty()],
                reductions: 0,
                left: left as nat,
            },
        ),
    };
    let mut lr_stack: Vec<(usize, usize)> = Vec::new();
    lr_stack.push((symbol, 0));
    let mut buffers: Vec<Vec<usize>> = Vec::new();
    buffers.push(Vec::new());
    let mut reductions: usize = 0;
    let ghost mut steps: nat = 0;
    proof {
        assert(lr_stack@ =~= seq![(symbol, 0usize)]);
        assert(views(buffers@) =~= seq![Seq::<usize>::empty()]);
        assert(data.grammar@.valid());
        assert(data.grammar.symbols@[END as int] is End);
    }
    loop
        invariant
            data.wf(),
            d == data@,
            0 <= index < tables.len(),
            tables[index].1 == d,
            stack@ == stack0,
            rules@ == rules0,
            stack0 == old(stack)@,
            rules0 == old(rules)@,
            entered == (LllrState {
                stack: old(stack)@,
                input: symbols_of(old(input)@),
                rules: old(rules)@,
                inner: Some(
                    Inner {
                        index,
                        stack: seq![(symbol, 0usize)],
                        buffers: seq![Seq::<usize>::empty()],
                        reductions: 0,
                        left: left as nat,
                    },
                ),
            }),
            inner_input(input@, full, left as nat),
            tokens_within(full, data.grammar.symbols.len() as nat),
            follows(
                g,
                table,
                tables,
                entered,
                LllrState {
                    stack: stack0,
                    input: symbols_of(input@),
                    rules: rules0,
                    inner: Some(
                        Inner {
                            index,
                            stack: lr_stack@,
                            buffers: views(buffers@),
                            reductions: reductions as nat,
                            left: left as nat,
                        },
                    ),
                },
                steps,
            ),
        decreases usize::MAX - reductions, input.len(),
    {
        let ghost inner = Inner {
            index,
            stack: lr_stack@,
            buffers: views(buffers@),
            reductions: reductions as nat,
            left: left as nat,
        };
        let ghost cur = LllrState {
            stack: stack0,
            input: symbols_of(input@),
            rules: rules0,
            inner: Some(inner),
        };
        if lr_stack.len() == 0 {
            proof {
                lemma_follows_stop(g, table, tables, entered, cur, LllrEnd::Refused(cur), steps);
            }
            return (Handover::Refused, Ghost(steps));
        }
        let state = lr_stack[lr_stack.len() - 1].1;
        let token = if input.len() > 0 {
            input[0].clone()
        } else {
            Token::null()
        };
        proof {
            assert(token.symbol == lookahead(cur.input));
            if input@.len() > 0 {
                if input@.len() > left {
                    assert(token.symbol == END);
                } else {
                    assert(input@[0] == full[full.len() - input@.len()]);
                }
            }
            assert(token.symbol < data.grammar.symbols.len());
        }
        // Check if the LR parser can stop.
        match find_unique_item(&data.grammar, data, state, &token) {
            Some((item, tail)) => {
                assert(item.fits(d.g));
                assert(d.g.rules[item.rule as int] == data.grammar.rules[item.rule as int]@);
                assert(d.g.rules[d.start_rule as int]
                    == data.grammar.rules[d.start_rule as int]@);
                assert(d.g.rules[d.start_rule as int].valid_in(
                    d.start_rule as int,
                    d.g.symbols.len(),
                ));
                let rule = data.grammar.rule(item.rule);
                let parsed = count_solid(rule.body.as_slice(), item.dot);
                let wrapped = data.grammar.rule(data.start_rule).body.len() - 1;
                if parsed > buffers.len() || wrapped > stack.len() {
                    proof {
                        lemma_follows_stop(g, table, tables, entered, cur, LllrEnd::Broken, steps);
                    }
                    return (Handover::Broken, Ghost(steps));
                }
                merge_buffers(&mut buffers, parsed, item.rule);
                let emitted = flatten(&buffers);
                if input.len() > left || (emitted.len() == 0 && input.len() == left) {
                    proof {
                        lemma_follows_stop(g, table, tables, entered, cur, LllrEnd::Broken, steps);
                    }
                    return (Handover::Broken, Ghost(steps));
                }
                // Replace embedded parser symbols on the LL stack.
                stack.truncate(stack.len() - wrapped);
                push_slots(stack, &tail);
                extend_rules(rules, &emitted);
                proof {
                    let after = LllrState {
                        stack: stack@,
                        input: symbols_of(input@),
                        rules: rules@,
                        inner: None,
                    };
                    assert(stack@ =~= stack0.subrange(0, stack0.len() - wrapped) + restack(tail@));
                    assert(lllr_step(g, table, tables, cur) == LllrStep::Go(after));
                    lemma_follows_step(g, table, tables, entered, cur, after, steps);
                }
                return (Handover::Done, Ghost(steps + 1));
            },
            None => {},
        }
        let action = match data.action_table.get(state, token.symbol) {
            Some(action) => action,
            None => {
                proof {
                    lemma_follows_stop(g, table, tables, entered, cur, LllrEnd::Refused(cur), steps);
                }
                return (Handover::Refused, Ghost(steps));
            },
        };
        assert(d.action.contains_key((state, token.symbol)));
        match action {
            Action::Shift(next) => {
                assert(token.symbol != NULL);
                lr_stack.push((token.symbol, next));
                buffers.push(Vec::new());
                let ghost before = input@;
                let ghost held = views(buffers@);
                input.pop_front();
                proof {
                    assert(symbols_of(input@) =~= symbols_of(before).drop_first());
                    assert(held =~= inner.buffers.push(Seq::<usize>::empty()));
                    if before.len() > left {
                        assert(input@ =~= before.subrange(1, before.len() as int));
                    } else {
                        assert(input@ =~= full.subrange(
                            full.len() - input@.len(),
                            full.len() as int,
                        ));
                    }
                }
            },
            Action::Reduce(id) => {
                assert(d.g.rules[id as int] == data.grammar.rules[id as int]@);
                assert(d.g.rules[id as int].valid_in(id as int, d.g.symbols.len()));
                if reductions == usize::MAX {
                    proof {
                        lemma_follows_stop(g, table, tables, entered, cur, LllrEnd::Broken, steps);
                    }
                    return (Handover::Broken, Ghost(steps));
                }
                let rule = data.grammar.rule(id);
                match reduce_stack(&mut lr_stack, rule.body.as_slice()) {
                    Err(_) => {
                        proof {
                            lemma_follows_stop(
                                g,
                                table,
                                tables,
                                entered,
                                cur,
                                LllrEnd::Broken,
                                steps,
                            );
                        }
                        return (Handover::Broken, Ghost(steps));
                    },
                    Ok(()) => {},
                }
                if lr_stack.len() == 0 {
                    proof {
                        lemma_follows_stop(g, table, tables, entered, cur, LllrEnd::Broken, steps);
                    }
                    return (Handover::Broken, Ghost(steps));
                }
                let below = lr_stack[lr_stack.len() - 1].1;
                let next_state = match data.goto_table.get(below, rule.head) {
                    Some(next_state) => next_state,
                    None => {
                        proof {
                            lemma_follows_stop(
                                g,
                                table,
                                tables,
                                entered,
                                cur,
                                LllrEnd::Broken,
                                steps,
                            );
                        }
                        return (Handover::Broken, Ghost(steps));
                    },
                };
                let count = count_solid(rule.body.as_slice(), rule.body.len());
                assert(rule.body@.subrange(0, rule.body.len() as int) =~= rule.body@);
                if count > buffers.len() {
                    proof {
                        lemma_follows_stop(g, table, tables, entered, cur, LllrEnd::Broken, steps);
                    }
                    return (Handover::Broken, Ghost(steps));
                }
                merge_buffers(&mut buffers, count, id);
                lr_stack.push((rule.head, next_state));
                reductions += 1;
            },
            Action::Accept(id) => {
                assert(d.g.rules[id as int] == data.grammar.rules[id as int]@);
                assert(d.g.rules[id as int].valid_in(id as int, d.g.symbols.len()));
                let rule = data.grammar.rule(id);
                let body = rule.tail(1);
                match reduce_stack(&mut lr_stack, body) {
                    Err(_) => {
                        proof {
                            lemma_follows_stop(
                                g,
                                table,
                                tables,
                                entered,
                                cur,
                                LllrEnd::Broken,
                                steps,
                            );
                        }
                        return (Handover::Broken, Ghost(steps));
                    },
                    Ok(()) => {},
                }
                if body.len() > stack.len() {
                    proof {
                        lemma_follows_stop(g, table, tables, entered, cur, LllrEnd::Broken, steps);
                    }
                    return (Handover::Broken, Ghost(steps));
                }
                let emitted = flatten(&buffers);
                if input.len() > left || (emitted.len() == 0 && input.len() == left) {
                    proof {
                        lemma_follows_stop(g, table, tables, entered, cur, LllrEnd::Broken, steps);
                    }
                    return (Handover::Broken, Ghost(steps));
                }
                stack.truncate(stack.len() - body.len());
                extend_rules(rules, &emitted);
                proof {
                    let after = LllrState {
                        stack: stack@,
                        input: symbols_of(input@),
                        rules: rules@,
                        inner: None,
                    };
                    assert(stack@ =~= stack0.subrange(0, stack0.len() - body.len()));
                    assert(lllr_step(g, table, tables, cur) == LllrStep::Go(after));
                    lemma_follows_step(g, table, tables, entered, cur, after, steps);
                }
                return (Handover::Done, Ghost(steps + 1));
            },
        }
        proof {
            let after = LllrState {
                stack: stack0,
                input: symbols_of(input@),
                rules: rules0,
                inner: Some(
                    Inner {
                        index,
                        stack: lr_stack@,
                        buffers: views(buffers@),
                        reductions: reductions as nat,
                        left: left as nat,
                    },
                ),
            };
            assert(lllr_step(g, table, tables, cur) == LllrStep::Go(after));
            lemma_follows_step(g, table, tables, entered, cur, after, steps);
            steps = steps + 1;
        }
    }
}

/// Finds a unique item in the current automaton state.
/// Returns the item and the remaining symbols in the automaton.
///
/// The way back through the BACKTRACK table is given up after as many steps
/// as the table has entries: a longer way runs in a circle.
pub fn find_unique_item(grammar: &Grammar, data: &Data, state: usize, token: &Token) -> (found:
    Option<(Item, Vec<Slot>)>)
    requires
        data.wf(),
        grammar.wf(),
        grammar@ == data.grammar@,
        token.symbol < grammar.symbols.len(),
    ensures
        match found {
            Some((item, tail)) => early(data@, state, token.symbol) == Some((item, tail@)),
            None => early(data@, state, token.symbol) is None,
        },
{
    let ghost d = data@;
    let ghost g = grammar@;
    match data.action_table.get(state, token.symbol) {
        Some(action) => {
            if action.is_accept() {
                return None;
            }
        },
        None => {},
    }
    if grammar.symbols[token.symbol].is_internal() {
        return None;
    }
    // Find the unique item.
    let id = match data.left_table.get(state, token.symbol) {
        Some(id) => id,
        None => {
            return None;
        },
    };
    let item = data.items[id];
    assert(item.fits(g));
    assert(g.rules[item.rule as int] == grammar.rules[item.rule as int]@);
    assert(g.rules[item.rule as int].valid_in(item.rule as int, g.symbols.len()));
    let rule = grammar.rule(item.rule);
    let mut tail = rule.positions(item.dot);
    let ghost first = tail@;
    let mut current_rule = item.rule;
    let mut from = (state, id);
    let mut fuel = data.backtrack_table.size();
    // Follow item transitions to find the remaining symbols.
    loop
        invariant
            data.wf(),
            grammar.wf(),
            d == data@,
            g == grammar@,
            g == data.grammar@,
            fuel <= d.limit,
            !(d.action.contains_key((state, token.symbol)) && d.action[(state, token.symbol)]
                is Accept),
            !is_internal(d.g.symbols, token.symbol),
            d.left.contains_key((state, token.symbol)),
            d.left[(state, token.symbol)] == id,
            item == d.items[id as int],
            match walk(d, from, current_rule, fuel as nat) {
                Some(rest) => walk(d, (state, id), item.rule, d.limit) == Some(
                    tail@.subrange(first.len() as int, tail.len() as int) + rest,
                ),
                None => walk(d, (state, id), item.rule, d.limit) is None,
            },
            first.len() <= tail.len(),
            tail@.subrange(0, first.len() as int) == first,
        ensures
            walk(d, (state, id), item.rule, d.limit) is Some,
            first.len() <= tail.len(),
            tail@.subrange(0, first.len() as int) == first,
            walk(d, (state, id), item.rule, d.limit) == Some(
                tail@.subrange(first.len() as int, tail.len() as int),
            ),
        decreases fuel,
    {
        let to = match data.backtrack_table.get(from.0, from.1) {
            Some(to) => to,
            None => {
                proof {
                    assert(walk(d, from, current_rule, fuel as nat) == Some(Seq::<Slot>::empty()));
                    assert(tail@.subrange(first.len() as int, tail.len() as int) + Seq::<
                        Slot,
                    >::empty() =~= tail@.subrange(first.len() as int, tail.len() as int));
                }
                break;
            },
        };
        assert(d.backtrack.contains_key(from));
        if fuel == 0 {
            assert(walk(d, from, current_rule, 0) is None);
            return None;
        }
        let parent = data.items[to.1];
        assert(parent.fits(g));
        assert(g.rules[parent.rule as int] == grammar.rules[parent.rule as int]@);
        assert(g.rules[parent.rule as int].valid_in(parent.rule as int, g.symbols.len()));
        let ghost before = tail@;
        let ghost more = if parent.rule != current_rule {
            positions_from(parent.rule, g.rules[parent.rule as int].body, parent.dot + 1)
        } else {
            Seq::<Slot>::empty()
        };
        if parent.rule != current_rule {
            let next_rule = grammar.rule(parent.rule);
            if parent.dot < next_rule.body.len() {
                let mut extra = next_rule.positions(parent.dot + 1);
                tail.append(&mut extra);
            } else {
                assert(more =~= Seq::<Slot>::empty());
            }
            current_rule = parent.rule;
        }
        proof {
            assert(tail@ =~= before + more);
            match walk(d, to, parent.rule, (fuel - 1) as nat) {
                Some(rest) => {
                    assert(tail@.subrange(first.len() as int, tail.len() as int) + rest
                        =~= before.subrange(first.len() as int, before.len() as int) + (more
                        + rest));
                },
                None => {},
            }
            assert(tail@.subrange(0, first.len() as int) =~= before.subrange(
                0,
                first.len() as int,
            ));
        }
        from = to;
        fuel -= 1;
    }
    proof {
        assert(tail@ =~= first + tail@.subrange(first.len() as int, tail.len() as int));
    }
    Some((item, tail))
}

/// The states of an LL(1) parse and of an LLLR(1) parse agree: the same
/// symbols on the stack, the same input, the same rules, and no embedded
/// parse under way.
pub open spec fn agree(a: LllrState, b: crate::ll::LlState) -> bool {
    &&& a.inner is None
    &&& a.input == b.input
    &&& a.rules == b.rules
    &&& a.stack.len() == b.stack.len()
    &&& forall|i: int| 0 <= i < a.stack.len() ==> (#[trigger] a.stack[i]).0 == b.stack[i]
}

/// Symbols with their places are put on the stack as the symbols alone are.
pub proof fn lemma_restack(id: usize, body: Seq<usize>, from: int)
    requires
        0 <= from <= body.len(),
    ensures
        restack(positions_from(id, body, from)).len() == crate::ll::unstacked(
            body.subrange(from, body.len() as int),
        ).len(),
        forall|i: int|
            0 <= i < restack(positions_from(id, body, from)).len() ==> (#[trigger] restack(
                positions_from(id, body, from),
            )[i]).0 == crate::ll::unstacked(body.subrange(from, body.len() as int))[i],
    decreases body.len() - from,
{
    let slots = positions_from(id, body, from);
    let rest = body.subrange(from, body.len() as int);
    if from < body.len() {
        lemma_restack(id, body, from + 1);
        assert(slots.drop_first() =~= positions_from(id, body, from + 1));
        assert(rest.drop_first() =~= body.subrange(from + 1, body.len() as int));
        assert(slots[0].0 == rest[0]);
    } else {
        assert(slots =~= Seq::<Slot>::empty());
        assert(rest =~= Seq::<usize>::empty());
    }
}

/// Without registered tables an LLLR(1) parse goes as the LL(1) parse
/// goes: from states that agree, both stop within the same number of steps,
/// in states that agree, or neither does.
pub proof fn lemma_same_run(
    g: GrammarView,
    table: Map<(usize, usize), usize>,
    a: LllrState,
    b: crate::ll::LlState,
    fuel: nat,
)
    requires
        agree(a, b),
    ensures
        match crate::ll::ll_run(g, table, b, fuel) {
            Some(end) => lllr_run(g, table, Seq::empty(), a, fuel) matches Some(
                LllrEnd::Halted(last),
            ) && agree(last, end),
            None => lllr_run(g, table, Seq::empty(), a, fuel) is None,
        },
    decreases fuel,
{
    let none = Seq::<(Position, DataView)>::empty();
    assert(table_at(none, a.stack.last().1) is None);
    if crate::ll::ll_halted(table, b) {
        if a.stack.len() > 0 {
            assert(a.stack.last().0 == b.stack.last());
        }
    } else {
        assert(a.stack.last().0 == b.stack.last());
        let key = (b.stack.last(), b.input[0]);
        let next_b = crate::ll::ll_next(g, table, b);
        let next_a = match lllr_step(g, table, none, a) {
            LllrStep::Go(next) => next,
            LllrStep::Stop(_) => a,
        };
        if table.contains_key(key) {
            let body = g.rules[table[key] as int].body;
            lemma_restack(table[key], body, 0);
            assert(body.subrange(0, body.len() as int) =~= body);
        }
        assert(agree(next_a, next_b));
        if fuel > 0 {
            lemma_same_run(g, table, next_a, next_b, (fuel - 1) as nat);
        }
    }
}

/// On a grammar without LL(1) conflicts the LLLR(1) parser returns what the
/// LL(1) parser returns.
pub proof fn lemma_lllr_is_ll(
    g: GrammarView,
    table: Map<(usize, usize), usize>,
    tokens: Seq<Token>,
    result: Result<Vec<usize>, Error>,
)
    requires
        forall|h: usize| !crate::lltable::clash(g, Set::empty(), g.rules.len() as int, h),
        table == crate::lltable::ll_map(g, Set::empty()),
        lllr_outcome(g, table, Seq::empty(), tokens, result),
    ensures
        crate::ll::ll_outcome(g, tokens, result),
{
    let fuel = choose|fuel: nat|
        (#[trigger] lllr_run(g, table, Seq::empty(), lllr_start(tokens), fuel)) matches Some(end)
            && lllr_verdict(g.symbols, tokens, end, result);
    let a = lllr_start(tokens);
    let b = crate::ll::ll_start(tokens);
    lemma_same_run(g, table, a, b, fuel);
    assert(crate::ll::ll_run(g, table, b, fuel) is Some);
}

/// The tables fit the grammar and the tokens: the LL(1) table names rules
/// of the grammar, every registered table is well formed, and every token
/// stands for a symbol of each of their grammars.
pub open spec fn tables_fit(
    grammar: &Grammar,
    parse_table: &Table<usize>,
    tables: Seq<(Position, Data)>,
    tokens: Seq<Token>,
) -> bool {
    &&& forall|k: (usize, usize)| #[trigger]
        parse_table@.contains_key(k) ==> parse_table@[k] < grammar.rules.len()
    &&& forall|i: int| 0 <= i < tables.len() ==> (#[trigger] tables[i]).1.wf()
    &&& forall|i: int|
        0 <= i < tables.len() ==> tokens_within(
            tokens,
            (#[trigger] tables[i]).1.grammar.symbols.len() as nat,
        )
}

/// Drives the LLLR(1) parser with the LL(1) table and the tables of the
/// embedded LR(1) parsers, and returns the list of rules.
#[verifier::rlimit(100)]
pub fn drive(
    tokens: &[Token],
    grammar: &Grammar,
    parse_table: &Table<usize>,
    tables: &Vec<(Position, Data)>,
) -> (result: Result<Vec<usize>, Error>)
    requires
        grammar.wf(),
        tokens_within(tokens@, grammar.symbols.len() as nat),
        tables_fit(grammar, parse_table, tables@, tokens@),
    ensures
        lllr_outcome(grammar@, parse_table@, table_views(tables@), tokens@, result),
{
    let ghost g = grammar@;
    let ghost table = parse_table@;
    let ghost registered = table_views(tables@);
    let mut rules: Vec<usize> = Vec::new();
    let mut stack: Vec<Slot> = Vec::new();
    stack.push((START, (0, 0)));
    let mut input = get_input(tokens);
    let ghost full = input@;
    let ghost init = lllr_start(tokens@);
    let ghost mut steps: nat = 0;
    proof {
        assert(stack@ =~= seq![(START, (0usize, 0usize))]);
        assert(full.subrange(1, full.len() - 1) == tokens@);
        assert forall|i: int| 0 <= i < full.len() implies (#[trigger] full[i]).symbol
            < grammar.symbols.len() by {
            if 0 < i < full.len() - 1 {
                assert(full.subrange(1, full.len() - 1)[i - 1] == full[i]);
            }
        }
        assert forall|t: int| 0 <= t < tables.len() implies tokens_within(
            full,
            (#[trigger] tables[t]).1.grammar.symbols.len() as nat,
        ) by {
            assert(tables[t].1.wf());
            assert(tables[t].1.grammar@.valid());
            assert forall|i: int| 0 <= i < full.len() implies (#[trigger] full[i]).symbol
                < tables[t].1.grammar.symbols.len() by {
                if 0 < i < full.len() - 1 {
                    assert(full.subrange(1, full.len() - 1)[i - 1] == full[i]);
                }
            }
        }
        assert(full =~= full.subrange(0, full.len() as int));
    }
    while stack.len() > 0 && input.len() > 0
        invariant
            grammar.wf(),
            g == grammar@,
            table == parse_table@,
            registered == table_views(tables@),
            tables_fit(grammar, parse_table, tables@, tokens@),
            init == lllr_start(tokens@),
            full.len() == tokens.len() + 2,
            full[0].symbol == END,
            full[full.len() - 1].symbol == END,
            full.subrange(1, full.len() - 1) == tokens@,
            suffix_of(input@, full),
            tokens_within(full, grammar.symbols.len() as nat),
            forall|t: int|
                0 <= t < tables.len() ==> tokens_within(
                    full,
                    (#[trigger] tables[t]).1.grammar.symbols.len() as nat,
                ),
            follows(
                g,
                table,
                registered,
                init,
                LllrState { stack: stack@, input: symbols_of(input@), rules: rules@, inner: None },
                steps,
            ),
        ensures
            outer_step(
                g,
                table,
                registered,
                (LllrState { stack: stack@, input: symbols_of(input@), rules: rules@, inner: None }),
            ) is Stop,
            suffix_of(input@, full),
            follows(
                g,
                table,
                registered,
                init,
                LllrState { stack: stack@, input: symbols_of(input@), rules: rules@, inner: None },
                steps,
            ),
        decreases usize::MAX - rules.len(), input.len(),
    {
        let ghost cur = LllrState {
            stack: stack@,
            input: symbols_of(input@),
            rules: rules@,
            inner: None,
        };
        let top = stack[stack.len() - 1];
        let next = input[0].symbol;
        assert(cur.stack.last() == top && cur.input[0] == next);
        match parse_table.get(top.0, next) {
            Some(rule) => {
                assert(table.contains_key((top.0, next)));
                assert(g.rules[rule as int] == grammar.rules[rule as int]@);
                assert(g.rules[rule as int].valid_in(rule as int, g.symbols.len()));
                rules.push(rule);
                stack.pop();
                let slots = grammar.rules[rule].positions(0);
                push_slots(&mut stack, &slots);
                proof {
                    let after = LllrState {
                        stack: stack@,
                        input: symbols_of(input@),
                        rules: rules@,
                        inner: None,
                    };
                    assert(after.stack =~= cur.stack.drop_last() + restack(
                        positions_from(rule, g.rules[rule as int].body, 0),
                    ));
                    assert(lllr_step(g, table, registered, cur) == LllrStep::Go(after));
                    lemma_follows_step(g, table, registered, init, cur, after, steps);
                    steps = steps + 1;
                }
                continue;
            },
            None => {},
        }
        // Start the LR parser if necessary.
        match find_table(tables, top.1) {
            Some(index) => {
                let data = &tables[index].1;
                let left = input.len();
                let ghost before = input@;
                input.push_front(Token::end());
                let ghost entered = LllrState {
                    stack: stack@,
                    input: symbols_of(input@),
                    rules: rules@,
                    inner: Some(
                        Inner {
                            index: index as int,
                            stack: seq![(top.0, 0usize)],
                            buffers: seq![Seq::<usize>::empty()],
                            reductions: 0,
                            left: left as nat,
                        },
                    ),
                };
                proof {
                    assert(symbols_of(input@) =~= seq![END] + symbols_of(before));
                    assert(input@.subrange(1, input@.len() as int) =~= before);
                    assert(lllr_step(g, table, registered, cur) == LllrStep::Go(entered));
                    lemma_follows_step(g, table, registered, init, cur, entered, steps);
                    assert(registered[index as int].1 == data@);
                    assert(tables[index as int].1.wf());
                }
                let ghost emitted = rules.len();
                let (handover, Ghost(taken)) = embedded(
                    data,
                    &mut stack,
                    &mut input,
                    &mut rules,
                    top.0,
                    left,
                    Ghost(g),
                    Ghost(table),
                    Ghost(registered),
                    Ghost(index as int),
                    Ghost(full),
                );
                match handover {
                    Handover::Done => {
                        proof {
                            let after = LllrState {
                                stack: stack@,
                                input: symbols_of(input@),
                                rules: rules@,
                                inner: None,
                            };
                            assert forall|f: nat|
                                lllr_run(g, table, registered, init, (steps + 1 + taken) + f)
                                    == #[trigger] lllr_run(g, table, registered, after, f) by {
                                assert(lllr_run(g, table, registered, init, (steps + 1) + (taken
                                    + f)) == lllr_run(g, table, registered, entered, taken + f));
                            }
                            steps = steps + 1 + taken;
                        }
                        continue;
                    },
                    Handover::Refused => {
                        proof {
                            let c = choose|c: LllrState| #[trigger]
                                lllr_run(g, table, registered, entered, taken) == Some(
                                    LllrEnd::Refused(c),
                                ) && c.input == symbols_of(input@) && inner_input(
                                    input@,
                                    full,
                                    left as nat,
                                );
                            assert(lllr_run(g, table, registered, init, (steps + 1) + taken)
                                == lllr_run(g, table, registered, entered, taken));
                            assert(g.symbols[END as int] is End);
                            if input@.len() > 0 && input@.len() <= left {
                                assert(input@[0] == full[full.len() - input@.len()]);
                            }
                        }
                        let ghost rest = input@;
                        return match next_token(&mut input, grammar.symbols.as_slice()) {
                            Some(token) => {
                                proof {
                                    let place = full.len() - rest.len();
                                    assert(token == full[place]);
                                    assert(0 < place < full.len() - 1);
                                    assert(full.subrange(1, full.len() - 1)[place - 1]
                                        == full[place]);
                                }
                                Err(Error::Parse(token))
                            },
                            None => Err(Error::Eof),
                        };
                    },
                    Handover::Broken => {
                        proof {
                            assert(lllr_run(g, table, registered, init, (steps + 1) + taken)
                                == lllr_run(g, table, registered, entered, taken));
                        }
                        return Err(Error::Internal);
                    },
                }
            },
            None => {},
        }
        if top.0 != next {
            break;
        }
        stack.pop();
        let ghost before = input@;
        input.pop_front();
        proof {
            let after = LllrState {
                stack: stack@,
                input: symbols_of(input@),
                rules: rules@,
                inner: None,
            };
            assert(symbols_of(input@) =~= symbols_of(before).drop_first());
            assert(input@ =~= full.subrange(full.len() - input@.len(), full.len() as int));
            assert(lllr_step(g, table, registered, cur) == LllrStep::Go(after));
            lemma_follows_step(g, table, registered, init, cur, after, steps);
            steps = steps + 1;
        }
    }
    let ghost last = LllrState {
        stack: stack@,
        input: symbols_of(input@),
        rules: rules@,
        inner: None,
    };
    proof {
        assert(lllr_step(g, table, registered, last) == LllrStep::Stop(LllrEnd::Halted(last)));
        lemma_follows_stop(g, table, registered, init, last, LllrEnd::Halted(last), steps);
    }
    if stack.len() > 0 {
        return Err(Error::Eof);
    }
    proof {
        if input@.len() > 0 {
            assert(input@[0] == full[full.len() - input@.len()]);
        }
    }
    let ghost rest = input@;
    match next_token(&mut input, grammar.symbols.as_slice()) {
        Some(token) => {
            proof {
                let place = full.len() - rest.len();
                assert(token == full[place]);
                assert(g.symbols[END as int] is End);
                assert(0 < place < full.len() - 1);
                assert(full.subrange(1, full.len() - 1)[place - 1] == full[place]);
            }
            Err(Error::Parse(token))
        },
        None => Ok(rules),
    }
}

} // verus!
