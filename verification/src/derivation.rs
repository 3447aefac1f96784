//! Leftmost and rightmost derivations, and what the rules that the LL(1)
//! and the LR(1) parser emit derive.

use crate::analysis::GrammarView;
use crate::action::Action;
use crate::ll::{ll_halted, ll_next, ll_run, ll_start, unstacked, LlState};
use crate::lr::{lookahead, lr_run, lr_start, lr_step, LrEnd, LrState, LrStep};
use crate::parser::unwind;
use crate::tables::shifts_ok;
use crate::lltable::{first_offer, lemma_first_offer, ll_map, offered, offers};
use crate::parser::symbols_of;
use crate::symbol::{END, NULL, START};
use crate::token::Token;
use vstd::prelude::*;

verus! {

/// The symbol can be replaced: it is a nonterminal or the start marker.
pub open spec fn expandable(g: GrammarView, x: usize) -> bool {
    g.is_nonterminal(x) || x == START
}

/// The index of the first symbol that can be replaced; the length of the
/// form where there is none.
pub open spec fn leftmost(g: GrammarView, form: Seq<usize>) -> int
    decreases form.len(),
{
    if form.len() == 0 {
        0
    } else if expandable(g, form[0]) {
        0
    } else {
        1 + leftmost(g, form.drop_first())
    }
}

/// The symbols of a rule body but ϵ.
pub open spec fn plain(body: Seq<usize>) -> Seq<usize>
    decreases body.len(),
{
    if body.len() == 0 {
        Seq::empty()
    } else {
        (if body[0] != NULL {
            seq![body[0]]
        } else {
            Seq::empty()
        }) + plain(body.drop_first())
    }
}

/// One step of a leftmost derivation: the first symbol that can be
/// replaced is the head of the rule, and is replaced with its body.
pub open spec fn expand(g: GrammarView, form: Seq<usize>, rule: usize) -> Option<Seq<usize>> {
    let at = leftmost(g, form);
    if rule < g.rules.len() && at < form.len() && form[at] == g.rules[rule as int].head {
        Some(form.subrange(0, at) + plain(g.rules[rule as int].body) + form.subrange(
            at + 1,
            form.len() as int,
        ))
    } else {
        None
    }
}

/// What the rules derive from the form, each applied as a step of a
/// leftmost derivation; `None` where one of them cannot be applied.
pub open spec fn replay(g: GrammarView, form: Seq<usize>, rules: Seq<usize>) -> Option<Seq<usize>>
    decreases rules.len(),
{
    if rules.len() == 0 {
        Some(form)
    } else {
        match replay(g, form, rules.drop_last()) {
            Some(derived) => expand(g, derived, rules.last()),
            None => None,
        }
    }
}

/// The symbols of a stack from its top to its bottom.
pub open spec fn turned(stack: Seq<usize>) -> Seq<usize>
    decreases stack.len(),
{
    if stack.len() == 0 {
        Seq::empty()
    } else {
        seq![stack.last()] + turned(stack.drop_last())
    }
}

/// No symbol of the sequence can be replaced.
pub open spec fn settled(g: GrammarView, symbols: Seq<usize>) -> bool {
    forall|i: int| 0 <= i < symbols.len() ==> !expandable(g, #[trigger] symbols[i])
}

/// The head of every rule can be replaced.
pub open spec fn heads_expandable(g: GrammarView) -> bool {
    forall|r: int| 0 <= r < g.rules.len() ==> expandable(g, (#[trigger] g.rules[r]).head)
}

/// Every rule of the table is a rule of the grammar for the head of its
/// cell.
pub open spec fn table_sound(g: GrammarView, table: Map<(usize, usize), usize>) -> bool {
    forall|k: (usize, usize)| #[trigger]
        table.contains_key(k) ==> table[k] < g.rules.len() && g.rules[table[k] as int].head == k.0
}

/// The rules that the parse has emitted derive what it has read, followed
/// by what is on its stack.
pub open spec fn derives_state(g: GrammarView, c: LlState, read: Seq<usize>) -> bool {
    settled(g, read) && replay(g, seq![START], c.rules) == Some(read + turned(c.stack))
}

/// Behind symbols that cannot be replaced, the first symbol that can be
/// replaced is found.
pub proof fn lemma_leftmost(g: GrammarView, read: Seq<usize>, x: usize, rest: Seq<usize>)
    requires
        settled(g, read),
        expandable(g, x),
    ensures
        leftmost(g, read + seq![x] + rest) == read.len(),
    decreases read.len(),
{
    let form = read + seq![x] + rest;
    if read.len() == 0 {
        assert(form[0] == x);
    } else {
        assert(form[0] == read[0]);
        assert(form.drop_first() =~= read.drop_first() + seq![x] + rest);
        assert forall|i: int| 0 <= i < read.drop_first().len() implies !expandable(
            g,
            #[trigger] read.drop_first()[i],
        ) by {
            assert(read.drop_first()[i] == read[i + 1]);
        }
        lemma_leftmost(g, read.drop_first(), x, rest);
    }
}

/// Two stacks on top of each other are turned one by one.
pub proof fn lemma_turned_concat(a: Seq<usize>, b: Seq<usize>)
    ensures
        turned(a + b) == turned(b) + turned(a),
    decreases b.len(),
{
    if b.len() == 0 {
        assert(a + b =~= a);
        assert(turned(b) + turned(a) =~= turned(a));
    } else {
        assert((a + b).drop_last() =~= a + b.drop_last());
        assert((a + b).last() == b.last());
        lemma_turned_concat(a, b.drop_last());
        assert(seq![b.last()] + (turned(b.drop_last()) + turned(a)) =~= (seq![b.last()] + turned(
            b.drop_last(),
        )) + turned(a));
    }
}

/// What a rule body puts on the stack is, from the top, the body without ϵ.
pub proof fn lemma_turned_body(body: Seq<usize>)
    ensures
        turned(unstacked(body)) == plain(body),
    decreases body.len(),
{
    if body.len() > 0 {
        let first = if body[0] != NULL {
            seq![body[0]]
        } else {
            Seq::<usize>::empty()
        };
        lemma_turned_body(body.drop_first());
        lemma_turned_concat(unstacked(body.drop_first()), first);
        if body[0] != NULL {
            assert(first.drop_last() =~= Seq::<usize>::empty());
            assert(turned(first) =~= first) by {
                reveal_with_fuel(turned, 2);
            }
        }
    }
}

/// A step of the parse keeps it so that the emitted rules derive what has
/// been read, followed by what is on the stack.
pub proof fn lemma_ll_step(
    g: GrammarView,
    table: Map<(usize, usize), usize>,
    c: LlState,
    read: Seq<usize>,
) -> (next_read: Seq<usize>)
    requires
        heads_expandable(g),
        table_sound(g, table),
        derives_state(g, c, read),
        settled(g, c.input),
        !ll_halted(table, c),
    ensures
        derives_state(g, ll_next(g, table, c), next_read),
        next_read + ll_next(g, table, c).input == read + c.input,
        settled(g, ll_next(g, table, c).input),
{
    let key = (c.stack.last(), c.input[0]);
    let below = c.stack.drop_last();
    let next = ll_next(g, table, c);
    assert(c.stack =~= below.push(c.stack.last()));
    if table.contains_key(key) {
        let rule = table[key];
        let body = g.rules[rule as int].body;
        let form = read + turned(c.stack);
        assert(form =~= read + seq![key.0] + turned(below));
        lemma_leftmost(g, read, key.0, turned(below));
        lemma_turned_concat(below, unstacked(body));
        lemma_turned_body(body);
        assert(next.rules.drop_last() =~= c.rules);
        assert(form.subrange(0, read.len() as int) =~= read);
        assert(form.subrange(read.len() as int + 1, form.len() as int) =~= turned(below));
        assert(read + plain(body) + turned(below) =~= read + turned(next.stack));
        read
    } else {
        let taken = read.push(c.input[0]);
        assert(taken + turned(below) =~= read + turned(c.stack));
        assert(taken + c.input.drop_first() =~= read + c.input);
        assert forall|i: int| 0 <= i < taken.len() implies !expandable(g, #[trigger] taken[i]) by {
            if i < read.len() {
                assert(taken[i] == read[i]);
            }
        }
        assert forall|i: int| 0 <= i < next.input.len() implies !expandable(
            g,
            #[trigger] next.input[i],
        ) by {
            assert(next.input[i] == c.input[i + 1]);
        }
        taken
    }
}

/// Where the parse stops, the emitted rules derive what has been read,
/// followed by what is left on the stack.
pub proof fn lemma_ll_derives(
    g: GrammarView,
    table: Map<(usize, usize), usize>,
    c: LlState,
    read: Seq<usize>,
    fuel: nat,
) -> (last_read: Seq<usize>)
    requires
        heads_expandable(g),
        table_sound(g, table),
        derives_state(g, c, read),
        settled(g, c.input),
        ll_run(g, table, c, fuel) is Some,
    ensures
        derives_state(g, ll_run(g, table, c, fuel)->0, last_read),
        last_read + ll_run(g, table, c, fuel)->0.input == read + c.input,
    decreases fuel,
{
    if ll_halted(table, c) {
        read
    } else {
        let next_read = lemma_ll_step(g, table, c, read);
        lemma_ll_derives(g, table, ll_next(g, table, c), next_read, (fuel - 1) as nat)
    }
}

/// The rules of the LL(1) table are rules for the heads of their cells.
pub proof fn lemma_ll_map_sound(g: GrammarView, ignored: Set<usize>)
    requires
        g.rules.len() <= usize::MAX,
    ensures
        table_sound(g, ll_map(g, ignored)),
{
    let table = ll_map(g, ignored);
    let all = g.rules.len() as int;
    assert forall|k: (usize, usize)| #[trigger] table.contains_key(k) implies table[k]
        < g.rules.len() && g.rules[table[k] as int].head == k.0 by {
        assert(offered(g, ignored, all, k.0, k.1));
        let r = choose|r: int| r < all && #[trigger] offers(g, ignored, k.0, k.1, r);
        let first = lemma_first_offer(g, ignored, all, k.0, k.1, r);
        let chosen = choose|q: int| first_offer(g, ignored, all, k.0, k.1, q);
        assert(first_offer(g, ignored, all, k.0, k.1, chosen));
    }
}

/// Replaying the rules that the LL(1) parser emits as a leftmost
/// derivation from the start marker gives the input that the parser has
/// read, followed by the symbols that are left on its stack: for an input
/// that is accepted in full, the input between its two end markers.
///
/// The heads of the rules are nonterminals, but for the start marker, the
/// tokens stand for symbols that are neither, and the rules can be counted.
pub proof fn lemma_ll_round_trip(g: GrammarView, tokens: Seq<Token>, fuel: nat)
    requires
        g.valid(),
        g.rules.len() <= usize::MAX,
        heads_expandable(g),
        settled(g, symbols_of(tokens)),
        ll_run(g, ll_map(g, Set::empty()), ll_start(tokens), fuel) is Some,
    ensures
        ({
            let end = ll_run(g, ll_map(g, Set::empty()), ll_start(tokens), fuel)->0;
            let input = seq![END] + symbols_of(tokens) + seq![END];
            &&& end.input.len() <= input.len()
            &&& replay(g, seq![START], end.rules) == Some(
                input.subrange(0, input.len() - end.input.len()) + turned(end.stack),
            )
            &&& end.stack.len() == 0 && end.input.len() == 0 ==> replay(
                g,
                seq![START],
                end.rules,
            ) == Some(input)
        }),
{
    let table = ll_map(g, Set::empty());
    let start = ll_start(tokens);
    let input = seq![END] + symbols_of(tokens) + seq![END];
    lemma_ll_map_sound(g, Set::empty());
    assert(turned(start.stack) =~= seq![START]) by {
        assert(start.stack.drop_last() =~= Seq::<usize>::empty());
        reveal_with_fuel(turned, 2);
    }
    assert(Seq::<usize>::empty() + turned(start.stack) =~= seq![START]);
    assert(derives_state(g, start, Seq::empty()));
    assert forall|i: int| 0 <= i < input.len() implies !expandable(g, #[trigger] input[i]) by {
        if 0 < i < input.len() - 1 {
            assert(input[i] == symbols_of(tokens)[i - 1]);
        }
    }
    let read = lemma_ll_derives(g, table, start, Seq::empty(), fuel);
    let end = ll_run(g, table, start, fuel)->0;
    assert(read + end.input =~= input);
    assert(read =~= input.subrange(0, input.len() - end.input.len()));
    if end.stack.len() == 0 && end.input.len() == 0 {
        assert(read + turned(end.stack) =~= input);
    }
}

/// The index of the last symbol that can be replaced; -1 where there is
/// none.
pub open spec fn rightmost(g: GrammarView, form: Seq<usize>) -> int
    decreases form.len(),
{
    if form.len() == 0 {
        -1
    } else if expandable(g, form.last()) {
        form.len() - 1
    } else {
        rightmost(g, form.drop_last())
    }
}

/// One step of a rightmost derivation: the last symbol that can be
/// replaced is the head of the rule, and is replaced with its body.
pub open spec fn expand_right(g: GrammarView, form: Seq<usize>, rule: usize) -> Option<Seq<usize>> {
    let at = rightmost(g, form);
    if rule < g.rules.len() && 0 <= at && form[at] == g.rules[rule as int].head {
        Some(form.subrange(0, at) + plain(g.rules[rule as int].body) + form.subrange(
            at + 1,
            form.len() as int,
        ))
    } else {
        None
    }
}

/// What the rules derive from the form, each applied as a step of a
/// rightmost derivation, the first rule first; `None` where one of them
/// cannot be applied.
pub open spec fn replay_right(g: GrammarView, form: Seq<usize>, rules: Seq<usize>) -> Option<
    Seq<usize>,
>
    decreases rules.len(),
{
    if rules.len() == 0 {
        Some(form)
    } else {
        match expand_right(g, form, rules[0]) {
            Some(next) => replay_right(g, next, rules.drop_first()),
            None => None,
        }
    }
}

/// The symbols of the entries of an LR(1) stack.
pub open spec fn stacked(stack: Seq<(usize, usize)>) -> Seq<usize> {
    stack.map_values(|entry: (usize, usize)| entry.0)
}

/// Every rule of the table is a rule of the grammar.
pub open spec fn actions_sound(g: GrammarView, action: Map<(usize, usize), Action>) -> bool {
    forall|k: (usize, usize)| #[trigger]
        action.contains_key(k) ==> match action[k] {
            Action::Shift(_) => true,
            Action::Reduce(rule) => rule < g.rules.len(),
            Action::Accept(rule) => rule < g.rules.len(),
        }
}

/// The reductions of the parse, the last one first, derive the input from
/// what is on its stack above the start marker, followed by the input that
/// is left.
pub open spec fn reduces_state(g: GrammarView, c: LrState, input: Seq<usize>) -> bool {
    &&& c.stack.len() > 0
    &&& c.stack[0].0 == START
    &&& settled(g, c.input)
    &&& replay_right(g, stacked(c.stack).drop_first() + c.input, c.rules.reverse()) == Some(input)
}

/// Before symbols that cannot be replaced, the last symbol that can be
/// replaced is found.
pub proof fn lemma_rightmost(g: GrammarView, before: Seq<usize>, x: usize, rest: Seq<usize>)
    requires
        settled(g, rest),
        expandable(g, x),
    ensures
        rightmost(g, before + seq![x] + rest) == before.len(),
    decreases rest.len(),
{
    let form = before + seq![x] + rest;
    if rest.len() == 0 {
        assert(form.last() == x);
    } else {
        assert(form.last() == rest.last());
        assert(form.drop_last() =~= before + seq![x] + rest.drop_last());
        assert forall|i: int| 0 <= i < rest.drop_last().len() implies !expandable(
            g,
            #[trigger] rest.drop_last()[i],
        ) by {
            assert(rest.drop_last()[i] == rest[i]);
        }
        lemma_rightmost(g, before, x, rest.drop_last());
    }
}

/// The body without ϵ of a body and one more symbol.
pub proof fn lemma_plain_push(body: Seq<usize>, x: usize)
    ensures
        plain(body.push(x)) == plain(body) + (if x != NULL {
            seq![x]
        } else {
            Seq::<usize>::empty()
        }),
    decreases body.len(),
{
    let last = if x != NULL {
        seq![x]
    } else {
        Seq::<usize>::empty()
    };
    if body.len() == 0 {
        assert(body.push(x).drop_first() =~= Seq::<usize>::empty());
        assert(plain(body.push(x)) =~= last) by {
            reveal_with_fuel(plain, 2);
        }
        assert(plain(body) + last =~= last);
    } else {
        assert(body.push(x).drop_first() =~= body.drop_first().push(x));
        lemma_plain_push(body.drop_first(), x);
        let first = if body[0] != NULL {
            seq![body[0]]
        } else {
            Seq::<usize>::empty()
        };
        assert(first + (plain(body.drop_first()) + last) =~= (first + plain(body.drop_first()))
            + last);
    }
}

/// A stack from which symbols were taken held those symbols but ϵ on top
/// of what is left.
pub proof fn lemma_unwind(stack: Seq<(usize, usize)>, symbols: Seq<usize>)
    requires
        unwind(stack, symbols) is Some,
    ensures
        stacked(stack) == stacked(unwind(stack, symbols)->0) + plain(symbols),
    decreases symbols.len(),
{
    if symbols.len() == 0 {
        assert(stacked(stack) + plain(symbols) =~= stacked(stack));
    } else {
        let init = symbols.drop_last();
        assert(symbols =~= init.push(symbols.last()));
        lemma_plain_push(init, symbols.last());
        if symbols.last() == NULL {
            lemma_unwind(stack, init);
            assert(plain(init) + Seq::<usize>::empty() =~= plain(init));
        } else {
            lemma_unwind(stack.drop_last(), init);
            let rest = unwind(stack, symbols)->0;
            assert(stacked(stack) =~= stacked(stack.drop_last()).push(symbols.last()));
            assert(stacked(rest) + (plain(init) + seq![symbols.last()]) =~= (stacked(rest)
                + plain(init)).push(symbols.last()));
        }
    }
}

/// A step of the parse keeps it so that the reductions derive the input.
pub proof fn lemma_lr_step(
    g: GrammarView,
    action: Map<(usize, usize), Action>,
    goto: Map<(usize, usize), usize>,
    c: LrState,
    input: Seq<usize>,
)
    requires
        heads_expandable(g),
        actions_sound(g, action),
        shifts_ok(action),
        reduces_state(g, c, input),
        lr_step(g, action, goto, c) is Go,
    ensures
        reduces_state(g, lr_step(g, action, goto, c)->Go_0, input),
{
    let next = lr_step(g, action, goto, c)->Go_0;
    let key = (c.stack.last().1, lookahead(c.input));
    let form = stacked(c.stack).drop_first() + c.input;
    match action[key] {
        Action::Shift(state) => {
            assert(c.input.len() > 0);
            assert(stacked(next.stack).drop_first() + next.input =~= form);
            assert forall|i: int| 0 <= i < next.input.len() implies !expandable(
                g,
                #[trigger] next.input[i],
            ) by {
                assert(next.input[i] == c.input[i + 1]);
            }
        },
        Action::Reduce(rule) => {
            let body = g.rules[rule as int].body;
            let head = g.rules[rule as int].head;
            let rest = unwind(c.stack, body)->0;
            lemma_unwind(c.stack, body);
            let below = stacked(rest).drop_first();
            let after = stacked(next.stack).drop_first() + next.input;
            assert(stacked(rest)[0] == stacked(c.stack)[0]);
            assert(after =~= below + seq![head] + c.input);
            lemma_rightmost(g, below, head, c.input);
            assert(after.subrange(0, below.len() as int) =~= below);
            assert(after.subrange(below.len() as int + 1, after.len() as int) =~= c.input);
            assert(below + plain(body) + c.input =~= form);
            assert(next.rules.reverse() =~= seq![rule] + c.rules.reverse());
            assert(next.rules.reverse().drop_first() =~= c.rules.reverse());
        },
        Action::Accept(_) => {},
    }
}

/// The reductions of an accepted input, the last one first, are a
/// rightmost derivation of what is left on the stack and of the input.
pub proof fn lemma_lr_derives(
    g: GrammarView,
    action: Map<(usize, usize), Action>,
    goto: Map<(usize, usize), usize>,
    c: LrState,
    input: Seq<usize>,
    fuel: nat,
)
    requires
        g.valid(),
        heads_expandable(g),
        actions_sound(g, action),
        shifts_ok(action),
        reduces_state(g, c, input),
        lr_run(g, action, goto, c, fuel) matches Some(LrEnd::Accepted(end)) && end.stack.len() == 0
            && end.input.len() == 0,
    ensures
        lr_run(g, action, goto, c, fuel) matches Some(LrEnd::Accepted(end)) && replay_right(
            g,
            seq![START],
            end.rules.reverse(),
        ) == Some(input),
    decreases fuel,
{
    match lr_step(g, action, goto, c) {
        LrStep::Go(next) => {
            lemma_lr_step(g, action, goto, c, input);
            lemma_lr_derives(g, action, goto, next, input, (fuel - 1) as nat);
        },
        LrStep::Stop(stop) => {
            let key = (c.stack.last().1, lookahead(c.input));
            let rule = action[key]->Accept_0;
            let body = g.rules[rule as int].body;
            let head = g.rules[rule as int].head;
            let end = stop->Accepted_0;
            let all = seq![head] + body;
            assert(action.contains_key(key));
            assert(unwind(c.stack, all) == Some(end.stack));
            lemma_unwind(c.stack, all);
            assert(all.drop_first() =~= body);
            assert(all[0] == head);
            assert(expandable(g, head));
            assert(head != NULL);
            assert(plain(all) =~= seq![head] + plain(body));
            assert(stacked(end.stack) =~= Seq::<usize>::empty());
            assert(stacked(c.stack) =~= seq![head] + plain(body));
            assert(stacked(c.stack)[0] == c.stack[0].0);
            assert((seq![head] + plain(body))[0] == head);
            assert(head == START);
            assert(stacked(c.stack).drop_first() =~= plain(body));
            assert(plain(body) + c.input =~= plain(body));
            let start = seq![START];
            assert(start.drop_last() =~= Seq::<usize>::empty());
            assert(rightmost(g, start) == 0);
            assert(start.subrange(0, 0) + plain(body) + start.subrange(1, 1) =~= plain(body));
            assert(end.rules.reverse() =~= seq![rule] + c.rules.reverse());
            assert(end.rules.reverse().drop_first() =~= c.rules.reverse());
        },
    }
}

/// Replaying the rules that the LR(1) parser returns for an input that it
/// accepts in full as a rightmost derivation from the start marker gives the
/// input between its two end markers.
///
/// The heads of the rules are nonterminals, but for the start marker, the
/// tokens stand for symbols that are neither, the actions name rules of
/// the grammar, and no cell for ϵ holds a shift.
pub proof fn lemma_lr_round_trip(
    g: GrammarView,
    action: Map<(usize, usize), Action>,
    goto: Map<(usize, usize), usize>,
    tokens: Seq<Token>,
    fuel: nat,
)
    requires
        g.valid(),
        heads_expandable(g),
        actions_sound(g, action),
        shifts_ok(action),
        settled(g, symbols_of(tokens)),
        lr_run(g, action, goto, lr_start(tokens), fuel) matches Some(LrEnd::Accepted(end))
            && end.stack.len() == 0 && end.input.len() == 0,
    ensures
        lr_run(g, action, goto, lr_start(tokens), fuel) matches Some(LrEnd::Accepted(end))
            && replay_right(g, seq![START], end.rules.reverse()) == Some(
            seq![END] + symbols_of(tokens) + seq![END],
        ),
{
    let start = lr_start(tokens);
    let input = seq![END] + symbols_of(tokens) + seq![END];
    assert forall|i: int| 0 <= i < input.len() implies !expandable(g, #[trigger] input[i]) by {
        if 0 < i < input.len() - 1 {
            assert(input[i] == symbols_of(tokens)[i - 1]);
        }
    }
    assert(stacked(start.stack).drop_first() =~= Seq::<usize>::empty());
    assert(stacked(start.stack).drop_first() + start.input =~= input);
    assert(start.rules.reverse() =~= Seq::<usize>::empty());
    lemma_lr_derives(g, action, goto, start, input, fuel);
}

} // verus!
