//! The LL(1) parse of no tokens: it is accepted exactly where the start
//! symbol derives the empty sequence.

use crate::analysis::{
    first_closed, first_fires, first_pairs, in_first, in_first_seq, in_follow,
    lemma_first_of_terminal, lemma_first_step, lemma_follow_laws, prefix_nullable, GrammarView,
};
use crate::derivation::lemma_ll_map_sound;
use crate::ll::{ll_halted, ll_next, ll_outcome, ll_run, ll_start, unstacked, verdict, LlState};
use crate::lllrtables::conflict_free;
use crate::lltable::{clash, first_offer, ll_map, offered, offers, selects};
use crate::parser::{symbols_of, Error};
use crate::symbol::{END, NULL, START};
use crate::token::Token;
use vstd::prelude::*;

verus! {

/// Every rule but the first has a nonterminal as its head.
pub open spec fn proper(g: GrammarView) -> bool {
    forall|r: int| 0 < r < g.rules.len() ==> g.is_nonterminal((#[trigger] g.rules[r]).head)
}

/// Every symbol of the sequence has ϵ in its FIRST set.
pub open spec fn all_nullable(g: GrammarView, symbols: Seq<usize>) -> bool {
    forall|i: int| 0 <= i < symbols.len() ==> in_first(g, #[trigger] symbols[i], NULL)
}

/// What a rule body puts on the stack holds every symbol of the body but ϵ.
pub proof fn lemma_unstacked_holds(body: Seq<usize>, i: int)
    requires
        0 <= i < body.len(),
        body[i] != NULL,
    ensures
        unstacked(body).contains(body[i]),
    decreases body.len(),
{
    let rest = unstacked(body.drop_first());
    let first = if body[0] != NULL {
        seq![body[0]]
    } else {
        Seq::<usize>::empty()
    };
    assert(unstacked(body) == rest + first);
    if i == 0 {
        assert((rest + first)[rest.len() as int] == body[0]);
    } else {
        lemma_unstacked_holds(body.drop_first(), i - 1);
        let m = choose|m: int| 0 <= m < rest.len() && rest[m] == body.drop_first()[i - 1];
        assert((rest + first)[m] == body[i]);
    }
}

/// A parse with the end marker as the one symbol of its input, and at the
/// bottom of its stack, that ends with an empty stack has taken symbols with
/// ϵ in their FIRST sets from above the bottom.
pub proof fn lemma_emptied(g: GrammarView, c: LlState, fuel: nat)
    requires
        g.valid(),
        g.rules.len() <= usize::MAX,
        proper(g),
        c.stack.len() >= 1,
        c.stack[0] == END,
        c.input == seq![END],
        ll_run(g, ll_map(g, Set::empty()), c, fuel) is Some,
        ll_run(g, ll_map(g, Set::empty()), c, fuel)->0.stack.len() == 0,
    ensures
        all_nullable(g, c.stack.subrange(1, c.stack.len() as int)),
    decreases fuel,
{
    let table = ll_map(g, Set::empty());
    lemma_ll_map_sound(g, Set::empty());
    if c.stack.len() > 1 {
        let x = c.stack.last();
        let key = (x, END);
        assert(c.input[0] == END);
        if !ll_halted(table, c) {
            assert(fuel > 0);
            let next = ll_next(g, table, c);
            let front = c.stack.drop_last();
            if table.contains_key(key) {
                let r = table[key] as int;
                let body = g.rules[r].body;
                assert(next.stack == front + unstacked(body));
                assert(next.stack[0] == END);
                lemma_emptied(g, next, (fuel - 1) as nat);
                let above = next.stack.subrange(1, next.stack.len() as int);
                assert forall|j: int| 0 <= j < body.len() implies first_pairs(g).contains(
                    (#[trigger] body[j], NULL),
                ) by {
                    if body[j] == NULL {
                        lemma_first_of_terminal(g, NULL, NULL);
                    } else {
                        lemma_unstacked_holds(body, j);
                        let m = choose|m: int|
                            0 <= m < unstacked(body).len() && unstacked(body)[m] == body[j];
                        assert(above[front.len() - 1 + m] == body[j]);
                    }
                }
                assert(prefix_nullable(first_pairs(g), body, body.len() as int));
                assert(g.rules[r].head == x);
                if r == 0 {
                    assert(body[0] == END);
                    lemma_first_of_terminal(g, END, NULL);
                    assert(false);
                }
                assert(g.is_nonterminal(x));
                assert(first_fires(g, first_pairs(g), r, body.len() as int, NULL));
                lemma_first_step(g, first_pairs(g), r, body.len() as int, NULL);
                assert forall|i: int| 0 <= i < c.stack.len() - 1 implies in_first(
                    g,
                    #[trigger] c.stack.subrange(1, c.stack.len() as int)[i],
                    NULL,
                ) by {
                    if i < front.len() - 1 {
                        assert(above[i] == c.stack[i + 1]);
                    }
                }
            } else {
                assert(next.stack == front);
                assert(next.input =~= Seq::<usize>::empty());
                assert(ll_halted(table, next));
                assert(false);
            }
        } else {
            assert(false);
        }
    }
}

/// The symbol derives the empty sequence within `n` levels of rules: it is
/// ϵ, or a nonterminal with a rule whose body holds only symbols that derive
/// the empty sequence within one level less.
pub open spec fn fades(g: GrammarView, x: usize, n: nat) -> bool
    decreases n,
{
    x == NULL || (n > 0 && g.is_nonterminal(x) && exists|r: int|
        0 <= r < g.rules.len() && (#[trigger] g.rules[r]).head == x && forall|i: int|
            0 <= i < g.rules[r].body.len() ==> fades(
                g,
                #[trigger] g.rules[r].body[i],
                (n - 1) as nat,
            ))
}

/// What derives the empty sequence within some levels does so within more.
pub proof fn lemma_fades_more(g: GrammarView, x: usize, n: nat, m: nat)
    requires
        fades(g, x, n),
        n <= m,
    ensures
        fades(g, x, m),
    decreases n,
{
    if x != NULL {
        let r = choose|r: int|
            0 <= r < g.rules.len() && (#[trigger] g.rules[r]).head == x && forall|i: int|
                0 <= i < g.rules[r].body.len() ==> fades(
                    g,
                    #[trigger] g.rules[r].body[i],
                    (n - 1) as nat,
                );
        assert forall|i: int| 0 <= i < g.rules[r].body.len() implies fades(
            g,
            #[trigger] g.rules[r].body[i],
            (m - 1) as nat,
        ) by {
            lemma_fades_more(g, g.rules[r].body[i], (n - 1) as nat, (m - 1) as nat);
        }
    }
}

/// What derives the empty sequence has ϵ in its FIRST set.
pub proof fn lemma_fades_nullable(g: GrammarView, x: usize, n: nat)
    requires
        g.valid(),
        fades(g, x, n),
    ensures
        in_first(g, x, NULL),
    decreases n,
{
    if x == NULL {
        lemma_first_of_terminal(g, NULL, NULL);
    } else {
        let r = choose|r: int|
            0 <= r < g.rules.len() && (#[trigger] g.rules[r]).head == x && forall|i: int|
                0 <= i < g.rules[r].body.len() ==> fades(
                    g,
                    #[trigger] g.rules[r].body[i],
                    (n - 1) as nat,
                );
        let body = g.rules[r].body;
        assert forall|j: int| 0 <= j < body.len() implies first_pairs(g).contains(
            (#[trigger] body[j], NULL),
        ) by {
            lemma_fades_nullable(g, body[j], (n - 1) as nat);
        }
        assert(first_fires(g, first_pairs(g), r, body.len() as int, NULL));
        lemma_first_step(g, first_pairs(g), r, body.len() as int, NULL);
    }
}

/// The symbol derives the empty sequence within some number of levels.
pub open spec fn fades_at_all(g: GrammarView, x: usize) -> bool {
    exists|n: nat| fades(g, x, n)
}

/// The first symbols of a body, each of which derives the empty sequence,
/// do so within a common number of levels.
pub proof fn lemma_common(g: GrammarView, body: Seq<usize>, k: int) -> (n: nat)
    requires
        0 <= k <= body.len(),
        forall|j: int| 0 <= j < k ==> fades_at_all(g, #[trigger] body[j]),
    ensures
        forall|j: int| 0 <= j < k ==> fades(g, #[trigger] body[j], n),
    decreases k,
{
    if k == 0 {
        0
    } else {
        let before = lemma_common(g, body, k - 1);
        let y = body[k - 1];
        assert(fades_at_all(g, y));
        let last = choose|n: nat| fades(g, y, n);
        let n = if before <= last {
            last
        } else {
            before
        };
        assert forall|j: int| 0 <= j < k implies fades(g, #[trigger] body[j], n) by {
            if j < k - 1 {
                lemma_fades_more(g, body[j], before, n);
            } else {
                lemma_fades_more(g, body[j], last, n);
            }
        }
        n
    }
}

/// What has ϵ in its FIRST set derives the empty sequence.
pub proof fn lemma_nullable_fades(g: GrammarView, x: usize) -> (n: nat)
    requires
        g.valid(),
        in_first(g, x, NULL),
    ensures
        fades(g, x, n),
{
    let f = Set::new(|p: (usize, usize)| p.1 != NULL || fades_at_all(g, p.0));
    assert(first_closed(g, f)) by {
        assert forall|y: usize| g.is_terminal(y) implies #[trigger] f.contains((y, y)) by {
            if y == NULL {
                assert(fades(g, NULL, 0));
            }
        }
        assert forall|r: int, i: int, t: usize| #[trigger] first_fires(g, f, r, i, t) implies f.contains(
            (g.rules[r].head, t),
        ) by {
            if t == NULL {
                let body = g.rules[r].body;
                assert forall|j: int| 0 <= j < body.len() implies fades_at_all(
                    g,
                    #[trigger] body[j],
                ) by {
                    assert(f.contains((body[j], NULL)));
                }
                let n = lemma_common(g, body, body.len() as int);
                assert(fades(g, g.rules[r].head, n + 1));
            }
        }
    }
    assert(f.contains((x, NULL)));
    choose|n: nat| fades(g, x, n)
}

/// The parse from `c` comes to `d` in `k` steps: it stops where the parse
/// from `d` stops, `k` steps later.
pub open spec fn reaches(g: GrammarView, c: LlState, d: LlState, k: nat) -> bool {
    forall|fuel: nat|
        ll_run(g, ll_map(g, Set::empty()), c, fuel + k) == #[trigger] ll_run(
            g,
            ll_map(g, Set::empty()),
            d,
            fuel,
        )
}

/// A parse that comes from `c` to `d` and from `d` to `e` comes from `c` to
/// `e`.
pub proof fn lemma_reaches_on(
    g: GrammarView,
    c: LlState,
    d: LlState,
    e: LlState,
    k: nat,
    m: nat,
)
    requires
        reaches(g, c, d, k),
        reaches(g, d, e, m),
    ensures
        reaches(g, c, e, k + m),
{
    let table = ll_map(g, Set::empty());
    assert forall|fuel: nat|
        ll_run(g, table, c, fuel + (k + m)) == #[trigger] ll_run(g, table, e, fuel) by {
        assert(ll_run(g, table, d, fuel + m) == ll_run(g, table, e, fuel));
        assert(ll_run(g, table, c, (fuel + m) + k) == ll_run(g, table, d, fuel + m));
        assert(fuel + (k + m) == (fuel + m) + k);
    }
}

/// A parse that goes on comes to its next state in one step.
pub proof fn lemma_reaches_next(g: GrammarView, c: LlState)
    requires
        !ll_halted(ll_map(g, Set::empty()), c),
    ensures
        reaches(g, c, ll_next(g, ll_map(g, Set::empty()), c), 1),
{
    let table = ll_map(g, Set::empty());
    assert forall|fuel: nat|
        ll_run(g, table, c, fuel + 1) == #[trigger] ll_run(
            g,
            table,
            ll_next(g, table, c),
            fuel,
        ) by {
        assert((fuel + 1 - 1) as nat == fuel);
    }
}

/// Before the end marker, a symbol on top of the stack that derives the
/// empty sequence, and that the end marker can follow, is taken from the
/// stack, and the input stays as it is.
pub proof fn lemma_skip(g: GrammarView, c: LlState, n: nat) -> (end: (LlState, nat))
    requires
        g.valid(),
        g.rules.len() <= usize::MAX,
        conflict_free(g),
        c.stack.len() > 0,
        c.input.len() > 0,
        c.input[0] == END,
        c.stack.last() != NULL,
        fades(g, c.stack.last(), n),
        in_follow(g, c.stack.last(), END),
    ensures
        reaches(g, c, end.0, end.1),
        end.0.stack == c.stack.drop_last(),
        end.0.input == c.input,
    decreases n, 0nat,
{
    let table = ll_map(g, Set::empty());
    let none = Set::<usize>::empty();
    let all = g.rules.len() as int;
    let x = c.stack.last();
    let r = choose|r: int|
        0 <= r < g.rules.len() && (#[trigger] g.rules[r]).head == x && forall|i: int|
            0 <= i < g.rules[r].body.len() ==> fades(
                g,
                #[trigger] g.rules[r].body[i],
                (n - 1) as nat,
            );
    let body = g.rules[r].body;
    assert(g.rules[r].valid_in(r, g.symbols.len()));
    assert forall|j: int| 0 <= j < body.len() implies first_pairs(g).contains(
        (#[trigger] body[j], NULL),
    ) by {
        lemma_fades_nullable(g, body[j], (n - 1) as nat);
    }
    assert(in_first_seq(g, body, NULL));
    assert(selects(g, r, END));
    assert(offers(g, none, x, END, r));
    assert(offered(g, none, all, x, END));
    let key = (x, END);
    assert(table.contains_key(key));
    let first = crate::lltable::lemma_first_offer(g, none, all, x, END, r);
    let chosen = choose|q: int| first_offer(g, none, all, x, END, q);
    assert(first_offer(g, none, all, x, END, chosen));
    assert(table[key] == chosen as usize);
    if chosen != r {
        if chosen < r {
            assert(0 <= chosen < r < all && offers(g, none, x, END, chosen) && offers(
                g,
                none,
                x,
                END,
                r,
            ));
        } else {
            assert(0 <= r < chosen < all && offers(g, none, x, END, r) && offers(
                g,
                none,
                x,
                END,
                chosen,
            ));
        }
        assert(clash(g, none, all, x));
        assert(false);
    }
    assert(!ll_halted(table, c));
    let next = ll_next(g, table, c);
    lemma_reaches_next(g, c);
    assert(body.subrange(0, body.len() as int) =~= body);
    let (d, k) = lemma_skip_body(g, next, c.stack.drop_last(), r, 0, (n - 1) as nat);
    lemma_reaches_on(g, c, next, d, 1, k);
    (d, 1 + k)
}

/// Before the end marker, what is left on the stack of the body of a rule
/// whose symbols derive the empty sequence is taken from the stack, and the
/// input stays as it is.
pub proof fn lemma_skip_body(
    g: GrammarView,
    c: LlState,
    base: Seq<usize>,
    r: int,
    j: int,
    n: nat,
) -> (end: (LlState, nat))
    requires
        g.valid(),
        g.rules.len() <= usize::MAX,
        conflict_free(g),
        0 <= r < g.rules.len(),
        0 <= j <= g.rules[r].body.len(),
        c.stack == base + unstacked(g.rules[r].body.subrange(j, g.rules[r].body.len() as int)),
        c.input.len() > 0,
        c.input[0] == END,
        forall|i: int| 0 <= i < g.rules[r].body.len() ==> fades(g, #[trigger] g.rules[r].body[i], n),
        in_follow(g, g.rules[r].head, END),
    ensures
        reaches(g, c, end.0, end.1),
        end.0.stack == base,
        end.0.input == c.input,
    decreases n, 1 + g.rules[r].body.len() - j,
{
    let table = ll_map(g, Set::empty());
    let body = g.rules[r].body;
    let len = body.len() as int;
    let rest = body.subrange(j, len);
    if j == len {
        assert(unstacked(rest) =~= Seq::<usize>::empty());
        assert(c.stack =~= base);
        assert(reaches(g, c, c, 0)) by {
            assert forall|fuel: nat|
                ll_run(g, table, c, fuel + 0) == #[trigger] ll_run(g, table, c, fuel) by {}
        }
        (c, 0)
    } else {
        let after = body.subrange(j + 1, len);
        assert(rest.drop_first() =~= after);
        assert(rest[0] == body[j]);
        if body[j] == NULL {
            assert(unstacked(rest) =~= unstacked(after));
            lemma_skip_body(g, c, base, r, j + 1, n)
        } else {
            assert(unstacked(rest) == unstacked(after) + seq![body[j]]);
            assert(c.stack.last() == body[j]);
            assert(c.stack.drop_last() =~= base + unstacked(after));
            assert(fades(g, body[j], n));
            assert(g.is_nonterminal(body[j]));
            assert forall|i: int| 0 <= i < after.len() implies first_pairs(g).contains(
                (#[trigger] after[i], NULL),
            ) by {
                assert(after[i] == body[j + 1 + i]);
                lemma_fades_nullable(g, body[j + 1 + i], n);
            }
            lemma_follow_laws(g, r, j, END);
            let (d, k) = lemma_skip(g, c, n);
            let (e, m) = lemma_skip_body(g, d, base, r, j + 1, n);
            lemma_reaches_on(g, c, d, e, k, m);
            (e, k + m)
        }
    }
}

/// Where a parse stops does not depend on the steps that it is given.
pub proof fn lemma_run_more(g: GrammarView, c: LlState, fuel: nat, more: nat)
    requires
        ll_run(g, ll_map(g, Set::empty()), c, fuel) is Some,
    ensures
        ll_run(g, ll_map(g, Set::empty()), c, fuel + more) == ll_run(
            g,
            ll_map(g, Set::empty()),
            c,
            fuel,
        ),
    decreases fuel,
{
    let table = ll_map(g, Set::empty());
    if !ll_halted(table, c) {
        lemma_run_more(g, ll_next(g, table, c), (fuel - 1) as nat, more);
        assert((fuel + more - 1) as nat == (fuel - 1) as nat + more);
    }
}

/// With no tokens the LL(1) parser of a grammar without conflict returns
/// rules exactly where the start symbol has ϵ in its FIRST set: where it
/// derives the empty sequence.
pub proof fn lemma_no_tokens(g: GrammarView, result: Result<Vec<usize>, Error>)
    requires
        g.valid(),
        g.rules.len() <= usize::MAX,
        proper(g),
        conflict_free(g),
        ll_outcome(g, Seq::<Token>::empty(), result),
    ensures
        result is Ok <==> in_first(g, g.start, NULL),
{
    let table = ll_map(g, Set::empty());
    let none = Set::<usize>::empty();
    let all = g.rules.len() as int;
    let tokens = Seq::<Token>::empty();
    let c0 = ll_start(tokens);
    assert(symbols_of(tokens) =~= Seq::<usize>::empty());
    assert(c0.input =~= seq![END, END]);
    lemma_ll_map_sound(g, none);
    // The first step puts the body of the first rule on the stack.
    let body = g.rules[0].body;
    lemma_first_of_terminal(g, END, END);
    assert(in_first_seq(g, body, END)) by {
        assert(prefix_nullable(first_pairs(g), body, 0));
        assert(in_first(g, body[0], END));
    }
    assert(offers(g, none, START, END, 0));
    assert(offered(g, none, all, START, END));
    let chosen = choose|q: int| first_offer(g, none, all, START, END, q);
    let first = crate::lltable::lemma_first_offer(g, none, all, START, END, 0);
    assert(first_offer(g, none, all, START, END, chosen));
    assert(chosen == 0);
    assert(table[(START, END)] == 0);
    let c1 = ll_next(g, table, c0);
    assert(unstacked(body) =~= seq![END, g.start, END]) by {
        let a = body.drop_first();
        let b = a.drop_first();
        let e = b.drop_first();
        assert(a =~= seq![g.start, END]);
        assert(b =~= seq![END]);
        assert(e =~= Seq::<usize>::empty());
        assert(unstacked(e) =~= Seq::<usize>::empty());
        assert(unstacked(b) =~= seq![END]);
        assert(g.start != NULL);
        assert(unstacked(a) =~= seq![END, g.start]);
    }
    assert(c0.stack.drop_last() =~= Seq::<usize>::empty());
    assert(c1.stack =~= seq![END, g.start, END]);
    assert(!ll_halted(table, c0));
    lemma_reaches_next(g, c0);
    // The second step takes the end markers away.
    assert(!table.contains_key((END, END))) by {
        if table.contains_key((END, END)) {
            let r = table[(END, END)] as int;
            assert(g.rules[r].head == END);
            if r > 0 {
                assert(g.is_nonterminal(g.rules[r].head));
            }
        }
    }
    assert(!ll_halted(table, c1));
    let c2 = ll_next(g, table, c1);
    assert(c2.stack =~= seq![END, g.start]);
    assert(c2.input =~= seq![END]);
    lemma_reaches_next(g, c1);
    lemma_reaches_on(g, c0, c1, c2, 1, 1);
    let fuel = choose|fuel: nat|
        (#[trigger] ll_run(g, table, c0, fuel)) matches Some(c) && verdict(
            g.symbols,
            tokens,
            c.stack.len() == 0,
            c.input,
            c.rules,
            result,
        );
    let end = ll_run(g, table, c0, fuel)->0;
    if in_first(g, g.start, NULL) {
        let n = lemma_nullable_fades(g, g.start);
        assert(g.rules[0].body[1] == g.start);
        lemma_follow_laws(g, 0, 1, END);
        let (d, k) = lemma_skip(g, c2, n);
        assert(d.stack =~= seq![END]);
        assert(!ll_halted(table, d));
        let e = ll_next(g, table, d);
        assert(e.stack =~= Seq::<usize>::empty());
        lemma_reaches_next(g, d);
        lemma_reaches_on(g, c0, c2, d, 2, k);
        lemma_reaches_on(g, c0, d, e, 2 + k, 1);
        assert(ll_halted(table, e));
        assert(ll_run(g, table, e, 0) == Some(e));
        assert(ll_run(g, table, c0, 0 + (2 + k + 1)) == ll_run(g, table, e, 0));
        lemma_run_more(g, c0, 2 + k + 1, fuel);
        lemma_run_more(g, c0, fuel, 2 + k + 1);
        assert(end == e);
        assert(e.input =~= Seq::<usize>::empty());
        assert(result is Ok);
    }
    if result is Ok {
        assert(end.stack.len() == 0);
        assert(fuel >= 2 && ll_run(g, table, c2, (fuel - 2) as nat) == Some(end)) by {
            assert(ll_run(g, table, c0, fuel) == ll_run(g, table, c1, (fuel - 1) as nat));
            assert(fuel >= 1);
            assert(ll_run(g, table, c1, (fuel - 1) as nat) == ll_run(
                g,
                table,
                c2,
                (fuel - 2) as nat,
            ));
        }
        lemma_emptied(g, c2, (fuel - 2) as nat);
        let above = c2.stack.subrange(1, c2.stack.len() as int);
        assert(above[0] == g.start);
    }
}

} // verus!
