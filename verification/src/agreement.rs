//! Leftmost and rightmost derivations of one input: what is derived
//! rightmost is derived leftmost with the same rules, each as often, and the
//! LL(1) parser emits the one leftmost derivation of its input.

use crate::action::Action;
use crate::analysis::{
    first_fires, first_pairs, in_first, in_first_seq, in_follow, lemma_first_of_terminal,
    lemma_first_step, lemma_follow_laws, prefix_nullable, GrammarView,
};
use crate::derivation::{
    actions_sound, lemma_ll_map_sound, lemma_lr_round_trip, lemma_turned_body, lemma_turned_concat,
    turned,
};
use crate::empty::{lemma_reaches_next, lemma_reaches_on, lemma_run_more, proper, reaches};
use crate::ll::{ll_halted, ll_next, ll_outcome, ll_run, ll_start, unstacked, verdict, LlState};
use crate::lllrtables::conflict_free;
use crate::lltable::{clash, first_offer, lemma_first_offer, ll_map, offered, offers, selects};
use crate::automaton::Automaton;
use crate::lr::{lookahead, lr_outcome, lr_run, lr_start, lr_step, lr_verdict, LrEnd, LrState, LrStep};
use crate::tables::shiftable;
use crate::parser::{symbols_of, Error};
use crate::symbol::{END, NULL, START};
use crate::tables::shifts_ok;
use crate::token::Token;
use crate::derivation::{
    expand, expand_right, expandable, heads_expandable, leftmost, plain, replay, replay_right,
    rightmost, settled,
};
use vstd::prelude::*;
use vstd::seq_lib::lemma_multiset_commutative;

verus! {

/// What the rules derive from the form, each applied as a step of a
/// leftmost derivation, the first rule first; `None` where one of them
/// cannot be applied.
pub open spec fn unfold(g: GrammarView, form: Seq<usize>, rules: Seq<usize>) -> Option<Seq<usize>>
    decreases rules.len(),
{
    if rules.len() == 0 {
        Some(form)
    } else {
        match expand(g, form, rules[0]) {
            Some(next) => unfold(g, next, rules.drop_first()),
            None => None,
        }
    }
}

/// The last rule of a leftmost derivation is applied to what the rules
/// before it derive.
pub proof fn lemma_unfold_last(g: GrammarView, form: Seq<usize>, rules: Seq<usize>)
    requires
        rules.len() > 0,
    ensures
        unfold(g, form, rules) == match unfold(g, form, rules.drop_last()) {
            Some(derived) => expand(g, derived, rules.last()),
            None => None,
        },
    decreases rules.len(),
{
    if rules.len() == 1 {
        assert(rules.drop_last() =~= Seq::<usize>::empty());
        assert(rules.drop_first() =~= Seq::<usize>::empty());
        assert(rules[0] == rules.last());
        match expand(g, form, rules[0]) {
            Some(next) => {
                assert(unfold(g, next, rules.drop_first()) == Some(next));
            },
            None => {},
        }
    } else {
        let front = rules.drop_last();
        assert(front[0] == rules[0]);
        assert(front.drop_first() =~= rules.drop_first().drop_last());
        assert(rules.drop_first().last() == rules.last());
        match expand(g, form, rules[0]) {
            Some(next) => {
                lemma_unfold_last(g, next, rules.drop_first());
            },
            None => {},
        }
    }
}

/// A leftmost derivation is the same whether its rules are counted from
/// its start or from its end.
pub proof fn lemma_replay_unfold(g: GrammarView, form: Seq<usize>, rules: Seq<usize>)
    ensures
        replay(g, form, rules) == unfold(g, form, rules),
    decreases rules.len(),
{
    if rules.len() > 0 {
        lemma_replay_unfold(g, form, rules.drop_last());
        lemma_unfold_last(g, form, rules);
    }
}

/// Where the first symbol that can be replaced stands: no symbol before it
/// can be replaced.
pub proof fn lemma_leftmost_is(g: GrammarView, form: Seq<usize>)
    ensures
        0 <= leftmost(g, form) <= form.len(),
        leftmost(g, form) < form.len() ==> expandable(g, form[leftmost(g, form)]),
        forall|i: int| 0 <= i < leftmost(g, form) ==> !expandable(g, #[trigger] form[i]),
    decreases form.len(),
{
    if form.len() > 0 && !expandable(g, form[0]) {
        lemma_leftmost_is(g, form.drop_first());
        assert forall|i: int| 0 <= i < leftmost(g, form) implies !expandable(
            g,
            #[trigger] form[i],
        ) by {
            if i > 0 {
                assert(form.drop_first()[i - 1] == form[i]);
            }
        }
        if leftmost(g, form) < form.len() {
            assert(form.drop_first()[leftmost(g, form) - 1] == form[leftmost(g, form)]);
        }
    }
}

/// Behind symbols that cannot be replaced the first symbol that can be
/// replaced is that of the rest.
pub proof fn lemma_leftmost_behind(g: GrammarView, before: Seq<usize>, rest: Seq<usize>)
    requires
        settled(g, before),
    ensures
        leftmost(g, before + rest) == before.len() + leftmost(g, rest),
    decreases before.len(),
{
    let form = before + rest;
    if before.len() == 0 {
        assert(form =~= rest);
    } else {
        assert(form[0] == before[0]);
        assert(form.drop_first() =~= before.drop_first() + rest);
        assert forall|i: int| 0 <= i < before.drop_first().len() implies !expandable(
            g,
            #[trigger] before.drop_first()[i],
        ) by {
            assert(before.drop_first()[i] == before[i + 1]);
        }
        lemma_leftmost_behind(g, before.drop_first(), rest);
    }
}

/// The first symbol of a form that can be replaced is the first one of the
/// form with more behind it.
pub proof fn lemma_leftmost_before(g: GrammarView, form: Seq<usize>, rest: Seq<usize>)
    requires
        leftmost(g, form) < form.len(),
    ensures
        leftmost(g, form + rest) == leftmost(g, form),
    decreases form.len(),
{
    let all = form + rest;
    assert(all[0] == form[0]);
    if !expandable(g, form[0]) {
        assert(all.drop_first() =~= form.drop_first() + rest);
        lemma_leftmost_before(g, form.drop_first(), rest);
    }
}

/// Behind symbols that cannot be replaced a step of a leftmost derivation
/// is a step on the rest.
pub proof fn lemma_expand_behind(g: GrammarView, before: Seq<usize>, rest: Seq<usize>, rule: usize)
    requires
        settled(g, before),
    ensures
        expand(g, before + rest, rule) == match expand(g, rest, rule) {
            Some(next) => Some(before + next),
            None => None,
        },
{
    lemma_leftmost_behind(g, before, rest);
    lemma_leftmost_is(g, rest);
    let at = leftmost(g, rest);
    let form = before + rest;
    if rule < g.rules.len() && at < rest.len() && rest[at] == g.rules[rule as int].head {
        assert(form[before.len() + at] == rest[at]);
        let body = plain(g.rules[rule as int].body);
        assert(form.subrange(0, before.len() + at) + body + form.subrange(
            before.len() + at + 1,
            form.len() as int,
        ) =~= before + (rest.subrange(0, at) + body + rest.subrange(at + 1, rest.len() as int)));
    } else {
        if at < rest.len() {
            assert(form[before.len() + at] == rest[at]);
        }
    }
}

/// A step of a leftmost derivation on a form with a symbol that can be
/// replaced is the same step with more behind the form.
pub proof fn lemma_expand_before(g: GrammarView, form: Seq<usize>, rest: Seq<usize>, rule: usize)
    requires
        leftmost(g, form) < form.len(),
    ensures
        expand(g, form + rest, rule) == match expand(g, form, rule) {
            Some(next) => Some(next + rest),
            None => None,
        },
{
    lemma_leftmost_before(g, form, rest);
    lemma_leftmost_is(g, form);
    let at = leftmost(g, form);
    let all = form + rest;
    assert(all[at] == form[at]);
    if rule < g.rules.len() && form[at] == g.rules[rule as int].head {
        let body = plain(g.rules[rule as int].body);
        assert(all.subrange(0, at) + body + all.subrange(at + 1, all.len() as int) =~= (
        form.subrange(0, at) + body + form.subrange(at + 1, form.len() as int)) + rest);
    }
}

/// Behind symbols that cannot be replaced a leftmost derivation is one of
/// the rest.
pub proof fn lemma_unfold_behind(
    g: GrammarView,
    before: Seq<usize>,
    rest: Seq<usize>,
    rules: Seq<usize>,
)
    requires
        settled(g, before),
    ensures
        unfold(g, before + rest, rules) == match unfold(g, rest, rules) {
            Some(derived) => Some(before + derived),
            None => None,
        },
    decreases rules.len(),
{
    if rules.len() > 0 {
        lemma_expand_behind(g, before, rest, rules[0]);
        match expand(g, rest, rules[0]) {
            Some(next) => {
                lemma_unfold_behind(g, before, next, rules.drop_first());
            },
            None => {},
        }
    }
}

/// A form without a symbol that can be replaced is derived by no rule.
pub proof fn lemma_unfold_settled(g: GrammarView, form: Seq<usize>, rules: Seq<usize>)
    requires
        settled(g, form),
        unfold(g, form, rules) is Some,
    ensures
        rules.len() == 0,
{
    lemma_leftmost_is(g, form);
    if rules.len() > 0 {
        if leftmost(g, form) < form.len() {
            assert(expandable(g, form[leftmost(g, form)]));
        }
    }
}

/// Two leftmost derivations one after the other: where the first derives
/// symbols that cannot be replaced from a form, the second goes on with what
/// stands behind the form.
pub proof fn lemma_unfold_both(
    g: GrammarView,
    form: Seq<usize>,
    rest: Seq<usize>,
    first: Seq<usize>,
    second: Seq<usize>,
)
    requires
        unfold(g, form, first) is Some,
        settled(g, unfold(g, form, first)->0),
    ensures
        unfold(g, form + rest, first + second) == match unfold(g, rest, second) {
            Some(derived) => Some(unfold(g, form, first)->0 + derived),
            None => None,
        },
    decreases first.len(),
{
    if first.len() == 0 {
        assert(first + second =~= second);
        lemma_unfold_behind(g, form, rest, second);
    } else {
        let rules = first + second;
        assert(rules[0] == first[0]);
        assert(rules.drop_first() =~= first.drop_first() + second);
        let next = expand(g, form, first[0])->0;
        lemma_leftmost_is(g, form);
        lemma_expand_before(g, form, rest, first[0]);
        lemma_unfold_both(g, next, rest, first.drop_first(), second);
    }
}

/// A leftmost derivation of symbols that cannot be replaced from a form
/// with more behind it is a derivation from the form and then one from what
/// is behind it.
pub proof fn lemma_unfold_split(
    g: GrammarView,
    form: Seq<usize>,
    rest: Seq<usize>,
    rules: Seq<usize>,
) -> (parts: (Seq<usize>, Seq<usize>))
    requires
        unfold(g, form + rest, rules) is Some,
        settled(g, unfold(g, form + rest, rules)->0),
    ensures
        rules == parts.0 + parts.1,
        unfold(g, form, parts.0) is Some,
        unfold(g, rest, parts.1) is Some,
        settled(g, unfold(g, form, parts.0)->0),
        unfold(g, form + rest, rules)->0 == unfold(g, form, parts.0)->0 + unfold(
            g,
            rest,
            parts.1,
        )->0,
    decreases rules.len(),
{
    lemma_leftmost_is(g, form);
    if leftmost(g, form) == form.len() {
        assert(settled(g, form));
        lemma_unfold_behind(g, form, rest, rules);
        assert(Seq::<usize>::empty() + rules =~= rules);
        (Seq::empty(), rules)
    } else {
        lemma_leftmost_before(g, form, rest);
        if rules.len() == 0 {
            let all = form + rest;
            assert(all[leftmost(g, form)] == form[leftmost(g, form)]);
            assert(false);
        }
        lemma_expand_before(g, form, rest, rules[0]);
        let next = expand(g, form, rules[0])->0;
        let (first, second) = lemma_unfold_split(g, next, rest, rules.drop_first());
        let head = seq![rules[0]] + first;
        assert(head[0] == rules[0]);
        assert(head.drop_first() =~= first);
        assert(head + second =~= rules) by {
            assert(rules =~= seq![rules[0]] + rules.drop_first());
        }
        (head, second)
    }
}

/// Where the last symbol that can be replaced stands: no symbol behind it
/// can be replaced.
pub proof fn lemma_rightmost_is(g: GrammarView, form: Seq<usize>)
    ensures
        -1 <= rightmost(g, form) < form.len(),
        rightmost(g, form) >= 0 ==> expandable(g, form[rightmost(g, form)]),
        forall|i: int| rightmost(g, form) < i < form.len() ==> !expandable(g, #[trigger] form[i]),
    decreases form.len(),
{
    if form.len() > 0 && !expandable(g, form.last()) {
        lemma_rightmost_is(g, form.drop_last());
        assert forall|i: int| rightmost(g, form) < i < form.len() implies !expandable(
            g,
            #[trigger] form[i],
        ) by {
            if i < form.len() - 1 {
                assert(form.drop_last()[i] == form[i]);
            }
        }
        if rightmost(g, form) >= 0 {
            assert(form.drop_last()[rightmost(g, form)] == form[rightmost(g, form)]);
        }
    }
}

/// What a rightmost derivation derives is derived by a leftmost derivation
/// with the same rules, each as often.
pub proof fn lemma_left_of_right(g: GrammarView, form: Seq<usize>, rules: Seq<usize>) -> (left: Seq<
    usize,
>)
    requires
        heads_expandable(g),
        replay_right(g, form, rules) is Some,
        settled(g, replay_right(g, form, rules)->0),
    ensures
        unfold(g, form, left) == replay_right(g, form, rules),
        left.to_multiset() == rules.to_multiset(),
    decreases rules.len(),
{
    if rules.len() == 0 {
        rules
    } else {
        let rule = rules[0];
        let next = expand_right(g, form, rule)->0;
        let at = rightmost(g, form);
        lemma_rightmost_is(g, form);
        let before = form.subrange(0, at);
        let behind = form.subrange(at + 1, form.len() as int);
        let body = plain(g.rules[rule as int].body);
        assert(next =~= before + (body + behind));
        let rest = lemma_left_of_right(g, next, rules.drop_first());
        let (first, second) = lemma_unfold_split(g, before, body + behind, rest);
        // The step of the rule, and what follows it.
        let here = seq![form[at]] + behind;
        assert(here[0] == form[at]);
        assert(leftmost(g, here) == 0);
        assert(expand(g, here, rule) == Some(body + behind)) by {
            assert(here.subrange(0, 0) + body + here.subrange(1, here.len() as int) =~= body
                + behind);
        }
        let then = seq![rule] + second;
        assert(then[0] == rule);
        assert(then.drop_first() =~= second);
        assert(unfold(g, here, then) == unfold(g, body + behind, second));
        lemma_unfold_both(g, before, here, first, then);
        assert(before + here =~= form);
        let left = first + then;
        assert(left.to_multiset() == rules.to_multiset()) by {
            lemma_multiset_commutative(first, then);
            lemma_multiset_commutative(seq![rule], second);
            lemma_multiset_commutative(first, second);
            lemma_multiset_commutative(seq![rule], rules.drop_first());
            assert(rules =~= seq![rule] + rules.drop_first());
            assert(first.to_multiset().add(seq![rule].to_multiset().add(second.to_multiset()))
                =~= seq![rule].to_multiset().add(first.to_multiset().add(second.to_multiset())));
        }
        left
    }
}

/// Every symbol of the form is a symbol of the grammar, and none is ϵ or
/// the start marker.
pub open spec fn clean(g: GrammarView, form: Seq<usize>) -> bool {
    forall|i: int|
        0 <= i < form.len() ==> (#[trigger] form[i]) < g.symbols.len() && form[i] != NULL
            && form[i] != START
}

/// No rule has the start marker in its body.
pub open spec fn tidy(g: GrammarView) -> bool {
    forall|r: int, i: int|
        0 <= r < g.rules.len() && 0 <= i < g.rules[r].body.len() ==> (#[trigger] g.rules[r].body[i])
            != START
}

/// The symbols of a body but ϵ are symbols of the body.
pub proof fn lemma_plain_from(body: Seq<usize>, i: int) -> (j: int)
    requires
        0 <= i < plain(body).len(),
    ensures
        0 <= j < body.len(),
        body[j] == plain(body)[i],
        body[j] != NULL,
        plain(body.subrange(0, j)).len() == i,
        plain(body.subrange(0, j)) == plain(body).subrange(0, i),
        plain(body.subrange(j + 1, body.len() as int)) == plain(body).subrange(
            i + 1,
            plain(body).len() as int,
        ),
    decreases body.len(),
{
    let rest = body.drop_first();
    if body[0] == NULL {
        assert(plain(body) =~= plain(rest));
        let j = lemma_plain_from(rest, i);
        let front = body.subrange(0, j + 1);
        assert(front.drop_first() =~= rest.subrange(0, j));
        assert(plain(front) =~= plain(rest.subrange(0, j)));
        assert(body.subrange(j + 2, body.len() as int) =~= rest.subrange(j + 1, rest.len() as int));
        j + 1
    } else if i == 0 {
        assert(plain(body) =~= seq![body[0]] + plain(rest));
        assert(body.subrange(0, 0) =~= Seq::<usize>::empty());
        assert(plain(body).subrange(0, 0) =~= Seq::<usize>::empty());
        assert(body.subrange(1, body.len() as int) =~= rest);
        assert(plain(body).subrange(1, plain(body).len() as int) =~= plain(rest));
        0
    } else {
        assert(plain(body) =~= seq![body[0]] + plain(rest));
        let j = lemma_plain_from(rest, i - 1);
        let front = body.subrange(0, j + 1);
        assert(front[0] == body[0]);
        assert(front.drop_first() =~= rest.subrange(0, j));
        assert(plain(front) =~= seq![body[0]] + plain(rest.subrange(0, j)));
        assert(plain(front) =~= plain(body).subrange(0, i));
        assert(body.subrange(j + 2, body.len() as int) =~= rest.subrange(j + 1, rest.len() as int));
        assert(plain(body).subrange(i + 1, plain(body).len() as int) =~= plain(rest).subrange(
            i,
            plain(rest).len() as int,
        ));
        j + 1
    }
}

/// Where the first symbols of a body but ϵ have ϵ in their FIRST sets, the
/// symbols of the body before them have.
pub proof fn lemma_plain_nullable(g: GrammarView, body: Seq<usize>, upto: int)
    requires
        g.valid(),
        0 <= upto <= body.len(),
        prefix_nullable(
            first_pairs(g),
            plain(body.subrange(0, upto)),
            plain(body.subrange(0, upto)).len() as int,
        ),
    ensures
        prefix_nullable(first_pairs(g), body, upto),
    decreases upto,
{
    if upto > 0 {
        let front = body.subrange(0, upto);
        let shorter = body.subrange(0, upto - 1);
        assert(front.drop_last() =~= shorter);
        lemma_plain_push_last(front);
        let last = body[upto - 1];
        if last == NULL {
            lemma_first_of_terminal(g, NULL, NULL);
        } else {
            assert(plain(front)[plain(shorter).len() as int] == last);
        }
        assert forall|j: int| 0 <= j < plain(shorter).len() implies first_pairs(g).contains(
            (#[trigger] plain(shorter)[j], NULL),
        ) by {
            assert(plain(front)[j] == plain(shorter)[j]);
        }
        lemma_plain_nullable(g, body, upto - 1);
    }
}

/// The symbols but ϵ of a sequence are those of all but its last symbol,
/// and that symbol unless it is ϵ.
pub proof fn lemma_plain_push_last(body: Seq<usize>)
    requires
        body.len() > 0,
    ensures
        plain(body) == plain(body.drop_last()) + (if body.last() != NULL {
            seq![body.last()]
        } else {
            Seq::<usize>::empty()
        }),
    decreases body.len(),
{
    let tail = if body.last() != NULL {
        seq![body.last()]
    } else {
        Seq::<usize>::empty()
    };
    if body.len() == 1 {
        assert(body.drop_last() =~= Seq::<usize>::empty());
        assert(body.drop_first() =~= Seq::<usize>::empty());
        assert(plain(Seq::<usize>::empty()) =~= Seq::<usize>::empty());
        assert(body[0] == body.last());
        assert(plain(body) =~= tail + plain(body.drop_first()));
        assert(plain(body) =~= tail);
        assert(plain(body.drop_last()) + tail =~= tail);
    } else {
        let rest = body.drop_first();
        lemma_plain_push_last(rest);
        assert(rest.drop_last() =~= body.drop_last().drop_first());
        assert(rest.last() == body.last());
        assert(body.drop_last()[0] == body[0]);
        let head = if body[0] != NULL {
            seq![body[0]]
        } else {
            Seq::<usize>::empty()
        };
        assert(plain(body) =~= head + plain(rest));
        assert(plain(body.drop_last()) =~= head + plain(rest.drop_last()));
        assert(head + (plain(rest.drop_last()) + tail) =~= (head + plain(rest.drop_last())) + tail);
    }
}

/// What a symbol of the first part of a sequence begins, the sequence
/// begins; and what its second part begins, where every symbol of the first
/// part has ϵ in its FIRST set.
pub proof fn lemma_first_seq_join(g: GrammarView, a: Seq<usize>, b: Seq<usize>, t: usize)
    requires
        t != NULL,
    ensures
        in_first_seq(g, a, t) ==> in_first_seq(g, a + b, t),
        prefix_nullable(first_pairs(g), a, a.len() as int) && in_first_seq(g, b, t) ==> in_first_seq(
            g,
            a + b,
            t,
        ),
        in_first_seq(g, a + b, t) ==> in_first_seq(g, a, t) || (prefix_nullable(
            first_pairs(g),
            a,
            a.len() as int,
        ) && in_first_seq(g, b, t)),
{
    let all = a + b;
    let f = first_pairs(g);
    if in_first_seq(g, a, t) {
        let i = choose|i: int|
            0 <= i < a.len() && prefix_nullable(f, a, i) && in_first(g, #[trigger] a[i], t);
        assert(all[i] == a[i]);
        assert forall|j: int| 0 <= j < i implies f.contains((#[trigger] all[j], NULL)) by {
            assert(all[j] == a[j]);
        }
    }
    if prefix_nullable(f, a, a.len() as int) && in_first_seq(g, b, t) {
        let i = choose|i: int|
            0 <= i < b.len() && prefix_nullable(f, b, i) && in_first(g, #[trigger] b[i], t);
        assert(all[a.len() + i] == b[i]);
        assert forall|j: int| 0 <= j < a.len() + i implies f.contains((#[trigger] all[j], NULL)) by {
            if j < a.len() {
                assert(all[j] == a[j]);
            } else {
                assert(all[j] == b[j - a.len()]);
            }
        }
    }
    if in_first_seq(g, all, t) {
        let i = choose|i: int|
            0 <= i < all.len() && prefix_nullable(f, all, i) && in_first(g, #[trigger] all[i], t);
        if i < a.len() {
            assert(all[i] == a[i]);
            assert forall|j: int| 0 <= j < i implies f.contains((#[trigger] a[j], NULL)) by {
                assert(all[j] == a[j]);
            }
        } else {
            assert(all[i] == b[i - a.len()]);
            assert forall|j: int| 0 <= j < a.len() implies f.contains((#[trigger] a[j], NULL)) by {
                assert(all[j] == a[j]);
            }
            assert forall|j: int| 0 <= j < i - a.len() implies f.contains(
                (#[trigger] b[j], NULL),
            ) by {
                assert(all[a.len() + j] == b[j]);
            }
        }
    }
}

/// What the symbols of a body but ϵ begin, the body begins, and the other
/// way round; where all of them have ϵ in their FIRST sets, all symbols of
/// the body have.
pub proof fn lemma_first_seq_plain(g: GrammarView, body: Seq<usize>, t: usize)
    requires
        g.valid(),
        t != NULL,
    ensures
        in_first_seq(g, plain(body), t) ==> in_first_seq(g, body, t),
        prefix_nullable(first_pairs(g), plain(body), plain(body).len() as int) ==> prefix_nullable(
            first_pairs(g),
            body,
            body.len() as int,
        ),
{
    let f = first_pairs(g);
    let p = plain(body);
    if in_first_seq(g, p, t) {
        let i = choose|i: int|
            0 <= i < p.len() && prefix_nullable(f, p, i) && in_first(g, #[trigger] p[i], t);
        let j = lemma_plain_from(body, i);
        assert forall|k: int| 0 <= k < i implies f.contains(
            (#[trigger] plain(body.subrange(0, j))[k], NULL),
        ) by {
            assert(plain(body.subrange(0, j))[k] == p[k]);
        }
        lemma_plain_nullable(g, body, j);
    }
    if prefix_nullable(f, p, p.len() as int) {
        assert(body.subrange(0, body.len() as int) =~= body);
        lemma_plain_nullable(g, body, body.len() as int);
    }
}

/// The symbols of a body but ϵ are symbols of the grammar, and none is ϵ
/// or the start marker.
pub proof fn lemma_plain_clean(g: GrammarView, r: int)
    requires
        g.valid(),
        tidy(g),
        0 <= r < g.rules.len(),
    ensures
        clean(g, plain(g.rules[r].body)),
{
    let body = g.rules[r].body;
    assert(g.rules[r].valid_in(r, g.symbols.len()));
    assert forall|i: int| 0 <= i < plain(body).len() implies (#[trigger] plain(body)[i])
        < g.symbols.len() && plain(body)[i] != NULL && plain(body)[i] != START by {
        let j = lemma_plain_from(body, i);
    }
}

/// A leftmost derivation from a form whose first symbol cannot be replaced
/// keeps that symbol, and is a derivation from the rest of the form.
pub proof fn lemma_first_stays(g: GrammarView, form: Seq<usize>, rules: Seq<usize>)
    requires
        form.len() > 0,
        !expandable(g, form[0]),
        unfold(g, form, rules) is Some,
    ensures
        unfold(g, form.drop_first(), rules) is Some,
        unfold(g, form, rules)->0 == seq![form[0]] + unfold(g, form.drop_first(), rules)->0,
{
    let first = seq![form[0]];
    assert(first + form.drop_first() =~= form);
    lemma_unfold_behind(g, first, form.drop_first(), rules);
}

/// A leftmost derivation keeps the last symbol of a form that cannot be
/// replaced.
pub proof fn lemma_last_stays(g: GrammarView, form: Seq<usize>, rules: Seq<usize>)
    requires
        form.len() > 0,
        !expandable(g, form.last()),
        unfold(g, form, rules) is Some,
    ensures
        unfold(g, form, rules)->0.len() > 0,
        unfold(g, form, rules)->0.last() == form.last(),
    decreases rules.len(),
{
    if rules.len() > 0 {
        let next = expand(g, form, rules[0])->0;
        lemma_leftmost_is(g, form);
        let at = leftmost(g, form);
        assert(at < form.len() - 1);
        assert(next.last() == form.last());
        lemma_last_stays(g, next, rules.drop_first());
    }
}

/// What a leftmost derivation derives from a form begins with a symbol
/// that the form begins.
pub proof fn lemma_first_of_yield(g: GrammarView, form: Seq<usize>, rules: Seq<usize>)
    requires
        g.valid(),
        tidy(g),
        clean(g, form),
        unfold(g, form, rules) is Some,
        settled(g, unfold(g, form, rules)->0),
        unfold(g, form, rules)->0.len() > 0,
    ensures
        clean(g, unfold(g, form, rules)->0),
        in_first_seq(g, form, unfold(g, form, rules)->0[0]),
    decreases rules.len(),
{
    let f = first_pairs(g);
    let w = unfold(g, form, rules)->0;
    if rules.len() == 0 {
        assert(g.is_terminal(form[0]));
        lemma_first_of_terminal(g, form[0], form[0]);
        assert(prefix_nullable(f, form, 0));
    } else {
        let rule = rules[0] as int;
        let next = expand(g, form, rules[0])->0;
        lemma_leftmost_is(g, form);
        let at = leftmost(g, form);
        let body = plain(g.rules[rule].body);
        lemma_plain_clean(g, rule);
        assert(clean(g, next));
        lemma_first_of_yield(g, next, rules.drop_first());
        let t = w[0];
        let i = choose|i: int|
            0 <= i < next.len() && prefix_nullable(f, next, i) && in_first(g, #[trigger] next[i], t);
        if at > 0 {
            assert(next[0] == form[0]);
            assert(g.is_terminal(form[0]));
            lemma_first_of_terminal(g, form[0], NULL);
            lemma_first_of_terminal(g, form[0], t);
            if i > 0 {
                assert(f.contains((next[0], NULL)));
            }
            assert(prefix_nullable(f, form, 0));
        } else {
            let rest = form.subrange(1, form.len() as int);
            assert(next =~= body + rest);
            lemma_first_seq_join(g, body, rest, t);
            lemma_first_seq_plain(g, g.rules[rule].body, t);
            assert(g.is_nonterminal(form[0]));
            if in_first_seq(g, body, t) {
                let whole = g.rules[rule].body;
                let j = choose|j: int|
                    0 <= j < whole.len() && prefix_nullable(f, whole, j) && in_first(
                        g,
                        #[trigger] whole[j],
                        t,
                    );
                assert(first_fires(g, f, rule, j, t));
                lemma_first_step(g, f, rule, j, t);
                assert(prefix_nullable(f, form, 0));
                assert(in_first(g, form[0], t));
            } else {
                let whole = g.rules[rule].body;
                assert(first_fires(g, f, rule, whole.len() as int, NULL));
                lemma_first_step(g, f, rule, whole.len() as int, NULL);
                let k = choose|k: int|
                    0 <= k < rest.len() && prefix_nullable(f, rest, k) && in_first(
                        g,
                        #[trigger] rest[k],
                        t,
                    );
                assert(form[k + 1] == rest[k]);
                assert forall|m: int| 0 <= m < k + 1 implies f.contains(
                    (#[trigger] form[m], NULL),
                ) by {
                    if m > 0 {
                        assert(form[m] == rest[m - 1]);
                    }
                }
            }
        }
    }
}

/// Where the symbol at index `q` of the form is a nonterminal, FOLLOW of
/// it holds the symbol `t` that the rest of the form begins.
pub open spec fn follows_at(g: GrammarView, form: Seq<usize>, q: int, t: usize) -> bool {
    g.is_nonterminal(form[q]) && t != NULL && in_first_seq(
        g,
        form.subrange(q + 1, form.len() as int),
        t,
    ) ==> in_follow(g, form[q], t)
}

/// FOLLOW of every nonterminal of the form holds what the rest of the form
/// begins.
pub open spec fn follows_ok(g: GrammarView, form: Seq<usize>) -> bool {
    forall|q: int, t: usize| 0 <= q < form.len() ==> #[trigger] follows_at(g, form, q, t)
}

/// In a grammar without LL(1) conflict the cell of a head and a symbol has
/// the rule that is chosen for them.
pub proof fn lemma_the_cell(g: GrammarView, x: usize, t: usize, r: int)
    requires
        conflict_free(g),
        g.rules.len() <= usize::MAX,
        offers(g, Set::empty(), x, t, r),
    ensures
        ll_map(g, Set::empty()).contains_key((x, t)),
        ll_map(g, Set::empty())[(x, t)] == r,
{
    let none = Set::<usize>::empty();
    let all = g.rules.len() as int;
    let table = ll_map(g, none);
    assert(offered(g, none, all, x, t));
    let first = lemma_first_offer(g, none, all, x, t, r);
    let chosen = choose|q: int| first_offer(g, none, all, x, t, q);
    assert(first_offer(g, none, all, x, t, chosen));
    assert(table[(x, t)] == chosen as usize);
    if chosen != r {
        if chosen < r {
            assert(0 <= chosen < r < all && offers(g, none, x, t, chosen) && offers(
                g,
                none,
                x,
                t,
                r,
            ));
        } else {
            assert(0 <= r < chosen < all && offers(g, none, x, t, r) && offers(
                g,
                none,
                x,
                t,
                chosen,
            ));
        }
        assert(clash(g, none, all, x));
    }
}

/// The symbols of a stack from its top: the first is the top, the last the
/// bottom, and the rest are those of the stack without its top.
pub proof fn lemma_turned_ends(stack: Seq<usize>)
    requires
        stack.len() > 0,
    ensures
        turned(stack).len() == stack.len(),
        turned(stack)[0] == stack.last(),
        turned(stack).last() == stack[0],
        turned(stack).drop_first() == turned(stack.drop_last()),
    decreases stack.len(),
{
    let rest = stack.drop_last();
    assert(turned(stack) =~= seq![stack.last()] + turned(rest));
    if rest.len() > 0 {
        lemma_turned_ends(rest);
        assert(rest[0] == stack[0]);
    } else {
        assert(turned(rest) =~= Seq::<usize>::empty());
    }
    assert(turned(stack).drop_first() =~= turned(rest));
}

/// FOLLOW of the nonterminals of a form stays what the rest begins when
/// the first symbol of the form is replaced with the body of a rule.
pub proof fn lemma_follows_body(g: GrammarView, form: Seq<usize>, r: int)
    requires
        g.valid(),
        0 <= r < g.rules.len(),
        form.len() > 0,
        form[0] == g.rules[r].head,
        g.is_nonterminal(form[0]),
        follows_ok(g, form),
    ensures
        follows_ok(g, plain(g.rules[r].body) + form.drop_first()),
{
    let f = first_pairs(g);
    let body = g.rules[r].body;
    let p = plain(body);
    let rest = form.drop_first();
    let new = p + rest;
    assert forall|q: int, t: usize| 0 <= q < new.len() implies #[trigger] follows_at(
        g,
        new,
        q,
        t,
    ) by {
        let behind = new.subrange(q + 1, new.len() as int);
        if g.is_nonterminal(new[q]) && t != NULL && in_first_seq(g, behind, t) {
            if q >= p.len() {
                let at = q - p.len() + 1;
                assert(new[q] == form[at]);
                assert(behind =~= form.subrange(at + 1, form.len() as int));
                assert(follows_at(g, form, at, t));
            } else {
                let j = lemma_plain_from(body, q);
                let tail = body.subrange(j + 1, body.len() as int);
                assert(new[q] == body[j]);
                assert(behind =~= p.subrange(q + 1, p.len() as int) + rest);
                lemma_first_seq_join(g, plain(tail), rest, t);
                lemma_first_seq_plain(g, tail, t);
                lemma_follow_laws(g, r, j, t);
                if !in_first_seq(g, plain(tail), t) {
                    assert(form.subrange(1, form.len() as int) =~= rest);
                    assert(follows_at(g, form, 0, t));
                }
            }
        }
    }
}

/// The LL(1) parser of a grammar without conflict follows a leftmost
/// derivation: where the rules derive the input that is left from what is on
/// the stack, the parse emits them and ends with empty stack and input.
pub proof fn lemma_ll_follows(g: GrammarView, c: LlState, rest: Seq<usize>) -> (k: nat)
    requires
        g.valid(),
        g.rules.len() <= usize::MAX,
        proper(g),
        tidy(g),
        conflict_free(g),
        clean(g, turned(c.stack)),
        follows_ok(g, turned(c.stack)),
        c.stack.len() > 0 ==> c.stack[0] == END,
        unfold(g, turned(c.stack), rest) == Some(c.input),
        settled(g, c.input),
    ensures
        reaches(
            g,
            c,
            LlState { stack: Seq::empty(), input: Seq::empty(), rules: c.rules + rest },
            k,
        ),
    decreases rest.len() + c.input.len(),
{
    let table = ll_map(g, Set::empty());
    let form = turned(c.stack);
    let end = LlState { stack: Seq::empty(), input: Seq::empty(), rules: c.rules + rest };
    lemma_ll_map_sound(g, Set::empty());
    if c.stack.len() == 0 {
        assert(form =~= Seq::<usize>::empty());
        if rest.len() > 0 {
            assert(expand(g, form, rest[0]) is None);
        }
        assert(c.rules + rest =~= c.rules);
        assert(c.stack =~= Seq::<usize>::empty());
        assert(c.input =~= Seq::<usize>::empty());
        assert(end == c);
        assert(reaches(g, c, c, 0)) by {
            assert forall|fuel: nat|
                ll_run(g, table, c, fuel + 0) == #[trigger] ll_run(g, table, c, fuel) by {}
        }
        0
    } else {
        lemma_turned_ends(c.stack);
        let x = c.stack.last();
        assert(!expandable(g, END));
        lemma_last_stays(g, form, rest);
        lemma_first_of_yield(g, form, rest);
        let a = c.input[0];
        if expandable(g, x) {
            if rest.len() == 0 {
                assert(false);
            }
            let r = rest[0] as int;
            lemma_leftmost_is(g, form);
            assert(leftmost(g, form) == 0);
            let body = g.rules[r].body;
            let next_form = expand(g, form, rest[0])->0;
            assert(next_form =~= plain(body) + form.drop_first());
            lemma_plain_clean(g, r);
            assert(clean(g, next_form));
            lemma_first_of_yield(g, next_form, rest.drop_first());
            lemma_first_seq_join(g, plain(body), form.drop_first(), a);
            lemma_first_seq_plain(g, body, a);
            assert(g.rules[r].valid_in(r, g.symbols.len()));
            assert(selects(g, r, a)) by {
                if !in_first_seq(g, body, a) {
                    assert(form.subrange(1, form.len() as int) =~= form.drop_first());
                    assert(follows_at(g, form, 0, a));
                }
            }
            lemma_the_cell(g, x, a, r);
            assert(!ll_halted(table, c));
            let next = ll_next(g, table, c);
            lemma_turned_concat(c.stack.drop_last(), unstacked(body));
            lemma_turned_body(body);
            assert(turned(next.stack) =~= next_form);
            lemma_follows_body(g, form, r);
            assert(c.stack.len() >= 2);
            assert(next.stack[0] == END);
            let k = lemma_ll_follows(g, next, rest.drop_first());
            lemma_reaches_next(g, c);
            assert(next.rules + rest.drop_first() =~= c.rules + rest);
            lemma_reaches_on(g, c, next, end, 1, k);
            1 + k
        } else {
            lemma_first_stays(g, form, rest);
            assert(a == x);
            assert(!table.contains_key((x, a))) by {
                if table.contains_key((x, a)) {
                    let q = table[(x, a)] as int;
                    assert(g.rules[q].head == x);
                    if q > 0 {
                        assert(g.is_nonterminal(g.rules[q].head));
                    }
                }
            }
            assert(!ll_halted(table, c));
            let next = ll_next(g, table, c);
            let rest_form = form.drop_first();
            assert(turned(next.stack) == rest_form);
            let left = unfold(g, rest_form, rest)->0;
            assert(c.input.drop_first() =~= left);
            assert(clean(g, rest_form)) by {
                assert forall|i: int| 0 <= i < rest_form.len() implies (#[trigger] rest_form[i])
                    < g.symbols.len() && rest_form[i] != NULL && rest_form[i] != START by {
                    assert(rest_form[i] == form[i + 1]);
                }
            }
            assert(follows_ok(g, rest_form)) by {
                assert forall|q: int, t: usize| 0 <= q < rest_form.len() implies #[trigger] follows_at(
                    g,
                    rest_form,
                    q,
                    t,
                ) by {
                    assert(rest_form[q] == form[q + 1]);
                    assert(rest_form.subrange(q + 1, rest_form.len() as int) =~= form.subrange(
                        q + 2,
                        form.len() as int,
                    ));
                    assert(follows_at(g, form, q + 1, t));
                }
            }
            assert(settled(g, next.input)) by {
                assert forall|i: int| 0 <= i < next.input.len() implies !expandable(
                    g,
                    #[trigger] next.input[i],
                ) by {
                    assert(next.input[i] == c.input[i + 1]);
                }
            }
            if next.stack.len() > 0 {
                assert(next.stack[0] == c.stack[0]);
            }
            let k = lemma_ll_follows(g, next, rest);
            lemma_reaches_next(g, c);
            lemma_reaches_on(g, c, next, end, 1, k);
            1 + k
        }
    }
}

/// The LL(1) parser of a grammar without conflict emits the rules of the
/// leftmost derivation of its input: where rules derive the input between
/// its end markers from the start marker, the parse emits them and ends with
/// empty stack and input.
pub proof fn lemma_ll_emits(g: GrammarView, tokens: Seq<Token>, rules: Seq<usize>) -> (fuel: nat)
    requires
        g.valid(),
        g.rules.len() <= usize::MAX,
        proper(g),
        tidy(g),
        conflict_free(g),
        settled(g, symbols_of(tokens)),
        unfold(g, seq![START], rules) == Some(seq![END] + symbols_of(tokens) + seq![END]),
    ensures
        ll_run(g, ll_map(g, Set::empty()), ll_start(tokens), fuel) == Some(
            LlState { stack: Seq::empty(), input: Seq::empty(), rules },
        ),
{
    let table = ll_map(g, Set::empty());
    let none = Set::<usize>::empty();
    let c0 = ll_start(tokens);
    let input = seq![END] + symbols_of(tokens) + seq![END];
    let start = seq![START];
    assert(settled(g, input)) by {
        assert forall|i: int| 0 <= i < input.len() implies !expandable(g, #[trigger] input[i]) by {
            if 0 < i < input.len() - 1 {
                assert(input[i] == symbols_of(tokens)[i - 1]);
            }
        }
    }
    assert(start.drop_first() =~= Seq::<usize>::empty());
    assert(leftmost(g, start) == 0);
    if rules.len() == 0 {
        assert(start[0] == input[0]);
        assert(false);
    }
    let r = rules[0] as int;
    assert(g.rules[r].head == START);
    if r > 0 {
        assert(g.is_nonterminal(g.rules[r].head));
    }
    assert(r == 0);
    let body = g.rules[0].body;
    let form = plain(body);
    assert(form =~= seq![END, g.start, END]) by {
        let a = body.drop_first();
        let b = a.drop_first();
        let e = b.drop_first();
        assert(a =~= seq![g.start, END]);
        assert(b =~= seq![END]);
        assert(e =~= Seq::<usize>::empty());
        assert(plain(e) =~= Seq::<usize>::empty());
        assert(plain(b) =~= seq![END]);
        assert(plain(a) =~= seq![g.start, END]);
    }
    assert(expand(g, start, rules[0]) == Some(form)) by {
        assert(start.subrange(0, 0) + form + start.subrange(1, 1) =~= form);
    }
    // The first step puts the body of the first rule on the stack.
    lemma_first_of_terminal(g, END, END);
    assert(in_first_seq(g, body, END)) by {
        assert(prefix_nullable(first_pairs(g), body, 0));
        assert(in_first(g, body[0], END));
    }
    assert(offers(g, none, START, END, 0));
    lemma_the_cell(g, START, END, 0);
    assert(c0.input[0] == END);
    assert(!ll_halted(table, c0));
    let c1 = ll_next(g, table, c0);
    assert(c0.stack.drop_last() =~= Seq::<usize>::empty());
    lemma_turned_concat(c0.stack.drop_last(), unstacked(body));
    lemma_turned_body(body);
    assert(turned(Seq::<usize>::empty()) =~= Seq::<usize>::empty());
    assert(turned(c1.stack) =~= form);
    assert(c1.stack.len() > 0 && c1.stack[0] == END) by {
        if c1.stack.len() == 0 {
            assert(turned(c1.stack) =~= Seq::<usize>::empty());
        }
        lemma_turned_ends(c1.stack);
    }
    assert(clean(g, form));
    assert(follows_ok(g, form)) by {
        assert forall|q: int, t: usize| 0 <= q < form.len() implies #[trigger] follows_at(
            g,
            form,
            q,
            t,
        ) by {
            if q == 1 && t != NULL && in_first_seq(g, form.subrange(2, 3), t) {
                let behind = form.subrange(2, 3);
                let i = choose|i: int|
                    0 <= i < behind.len() && prefix_nullable(first_pairs(g), behind, i)
                        && in_first(g, #[trigger] behind[i], t);
                assert(behind[i] == END);
                lemma_first_of_terminal(g, END, t);
                assert(g.rules[0].body[1] == g.start);
                lemma_follow_laws(g, 0, 1, END);
            }
        }
    }
    assert(c1.input =~= input);
    assert(c1.rules =~= seq![rules[0]]);
    let k = lemma_ll_follows(g, c1, rules.drop_first());
    let end = LlState { stack: Seq::empty(), input: Seq::empty(), rules };
    assert(c1.rules + rules.drop_first() =~= rules);
    lemma_reaches_next(g, c0);
    lemma_reaches_on(g, c0, c1, end, 1, k);
    assert(ll_halted(table, end));
    assert(ll_run(g, table, end, 0) == Some(end));
    assert(ll_run(g, table, c0, 0 + (1 + k)) == ll_run(g, table, end, 0));
    1 + k
}

/// The LL(1) parser of a grammar without conflict returns the rules of
/// every leftmost derivation of its input between its end markers from the
/// start marker: there is one such derivation at most.
pub proof fn lemma_ll_returns(
    g: GrammarView,
    tokens: Seq<Token>,
    rules: Seq<usize>,
    ll: Result<Vec<usize>, Error>,
)
    requires
        g.valid(),
        g.rules.len() <= usize::MAX,
        proper(g),
        tidy(g),
        conflict_free(g),
        settled(g, symbols_of(tokens)),
        replay(g, seq![START], rules) == Some(seq![END] + symbols_of(tokens) + seq![END]),
        ll_outcome(g, tokens, ll),
    ensures
        ll is Ok,
        ll->Ok_0@ == rules,
{
    let table = ll_map(g, Set::empty());
    lemma_replay_unfold(g, seq![START], rules);
    let steps = lemma_ll_emits(g, tokens, rules);
    let c0 = ll_start(tokens);
    let seen = choose|seen: nat|
        (#[trigger] ll_run(g, table, c0, seen)) matches Some(c) && verdict(
            g.symbols,
            tokens,
            c.stack.len() == 0,
            c.input,
            c.rules,
            ll,
        );
    lemma_run_more(g, c0, steps, seen);
    lemma_run_more(g, c0, seen, steps);
    assert(steps + seen == seen + steps);
}

/// Where the LR(1) parser accepts an input in full, the LL(1) parser of
/// the grammar, which has no LL(1) conflict, returns the same rules, each as
/// often: the rules of the one leftmost derivation of the input.
pub proof fn lemma_same_rules(
    g: GrammarView,
    action: Map<(usize, usize), Action>,
    goto: Map<(usize, usize), usize>,
    tokens: Seq<Token>,
    fuel: nat,
    ll: Result<Vec<usize>, Error>,
)
    requires
        g.valid(),
        g.rules.len() <= usize::MAX,
        proper(g),
        tidy(g),
        conflict_free(g),
        actions_sound(g, action),
        shifts_ok(action),
        settled(g, symbols_of(tokens)),
        lr_run(g, action, goto, lr_start(tokens), fuel) matches Some(LrEnd::Accepted(end))
            && end.stack.len() == 0 && end.input.len() == 0,
        ll_outcome(g, tokens, ll),
    ensures
        lr_run(g, action, goto, lr_start(tokens), fuel) matches Some(LrEnd::Accepted(end))
            && ll is Ok && ll->Ok_0@.to_multiset() == end.rules.reverse().to_multiset(),
{
    let input = seq![END] + symbols_of(tokens) + seq![END];
    let end = lr_run(g, action, goto, lr_start(tokens), fuel)->0->Accepted_0;
    let right = end.rules.reverse();
    assert(heads_expandable(g)) by {
        assert forall|r: int| 0 <= r < g.rules.len() implies expandable(
            g,
            (#[trigger] g.rules[r]).head,
        ) by {
            if r > 0 {
                assert(g.is_nonterminal(g.rules[r].head));
            }
        }
    }
    lemma_lr_round_trip(g, action, goto, tokens, fuel);
    assert(settled(g, input)) by {
        assert forall|i: int| 0 <= i < input.len() implies !expandable(g, #[trigger] input[i]) by {
            if 0 < i < input.len() - 1 {
                assert(input[i] == symbols_of(tokens)[i - 1]);
            }
        }
    }
    let left = lemma_left_of_right(g, seq![START], right);
    lemma_replay_unfold(g, seq![START], left);
    lemma_ll_returns(g, tokens, left, ll);
}

/// Where a leftmost derivation derives the empty sequence from a form,
/// every symbol of the form has ϵ in its FIRST set.
pub proof fn lemma_yield_nullable(g: GrammarView, form: Seq<usize>, rules: Seq<usize>)
    requires
        g.valid(),
        tidy(g),
        clean(g, form),
        unfold(g, form, rules) == Some(Seq::<usize>::empty()),
    ensures
        prefix_nullable(first_pairs(g), form, form.len() as int),
    decreases rules.len(),
{
    let f = first_pairs(g);
    if rules.len() > 0 {
        let rule = rules[0] as int;
        let next = expand(g, form, rules[0])->0;
        lemma_leftmost_is(g, form);
        let at = leftmost(g, form);
        let whole = g.rules[rule].body;
        let body = plain(whole);
        lemma_plain_clean(g, rule);
        assert(clean(g, next));
        lemma_yield_nullable(g, next, rules.drop_first());
        assert forall|j: int| 0 <= j < body.len() implies f.contains((#[trigger] body[j], NULL)) by {
            assert(next[at + j] == body[j]);
        }
        lemma_first_seq_plain(g, whole, END);
        assert(g.is_nonterminal(form[at]));
        assert(first_fires(g, f, rule, whole.len() as int, NULL));
        lemma_first_step(g, f, rule, whole.len() as int, NULL);
        assert forall|i: int| 0 <= i < form.len() implies f.contains((#[trigger] form[i], NULL)) by {
            if i < at {
                assert(next[i] == form[i]);
            } else if i > at {
                assert(next[i - 1 + body.len()] == form[i]);
            }
        }
    }
}

/// Where the LR(1) parser accepts no tokens in full, the start symbol has
/// ϵ in its FIRST set: it derives the empty sequence.
pub proof fn lemma_lr_no_tokens(
    g: GrammarView,
    action: Map<(usize, usize), Action>,
    goto: Map<(usize, usize), usize>,
    fuel: nat,
)
    requires
        g.valid(),
        proper(g),
        tidy(g),
        actions_sound(g, action),
        shifts_ok(action),
        lr_run(g, action, goto, lr_start(Seq::<Token>::empty()), fuel) matches Some(
            LrEnd::Accepted(end),
        ) && end.stack.len() == 0 && end.input.len() == 0,
    ensures
        in_first(g, g.start, NULL),
{
    let tokens = Seq::<Token>::empty();
    let end = lr_run(g, action, goto, lr_start(tokens), fuel)->0->Accepted_0;
    let right = end.rules.reverse();
    assert(heads_expandable(g)) by {
        assert forall|r: int| 0 <= r < g.rules.len() implies expandable(
            g,
            (#[trigger] g.rules[r]).head,
        ) by {
            if r > 0 {
                assert(g.is_nonterminal(g.rules[r].head));
            }
        }
    }
    assert(symbols_of(tokens) =~= Seq::<usize>::empty());
    lemma_lr_round_trip(g, action, goto, tokens, fuel);
    let input = seq![END] + symbols_of(tokens) + seq![END];
    assert(input =~= seq![END, END]);
    assert(settled(g, input));
    let rules = lemma_left_of_right(g, seq![START], right);
    let start = seq![START];
    assert(start.drop_first() =~= Seq::<usize>::empty());
    assert(leftmost(g, start) == 0);
    if rules.len() == 0 {
        assert(start[0] == input[0]);
        assert(false);
    }
    let r = rules[0] as int;
    if r > 0 {
        assert(g.is_nonterminal(g.rules[r].head));
    }
    let body = g.rules[0].body;
    let form = plain(body);
    assert(form =~= seq![END, g.start, END]) by {
        let a = body.drop_first();
        let b = a.drop_first();
        let e = b.drop_first();
        assert(a =~= seq![g.start, END]);
        assert(b =~= seq![END]);
        assert(e =~= Seq::<usize>::empty());
        assert(plain(e) =~= Seq::<usize>::empty());
        assert(plain(b) =~= seq![END]);
        assert(plain(a) =~= seq![g.start, END]);
    }
    assert(expand(g, start, rules[0]) == Some(form)) by {
        assert(start.subrange(0, 0) + form + start.subrange(1, 1) =~= form);
    }
    let rest = rules.drop_first();
    lemma_first_stays(g, form, rest);
    let inner = seq![g.start];
    let last = seq![END];
    assert(form.drop_first() =~= inner + last);
    let (first, second) = lemma_unfold_split(g, inner, last, rest);
    lemma_last_stays(g, last, second);
    let u = unfold(g, inner, first)->0;
    let v = unfold(g, last, second)->0;
    assert(seq![END] + (u + v) =~= input);
    assert(u.len() + v.len() == 1);
    assert(u =~= Seq::<usize>::empty());
    assert(clean(g, inner));
    lemma_yield_nullable(g, inner, first);
}

/// The rules that the LR(1) parser returns for an input that it accepts
/// in full are, in another order, the rules of a leftmost derivation of the
/// input between its end markers from the start marker.
pub proof fn lemma_lr_leftmost(
    g: GrammarView,
    action: Map<(usize, usize), Action>,
    goto: Map<(usize, usize), usize>,
    tokens: Seq<Token>,
    fuel: nat,
) -> (left: Seq<usize>)
    requires
        g.valid(),
        heads_expandable(g),
        actions_sound(g, action),
        shifts_ok(action),
        settled(g, symbols_of(tokens)),
        lr_run(g, action, goto, lr_start(tokens), fuel) matches Some(LrEnd::Accepted(end))
            && end.stack.len() == 0 && end.input.len() == 0,
    ensures
        lr_run(g, action, goto, lr_start(tokens), fuel) matches Some(LrEnd::Accepted(end))
            && left.to_multiset() == end.rules.reverse().to_multiset(),
        replay(g, seq![START], left) == Some(seq![END] + symbols_of(tokens) + seq![END]),
{
    let end = lr_run(g, action, goto, lr_start(tokens), fuel)->0->Accepted_0;
    let input = seq![END] + symbols_of(tokens) + seq![END];
    lemma_lr_round_trip(g, action, goto, tokens, fuel);
    assert(settled(g, input)) by {
        assert forall|i: int| 0 <= i < input.len() implies !expandable(g, #[trigger] input[i]) by {
            if 0 < i < input.len() - 1 {
                assert(input[i] == symbols_of(tokens)[i - 1]);
            }
        }
    }
    let left = lemma_left_of_right(g, seq![START], end.rules.reverse());
    lemma_replay_unfold(g, seq![START], left);
    left
}

/// No symbol of the sequence is ϵ.
pub open spec fn spelled_out(symbols: Seq<usize>) -> bool {
    forall|i: int| 0 <= i < symbols.len() ==> #[trigger] symbols[i] != NULL
}

/// An LR(1) parse that accepts does so by an acceptance in the cell of a
/// state and the symbol that comes next; where the input holds no ϵ before,
/// what is left of it holds none.
pub proof fn lemma_accept_cell(
    g: GrammarView,
    action: Map<(usize, usize), Action>,
    goto: Map<(usize, usize), usize>,
    c: LrState,
    fuel: nat,
) -> (state: usize)
    requires
        spelled_out(c.input),
        lr_run(g, action, goto, c, fuel) matches Some(LrEnd::Accepted(_)),
    ensures
        lr_run(g, action, goto, c, fuel) matches Some(LrEnd::Accepted(end)) && spelled_out(
            end.input,
        ) && action.contains_key((state, lookahead(end.input))) && action[(
            state,
            lookahead(end.input),
        )] is Accept,
    decreases fuel,
{
    match lr_step(g, action, goto, c) {
        LrStep::Stop(end) => c.stack.last().1,
        LrStep::Go(next) => {
            assert(spelled_out(next.input)) by {
                assert forall|i: int| 0 <= i < next.input.len() implies #[trigger] next.input[i]
                    != NULL by {
                    if next.input.len() < c.input.len() {
                        assert(next.input[i] == c.input[i + 1]);
                    } else {
                        assert(next.input[i] == c.input[i]);
                    }
                }
            }
            lemma_accept_cell(g, action, goto, next, (fuel - 1) as nat)
        },
    }
}

/// Where the LR(1) parser, with the ACTION table of the canonical
/// automaton of the grammar, and the LL(1) parser of the grammar, which has
/// no LL(1) conflict, both return rules for an input, they return the same
/// rules, each as often. The LL(1) parser returns rules wherever the LR(1)
/// parser does.
pub proof fn lemma_parsers_agree(
    automaton: Automaton,
    g: GrammarView,
    goto: Map<(usize, usize), usize>,
    tokens: Seq<Token>,
    lr: Result<Vec<usize>, Error>,
    ll: Result<Vec<usize>, Error>,
)
    requires
        automaton.built(g, 0),
        automaton.action_result() is Ok,
        g.rules.len() <= usize::MAX,
        proper(g),
        tidy(g),
        conflict_free(g),
        settled(g, symbols_of(tokens)),
        spelled_out(symbols_of(tokens)),
        lr_outcome(g, automaton.action_result()->Ok_0, goto, tokens, lr),
        lr is Ok,
        ll_outcome(g, tokens, ll),
    ensures
        ll is Ok,
        ll->Ok_0@.to_multiset() == lr->Ok_0@.to_multiset(),
{
    let action = automaton.action_result()->Ok_0;
    let sts = automaton.state_transitions@;
    automaton.lemma_action_values(automaton.states.len() as int, 0);
    assert(actions_sound(g, action)) by {
        assert forall|k: (usize, usize)| #[trigger] action.contains_key(k) implies match action[k] {
            Action::Shift(_) => true,
            Action::Reduce(rule) => rule < g.rules.len(),
            Action::Accept(rule) => rule < g.rules.len(),
        } by {
            assert(automaton.cell_from(k, action[k]));
            if !(action[k] is Shift) {
                let j = choose|j: int| #[trigger]
                    automaton.wishes_at(k.0 as int, j, k.1, action[k]);
                assert(automaton.states[k.0 as int].wf(automaton.items@));
                let item = automaton.items[automaton.states[k.0 as int].items[j] as int];
                assert(item.fits(g));
            }
        }
    }
    assert(shifts_ok(action)) by {
        assert forall|k: (usize, usize)| #[trigger] action.contains_key(k) && action[k] is Shift implies k.1
            != NULL by {
            assert(automaton.cell_from(k, action[k]));
            assert(shiftable(g, k.1));
        }
    }
    let fuel = choose|fuel: nat|
        (#[trigger] lr_run(g, action, goto, lr_start(tokens), fuel)) matches Some(end)
            && lr_verdict(g.symbols, tokens, end, lr);
    let input = seq![END] + symbols_of(tokens) + seq![END];
    assert(spelled_out(input)) by {
        assert forall|i: int| 0 <= i < input.len() implies #[trigger] input[i] != NULL by {
            if 0 < i < input.len() - 1 {
                assert(input[i] == symbols_of(tokens)[i - 1]);
            }
        }
    }
    let state = lemma_accept_cell(g, action, goto, lr_start(tokens), fuel);
    let end = lr_run(g, action, goto, lr_start(tokens), fuel)->0->Accepted_0;
    let key = (state, lookahead(end.input));
    assert(automaton.cell_from(key, action[key]));
    let j = choose|j: int| #[trigger] automaton.wishes_at(state as int, j, key.1, action[key]);
    automaton.lemma_start_lookahead(g, 0, state as int, j);
    assert(g.rules[0].follow[0] == NULL);
    assert(lookahead(end.input) == NULL);
    if end.input.len() > 0 {
        assert(end.input[0] != NULL);
    }
    lemma_same_rules(g, action, goto, tokens, fuel, ll);
}

} // verus!
