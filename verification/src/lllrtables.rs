//! The tables of the LLLR(1) parser: the LL(1) table without the conflicted
//! nonterminals, and an LR(1) table for every place where a rule of another
//! nonterminal holds a conflicted one.

use crate::action::Action;
use crate::analysis::GrammarView;
use crate::automaton::Automaton;
use crate::collection::{alike, lemma_alike_conflicted, lr_conflicted};
use crate::bits::{cleared, count_true, lemma_count_bound, lemma_count_update};
use crate::data::{Data, DataView};
use crate::grammar::{in_first_follow, Grammar};
use crate::ll::ll_outcome;
use crate::lllr::{drive, lllr_outcome, table_views};
use crate::lltable::{clash, get_ll_table, lemma_ll_map, ll_map, ll_table_result};
use crate::parser::{tokens_within, Error};
use crate::rule::Position;
use crate::symbol::END;
use crate::table::Table;
use crate::token::Token;
use crate::util::{increasing, lemma_increasing_same};
use crate::symbol::symbol_name;
use crate::wrap::{extended, grows, name_free, name_taken, named, primed, rule_is, wrapped, wraps};
use std::collections::HashSet;
use vstd::prelude::*;

verus! {

broadcast use vstd::std_specs::hash::group_hash_axioms;

/// A sequence of symbols of a rule body that is to be wrapped, with the
/// head of the rule, the place of the first symbol, and the lookaheads of the
/// wrapper rule.
struct Wrapper {
    head: usize,
    place: Position,
    symbols: Vec<usize>,
    follow: Vec<usize>,
}

/// The wrapper names symbols of a rule of the grammar, from its place on,
/// and has lookaheads.
spec fn wrapper_ok(g: GrammarView, w: Wrapper) -> bool {
    &&& w.place.0 < g.rules.len()
    &&& g.rules[w.place.0 as int].head == w.head
    &&& w.symbols.len() >= 1
    &&& w.place.1 + w.symbols.len() <= g.rules[w.place.0 as int].body.len()
    &&& w.symbols@ == g.rules[w.place.0 as int].body.subrange(
        w.place.1 as int,
        w.place.1 + w.symbols.len(),
    )
    &&& w.follow.len() > 0
    &&& forall|i: int| 0 <= i < w.follow.len() ==> w.follow[i] < g.symbols.len()
}

/// The start rule of the table wraps symbols of the rule of its place, from
/// that place on.
pub open spec fn wraps_at(g: GrammarView, place: Position, d: DataView) -> bool {
    exists|k: int|
        1 <= k && place.0 < g.rules.len() && place.1 + k <= g.rules[place.0 as int].body.len()
            && d.g.rules[d.start_rule as int].body == seq![END] + #[trigger] g.rules[place.0 as int].body.subrange(
            place.1 as int,
            place.1 + k,
        )
}

/// No symbol can follow what comes behind `count` symbols from the place
/// on in its rule.
pub open spec fn nothing_follows(g: GrammarView, place: Position, count: int) -> bool {
    let body = g.rules[place.0 as int].body;
    let rest = body.subrange(place.1 + count, body.len() as int);
    &&& place.0 < g.rules.len()
    &&& 1 <= count
    &&& place.1 + count <= body.len()
    &&& forall|t: usize| !#[trigger] in_first_follow(g, rest, g.rules[place.0 as int].head, t)
}

/// The LL(1) table is that of `after` without the rules of the ignored
/// heads, none of which is the head of a rule with a registered table.
pub open spec fn ll_part(
    before: GrammarView,
    after: GrammarView,
    table: Table<usize>,
    tables: Seq<(Position, Data)>,
    ignored: Set<usize>,
) -> bool {
    ll_table_result(after, ignored, Ok(table)) && forall|i: int|
        0 <= i < tables.len() ==> !ignored.contains(
            before.rules[(#[trigger] tables[i]).0.0 as int].head,
        )
}

/// Every registered table is well formed, belongs to a grammar with at
/// least the symbols of `before`, and has a start rule that wraps symbols of
/// the rule of its place.
pub open spec fn lr_part(before: GrammarView, tables: Seq<(Position, Data)>) -> bool {
    forall|i: int|
        0 <= i < tables.len() ==> (#[trigger] tables[i]).1.wf()
            && tables[i].1.grammar.symbols.len() >= before.symbols.len() && wraps_at(
            before,
            tables[i].0,
            tables[i].1@,
        )
}

/// What the parser needs of the tables of a grammar, which their
/// construction leaves as `after`. The LL(1) table is that of `after` without
/// the rules of some heads, none of which is the head of a rule with a
/// registered table. Every registered table is well formed, belongs to a
/// grammar with at least the symbols of `before`, and has a start rule that
/// wraps symbols of the rule of its place. An error names a symbol with
/// nothing to follow its wrapper, or is internal.
pub open spec fn tables_result(
    before: GrammarView,
    after: GrammarView,
    result: Result<(Table<usize>, Vec<(Position, Data)>), Error>,
) -> bool {
    match result {
        Ok(pair) => (exists|ignored: Set<usize>| #[trigger]
            ll_part(before, after, pair.0, pair.1@, ignored)) && lr_part(before, pair.1@),
        Err(Error::Symbol(symbol)) => exists|place: Position, count: int| #[trigger]
            nothing_follows(before, place, count) && symbol
                == before.symbols[before.rules[place.0 as int].body[place.1 as int] as int],
        Err(error) => error is Internal,
    }
}

/// The grammar has no LL(1) conflict.
pub open spec fn conflict_free(g: GrammarView) -> bool {
    forall|h: usize| !clash(g, Set::empty(), g.rules.len() as int, h)
}

/// Wrapping gives one rule, and grammars that are alike.
pub proof fn lemma_wrapped_once(
    g: GrammarView,
    a: GrammarView,
    b: GrammarView,
    base: Seq<char>,
    body: Seq<usize>,
    follow: Seq<usize>,
    r: usize,
    q: usize,
    c: nat,
    d: nat,
)
    requires
        wrapped(g, a, base, body, follow, r, c),
        wrapped(g, b, base, body, follow, q, d),
    ensures
        r == q,
        alike(a, b),
{
    if c < d {
        lemma_not_taken(g, a, base, body, follow, r, c);
        assert(name_taken(g, primed(base, c), body, follow));
    }
    if d < c {
        lemma_not_taken(g, b, base, body, follow, q, d);
        assert(name_taken(g, primed(base, d), body, follow));
    }
    let name = primed(base, c);
    if name_free(g, name) {
        assert(extended(g, a, name, body, follow));
        assert(extended(g, b, name, body, follow));
        assert forall|x: int| 0 <= x < a.symbols.len() implies ((#[trigger] a.symbols[x]) is NonTerminal)
            == (b.symbols[x] is NonTerminal) && (a.symbols[x] is Terminal) == (
        b.symbols[x] is Terminal) && (a.symbols[x] is End) == (b.symbols[x] is End) by {
            if x < g.symbols.len() {
                assert(a.symbols.subrange(0, g.symbols.len() as int)[x] == g.symbols[x]);
                assert(b.symbols.subrange(0, g.symbols.len() as int)[x] == g.symbols[x]);
            }
        }
    } else {
        let s = choose|s: int| #[trigger] named(g, name, s) && wraps(g, r as int, s, body, follow);
        let t = choose|t: int| #[trigger] named(g, name, t) && wraps(g, q as int, t, body, follow);
        assert(s == t);
        if r < q {
            assert(rule_is(g, r as int, s, body, follow));
        }
        if q < r {
            assert(rule_is(g, q as int, s, body, follow));
        }
    }
}

/// The name that wrapping chose is not taken.
proof fn lemma_not_taken(
    g: GrammarView,
    a: GrammarView,
    base: Seq<char>,
    body: Seq<usize>,
    follow: Seq<usize>,
    r: usize,
    c: nat,
)
    requires
        wrapped(g, a, base, body, follow, r, c),
    ensures
        !name_taken(g, primed(base, c), body, follow),
{
    let name = primed(base, c);
    if name_taken(g, name, body, follow) {
        let s = choose|s: int| #[trigger]
            named(g, name, s) && forall|r: int| !#[trigger] rule_is(g, r, s, body, follow);
        if !name_free(g, name) {
            let t = choose|t: int| #[trigger]
                named(g, name, t) && wraps(g, r as int, t, body, follow);
            assert(s == t);
            assert(rule_is(g, r as int, s, body, follow));
        }
    }
}

/// Wrapping the body works: the canonical collection of the grammar with
/// the wrapper rule, taken as the start rule, has no conflict.
pub open spec fn works(
    g: GrammarView,
    actions: Seq<(usize, Action)>,
    base: Seq<char>,
    body: Seq<usize>,
    follow: Seq<usize>,
) -> bool {
    exists|after: GrammarView, rule: usize, count: nat| #[trigger]
        wrapped(g, after, base, body, follow, rule, count) && !lr_conflicted(after, actions, rule)
}

/// Returns `true` if the grammar, with the symbols wrapped, has an LR(1)
/// automaton without conflicts for the wrapper rule.
fn wrapper_works(grammar: &Grammar, symbols: &Vec<usize>, follow: &Vec<usize>) -> (ok: bool)
    requires
        grammar.wf(),
        symbols.len() > 0,
        follow.len() > 0,
        forall|i: int| 0 <= i < symbols.len() ==> symbols[i] < grammar.symbols.len(),
        forall|i: int| 0 <= i < follow.len() ==> follow[i] < grammar.symbols.len(),
    ensures
        ok == works(
            grammar@,
            grammar.actions@,
            symbol_name(grammar.symbols[symbols[0] as int]),
            seq![END] + symbols@,
            follow@,
        ),
{
    let mut copy = grammar.clone();
    let rule = copy.wrap_symbols(symbols.as_slice(), follow.as_slice());
    let automaton = Automaton::new(&copy, rule);
    let ok = automaton.data().is_ok();
    proof {
        let g = grammar@;
        let actions = grammar.actions@;
        let base = symbol_name(grammar.symbols[symbols[0] as int]);
        let body = seq![END] + symbols@;
        assert(copy.rules[rule as int].body[0] == END);
        assert(automaton.built(copy@, rule));
        automaton.lemma_conflict_of_grammar(copy@, rule);
        let count = choose|count: nat| #[trigger]
            wrapped(g, copy@, base, body, follow@, rule, count);
        if !ok {
            assert forall|after: GrammarView, r: usize, c: nat| #[trigger]
                wrapped(g, after, base, body, follow@, r, c) implies lr_conflicted(
                after,
                actions,
                r,
            ) by {
                lemma_wrapped_once(g, copy@, after, base, body, follow@, rule, r, count, c);
                lemma_alike_conflicted(copy@, after, actions, rule);
            }
        }
    }
    ok
}

/// The lookaheads of a wrapper before the symbols `rest` of a rule of the
/// head: FIRST of the symbols, with FOLLOW of the head in the place of ϵ; in
/// ascending order.
pub open spec fn lookaheads(g: GrammarView, rest: Seq<usize>, head: usize) -> Seq<usize> {
    choose|list: Seq<usize>|
        increasing(list) && forall|t: usize|
            list.contains(t) <==> in_first_follow(g, rest, head, t)
}

/// What the search for a wrapper gives.
pub enum Search {
    /// A wrapper of so many symbols works, and no shorter one.
    Found(nat),
    /// No wrapper works.
    Nothing,
    /// A wrapper has no lookaheads.
    Stuck,
}

/// The body of rule `r` from index `idx` on, `count` symbols of it.
pub open spec fn slice(g: GrammarView, r: int, idx: int, count: int) -> Seq<usize> {
    g.rules[r].body.subrange(idx, idx + count)
}

/// The body of rule `r` from index `idx` on.
pub open spec fn rest(g: GrammarView, r: int, idx: int) -> Seq<usize> {
    g.rules[r].body.subrange(idx, g.rules[r].body.len() as int)
}

/// The search for a wrapper of the symbols of rule `r` from index `idx`
/// on, when `count` symbols have been tried: the next longer sequence is
/// taken with the lookaheads of what comes behind it. Without lookaheads the
/// search is stuck; where wrapping works the wrapper is found; else the search
/// goes on, as long as the body has symbols.
pub open spec fn search(
    g: GrammarView,
    actions: Seq<(usize, Action)>,
    r: int,
    idx: int,
    count: nat,
) -> Search
    decreases g.rules[r].body.len() - idx - count,
{
    let body = g.rules[r].body;
    if idx < 0 || idx + count >= body.len() {
        Search::Nothing
    } else {
        let follow = lookaheads(g, rest(g, r, idx + count + 1), g.rules[r].head);
        if follow.len() == 0 {
            Search::Stuck
        } else if works(
            g,
            actions,
            symbol_name(g.symbols[body[idx] as int]),
            seq![END] + slice(g, r, idx, count as int + 1),
            follow,
        ) {
            Search::Found(count + 1)
        } else {
            search(g, actions, r, idx, count + 1)
        }
    }
}

/// The wrapper is the one of `count` symbols at the place.
spec fn wrapper_is(g: GrammarView, w: Wrapper, place: Position, count: nat) -> bool {
    &&& 1 <= count
    &&& place.1 + count <= g.rules[place.0 as int].body.len()
    &&& w.place == place
    &&& w.head == g.rules[place.0 as int].head
    &&& w.symbols@ == slice(g, place.0 as int, place.1 as int, count as int)
    &&& w.follow@ == lookaheads(
        g,
        rest(g, place.0 as int, place.1 + count),
        g.rules[place.0 as int].head,
    )
}

/// Finds a wrapper with a valid LR automaton for the symbols of rule `r`
/// from index `idx` on: the shortest sequence that works.
fn shortest_wrapper(grammar: &Grammar, r: usize, idx: usize) -> (found: Result<
    Option<Wrapper>,
    Error,
>)
    requires
        grammar.wf(),
        r < grammar.rules.len(),
        idx < grammar.rules[r as int].body.len(),
    ensures
        match found {
            Ok(Some(w)) => wrapper_ok(grammar@, w) && w.place == (r, idx),
            Ok(None) => true,
            Err(Error::Symbol(symbol)) => exists|count: int| #[trigger]
                nothing_follows(grammar@, (r, idx), count) && symbol
                    == grammar.symbols[grammar.rules[r as int].body[idx as int] as int],
            Err(_) => false,
        },
        match search(grammar@, grammar.actions@, r as int, idx as int, 0) {
            Search::Found(count) => found matches Ok(Some(w)) && wrapper_is(
                grammar@,
                w,
                (r, idx),
                count,
            ),
            Search::Nothing => found matches Ok(None),
            Search::Stuck => found is Err,
        },
{
    let ghost g = grammar@;
    let ghost actions = grammar.actions@;
    assert(g.rules[r as int] == grammar.rules[r as int]@);
    assert(g.rules[r as int].valid_in(r as int, g.symbols.len()));
    let rule = &grammar.rules[r];
    let mut symbols: Vec<usize> = Vec::new();
    let mut count: usize = 0;
    while idx + count < rule.body.len()
        invariant
            grammar.wf(),
            g == grammar@,
            actions == grammar.actions@,
            r < grammar.rules.len(),
            *rule == grammar.rules[r as int],
            g.rules[r as int] == rule@,
            g.rules[r as int].valid_in(r as int, g.symbols.len()),
            idx < rule.body.len(),
            idx + count <= rule.body.len(),
            symbols.len() == count,
            symbols@ == rule.body@.subrange(idx as int, idx + count),
            search(g, actions, r as int, idx as int, 0) == search(
                g,
                actions,
                r as int,
                idx as int,
                count as nat,
            ),
        decreases rule.body.len() - count,
    {
        let ghost tried = count;
        symbols.push(rule.body[idx + count]);
        count += 1;
        proof {
            assert(symbols@ =~= rule.body@.subrange(idx as int, idx + count));
            assert forall|i: int| 0 <= i < symbols.len() implies symbols[i]
                < grammar.symbols.len() by {
                assert(symbols[i] == rule.body[idx + i]);
            }
        }
        let tail = rule.tail(idx + count);
        assert forall|i: int| 0 <= i < tail.len() implies tail[i] < grammar.symbols.len() by {
            assert(tail[i] == rule.body[idx + count + i]);
        }
        let follow = grammar.first_follow(tail, rule.head);
        proof {
            let wanted = lookaheads(g, tail@, rule.head);
            assert(increasing(wanted) && forall|t: usize|
                wanted.contains(t) <==> in_first_follow(g, tail@, rule.head, t)) by {
                let list = follow@;
                assert(increasing(list) && forall|t: usize|
                    list.contains(t) <==> in_first_follow(g, tail@, rule.head, t));
            }
            lemma_increasing_same(follow@, wanted);
            assert(rest(g, r as int, idx + tried + 1) == tail@);
            assert(slice(g, r as int, idx as int, tried + 1) == symbols@);
        }
        if follow.len() == 0 {
            proof {
                let rest = g.rules[r as int].body.subrange(
                    idx + count,
                    g.rules[r as int].body.len() as int,
                );
                assert(rest == tail@);
                assert forall|t: usize|
                    !#[trigger] in_first_follow(g, rest, g.rules[r as int].head, t) by {
                    if in_first_follow(g, rest, rule.head, t) {
                        assert(follow@.contains(t));
                    }
                }
                assert(nothing_follows(g, (r, idx), count as int));
            }
            return Err(Error::Symbol(grammar.symbols[rule.body[idx]].clone()));
        }
        if wrapper_works(grammar, &symbols, &follow) {
            assert(symbols[0] == rule.body[idx as int]);
            return Ok(Some(Wrapper { head: rule.head, place: (r, idx), symbols, follow }));
        }
        assert(symbols[0] == rule.body[idx as int]);
    }
    Ok(None)
}

/// The members of a bit vector, as a set of IDs.
pub open spec fn marked(bits: Seq<bool>) -> Set<usize> {
    Set::new(|x: usize| x < bits.len() && bits[x as int])
}

/// The search for wrappers as it stands: the conflicted heads, those that
/// became conflicted in this round, the wrappers that were found, each as its
/// place and its number of symbols, and whether a head became conflicted in
/// this round.
pub struct Hunt {
    pub all: Seq<bool>,
    pub fresh: Seq<bool>,
    pub chosen: Seq<(Position, nat)>,
    pub grew: bool,
}

/// A bit vector of the length without a member.
pub open spec fn blank(len: nat) -> Seq<bool> {
    Seq::new(len, |i: int| false)
}

/// The search with the head conflicted.
pub open spec fn with_head(hunt: Hunt, head: int) -> Hunt {
    if 0 <= head < hunt.all.len() && 0 <= head < hunt.fresh.len() && !hunt.all[head] {
        Hunt {
            all: hunt.all.update(head, true),
            fresh: hunt.fresh.update(head, true),
            grew: true,
            ..hunt
        }
    } else {
        hunt
    }
}

/// The search after the body of rule `r` from index `idx` on: at each
/// symbol that became conflicted in the last round a wrapper is looked for.
/// The shortest one that works is taken, and the search goes on behind it;
/// where none works the head of the rule becomes conflicted and the rest of
/// the body is left out. The ID of the symbol where the search is stuck.
pub open spec fn scan_body(
    g: GrammarView,
    actions: Seq<(usize, Action)>,
    current: Seq<bool>,
    r: int,
    idx: int,
    hunt: Hunt,
) -> Result<Hunt, usize>
    decreases g.rules[r].body.len() - idx,
{
    let body = g.rules[r].body;
    if idx < 0 || idx >= body.len() {
        Ok(hunt)
    } else if !current[body[idx] as int] {
        scan_body(g, actions, current, r, idx + 1, hunt)
    } else {
        let found = search(g, actions, r, idx, 0);
        if found is Stuck {
            Err(body[idx])
        } else if found is Nothing {
            Ok(with_head(hunt, g.rules[r].head as int))
        } else {
            let count = found->Found_0;
            if count < 1 || idx + count > body.len() {
                Ok(hunt)
            } else {
                scan_body(
                    g,
                    actions,
                    current,
                    r,
                    idx + count,
                    Hunt { chosen: hunt.chosen.push(((r as usize, idx as usize), count)), ..hunt },
                )
            }
        }
    }
}

/// The search after the rules from `r` on: the rules of conflicted heads
/// are left out.
pub open spec fn scan_rules(
    g: GrammarView,
    actions: Seq<(usize, Action)>,
    current: Seq<bool>,
    r: int,
    hunt: Hunt,
) -> Result<Hunt, usize>
    decreases g.rules.len() - r,
{
    if r < 0 || r >= g.rules.len() {
        Ok(hunt)
    } else if hunt.all[g.rules[r].head as int] {
        scan_rules(g, actions, current, r + 1, hunt)
    } else {
        match scan_body(g, actions, current, r, 0, hunt) {
            Err(symbol) => Err(symbol),
            Ok(next) => scan_rules(g, actions, current, r + 1, next),
        }
    }
}

/// The wrappers are those of the places and numbers of symbols.
spec fn wrappers_are(g: GrammarView, chosen: Seq<Wrapper>, picked: Seq<(Position, nat)>) -> bool {
    &&& chosen.len() == picked.len()
    &&& forall|i: int|
        0 <= i < chosen.len() ==> wrapper_is(g, #[trigger] chosen[i], picked[i].0, picked[i].1)
}

/// Looks for wrappers in the rules of the heads that are not conflicted,
/// for the conflicted symbols of the last round. A head with a place for
/// which no wrapper works becomes conflicted itself.
fn round(
    grammar: &Grammar,
    all: &mut Vec<bool>,
    current: &Vec<bool>,
    chosen: &mut Vec<Wrapper>,
    Ghost(picked): Ghost<Seq<(Position, nat)>>,
) -> (result: Result<(Vec<bool>, bool), Error>)
    requires
        grammar.wf(),
        old(all).len() == grammar.symbols.len(),
        current.len() == grammar.symbols.len(),
        forall|i: int| 0 <= i < old(chosen).len() ==> wrapper_ok(grammar@, #[trigger] old(chosen)[i]),
        wrappers_are(grammar@, old(chosen)@, picked),
    ensures
        final(all).len() == old(all).len(),
        forall|i: int| 0 <= i < final(chosen).len() ==> wrapper_ok(grammar@, #[trigger] final(chosen)[i]),
        count_true(final(all)@) >= count_true(old(all)@),
        match result {
            Ok((fresh, grew)) => fresh.len() == grammar.symbols.len() && (grew ==> count_true(
                final(all)@,
            ) > count_true(old(all)@)),
            Err(Error::Symbol(symbol)) => exists|place: Position, count: int| #[trigger]
                nothing_follows(grammar@, place, count) && symbol
                    == grammar@.symbols[grammar@.rules[place.0 as int].body[place.1 as int] as int],
            Err(_) => false,
        },
        match scan_rules(
            grammar@,
            grammar.actions@,
            current@,
            0,
            Hunt {
                all: old(all)@,
                fresh: blank(grammar.symbols.len() as nat),
                chosen: picked,
                grew: false,
            },
        ) {
            Ok(hunt) => result matches Ok((fresh, grew)) && final(all)@ == hunt.all && fresh@
                == hunt.fresh && grew == hunt.grew && wrappers_are(
                grammar@,
                final(chosen)@,
                hunt.chosen,
            ),
            Err(id) => id < grammar.symbols.len() && result is Err && result->Err_0 is Symbol
                && result->Err_0->Symbol_0 == grammar.symbols[id as int],
        },
{
    let ghost g = grammar@;
    let ghost actions = grammar.actions@;
    let n = grammar.symbols.len();
    let mut fresh = cleared(n);
    let mut grew = false;
    let ghost start = Hunt {
        all: all@,
        fresh: blank(n as nat),
        chosen: picked,
        grew: false,
    };
    let ghost mut hunt = start;
    assert(fresh@ =~= start.fresh);
    let mut r: usize = 0;
    while r < grammar.rules.len()
        invariant
            grammar.wf(),
            g == grammar@,
            actions == grammar.actions@,
            n == grammar.symbols.len(),
            all.len() == n,
            all.len() == old(all).len(),
            current.len() == n,
            fresh.len() == n,
            r <= grammar.rules.len(),
            forall|i: int| 0 <= i < chosen.len() ==> wrapper_ok(g, #[trigger] chosen[i]),
            count_true(all@) >= count_true(old(all)@),
            grew ==> count_true(all@) > count_true(old(all)@),
            hunt.all == all@,
            hunt.fresh == fresh@,
            hunt.grew == grew,
            wrappers_are(g, chosen@, hunt.chosen),
            start == (Hunt {
                all: old(all)@,
                fresh: blank(n as nat),
                chosen: picked,
                grew: false,
            }),
            scan_rules(g, actions, current@, 0, start) == scan_rules(
                g,
                actions,
                current@,
                r as int,
                hunt,
            ),
        decreases grammar.rules.len() - r,
    {
        assert(g.rules[r as int] == grammar.rules[r as int]@);
        assert(g.rules[r as int].valid_in(r as int, g.symbols.len()));
        let rule = &grammar.rules[r];
        let head = rule.head;
        // Ignore rules for conflicting symbols.
        if !all[head] {
            let ghost before = hunt;
            let mut idx: usize = 0;
            while idx < rule.body.len()
                invariant_except_break
                    scan_body(g, actions, current@, r as int, 0, before) == scan_body(
                        g,
                        actions,
                        current@,
                        r as int,
                        idx as int,
                        hunt,
                    ),
                invariant
                    grammar.wf(),
                    g == grammar@,
                    actions == grammar.actions@,
                    n == grammar.symbols.len(),
                    r < grammar.rules.len(),
                    *rule == grammar.rules[r as int],
                    g.rules[r as int] == rule@,
                    g.rules[r as int].valid_in(r as int, g.symbols.len()),
                    head == rule.head,
                    head < n,
                    all.len() == n,
                    all.len() == old(all).len(),
                    current.len() == n,
                    fresh.len() == n,
                    forall|i: int| 0 <= i < chosen.len() ==> wrapper_ok(g, #[trigger] chosen[i]),
                    count_true(all@) >= count_true(old(all)@),
                    grew ==> count_true(all@) > count_true(old(all)@),
                    hunt.all == all@,
                    hunt.fresh == fresh@,
                    hunt.grew == grew,
                    wrappers_are(g, chosen@, hunt.chosen),
                    start == (Hunt {
                        all: old(all)@,
                        fresh: blank(n as nat),
                        chosen: picked,
                        grew: false,
                    }),
                    scan_rules(g, actions, current@, 0, start) == scan_rules(
                        g,
                        actions,
                        current@,
                        r as int,
                        before,
                    ),
                    !before.all[head as int],
                ensures
                    scan_body(g, actions, current@, r as int, 0, before) == Ok::<Hunt, usize>(hunt),
                decreases rule.body.len() - idx,
            {
                let symbol = rule.body[idx];
                assert(rule.body[idx as int] < n);
                // Ignore non-conflicting symbols.
                if !current[symbol] {
                    idx += 1;
                    continue;
                }
                match shortest_wrapper(grammar, r, idx) {
                    Err(error) => {
                        proof {
                            assert(scan_body(g, actions, current@, r as int, 0, before) == Err::<
                                Hunt,
                                usize,
                            >(symbol));
                            assert(g.rules[r as int].head == head);
                            assert(scan_rules(g, actions, current@, r as int, before) == Err::<
                                Hunt,
                                usize,
                            >(symbol));
                            assert(error is Symbol);
                            assert(error->Symbol_0 == grammar.symbols[symbol as int]);
                            assert(scan_rules(g, actions, current@, 0, start) == Err::<Hunt, usize>(
                                symbol,
                            ));
                        }
                        return Err(error);
                    },
                    Ok(None) => {
                        if !all[head] {
                            proof {
                                lemma_count_update(all@, head as int, true);
                            }
                            all[head] = true;
                            fresh[head] = true;
                            grew = true;
                        }
                        proof {
                            hunt = with_head(hunt, head as int);
                        }
                        break;
                    },
                    Ok(Some(wrapper)) => {
                        let count = wrapper.symbols.len();
                        proof {
                            let found = search(g, actions, r as int, idx as int, 0);
                            let k = found->Found_0;
                            assert(count == k);
                            assert(wrapper_ok(g, wrapper));
                            hunt = Hunt { chosen: hunt.chosen.push(((r, idx), k)), ..hunt };
                        }
                        chosen.push(wrapper);
                        idx += count;
                    },
                }
            }
        }
        r += 1;
    }
    Ok((fresh, grew))
}

/// The heads with an LL(1) conflict, as a bit vector.
pub open spec fn conflicted(g: GrammarView) -> Seq<bool> {
    Seq::new(
        g.symbols.len(),
        |h: int| clash(g, Set::<usize>::empty(), g.rules.len() as int, h as usize),
    )
}

/// The search for wrappers, round by round: each round looks at the
/// symbols that became conflicted in the round before; the search ends with
/// the first round in which no head becomes conflicted.
pub open spec fn hunt_rounds(
    g: GrammarView,
    actions: Seq<(usize, Action)>,
    all: Seq<bool>,
    current: Seq<bool>,
    chosen: Seq<(Position, nat)>,
    fuel: nat,
) -> Result<Hunt, usize>
    decreases fuel,
{
    match scan_rules(
        g,
        actions,
        current,
        0,
        Hunt { all, fresh: blank(g.symbols.len()), chosen, grew: false },
    ) {
        Err(symbol) => Err(symbol),
        Ok(hunt) => if !hunt.grew || fuel == 0 {
            Ok(hunt)
        } else {
            hunt_rounds(g, actions, hunt.all, hunt.fresh, hunt.chosen, (fuel - 1) as nat)
        },
    }
}

/// The search for wrappers of a grammar with LL(1) conflicts: it starts
/// from the heads with a conflict and has a round for each head at most.
pub open spec fn hunted(g: GrammarView, actions: Seq<(usize, Action)>) -> Result<Hunt, usize> {
    hunt_rounds(g, actions, conflicted(g), conflicted(g), Seq::empty(), g.symbols.len())
}

/// Those of the first `upto` wrappers whose rule has a head that is not
/// conflicted, in their order.
pub open spec fn kept(
    g: GrammarView,
    all: Seq<bool>,
    chosen: Seq<(Position, nat)>,
    upto: nat,
) -> Seq<(Position, nat)>
    decreases upto,
{
    if upto == 0 {
        Seq::empty()
    } else {
        let before = kept(g, all, chosen, (upto - 1) as nat);
        if all[g.rules[chosen[upto - 1].0.0 as int].head as int] {
            before
        } else {
            before.push(chosen[upto - 1])
        }
    }
}

/// The grammar `after` is the grammar `before` with the wrapper added
/// under the rule `rule`: the wrapper of so many symbols of `g` at the place,
/// with its lookaheads in `g`.
pub open spec fn installs(
    g: GrammarView,
    before: GrammarView,
    after: GrammarView,
    wrapper: (Position, nat),
    rule: usize,
) -> bool {
    let r = wrapper.0.0 as int;
    let idx = wrapper.0.1 as int;
    exists|count: nat| #[trigger]
        wrapped(
            before,
            after,
            symbol_name(g.symbols[g.rules[r].body[idx] as int]),
            seq![END] + slice(g, r, idx, wrapper.1 as int),
            lookaheads(g, rest(g, r, idx + wrapper.1), g.rules[r].head),
            rule,
            count,
        )
}

/// The grammars after each of the first wrappers is added to the one
/// before, and the rules the wrappers are added under. The canonical
/// collection of every wrapper but the last has no conflict.
pub open spec fn chain(
    g: GrammarView,
    actions: Seq<(usize, Action)>,
    wanted: Seq<(Position, nat)>,
    steps: Seq<GrammarView>,
    rules: Seq<usize>,
) -> bool {
    &&& steps.len() == rules.len() + 1
    &&& rules.len() <= wanted.len()
    &&& steps[0] == g
    &&& forall|j: int|
        0 <= j < rules.len() ==> installs(g, steps[j], steps[j + 1], wanted[j], #[trigger] rules[j])
    &&& forall|j: int|
        0 <= j < rules.len() - 1 ==> !lr_conflicted(steps[j + 1], actions, #[trigger] rules[j])
}

/// The data are those of the canonical automaton of the grammar with the
/// rule as its start rule.
pub open spec fn data_of(g: GrammarView, rule: usize, data: Data) -> bool {
    exists|automaton: Automaton| #[trigger] automaton.built(g, rule) && automaton.gives(data)
}

/// The tables are those of the wrappers, under their places: each holds
/// the data of the canonical automaton of the grammar as it was when the
/// wrapper had been added to it.
pub open spec fn tables_are(
    wanted: Seq<(Position, nat)>,
    steps: Seq<GrammarView>,
    rules: Seq<usize>,
    tables: Seq<(Position, Data)>,
) -> bool {
    &&& tables.len() == rules.len()
    &&& forall|j: int|
        0 <= j < tables.len() ==> (#[trigger] tables[j]).0 == wanted[j].0 && data_of(
            steps[j + 1],
            rules[j],
            tables[j].1,
        )
}

/// What the construction gives after the search: `steps` are the grammars
/// as the wrappers that are kept are added, `rules` the rules they are added
/// under. It gives up with the first wrapper whose canonical collection has a
/// conflict, and where the grammar with all wrappers has an LL(1) conflict
/// among the heads that are not conflicted; else it gives the LL(1) table
/// without the rules of the conflicted heads and the tables of the wrappers.
pub open spec fn built_so(
    before: GrammarView,
    actions: Seq<(usize, Action)>,
    hunt: Hunt,
    after: GrammarView,
    result: Result<(Table<usize>, Vec<(Position, Data)>), Error>,
    steps: Seq<GrammarView>,
    rules: Seq<usize>,
) -> bool {
    let wanted = kept(before, hunt.all, hunt.chosen, hunt.chosen.len());
    let ignored = marked(hunt.all);
    let last_fine = rules.len() > 0 ==> !lr_conflicted(after, actions, rules.last());
    &&& chain(before, actions, wanted, steps, rules)
    &&& steps.last() == after
    &&& match result {
        Ok(pair) => rules.len() == wanted.len() && last_fine && tables_are(
            wanted,
            steps,
            rules,
            pair.1@,
        ) && ll_table_result(after, ignored, Ok(pair.0)),
        Err(error) => error is Internal && (!last_fine || (rules.len() == wanted.len()
            && exists|h: usize| clash(after, ignored, after.rules.len() as int, h))),
    }
}

/// What the construction of the tables gives, and the grammar it leaves.
///
/// A grammar without LL(1) conflict stays as it is and has its LL(1) table
/// and no other. Otherwise wrappers are looked for; where the search is stuck
/// the error names the symbol and the grammar stays as it is. Else the
/// wrappers of the heads that are not conflicted are added to the grammar
/// one by one, and a table is built for each from its canonical automaton.
/// The construction gives up with the first wrapper whose canonical
/// collection has a conflict in the grammar as it then is, and where the
/// grammar with all wrappers has an LL(1) conflict among the heads that are
/// not conflicted. Otherwise it gives the LL(1) table without the rules of
/// the conflicted heads and the tables of the wrappers under their places.
pub open spec fn tables_exact(
    before: GrammarView,
    actions: Seq<(usize, Action)>,
    after: GrammarView,
    result: Result<(Table<usize>, Vec<(Position, Data)>), Error>,
) -> bool {
    if conflict_free(before) {
        after == before && result is Ok && result->Ok_0.1.len() == 0 && result->Ok_0.0@ == ll_map(
            before,
            Set::empty(),
        )
    } else {
        match hunted(before, actions) {
            Err(id) => after == before && result is Err && result->Err_0 is Symbol
                && result->Err_0->Symbol_0 == before.symbols[id as int],
            Ok(hunt) => exists|steps: Seq<GrammarView>, rules: Seq<usize>| #[trigger]
                built_so(before, actions, hunt, after, result, steps, rules),
        }
    }
}

/// Constructs the LL and embedded LR tables.
///
/// Wrappers are looked for until no head becomes conflicted any more. Then
/// the wrappers of the heads that are not conflicted are added to the
/// grammar, an LR(1) table is built for each, and the LL(1) table is built
/// without the rules of the conflicted heads.
pub fn get_lllr_tables(grammar: &mut Grammar) -> (result: Result<
    (Table<usize>, Vec<(Position, Data)>),
    Error,
>)
    requires
        old(grammar).wf(),
    ensures
        final(grammar).wf(),
        final(grammar).actions@ == old(grammar).actions@,
        grows(old(grammar)@, final(grammar)@),
        tables_result(old(grammar)@, final(grammar)@, result),
        tables_exact(old(grammar)@, old(grammar).actions@, final(grammar)@, result),
{
    let ghost g0 = grammar@;
    let ghost actions = grammar.actions@;
    let ghost none = Set::<usize>::empty();
    let n = grammar.symbols.len();
    let nothing: HashSet<usize> = HashSet::new();
    assert(nothing@ =~= none);
    let conflicts = match get_ll_table(grammar, &nothing) {
        Ok(table) => {
            let tables: Vec<(Position, Data)> = Vec::new();
            proof {
                lemma_ll_map(g0, none, table);
                assert(ll_part(g0, g0, table, tables@, none));
                assert(lr_part(g0, tables@));
                let built = Ok::<(Table<usize>, Vec<(Position, Data)>), Error>((table, tables));
                assert(ll_part(g0, g0, built->Ok_0.0, built->Ok_0.1@, none));
                assert(tables_result(g0, g0, built));
                assert(conflict_free(g0));
            }
            return Ok((table, tables));
        },
        Err(conflicts) => conflicts,
    };
    proof {
        assert(conflicts@.contains(conflicts[0]));
        assert(clash(g0, none, g0.rules.len() as int, conflicts[0]));
        assert(!conflict_free(g0));
    }
    // Find wrappers for conflicting symbols.
    let mut all = cleared(n);
    let mut i: usize = 0;
    while i < conflicts.len()
        invariant
            i <= conflicts.len(),
            all.len() == n,
            forall|k: int| 0 <= k < conflicts.len() ==> conflicts[k] < n,
            forall|h: int|
                0 <= h < n ==> (all[h] <==> exists|k: int| 0 <= k < i && conflicts[k] == h),
        decreases conflicts.len() - i,
    {
        all[conflicts[i]] = true;
        i += 1;
    }
    proof {
        assert forall|h: int| 0 <= h < n implies all[h] == conflicted(g0)[h] by {
            if all[h] {
                let k = choose|k: int| 0 <= k < conflicts.len() && conflicts[k] == h;
                assert(conflicts@.contains(h as usize));
            }
            if conflicted(g0)[h] {
                assert(conflicts@.contains(h as usize));
            }
        }
        assert(all@ =~= conflicted(g0));
    }
    let mut current: Vec<bool> = all.clone();
    let mut chosen: Vec<Wrapper> = Vec::new();
    let ghost mut picked: Seq<(Position, nat)> = Seq::empty();
    let ghost mut fuel: nat = n as nat;
    let ghost mut found: Hunt = arbitrary();
    assert(current@ =~= all@);
    loop
        invariant_except_break
            hunted(g0, actions) == hunt_rounds(g0, actions, all@, current@, picked, fuel),
            fuel + count_true(all@) >= n,
            wrappers_are(g0, chosen@, picked),
        invariant
            grammar.wf(),
            *grammar == *old(grammar),
            g0 == grammar@,
            g0 == old(grammar)@,
            actions == grammar.actions@,
            !conflict_free(g0),
            n == grammar.symbols.len(),
            all.len() == n,
            current.len() == n,
            forall|i: int| 0 <= i < chosen.len() ==> wrapper_ok(g0, #[trigger] chosen[i]),
        ensures
            hunted(g0, actions) == Ok::<Hunt, usize>(found),
            found.all == all@,
            wrappers_are(g0, chosen@, found.chosen),
        decreases n - count_true(all@),
    {
        proof {
            lemma_count_bound(all@);
        }
        let ghost before = all@;
        let (fresh, grew) = match round(grammar, &mut all, &current, &mut chosen, Ghost(picked)) {
            Ok(pair) => pair,
            Err(error) => {
                proof {
                    let built = Err::<(Table<usize>, Vec<(Position, Data)>), Error>(error);
                    assert(tables_exact(g0, actions, g0, built));
                }
                return Err(error);
            },
        };
        proof {
            lemma_count_bound(all@);
            let hunt = scan_rules(
                g0,
                actions,
                current@,
                0,
                Hunt {
                    all: before,
                    fresh: blank(n as nat),
                    chosen: picked,
                    grew: false,
                },
            )->Ok_0;
            picked = hunt.chosen;
            found = hunt;
        }
        if !grew {
            break;
        }
        proof {
            fuel = (fuel - 1) as nat;
        }
        current = fresh;
    }
    let mut ignored: HashSet<usize> = HashSet::new();
    let mut h: usize = 0;
    while h < n
        invariant
            h <= n,
            all.len() == n,
            forall|x: usize| ignored@.contains(x) <==> (x < h && all[x as int]),
        decreases n - h,
    {
        if all[h] {
            ignored.insert(h);
        }
        h += 1;
    }
    assert(ignored@ =~= marked(found.all));
    // Construct embedded LR tables for conflicting symbols.
    let mut tables: Vec<(Position, Data)> = Vec::new();
    let ghost mut steps: Seq<GrammarView> = seq![g0];
    let ghost mut rules: Seq<usize> = Seq::empty();
    let mut i: usize = 0;
    while i < chosen.len()
        invariant
            i <= chosen.len(),
            grammar.wf(),
            grammar.actions@ == actions,
            grows(g0, grammar@),
            g0 == old(grammar)@,
            actions == old(grammar).actions@,
            !conflict_free(g0),
            hunted(g0, actions) == Ok::<Hunt, usize>(found),
            found.all == all@,
            wrappers_are(g0, chosen@, found.chosen),
            n == g0.symbols.len(),
            g0.valid(),
            all.len() == n,
            forall|x: usize| ignored@.contains(x) <==> (x < n && all[x as int]),
            forall|k: int| 0 <= k < chosen.len() ==> wrapper_ok(g0, #[trigger] chosen[k]),
            lr_part(g0, tables@),
            forall|k: int|
                0 <= k < tables.len() ==> !ignored@.contains(
                    g0.rules[(#[trigger] tables[k]).0.0 as int].head,
                ),
            chain(g0, actions, kept(g0, found.all, found.chosen, i as nat), steps, rules),
            rules.len() == kept(g0, found.all, found.chosen, i as nat).len(),
            rules.len() > 0 ==> !lr_conflicted(steps.last(), actions, rules.last()),
            steps.last() == grammar@,
            tables_are(kept(g0, found.all, found.chosen, i as nat), steps, rules, tables@),
        decreases chosen.len() - i,
    {
        let wrapper = &chosen[i];
        let ghost so_far = kept(g0, found.all, found.chosen, i as nat);
        let ghost next = kept(g0, found.all, found.chosen, (i + 1) as nat);
        assert(wrapper_ok(g0, *wrapper));
        assert(wrapper_is(g0, *wrapper, found.chosen[i as int].0, found.chosen[i as int].1));
        assert(g0.rules[wrapper.place.0 as int].valid_in(wrapper.place.0 as int, g0.symbols.len()));
        if !all[wrapper.head] {
            proof {
                assert forall|k: int| 0 <= k < wrapper.symbols.len() implies wrapper.symbols[k]
                    < grammar.symbols.len() by {
                    assert(wrapper.symbols[k] == g0.rules[wrapper.place.0 as int].body[wrapper.place.1
                        + k]);
                }
                assert(next == so_far.push(found.chosen[i as int]));
            }
            let ghost before = tables@;
            let ghost mid = grammar@;
            let rule = grammar.wrap_symbols(wrapper.symbols.as_slice(), wrapper.follow.as_slice());
            proof {
                assert(grows(mid, grammar@));
                assert(g0.symbols.is_prefix_of(grammar@.symbols)) by {
                    assert(g0.symbols =~= grammar@.symbols.subrange(0, g0.symbols.len() as int));
                }
                assert(g0.rules.is_prefix_of(grammar@.rules)) by {
                    assert(g0.rules =~= grammar@.rules.subrange(0, g0.rules.len() as int));
                }
                let old_steps = steps;
                let old_rules = rules;
                steps = steps.push(grammar@);
                rules = rules.push(rule);
                assert(wrapper.symbols[0] == g0.rules[wrapper.place.0 as int].body[wrapper.place.1 as int]);
                assert(mid.symbols[wrapper.symbols[0] as int] == g0.symbols[wrapper.symbols[0] as int]);
                assert(installs(g0, mid, grammar@, found.chosen[i as int], rule));
                assert forall|j: int| 0 <= j < rules.len() implies installs(
                    g0,
                    steps[j],
                    steps[j + 1],
                    next[j],
                    #[trigger] rules[j],
                ) by {
                    if j < old_rules.len() {
                        assert(installs(g0, old_steps[j], old_steps[j + 1], so_far[j], old_rules[j]));
                    }
                }
                assert forall|j: int| 0 <= j < rules.len() - 1 implies !lr_conflicted(
                    steps[j + 1],
                    actions,
                    #[trigger] rules[j],
                ) by {
                    if j < old_rules.len() - 1 {
                        assert(!lr_conflicted(old_steps[j + 1], actions, old_rules[j]));
                    }
                }
                assert(chain(g0, actions, next, steps, rules));
            }
            let automaton = Automaton::new(grammar, rule);
            proof {
                assert(automaton.built(grammar@, rule));
                automaton.lemma_conflict_of_grammar(grammar@, rule);
            }
            match automaton.data() {
                Ok(data) => {
                    proof {
                        assert(data@.g.rules[rule as int] == grammar.rules[rule as int]@);
                        assert(wraps_at(g0, wrapper.place, data@)) by {
                            let k = wrapper.symbols.len() as int;
                            assert(data@.g.rules[data@.start_rule as int].body == seq![END]
                                + g0.rules[wrapper.place.0 as int].body.subrange(
                                wrapper.place.1 as int,
                                wrapper.place.1 + k,
                            ));
                        }
                    }
                    tables.push((wrapper.place, data));
                    proof {
                        assert forall|k: int| 0 <= k < tables.len() implies (#[trigger] tables[k]).1.wf()
                            && tables[k].1.grammar.symbols.len() >= n && wraps_at(
                            g0,
                            tables[k].0,
                            tables[k].1@,
                        ) && !ignored@.contains(g0.rules[tables[k].0.0 as int].head) by {
                            if k < before.len() {
                                assert(tables[k] == before[k]);
                            }
                        }
                        assert(lr_part(g0, tables@));
                        assert forall|j: int| 0 <= j < tables.len() implies (
                        #[trigger] tables[j]).0 == next[j].0 && data_of(
                            steps[j + 1],
                            rules[j],
                            tables[j].1,
                        ) by {
                            if j < before.len() {
                                assert(tables[j] == before[j]);
                            } else {
                                assert(automaton.built(grammar@, rule) && automaton.gives(
                                    tables[j].1,
                                ));
                            }
                        }
                    }
                },
                Err(_) => {
                    proof {
                        let built = Err::<(Table<usize>, Vec<(Position, Data)>), Error>(
                            Error::Internal,
                        );
                        lemma_kept_prefix(g0, found.all, found.chosen, (i + 1) as nat);
                        let wanted = kept(g0, found.all, found.chosen, found.chosen.len());
                        assert forall|j: int| 0 <= j < rules.len() implies installs(
                            g0,
                            steps[j],
                            steps[j + 1],
                            wanted[j],
                            #[trigger] rules[j],
                        ) by {
                            assert(next[j] == wanted[j]);
                        }
                        assert(chain(g0, actions, wanted, steps, rules));
                        assert(built_so(g0, actions, found, grammar@, built, steps, rules));
                        assert(exists|steps: Seq<GrammarView>, rules: Seq<usize>| #[trigger]
                            built_so(g0, actions, found, grammar@, built, steps, rules));
                        assert(hunted(g0, actions) is Ok);
                        assert(hunted(g0, actions)->Ok_0 == found);
                        assert(!conflict_free(g0));
                        assert(tables_exact(g0, actions, grammar@, built));
                    }
                    return Err(Error::Internal);
                },
            }
        } else {
            assert(next == so_far);
        }
        i += 1;
    }
    let ghost wanted = kept(g0, found.all, found.chosen, found.chosen.len());
    // Construct the LL parse table, ignoring conflicting symbols.
    let parse_table = match get_ll_table(grammar, &ignored) {
        Ok(parse_table) => parse_table,
        Err(conflicts) => {
            proof {
                let built = Err::<(Table<usize>, Vec<(Position, Data)>), Error>(Error::Internal);
                assert(conflicts@.contains(conflicts[0]));
                assert(clash(grammar@, ignored@, grammar@.rules.len() as int, conflicts[0]));
                assert(chain(g0, actions, wanted, steps, rules));
                assert(built_so(g0, actions, found, grammar@, built, steps, rules));
                assert(exists|steps: Seq<GrammarView>, rules: Seq<usize>| #[trigger]
                    built_so(g0, actions, found, grammar@, built, steps, rules));
                assert(hunted(g0, actions) is Ok);
                assert(hunted(g0, actions)->Ok_0 == found);
                assert(!conflict_free(g0));
                assert(tables_exact(g0, actions, grammar@, built));
            }
            return Err(Error::Internal);
        },
    };
    proof {
        let built = Ok::<(Table<usize>, Vec<(Position, Data)>), Error>((parse_table, tables));
        assert(ll_part(g0, grammar@, built->Ok_0.0, built->Ok_0.1@, ignored@));
        assert(tables_result(g0, grammar@, built));
        assert(chain(g0, actions, wanted, steps, rules));
        assert(tables_are(wanted, steps, rules, built->Ok_0.1@));
        assert(ll_table_result(grammar@, marked(found.all), Ok(built->Ok_0.0)));
        assert(built_so(g0, actions, found, grammar@, built, steps, rules));
        assert(exists|steps: Seq<GrammarView>, rules: Seq<usize>| #[trigger]
            built_so(g0, actions, found, grammar@, built, steps, rules));
        assert(hunted(g0, actions) is Ok);
        assert(hunted(g0, actions)->Ok_0 == found);
        assert(!conflict_free(g0));
        assert(tables_exact(g0, actions, grammar@, built));
    }
    Ok((parse_table, tables))
}

/// The wrappers that are kept of the first are the first of those that
/// are kept of all.
proof fn lemma_kept_prefix(
    g: GrammarView,
    all: Seq<bool>,
    chosen: Seq<(Position, nat)>,
    upto: nat,
)
    requires
        upto <= chosen.len(),
    ensures
        kept(g, all, chosen, upto).is_prefix_of(kept(g, all, chosen, chosen.len())),
    decreases chosen.len() - upto,
{
    if upto < chosen.len() {
        lemma_kept_prefix(g, all, chosen, upto + 1);
    }
}

/// Performs parsing using LLLR and returns the list of rules.
///
/// The wrapper rules of the embedded parsers are added to the grammar.
pub fn parse_lllr(tokens: &[Token], grammar: &mut Grammar) -> (result: Result<Vec<usize>, Error>)
    requires
        old(grammar).wf(),
        tokens_within(tokens@, old(grammar).symbols.len() as nat),
    ensures
        final(grammar).wf(),
        grows(old(grammar)@, final(grammar)@),
        final(grammar).actions@ == old(grammar).actions@,
        exists|built: Result<(Table<usize>, Vec<(Position, Data)>), Error>| #[trigger]
            tables_result(old(grammar)@, final(grammar)@, built) && tables_exact(
                old(grammar)@,
                old(grammar).actions@,
                final(grammar)@,
                built,
            ) && match built {
                Ok((table, tables)) => lllr_outcome(
                    final(grammar)@,
                    table@,
                    table_views(tables@),
                    tokens@,
                    result,
                ),
                Err(error) => result == Err::<Vec<usize>, Error>(error),
            },
        conflict_free(old(grammar)@) ==> final(grammar)@ == old(grammar)@ && ll_outcome(
            old(grammar)@,
            tokens@,
            result,
        ),
{
    let ghost g0 = grammar@;
    let built = get_lllr_tables(grammar);
    match built {
        Err(error) => {
            let ghost seen = Err::<(Table<usize>, Vec<(Position, Data)>), Error>(error);
            assert(tables_result(g0, grammar@, seen));
            Err(error)
        },
        Ok((parse_table, tables)) => {
            proof {
                let ignored = choose|ignored: Set<usize>| #[trigger]
                    ll_part(g0, grammar@, parse_table, tables@, ignored);
                assert(lr_part(g0, tables@));
                assert forall|i: int| 0 <= i < tables.len() implies tokens_within(
                    tokens@,
                    (#[trigger] tables[i]).1.grammar.symbols.len() as nat,
                ) by {}
                assert forall|k: (usize, usize)| #[trigger]
                    parse_table@.contains_key(k) implies parse_table@[k]
                    < grammar.rules.len() by {
                    assert(crate::lltable::first_offer(
                        grammar@,
                        ignored,
                        grammar@.rules.len() as int,
                        k.0,
                        k.1,
                        parse_table@[k] as int,
                    ));
                }
                assert(g0.symbols.len() <= grammar@.symbols.len());
            }
            let result = drive(tokens, grammar, &parse_table, &tables);
            proof {
                let seen = Ok::<(Table<usize>, Vec<(Position, Data)>), Error>((parse_table, tables));
                assert(tables_result(g0, grammar@, seen));
                if conflict_free(g0) {
                    assert(table_views(tables@) =~= Seq::<(Position, DataView)>::empty());
                    crate::lllr::lemma_lllr_is_ll(g0, parse_table@, tokens@, result);
                }
            }
            result
        },
    }
}

} // verus!
