//! The canonical collection of sets of LR(1) items, told from the grammar
//! alone, and what it says of an automaton: whether its ACTION table has a
//! conflict.

use crate::action::Action;
use crate::analysis::{first_closed, first_fires, first_pairs, in_first, in_first_seq, GrammarView};
use crate::automaton::{
    canonical, covered, explored, goes, initial, reached, stands_before, targeted, Automaton,
};
use crate::derive::{closure_closed, derives, in_closure, kernel_cores};
use crate::item::{symbol_at, Core, Item};
use crate::symbol::NULL;
use crate::tables::{grant, preference, shiftable, shifts, wish};
use crate::transition::StateTransition;
use vstd::prelude::*;

verus! {

/// The symbol at the dot of the core.
pub open spec fn core_head(g: GrammarView, c: Core) -> Option<usize> {
    symbol_at(g.rules[c.0 as int].body, c.1 as int)
}

/// The closure of the kernel.
pub open spec fn closure(g: GrammarView, kernel: Set<Core>) -> Set<Core> {
    Set::new(|c: Core| in_closure(g, kernel, c))
}

/// The cores of the set that stand before the symbol, with the dot moved on
/// by one.
pub open spec fn advance(g: GrammarView, set: Set<Core>, symbol: usize) -> Set<Core> {
    Set::new(
        |c: Core|
            exists|b: Core| #[trigger]
                set.contains(b) && core_head(g, b) == Some(symbol) && c == (
                    b.0,
                    (b.1 + 1) as usize,
                    b.2,
                ),
    )
}

/// The start rule with the dot at the start and each of its lookaheads.
pub open spec fn start_cores(g: GrammarView, rule: usize) -> Set<Core> {
    Set::new(|c: Core| c.0 == rule && c.1 == 0 && g.rules[rule as int].follow.contains(c.2))
}

/// The set of the collection that the path of symbols leads to from the
/// start: each symbol moves the dot on and closes the set.
pub open spec fn reach(g: GrammarView, rule: usize, path: Seq<usize>) -> Set<Core>
    decreases path.len(),
{
    if path.len() == 0 {
        start_cores(g, rule)
    } else {
        closure(g, advance(g, reach(g, rule, path.drop_last()), path.last()))
    }
}

/// The path holds no ϵ.
pub open spec fn spelled(path: Seq<usize>) -> bool {
    forall|i: int| 0 <= i < path.len() ==> path[i] != NULL
}

/// The cores of the items of a state.
pub open spec fn cores_of(items: Seq<Item>, state: Seq<usize>) -> Set<Core> {
    Set::new(
        |c: Core| exists|i: int| 0 <= i < state.len() && items[#[trigger] state[i] as int].base() == c,
    )
}

/// The core asks for an action at the symbol: to accept or to reduce at
/// its lookahead.
pub open spec fn core_asks(g: GrammarView, start_rule: usize, c: Core, symbol: usize) -> bool {
    match wish(
        Item { id: 0, rule: c.0, dot: c.1, head: core_head(g, c), lookahead: c.2, unique: true },
        start_rule,
    ) {
        Some((asked, _)) => asked == symbol,
        None => false,
    }
}

/// Two actions ask for the cell of the set and the symbol: two cores of
/// the set ask for an action at the symbol, or one does and the symbol can be
/// shifted from the set.
pub open spec fn collides(g: GrammarView, start_rule: usize, set: Set<Core>, symbol: usize) -> bool {
    exists|a: Core, b: Core|
        #![trigger set.contains(a), set.contains(b)]
        set.contains(a) && set.contains(b) && core_asks(g, start_rule, a, symbol) && ((a != b
            && core_asks(g, start_rule, b, symbol)) || (shiftable(g, symbol) && core_head(g, b)
            == Some(symbol)))
}

/// The canonical collection of the grammar, with the rule as its start
/// rule, has a set in which two actions ask for the cell of a symbol without
/// preference.
pub open spec fn lr_conflicted(
    g: GrammarView,
    actions: Seq<(usize, Action)>,
    rule: usize,
) -> bool {
    exists|path: Seq<usize>, symbol: usize|
        spelled(path) && preference(actions, symbol) is None && #[trigger] collides(
            g,
            rule,
            reach(g, rule, path),
            symbol,
        )
}

/// The kernel that a state gives with a symbol is that of its cores.
pub proof fn lemma_kernel(g: GrammarView, list: Seq<Item>, from: Seq<usize>, symbol: usize)
    requires
        forall|i: int| 0 <= i < from.len() ==> list[#[trigger] from[i] as int].fits(g),
    ensures
        kernel_cores(list, from, symbol) == advance(g, cores_of(list, from), symbol),
{
    let left = kernel_cores(list, from, symbol);
    let right = advance(g, cores_of(list, from), symbol);
    assert forall|c: Core| left.contains(c) <==> right.contains(c) by {
        if left.contains(c) {
            let p = choose|p: int|
                0 <= p < from.len() && list[#[trigger] from[p] as int].head == Some(symbol)
                    && list[from[p] as int].advanced() == c;
            let b = list[from[p] as int].base();
            assert(cores_of(list, from).contains(b));
            assert(core_head(g, b) == Some(symbol));
        }
        if right.contains(c) {
            let b = choose|b: Core| #[trigger]
                cores_of(list, from).contains(b) && core_head(g, b) == Some(symbol) && c == (
                    b.0,
                    (b.1 + 1) as usize,
                    b.2,
                );
            let i = choose|i: int|
                0 <= i < from.len() && list[#[trigger] from[i] as int].base() == b;
            assert(list[from[i] as int].head == Some(symbol));
            assert(list[from[i] as int].advanced() == c);
        }
    }
    assert(left =~= right);
}

/// The state that a state goes to with a symbol holds the closure of the
/// advanced cores.
pub proof fn lemma_goes_cores(
    g: GrammarView,
    list: Seq<Item>,
    its: Seq<crate::transition::ItemTransition>,
    from_id: usize,
    from: Seq<usize>,
    symbol: usize,
    to_id: usize,
    to: Seq<usize>,
)
    requires
        goes(g, list, its, from_id, from, symbol, to_id, to),
        forall|i: int| 0 <= i < from.len() ==> list[#[trigger] from[i] as int].fits(g),
    ensures
        cores_of(list, to) == closure(g, advance(g, cores_of(list, from), symbol)),
{
    lemma_kernel(g, list, from, symbol);
    let kernel = kernel_cores(list, from, symbol);
    let left = cores_of(list, to);
    let right = closure(g, kernel);
    assert forall|c: Core| left.contains(c) <==> right.contains(c) by {
        if left.contains(c) {
            let i = choose|i: int| 0 <= i < to.len() && list[#[trigger] to[i] as int].base() == c;
            assert(in_closure(g, kernel, list[to[i] as int].base()));
        }
        if right.contains(c) {
            assert(in_closure(g, kernel, c));
            let i = choose|i: int| 0 <= i < to.len() && list[#[trigger] to[i] as int].base() == c;
            assert(left.contains(c));
        }
    }
    assert(left =~= right);
}

/// One of the first `upto` state transitions shifts the symbol from the
/// state.
pub open spec fn shift_cell(
    g: GrammarView,
    sts: Seq<StateTransition>,
    upto: int,
    state: usize,
    symbol: usize,
) -> bool {
    exists|k: int|
        0 <= k < upto && (#[trigger] sts[k]).from == state && sts[k].symbol == symbol && shiftable(
            g,
            symbol,
        )
}

/// The cells of the shifts are those of the state transitions on symbols
/// that can be shifted.
pub proof fn lemma_shifts(g: GrammarView, sts: Seq<StateTransition>, upto: int)
    requires
        0 <= upto <= sts.len(),
    ensures
        forall|state: usize, symbol: usize| #[trigger]
            shifts(g, sts, upto).contains_key((state, symbol)) <==> shift_cell(
                g,
                sts,
                upto,
                state,
                symbol,
            ),
    decreases upto,
{
    if upto > 0 {
        lemma_shifts(g, sts, upto - 1);
        let t = sts[upto - 1];
        assert forall|state: usize, symbol: usize| #[trigger]
            shifts(g, sts, upto).contains_key((state, symbol)) <==> shift_cell(
                g,
                sts,
                upto,
                state,
                symbol,
            ) by {
            let before = shifts(g, sts, upto - 1);
            let after = shifts(g, sts, upto);
            assert(after == if shiftable(g, t.symbol) {
                before.insert((t.from, t.symbol), Action::Shift(t.to))
            } else {
                before
            });
            if shift_cell(g, sts, upto, state, symbol) {
                let k = choose|k: int|
                    0 <= k < upto && (#[trigger] sts[k]).from == state && sts[k].symbol == symbol
                        && shiftable(g, symbol);
                if k < upto - 1 {
                    assert(shift_cell(g, sts, upto - 1, state, symbol));
                    assert(before.contains_key((state, symbol)));
                }
                assert(after.contains_key((state, symbol)));
            }
            if after.contains_key((state, symbol)) {
                if before.contains_key((state, symbol)) {
                    assert(shift_cell(g, sts, upto - 1, state, symbol));
                    let k = choose|k: int|
                        0 <= k < upto - 1 && (#[trigger] sts[k]).from == state && sts[k].symbol
                            == symbol && shiftable(g, symbol);
                    assert(0 <= k < upto);
                } else {
                    assert((t.from, t.symbol) == (state, symbol));
                    assert(sts[upto - 1].from == state && sts[upto - 1].symbol == symbol
                        && shiftable(g, symbol));
                }
                assert(shift_cell(g, sts, upto, state, symbol));
            }
        }
    }
}

/// The two grammars have the same rules and the same start symbol, and
/// their symbols are of the same kinds.
pub open spec fn alike(a: GrammarView, b: GrammarView) -> bool {
    &&& a.start == b.start
    &&& a.rules == b.rules
    &&& a.symbols.len() == b.symbols.len()
    &&& forall|x: int|
        0 <= x < a.symbols.len() ==> ((#[trigger] a.symbols[x]) is NonTerminal) == (
        b.symbols[x] is NonTerminal) && (a.symbols[x] is Terminal) == (b.symbols[x] is Terminal) && (
        a.symbols[x] is End) == (b.symbols[x] is End)
}

/// Grammars that are alike have the same FIRST sets.
pub proof fn lemma_alike_first(a: GrammarView, b: GrammarView)
    requires
        alike(a, b),
    ensures
        forall|x: usize, t: usize| in_first(a, x, t) == in_first(b, x, t),
        first_pairs(a) == first_pairs(b),
        forall|alpha: Seq<usize>, t: usize| in_first_seq(a, alpha, t) == in_first_seq(b, alpha, t),
{
    assert forall|f: Set<(usize, usize)>| first_closed(a, f) == first_closed(b, f) by {
        assert forall|x: usize| a.is_terminal(x) == b.is_terminal(x) by {
            if x < a.symbols.len() {
                assert((a.symbols[x as int] is NonTerminal) == (b.symbols[x as int] is NonTerminal));
            }
        }
        assert forall|r: int, i: int, t: usize|
            first_fires(a, f, r, i, t) == first_fires(b, f, r, i, t) by {
            if 0 <= r < a.rules.len() {
                let x = a.rules[r].head;
                if x < a.symbols.len() {
                    assert((a.symbols[x as int] is NonTerminal) == (
                    b.symbols[x as int] is NonTerminal));
                }
            }
        }
    }
    assert forall|x: usize, t: usize| in_first(a, x, t) == in_first(b, x, t) by {
        assert forall|f: Set<(usize, usize)>| first_closed(a, f) == first_closed(b, f) by {}
    }
    assert(first_pairs(a) =~= first_pairs(b));
}

/// Grammars that are alike have the same closures.
pub proof fn lemma_alike_closure(a: GrammarView, b: GrammarView, kernel: Set<Core>)
    requires
        alike(a, b),
    ensures
        closure(a, kernel) == closure(b, kernel),
{
    lemma_alike_first(a, b);
    assert forall|p: Core, c: Core| derives(a, p, c) == derives(b, p, c) by {
        if p.0 < a.rules.len() && p.1 < a.rules[p.0 as int].body.len() {
            let x = a.rules[p.0 as int].body[p.1 as int];
            if x < a.symbols.len() {
                assert((a.symbols[x as int] is NonTerminal) == (b.symbols[x as int] is NonTerminal));
            }
        }
    }
    assert forall|k: Set<Core>| closure_closed(a, kernel, k) == closure_closed(b, kernel, k) by {}
    assert forall|c: Core| in_closure(a, kernel, c) == in_closure(b, kernel, c) by {
        assert forall|k: Set<Core>| closure_closed(a, kernel, k) == closure_closed(b, kernel, k) by {}
    }
    assert(closure(a, kernel) =~= closure(b, kernel));
}

/// Grammars that are alike have the same canonical collection.
pub proof fn lemma_alike_reach(a: GrammarView, b: GrammarView, rule: usize, path: Seq<usize>)
    requires
        alike(a, b),
    ensures
        reach(a, rule, path) == reach(b, rule, path),
    decreases path.len(),
{
    if path.len() == 0 {
        assert(start_cores(a, rule) =~= start_cores(b, rule));
    } else {
        lemma_alike_reach(a, b, rule, path.drop_last());
        let set = reach(a, rule, path.drop_last());
        assert(advance(a, set, path.last()) =~= advance(b, set, path.last()));
        lemma_alike_closure(a, b, advance(a, set, path.last()));
    }
}

/// Grammars that are alike have conflicts in their canonical collections
/// together.
pub proof fn lemma_alike_conflicted(
    a: GrammarView,
    b: GrammarView,
    actions: Seq<(usize, Action)>,
    rule: usize,
)
    requires
        alike(a, b),
    ensures
        lr_conflicted(a, actions, rule) == lr_conflicted(b, actions, rule),
{
    assert forall|path: Seq<usize>, symbol: usize|
        collides(a, rule, reach(a, rule, path), symbol) == collides(
            b,
            rule,
            reach(b, rule, path),
            symbol,
        ) by {
        lemma_alike_reach(a, b, rule, path);
        let set = reach(a, rule, path);
        assert(shiftable(a, symbol) == shiftable(b, symbol)) by {
            if symbol < a.symbols.len() {
                assert((a.symbols[symbol as int] is Terminal) == (
                b.symbols[symbol as int] is Terminal));
            }
        }
        assert forall|c: Core, d: Core|
            (set.contains(c) && set.contains(d) && core_asks(a, rule, c, symbol) && ((c != d
                && core_asks(a, rule, d, symbol)) || (shiftable(a, symbol) && core_head(a, d)
                == Some(symbol)))) == (set.contains(c) && set.contains(d) && core_asks(
                b,
                rule,
                c,
                symbol,
            ) && ((c != d && core_asks(b, rule, d, symbol)) || (shiftable(b, symbol) && core_head(
                b,
                d,
            ) == Some(symbol)))) by {}
    }
    if lr_conflicted(a, actions, rule) {
        let (path, symbol) = choose|path: Seq<usize>, symbol: usize|
            spelled(path) && preference(actions, symbol) is None && #[trigger] collides(
                a,
                rule,
                reach(a, rule, path),
                symbol,
            );
        assert(collides(b, rule, reach(b, rule, path), symbol));
    }
    if lr_conflicted(b, actions, rule) {
        let (path, symbol) = choose|path: Seq<usize>, symbol: usize|
            spelled(path) && preference(actions, symbol) is None && #[trigger] collides(
                b,
                rule,
                reach(b, rule, path),
                symbol,
            );
        assert(collides(a, rule, reach(a, rule, path), symbol));
    }
}

impl Automaton {
    /// The item at place `j` of state `t` asks for an action at the symbol.
    pub open spec fn asks_at(&self, t: int, j: int, symbol: usize) -> bool {
        &&& 0 <= t < self.states.len()
        &&& 0 <= j < self.states[t].items.len()
        &&& match wish(self.items[self.states[t].items[j] as int], self.start_rule) {
            Some((asked, _)) => asked == symbol,
            None => false,
        }
    }

    /// The item at place `j` of state `t` asks for an action at a symbol
    /// without preference whose cell is taken: by a shift, or by an item
    /// that comes before it in the state.
    pub open spec fn clashes_at(&self, t: int, j: int, symbol: usize) -> bool {
        &&& self.asks_at(t, j, symbol)
        &&& preference(self.grammar.actions@, symbol) is None
        &&& (shift_cell(
            self.grammar@,
            self.state_transitions@,
            self.state_transitions.len() as int,
            t as usize,
            symbol,
        ) || exists|m: int| 0 <= m < j && #[trigger] self.asks_at(t, m, symbol))
    }

    /// Place `j` of state `t` comes before place `i` of state `s`.
    pub open spec fn comes_first(s: int, i: int, t: int, j: int) -> bool {
        t < s || (t == s && j < i)
    }

    /// The cells of the ACTION table under construction are those of the
    /// shifts and of the items that have asked; it is a conflict exactly if
    /// one of them asked at a symbol without preference for a cell that was
    /// taken.
    pub proof fn lemma_actions(&self, s: int, i: int)
        requires
            0 <= s <= self.states.len(),
            0 <= i,
            s < self.states.len() ==> i <= self.states[s].items.len(),
            s == self.states.len() ==> i == 0,
        ensures
            match self.actions_upto(s, i) {
                Ok(table) => {
                    &&& forall|t: usize, x: usize| #[trigger]
                        table.contains_key((t, x)) <==> (shift_cell(
                            self.grammar@,
                            self.state_transitions@,
                            self.state_transitions.len() as int,
                            t,
                            x,
                        ) || exists|j: int|
                            Self::comes_first(s, i, t as int, j) && #[trigger] self.asks_at(
                                t as int,
                                j,
                                x,
                            ))
                    &&& forall|t: int, j: int, x: usize|
                        Self::comes_first(s, i, t, j) ==> !#[trigger] self.clashes_at(t, j, x)
                },
                Err(_) => exists|t: int, j: int, x: usize|
                    Self::comes_first(s, i, t, j) && #[trigger] self.clashes_at(t, j, x),
            },
        decreases s, i,
    {
        let g = self.grammar@;
        let sts = self.state_transitions@;
        let n = sts.len() as int;
        if i > 0 {
            self.lemma_actions(s, i - 1);
            let asked = wish(self.items[self.states[s].items[i - 1] as int], self.start_rule);
            match self.actions_upto(s, i - 1) {
                Err(_) => {
                    let (t, j, x) = choose|t: int, j: int, x: usize|
                        Self::comes_first(s, i - 1, t, j) && #[trigger] self.clashes_at(t, j, x);
                    assert(Self::comes_first(s, i, t, j) && self.clashes_at(t, j, x));
                },
                Ok(before) => {
                    let after = grant(before, self.grammar.actions@, s as usize, asked);
                    assert(self.actions_upto(s, i) == after);
                    match asked {
                        None => {
                            assert forall|t: usize, x: usize| #[trigger]
                                before.contains_key((t, x)) <==> (shift_cell(g, sts, n, t, x)
                                    || exists|j: int|
                                    Self::comes_first(s, i, t as int, j) && #[trigger] self.asks_at(
                                        t as int,
                                        j,
                                        x,
                                    )) by {
                                if exists|j: int|
                                    Self::comes_first(s, i, t as int, j) && #[trigger] self.asks_at(
                                        t as int,
                                        j,
                                        x,
                                    ) {
                                    let j = choose|j: int|
                                        Self::comes_first(s, i, t as int, j)
                                            && #[trigger] self.asks_at(t as int, j, x);
                                    assert(Self::comes_first(s, i - 1, t as int, j));
                                }
                                if exists|j: int|
                                    Self::comes_first(s, i - 1, t as int, j)
                                        && #[trigger] self.asks_at(t as int, j, x) {
                                    let j = choose|j: int|
                                        Self::comes_first(s, i - 1, t as int, j)
                                            && #[trigger] self.asks_at(t as int, j, x);
                                    assert(Self::comes_first(s, i, t as int, j));
                                }
                            }
                            assert forall|t: int, j: int, x: usize|
                                Self::comes_first(s, i, t, j) implies !#[trigger] self.clashes_at(
                                t,
                                j,
                                x,
                            ) by {
                                if !Self::comes_first(s, i - 1, t, j) {
                                    assert(!self.asks_at(t, j, x));
                                }
                            }
                        },
                        Some((symbol, action)) => {
                            assert(self.asks_at(s, i - 1, symbol));
                            assert(Self::comes_first(s, i, s, i - 1));
                            let taken = before.contains_key((s as usize, symbol));
                            if taken {
                                if !shift_cell(g, sts, n, s as usize, symbol) {
                                    let m = choose|m: int|
                                        Self::comes_first(s, i - 1, s, m)
                                            && #[trigger] self.asks_at(s, m, symbol);
                                    assert(0 <= m < i - 1 && self.asks_at(s, m, symbol));
                                }
                            } else {
                                assert forall|m: int| 0 <= m < i - 1 implies !#[trigger] self.asks_at(
                                    s,
                                    m,
                                    symbol,
                                ) by {
                                    if self.asks_at(s, m, symbol) {
                                        assert(Self::comes_first(s, i - 1, s, m));
                                    }
                                }
                            }
                            if taken && preference(self.grammar.actions@, symbol) is None {
                                assert(self.clashes_at(s, i - 1, symbol));
                            } else {
                                let table = after->Ok_0;
                                assert forall|t: usize, x: usize| #[trigger]
                                    table.contains_key((t, x)) <==> (shift_cell(g, sts, n, t, x)
                                        || exists|j: int|
                                        Self::comes_first(s, i, t as int, j)
                                            && #[trigger] self.asks_at(t as int, j, x)) by {
                                    if exists|j: int|
                                        Self::comes_first(s, i, t as int, j)
                                            && #[trigger] self.asks_at(t as int, j, x) {
                                        let j = choose|j: int|
                                            Self::comes_first(s, i, t as int, j)
                                                && #[trigger] self.asks_at(t as int, j, x);
                                        if !Self::comes_first(s, i - 1, t as int, j) {
                                            assert(t == s && j == i - 1 && x == symbol);
                                        }
                                    }
                                    if exists|j: int|
                                        Self::comes_first(s, i - 1, t as int, j)
                                            && #[trigger] self.asks_at(t as int, j, x) {
                                        let j = choose|j: int|
                                            Self::comes_first(s, i - 1, t as int, j)
                                                && #[trigger] self.asks_at(t as int, j, x);
                                        assert(Self::comes_first(s, i, t as int, j));
                                    }
                                    if before.contains_key((t, x)) != table.contains_key((t, x)) {
                                        assert(t == s && x == symbol);
                                    }
                                }
                                assert forall|t: int, j: int, x: usize|
                                    Self::comes_first(
                                        s,
                                        i,
                                        t,
                                        j,
                                    ) implies !#[trigger] self.clashes_at(t, j, x) by {
                                    if !Self::comes_first(s, i - 1, t, j) && self.clashes_at(t, j, x) {
                                        assert(t == s && j == i - 1 && x == symbol);
                                    }
                                }
                            }
                        },
                    }
                },
            }
        } else if s > 0 {
            self.lemma_actions(s - 1, self.states[s - 1].items.len() as int);
            let len = self.states[s - 1].items.len() as int;
            match self.actions_upto(s - 1, len) {
                Err(_) => {
                    let (t, j, x) = choose|t: int, j: int, x: usize|
                        Self::comes_first(s - 1, len, t, j) && #[trigger] self.clashes_at(t, j, x);
                    assert(Self::comes_first(s, 0, t, j) && self.clashes_at(t, j, x));
                },
                Ok(table) => {
                    assert forall|t: usize, x: usize| #[trigger]
                        table.contains_key((t, x)) <==> (shift_cell(g, sts, n, t, x) || exists|
                            j: int,
                        |
                            Self::comes_first(s, 0, t as int, j) && #[trigger] self.asks_at(
                                t as int,
                                j,
                                x,
                            )) by {
                        if exists|j: int|
                            Self::comes_first(s, 0, t as int, j) && #[trigger] self.asks_at(
                                t as int,
                                j,
                                x,
                            ) {
                            let j = choose|j: int|
                                Self::comes_first(s, 0, t as int, j) && #[trigger] self.asks_at(
                                    t as int,
                                    j,
                                    x,
                                );
                            assert(Self::comes_first(s - 1, len, t as int, j));
                        }
                        if exists|j: int|
                            Self::comes_first(s - 1, len, t as int, j) && #[trigger] self.asks_at(
                                t as int,
                                j,
                                x,
                            ) {
                            let j = choose|j: int|
                                Self::comes_first(s - 1, len, t as int, j)
                                    && #[trigger] self.asks_at(t as int, j, x);
                            assert(Self::comes_first(s, 0, t as int, j));
                        }
                    }
                    assert forall|t: int, j: int, x: usize|
                        Self::comes_first(s, 0, t, j) implies !#[trigger] self.clashes_at(
                        t,
                        j,
                        x,
                    ) by {
                        if self.clashes_at(t, j, x) {
                            assert(Self::comes_first(s - 1, len, t, j));
                        }
                    }
                },
            }
        } else {
            lemma_shifts(g, sts, n);
            assert forall|t: int, j: int, x: usize|
                Self::comes_first(0, 0, t, j) implies !#[trigger] self.clashes_at(t, j, x) by {}
        }
    }

    /// The automaton is the canonical one of the grammar with the rule as
    /// its start rule: its first state holds the initial items, every
    /// transition leads to what its origin derives, every state has a
    /// transition for each symbol it stands before, and every state but the
    /// first is reached from an earlier one.
    pub open spec fn built(&self, g: GrammarView, rule: usize) -> bool {
        &&& self.wf()
        &&& self.grammar@ == g
        &&& self.start_rule == rule
        &&& initial(g, rule, self.items@, self.states[0].items@)
        &&& canonical(
            g,
            self.items@,
            self.states@,
            self.state_transitions@,
            self.item_transitions@,
        )
        &&& explored(
            self.items@,
            self.states@,
            self.state_transitions@,
            self.states.len() as int,
        )
        &&& reached(self.states.len() as nat, self.state_transitions@)
    }

    /// The first state holds the start rule with the dot at the start and
    /// each of its lookaheads.
    pub proof fn lemma_first_state(&self, g: GrammarView, rule: usize)
        requires
            self.built(g, rule),
        ensures
            cores_of(self.items@, self.states[0].items@) == start_cores(g, rule),
    {
        let items = self.items@;
        let first = self.states[0].items@;
        let left = cores_of(items, first);
        let right = start_cores(g, rule);
        assert forall|c: Core| left.contains(c) <==> right.contains(c) by {
            if left.contains(c) {
                let i = choose|i: int|
                    0 <= i < first.len() && items[#[trigger] first[i] as int].base() == c;
            }
            if right.contains(c) {
                let k = choose|k: int|
                    0 <= k < g.rules[rule as int].follow.len() && g.rules[rule as int].follow[k]
                        == c.2;
                assert(crate::automaton::has_lookahead(
                    items,
                    first,
                    g.rules[rule as int].follow[k],
                ));
                let i = choose|i: int|
                    0 <= i < first.len() && items[#[trigger] first[i] as int].lookahead == c.2;
                assert(items[first[i] as int].base() == c);
            }
        }
        assert(left =~= right);
    }

    /// Every state holds the set of the collection that a path leads to.
    pub proof fn lemma_state_path(&self, g: GrammarView, rule: usize, s: int) -> (path: Seq<usize>)
        requires
            self.built(g, rule),
            0 <= s < self.states.len(),
        ensures
            spelled(path),
            cores_of(self.items@, self.states[s].items@) == reach(g, rule, path),
        decreases s,
    {
        let items = self.items@;
        let sts = self.state_transitions@;
        assert(self.states[s].wf(items));
        if s == 0 {
            let path = Seq::<usize>::empty();
            self.lemma_first_state(g, rule);
            path
        } else {
            assert(targeted(sts, s as usize));
            let k = choose|k: int|
                0 <= k < sts.len() && (#[trigger] sts[k]).to == s as usize && sts[k].from < s as usize;
            let from = sts[k].from as int;
            let before = self.lemma_state_path(g, rule, from);
            let path = before.push(sts[k].symbol);
            assert(path.drop_last() =~= before);
            assert(goes(
                g,
                items,
                self.item_transitions@,
                sts[k].from,
                self.states[from].items@,
                sts[k].symbol,
                sts[k].to,
                self.states[sts[k].to as int].items@,
            ));
            assert(self.states[from].wf(items));
            lemma_goes_cores(
                g,
                items,
                self.item_transitions@,
                sts[k].from,
                self.states[from].items@,
                sts[k].symbol,
                sts[k].to,
                self.states[s].items@,
            );
            assert(covered(sts, sts[k].from, sts[k].symbol));
            assert(sts[k].symbol != NULL);
            path
        }
    }

    /// Every set of the collection that holds a core is that of a state.
    pub proof fn lemma_path_state(&self, g: GrammarView, rule: usize, path: Seq<usize>) -> (s: int)
        requires
            self.built(g, rule),
            spelled(path),
            exists|c: Core| reach(g, rule, path).contains(c),
        ensures
            0 <= s < self.states.len(),
            cores_of(self.items@, self.states[s].items@) == reach(g, rule, path),
        decreases path.len(),
    {
        let items = self.items@;
        let sts = self.state_transitions@;
        if path.len() == 0 {
            self.lemma_first_state(g, rule);
            0
        } else {
            let before = path.drop_last();
            let symbol = path.last();
            let set = reach(g, rule, before);
            let kernel = advance(g, set, symbol);
            let c = choose|c: Core| reach(g, rule, path).contains(c);
            assert(in_closure(g, kernel, c));
            if forall|d: Core| !kernel.contains(d) {
                let none = Set::<Core>::empty();
                assert forall|p: Core, q: Core| none.contains(p) && #[trigger] crate::derive::derives(
                    g,
                    p,
                    q,
                ) implies none.contains(q) by {}
                assert(closure_closed(g, kernel, none));
                assert(none.contains(c));
                assert(false);
            }
            let d = choose|d: Core| kernel.contains(d);
            let b = choose|b: Core| #[trigger]
                set.contains(b) && core_head(g, b) == Some(symbol) && d == (
                    b.0,
                    (b.1 + 1) as usize,
                    b.2,
                );
            assert(spelled(before)) by {
                assert forall|i: int| 0 <= i < before.len() implies before[i] != NULL by {
                    assert(before[i] == path[i]);
                }
            }
            let from = self.lemma_path_state(g, rule, before);
            let state = self.states[from].items@;
            assert(self.states[from].wf(items));
            assert(cores_of(items, state).contains(b));
            let i = choose|i: int| 0 <= i < state.len() && items[#[trigger] state[i] as int].base() == b;
            assert(items[state[i] as int].head == Some(symbol));
            assert(stands_before(items, state, symbol));
            assert(path[path.len() - 1] != NULL);
            assert(covered(sts, from as usize, symbol));
            let k = choose|k: int|
                0 <= k < sts.len() && (#[trigger] sts[k]).from == from as usize && sts[k].symbol
                    == symbol;
            assert(crate::automaton::state_edge_ok(g, self.states@, sts[k]));
            assert(goes(
                g,
                items,
                self.item_transitions@,
                sts[k].from,
                self.states[sts[k].from as int].items@,
                sts[k].symbol,
                sts[k].to,
                self.states[sts[k].to as int].items@,
            ));
            lemma_goes_cores(
                g,
                items,
                self.item_transitions@,
                sts[k].from,
                state,
                symbol,
                sts[k].to,
                self.states[sts[k].to as int].items@,
            );
            sts[k].to as int
        }
    }

    /// The ACTION table has a conflict exactly if an item asks for an
    /// action at a symbol without preference whose cell is taken.
    pub proof fn lemma_conflict(&self)
        ensures
            self.action_result() is Err <==> exists|t: int, j: int, x: usize| #[trigger]
                self.clashes_at(t, j, x),
    {
        let s = self.states.len() as int;
        self.lemma_actions(s, 0);
        if exists|t: int, j: int, x: usize| #[trigger] self.clashes_at(t, j, x) {
            let (t, j, x) = choose|t: int, j: int, x: usize| #[trigger] self.clashes_at(t, j, x);
            assert(Self::comes_first(s, 0, t, j));
        }
    }

    /// The ACTION table of the canonical automaton has a conflict exactly
    /// if the canonical collection of the grammar has one.
    pub proof fn lemma_conflict_of_grammar(&self, g: GrammarView, rule: usize)
        requires
            self.built(g, rule),
        ensures
            self.action_result() is Err <==> lr_conflicted(g, self.grammar.actions@, rule),
    {
        let items = self.items@;
        let sts = self.state_transitions@;
        let actions = self.grammar.actions@;
        self.lemma_conflict();
        if self.action_result() is Err {
            let (t, j, x) = choose|t: int, j: int, x: usize| #[trigger] self.clashes_at(t, j, x);
            let path = self.lemma_state_path(g, rule, t);
            let state = self.states[t].items@;
            assert(self.states[t].wf(items));
            let set = cores_of(items, state);
            let a = items[state[j] as int].base();
            assert(set.contains(a));
            assert(core_asks(g, rule, a, x));
            if shift_cell(g, sts, sts.len() as int, t as usize, x) {
                let k = choose|k: int|
                    0 <= k < sts.len() && (#[trigger] sts[k]).from == t as usize && sts[k].symbol
                        == x && shiftable(g, x);
                assert(covered(sts, t as usize, x));
                assert(stands_before(items, state, x));
                let i = choose|i: int|
                    0 <= i < state.len() && items[#[trigger] state[i] as int].head == Some(x);
                let b = items[state[i] as int].base();
                assert(set.contains(b));
                assert(core_head(g, b) == Some(x));
                assert(collides(g, rule, set, x));
            } else {
                let m = choose|m: int| 0 <= m < j && #[trigger] self.asks_at(t, m, x);
                let b = items[state[m] as int].base();
                assert(set.contains(b));
                assert(core_asks(g, rule, b, x));
                assert(a != b);
                assert(collides(g, rule, set, x));
            }
            assert(collides(g, rule, reach(g, rule, path), x));
        }
        if lr_conflicted(g, actions, rule) {
            let (path, x) = choose|path: Seq<usize>, x: usize|
                spelled(path) && preference(actions, x) is None && #[trigger] collides(
                    g,
                    rule,
                    reach(g, rule, path),
                    x,
                );
            let set = reach(g, rule, path);
            let (a, b) = choose|a: Core, b: Core|
                #![trigger set.contains(a), set.contains(b)]
                set.contains(a) && set.contains(b) && core_asks(g, rule, a, x) && ((a != b
                    && core_asks(g, rule, b, x)) || (shiftable(g, x) && core_head(g, b) == Some(
                    x,
                )));
            let s = self.lemma_path_state(g, rule, path);
            let state = self.states[s].items@;
            assert(self.states[s].wf(items));
            assert(cores_of(items, state).contains(a));
            assert(cores_of(items, state).contains(b));
            let ja = choose|i: int| 0 <= i < state.len() && items[#[trigger] state[i] as int].base() == a;
            let jb = choose|i: int| 0 <= i < state.len() && items[#[trigger] state[i] as int].base() == b;
            assert(self.asks_at(s, ja, x));
            if a != b && core_asks(g, rule, b, x) {
                assert(self.asks_at(s, jb, x));
                if jb < ja {
                    assert(self.clashes_at(s, ja, x));
                } else {
                    assert(self.clashes_at(s, jb, x));
                }
            } else {
                assert(items[state[jb] as int].head == Some(x));
                assert(stands_before(items, state, x));
                assert(x != NULL);
                assert(covered(sts, s as usize, x));
                let k = choose|k: int|
                    0 <= k < sts.len() && (#[trigger] sts[k]).from == s as usize && sts[k].symbol
                        == x;
                assert(shift_cell(g, sts, sts.len() as int, s as usize, x));
                assert(self.clashes_at(s, ja, x));
            }
        }
    }

    /// The item at place `j` of state `t` asks for the action at the symbol.
    pub open spec fn wishes_at(&self, t: int, j: int, symbol: usize, action: Action) -> bool {
        &&& 0 <= t < self.states.len()
        &&& 0 <= j < self.states[t].items.len()
        &&& wish(self.items[self.states[t].items[j] as int], self.start_rule) == Some(
            (symbol, action),
        )
    }

    /// The action of the cell is a shift of a state transition, or what an
    /// item of the state asks for.
    pub open spec fn cell_from(&self, key: (usize, usize), action: Action) -> bool {
        if action is Shift {
            shift_cell(
                self.grammar@,
                self.state_transitions@,
                self.state_transitions.len() as int,
                key.0,
                key.1,
            )
        } else {
            exists|j: int| #[trigger] self.wishes_at(key.0 as int, j, key.1, action)
        }
    }

    /// Every action of the ACTION table under construction is a shift of a
    /// state transition, or what an item of its state asks for.
    pub proof fn lemma_action_values(&self, s: int, i: int)
        requires
            0 <= s <= self.states.len(),
            0 <= i,
            s < self.states.len() ==> i <= self.states[s].items.len(),
            s == self.states.len() ==> i == 0,
        ensures
            self.actions_upto(s, i) matches Ok(table) ==> forall|key: (usize, usize)| #[trigger]
                table.contains_key(key) ==> self.cell_from(key, table[key]),
        decreases s, i,
    {
        let g = self.grammar@;
        let sts = self.state_transitions@;
        let n = sts.len() as int;
        if i > 0 {
            self.lemma_action_values(s, i - 1);
            let asked = wish(self.items[self.states[s].items[i - 1] as int], self.start_rule);
            match self.actions_upto(s, i - 1) {
                Err(_) => {},
                Ok(before) => {
                    match self.actions_upto(s, i) {
                        Err(_) => {},
                        Ok(table) => {
                            assert forall|key: (usize, usize)| #[trigger]
                                table.contains_key(key) implies self.cell_from(
                                key,
                                table[key],
                            ) by {
                                assert(self.actions_upto(s, i) == grant(
                                    before,
                                    self.grammar.actions@,
                                    s as usize,
                                    asked,
                                ));
                                if before.contains_key(key) && before[key] == table[key] {
                                    assert(self.cell_from(key, before[key]));
                                } else {
                                    assert(asked is Some);
                                    let pair = asked->0;
                                    let symbol = pair.0;
                                    let action = pair.1;
                                    assert(key == (s as usize, symbol));
                                    assert(table[key] == action);
                                    assert(self.wishes_at(s, i - 1, symbol, action));
                                    assert(!(action is Shift));
                                    assert(self.wishes_at(key.0 as int, i - 1, key.1, table[key]));
                                }
                            }
                        },
                    }
                },
            }
        } else if s > 0 {
            self.lemma_action_values(s - 1, self.states[s - 1].items.len() as int);
        } else {
            lemma_shifts(g, sts, n);
            lemma_shift_values(g, sts, n);
        }
    }

    /// In the canonical automaton an item of the start rule has one of the
    /// lookaheads of the start rule, where the head of that rule is no
    /// nonterminal.
    pub proof fn lemma_start_lookahead(&self, g: GrammarView, rule: usize, s: int, j: int)
        requires
            self.built(g, rule),
            !g.is_nonterminal(g.rules[rule as int].head),
            0 <= s < self.states.len(),
            0 <= j < self.states[s].items.len(),
            self.items[self.states[s].items[j] as int].rule == rule,
        ensures
            g.rules[rule as int].follow.contains(
                self.items[self.states[s].items[j] as int].lookahead,
            ),
    {
        let path = self.lemma_state_path(g, rule, s);
        lemma_reach_start(g, rule, path);
        let item = self.items[self.states[s].items[j] as int];
        assert(cores_of(self.items@, self.states[s].items@).contains(item.base()));
    }
}

/// The shifts are shifts.
pub proof fn lemma_shift_values(g: GrammarView, sts: Seq<StateTransition>, upto: int)
    requires
        0 <= upto <= sts.len(),
    ensures
        forall|key: (usize, usize)| #[trigger]
            shifts(g, sts, upto).contains_key(key) ==> shifts(g, sts, upto)[key] is Shift,
    decreases upto,
{
    if upto > 0 {
        lemma_shift_values(g, sts, upto - 1);
    }
}

/// A core of the start rule in a set of the canonical collection has one
/// of the lookaheads of that rule, where its head is no nonterminal.
pub proof fn lemma_reach_start(g: GrammarView, rule: usize, path: Seq<usize>)
    requires
        !g.is_nonterminal(g.rules[rule as int].head),
    ensures
        forall|c: Core| #[trigger]
            reach(g, rule, path).contains(c) && c.0 == rule ==> g.rules[rule as int].follow.contains(
                c.2,
            ),
    decreases path.len(),
{
    if path.len() > 0 {
        lemma_reach_start(g, rule, path.drop_last());
        let before = reach(g, rule, path.drop_last());
        let kernel = advance(g, before, path.last());
        let k = Set::new(|c: Core| c.0 == rule ==> g.rules[rule as int].follow.contains(c.2));
        assert(closure_closed(g, kernel, k)) by {
            assert forall|c: Core| #[trigger] kernel.contains(c) implies k.contains(c) by {
                let b = choose|b: Core| #[trigger]
                    before.contains(b) && core_head(g, b) == Some(path.last()) && c == (
                        b.0,
                        (b.1 + 1) as usize,
                        b.2,
                    );
            }
            assert forall|p: Core, c: Core| k.contains(p) && #[trigger] derives(
                g,
                p,
                c,
            ) implies k.contains(c) by {}
        }
        assert forall|c: Core| #[trigger]
            reach(g, rule, path).contains(c) && c.0 == rule implies g.rules[rule as int].follow.contains(
            c.2,
        ) by {
            assert(in_closure(g, kernel, c));
            assert(k.contains(c));
        }
    }
}

} // verus!
