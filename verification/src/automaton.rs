//! The canonical LR(1) automaton of a grammar.

use crate::analysis::GrammarView;
use crate::derive::{
    closure_edge, derived, derives, fades_away, in_closure, kernel_cores, kernel_edge,
    lemma_fades_frame,
};
use crate::item::Core;
use crate::grammar::Grammar;
use crate::item::Item;
use crate::state::{ItemTable, State, StateTable};
use crate::symbol::{END, NULL};
use crate::transition::{ItemTransition, StateTransition, Transition};
use crate::util::{increasing, insert_unique};
use vstd::prelude::*;

verus! {

/// The `Automaton` struct describes the automaton for a grammar.
pub struct Automaton {
    pub grammar: Grammar,
    pub start_rule: usize,
    pub states: Vec<State>,
    pub state_transitions: Vec<StateTransition>,
    pub items: Vec<Item>,
    pub item_transitions: Vec<ItemTransition>,
}

/// An item of the state stands before the symbol.
pub open spec fn stands_before(items: Seq<Item>, state: Seq<usize>, symbol: usize) -> bool {
    exists|i: int| 0 <= i < state.len() && items[#[trigger] state[i] as int].head == Some(symbol)
}

/// The transition leads from a state to a state.
pub open spec fn state_edge_ok(g: GrammarView, states: Seq<State>, t: StateTransition) -> bool {
    t.from < states.len() && t.to < states.len() && t.symbol < g.symbols.len()
}

/// The transition leads from an item of a state to an item of a state.
pub open spec fn item_edge_ok(g: GrammarView, states: Seq<State>, t: ItemTransition) -> bool {
    &&& t.from.0 < states.len()
    &&& t.to.0 < states.len()
    &&& states[t.from.0 as int].items@.contains(t.from.1)
    &&& states[t.to.0 as int].items@.contains(t.to.1)
    &&& t.symbol < g.symbols.len()
}

/// The items, states and transitions fit together.
pub open spec fn parts_ok(
    g: GrammarView,
    items: Seq<Item>,
    states: Seq<State>,
    state_transitions: Seq<StateTransition>,
    item_transitions: Seq<ItemTransition>,
) -> bool {
    &&& forall|i: int| 0 <= i < items.len() ==> (#[trigger] items[i]).id == i && items[i].fits(g)
    &&& forall|i: int, j: int|
        0 <= i < j < items.len() ==> (#[trigger] items[i]).key() != (#[trigger] items[j]).key()
    &&& forall|s: int| 0 <= s < states.len() ==> (#[trigger] states[s]).id == s && states[s].wf(items)
    &&& forall|s: int, t: int|
        0 <= s < t < states.len() ==> (#[trigger] states[s]).items@ != (#[trigger] states[t]).items@
    &&& forall|k: int|
        0 <= k < state_transitions.len() ==> state_edge_ok(g, states, #[trigger] state_transitions[k])
    &&& forall|k: int|
        0 <= k < item_transitions.len() ==> item_edge_ok(g, states, #[trigger] item_transitions[k])
}

/// A transition with the symbol leaves the state.
pub open spec fn covered(transitions: Seq<StateTransition>, state: usize, symbol: usize) -> bool {
    exists|k: int|
        0 <= k < transitions.len() && (#[trigger] transitions[k]).from == state
            && transitions[k].symbol == symbol
}

/// From each state before `upto` exactly one transition leaves for each
/// symbol but ϵ that an item of the state stands before, and no other.
pub open spec fn explored(
    items: Seq<Item>,
    states: Seq<State>,
    transitions: Seq<StateTransition>,
    upto: int,
) -> bool {
    &&& forall|s: usize, symbol: usize|
        s < upto && s < states.len() ==> ((symbol != NULL && stands_before(
            items,
            states[s as int].items@,
            symbol,
        )) <==> #[trigger] covered(transitions, s, symbol))
    &&& forall|k: int, m: int|
        0 <= k < m < transitions.len() ==> !((#[trigger] transitions[k]).from == (
        #[trigger] transitions[m]).from && transitions[k].symbol == transitions[m].symbol)
}

/// The state `to` is what the state `from` derives with the symbol: its
/// items are, by rule, dot and lookahead, the closure of the kernel, and the
/// transitions of the kernel are among `its`; an item of the kernel is unique
/// only if the item it comes from is, and an item of the state is unique
/// unless it cannot be.
pub open spec fn goes(
    g: GrammarView,
    list: Seq<Item>,
    its: Seq<ItemTransition>,
    from_id: usize,
    from: Seq<usize>,
    symbol: usize,
    to_id: usize,
    to: Seq<usize>,
) -> bool {
    let kernel = kernel_cores(list, from, symbol);
    &&& forall|i: int|
        0 <= i < to.len() ==> in_closure(g, kernel, list[#[trigger] to[i] as int].base())
    &&& forall|c: Core| #[trigger]
        in_closure(g, kernel, c) ==> exists|i: int|
            0 <= i < to.len() && list[#[trigger] to[i] as int].base() == c
    &&& forall|x: ItemTransition| #[trigger]
        kernel_edge(list, from_id, from, symbol, to_id, to, x) ==> its.contains(x) && (list[x.to.1 as int].unique
            ==> list[x.from.1 as int].unique)
    &&& forall|i: int|
        0 <= i < to.len() ==> (list[#[trigger] to[i] as int].unique <==> !fades_away(
            g,
            list,
            from_id,
            from,
            symbol,
            to_id,
            to,
            to[i],
        ))
}

/// The transitions of the closure of the state are among `its`; an item is
/// unique only if the items the closure derives it from are unique, stand at
/// the same place of the same rule, and are not the item itself.
pub open spec fn closed(
    g: GrammarView,
    list: Seq<Item>,
    its: Seq<ItemTransition>,
    id: usize,
    to: Seq<usize>,
) -> bool {
    &&& forall|x: ItemTransition| #[trigger]
        closure_edge(g, list, id, to, x) ==> its.contains(x) && (list[x.to.1 as int].unique
            ==> x.from.1 != x.to.1 && list[x.from.1 as int].unique)
    &&& forall|x: ItemTransition, y: ItemTransition|
        #![trigger closure_edge(g, list, id, to, x), closure_edge(g, list, id, to, y)]
        closure_edge(g, list, id, to, x) && closure_edge(g, list, id, to, y) && x.to.1 == y.to.1
            && list[x.to.1 as int].unique ==> list[x.from.1 as int].rule
            == list[y.from.1 as int].rule && list[x.from.1 as int].dot == list[y.from.1 as int].dot
}

/// The item transition belongs to a state transition, as one of its kernel,
/// or to a state, as one of its closure.
pub open spec fn explained(
    g: GrammarView,
    list: Seq<Item>,
    states: Seq<State>,
    sts: Seq<StateTransition>,
    x: ItemTransition,
) -> bool {
    ||| exists|k: int|
        0 <= k < sts.len() && kernel_edge(
            list,
            (#[trigger] sts[k]).from,
            states[sts[k].from as int].items@,
            sts[k].symbol,
            sts[k].to,
            states[sts[k].to as int].items@,
            x,
        )
    ||| x.to.0 < states.len() && closure_edge(g, list, x.to.0, states[x.to.0 as int].items@, x)
}

/// Every state transition leads to the state that its origin derives with
/// its symbol, every state holds the transitions of its closure, and every
/// item transition belongs to one of the two.
pub open spec fn canonical(
    g: GrammarView,
    list: Seq<Item>,
    states: Seq<State>,
    sts: Seq<StateTransition>,
    its: Seq<ItemTransition>,
) -> bool {
    &&& forall|k: int|
        0 <= k < sts.len() ==> goes(
            g,
            list,
            its,
            (#[trigger] sts[k]).from,
            states[sts[k].from as int].items@,
            sts[k].symbol,
            sts[k].to,
            states[sts[k].to as int].items@,
        )
    &&& forall|s: int|
        0 <= s < states.len() ==> closed(g, list, its, s as usize, (#[trigger] states[s]).items@)
    &&& forall|k: int| 0 <= k < its.len() ==> explained(g, list, states, sts, #[trigger] its[k])
}

/// A state that is well formed stays so when items are added to the list.
pub proof fn lemma_state_frame(state: State, list: Seq<Item>, longer: Seq<Item>)
    requires
        state.wf(list),
        list.is_prefix_of(longer),
    ensures
        state.wf(longer),
{
    assert forall|a: int, b: int| 0 <= a < b < state.items.len() implies longer[state.items[a] as int].base()
        != longer[state.items[b] as int].base() by {
        assert(longer[state.items[a] as int] == list[state.items[a] as int]);
        assert(longer[state.items[b] as int] == list[state.items[b] as int]);
    }
}

/// The kernel of a state stays the same when items are added to the list.
pub proof fn lemma_kernel_frame(list: Seq<Item>, longer: Seq<Item>, from: Seq<usize>, symbol: usize)
    requires
        list.is_prefix_of(longer),
        forall|i: int| 0 <= i < from.len() ==> #[trigger] from[i] < list.len(),
    ensures
        kernel_cores(longer, from, symbol) == kernel_cores(list, from, symbol),
{
    assert forall|p: int| 0 <= p < from.len() implies longer[#[trigger] from[p] as int]
        == list[from[p] as int] by {}
    assert(kernel_cores(longer, from, symbol) =~= kernel_cores(list, from, symbol));
}

/// What a state derives stays what it is when items and transitions are
/// added.
pub proof fn lemma_goes_frame(
    g: GrammarView,
    list: Seq<Item>,
    its: Seq<ItemTransition>,
    longer: Seq<Item>,
    more: Seq<ItemTransition>,
    from_id: usize,
    from: Seq<usize>,
    symbol: usize,
    to_id: usize,
    to: Seq<usize>,
)
    requires
        goes(g, list, its, from_id, from, symbol, to_id, to),
        list.is_prefix_of(longer),
        its.is_prefix_of(more),
        forall|i: int| 0 <= i < from.len() ==> #[trigger] from[i] < list.len(),
        forall|i: int| 0 <= i < to.len() ==> #[trigger] to[i] < list.len(),
    ensures
        goes(g, longer, more, from_id, from, symbol, to_id, to),
{
    lemma_kernel_frame(list, longer, from, symbol);
    let kernel = kernel_cores(list, from, symbol);
    assert forall|i: int| 0 <= i < to.len() implies in_closure(
        g,
        kernel,
        longer[#[trigger] to[i] as int].base(),
    ) by {
        assert(longer[to[i] as int] == list[to[i] as int]);
    }
    assert forall|c: Core| #[trigger] in_closure(g, kernel, c) implies exists|i: int|
        0 <= i < to.len() && longer[#[trigger] to[i] as int].base() == c by {
        let i = choose|i: int| 0 <= i < to.len() && list[#[trigger] to[i] as int].base() == c;
        assert(longer[to[i] as int] == list[to[i] as int]);
    }
    assert forall|x: ItemTransition| #[trigger]
        kernel_edge(longer, from_id, from, symbol, to_id, to, x) implies more.contains(x) && (
    longer[x.to.1 as int].unique ==> longer[x.from.1 as int].unique) by {
        let a = choose|a: int| 0 <= a < from.len() && from[a] == x.from.1;
        let b = choose|b: int| 0 <= b < to.len() && to[b] == x.to.1;
        assert(longer[from[a] as int] == list[from[a] as int]);
        assert(longer[to[b] as int] == list[to[b] as int]);
        assert(kernel_edge(list, from_id, from, symbol, to_id, to, x));
        let k = choose|k: int| 0 <= k < its.len() && its[k] == x;
        assert(more[k] == x);
    }
    assert forall|i: int| 0 <= i < to.len() implies (longer[#[trigger] to[i] as int].unique
        <==> !fades_away(g, longer, from_id, from, symbol, to_id, to, to[i])) by {
        assert(longer[to[i] as int] == list[to[i] as int]);
        assert forall|j: int| 0 <= j < from.len() implies list[#[trigger] from[j] as int]
            == longer[from[j] as int] by {}
        assert forall|j: int| 0 <= j < to.len() implies list[#[trigger] to[j] as int]
            == longer[to[j] as int] by {}
        lemma_fades_frame(g, list, longer, from_id, from, symbol, to_id, to_id, to, to[i]);
    }
}

/// The closure of a state stays what it is when items and transitions are
/// added.
pub proof fn lemma_closed_frame(
    g: GrammarView,
    list: Seq<Item>,
    its: Seq<ItemTransition>,
    longer: Seq<Item>,
    more: Seq<ItemTransition>,
    id: usize,
    to: Seq<usize>,
)
    requires
        closed(g, list, its, id, to),
        list.is_prefix_of(longer),
        its.is_prefix_of(more),
        forall|i: int| 0 <= i < to.len() ==> #[trigger] to[i] < list.len(),
    ensures
        closed(g, longer, more, id, to),
{
    assert forall|x: ItemTransition| #[trigger] closure_edge(g, longer, id, to, x) implies closure_edge(
        g,
        list,
        id,
        to,
        x,
    ) && longer[x.from.1 as int] == list[x.from.1 as int] && longer[x.to.1 as int]
        == list[x.to.1 as int] by {
        let a = choose|a: int| 0 <= a < to.len() && to[a] == x.from.1;
        let b = choose|b: int| 0 <= b < to.len() && to[b] == x.to.1;
        assert(longer[to[a] as int] == list[to[a] as int]);
        assert(longer[to[b] as int] == list[to[b] as int]);
    }
    assert forall|x: ItemTransition| #[trigger] closure_edge(g, longer, id, to, x) implies more.contains(
        x,
    ) && (longer[x.to.1 as int].unique ==> x.from.1 != x.to.1 && longer[x.from.1 as int].unique) by {
        assert(closure_edge(g, list, id, to, x));
        let k = choose|k: int| 0 <= k < its.len() && its[k] == x;
        assert(more[k] == x);
    }
    assert forall|x: ItemTransition, y: ItemTransition|
        #![trigger closure_edge(g, longer, id, to, x), closure_edge(g, longer, id, to, y)]
        closure_edge(g, longer, id, to, x) && closure_edge(g, longer, id, to, y) && x.to.1
            == y.to.1 && longer[x.to.1 as int].unique implies longer[x.from.1 as int].rule
        == longer[y.from.1 as int].rule && longer[x.from.1 as int].dot
        == longer[y.from.1 as int].dot by {
        assert(closure_edge(g, list, id, to, x));
        assert(closure_edge(g, list, id, to, y));
    }
}

/// An item transition that is explained stays so when items are added to the
/// list.
pub proof fn lemma_explained_frame(
    g: GrammarView,
    list: Seq<Item>,
    longer: Seq<Item>,
    states: Seq<State>,
    sts: Seq<StateTransition>,
    x: ItemTransition,
)
    requires
        explained(g, list, states, sts, x),
        list.is_prefix_of(longer),
        forall|s: int| 0 <= s < states.len() ==> (#[trigger] states[s]).wf(list),
        forall|k: int| 0 <= k < sts.len() ==> state_edge_ok(g, states, #[trigger] sts[k]),
    ensures
        explained(g, longer, states, sts, x),
{
    if exists|k: int|
        0 <= k < sts.len() && kernel_edge(
            list,
            (#[trigger] sts[k]).from,
            states[sts[k].from as int].items@,
            sts[k].symbol,
            sts[k].to,
            states[sts[k].to as int].items@,
            x,
        ) {
        let k = choose|k: int|
            0 <= k < sts.len() && kernel_edge(
                list,
                (#[trigger] sts[k]).from,
                states[sts[k].from as int].items@,
                sts[k].symbol,
                sts[k].to,
                states[sts[k].to as int].items@,
                x,
            );
        let from = states[sts[k].from as int];
        let to = states[sts[k].to as int];
        assert(from.wf(list) && to.wf(list));
        let a = choose|a: int| 0 <= a < from.items.len() && from.items[a] == x.from.1;
        let b = choose|b: int| 0 <= b < to.items.len() && to.items[b] == x.to.1;
        assert(longer[from.items[a] as int] == list[from.items[a] as int]);
        assert(longer[to.items[b] as int] == list[to.items[b] as int]);
        assert(kernel_edge(
            longer,
            sts[k].from,
            states[sts[k].from as int].items@,
            sts[k].symbol,
            sts[k].to,
            states[sts[k].to as int].items@,
            x,
        ));
    } else {
        let to = states[x.to.0 as int];
        assert(to.wf(list));
        let a = choose|a: int| 0 <= a < to.items.len() && to.items[a] == x.from.1;
        let b = choose|b: int| 0 <= b < to.items.len() && to.items[b] == x.to.1;
        assert(longer[to.items[a] as int] == list[to.items[a] as int]);
        assert(longer[to.items[b] as int] == list[to.items[b] as int]);
    }
}

/// An item of the state has the lookahead.
pub open spec fn has_lookahead(items: Seq<Item>, state: Seq<usize>, lookahead: usize) -> bool {
    exists|i: int| 0 <= i < state.len() && items[#[trigger] state[i] as int].lookahead == lookahead
}

/// The items of the first state are the initial items of the start rule,
/// one for each of its lookaheads.
pub open spec fn initial(g: GrammarView, rule: usize, items: Seq<Item>, first: Seq<usize>) -> bool {
    &&& forall|i: int|
        0 <= i < first.len() ==> {
            let item = items[#[trigger] first[i] as int];
            &&& item.rule == rule
            &&& item.dot == 0
            &&& item.unique
            &&& g.rules[rule as int].follow.contains(item.lookahead)
        }
    &&& forall|k: int|
        0 <= k < g.rules[rule as int].follow.len() ==> has_lookahead(
            items,
            first,
            #[trigger] g.rules[rule as int].follow[k],
        )
}

/// A state holds the item.
pub open spec fn in_state(states: Seq<State>, item: usize) -> bool {
    exists|s: int| 0 <= s < states.len() && (#[trigger] states[s]).items@.contains(item)
}

/// Every item of the list is an item of a state.
pub open spec fn housed(count: nat, states: Seq<State>) -> bool {
    forall|k: usize| k < count ==> #[trigger] in_state(states, k)
}

/// A transition leads to the state from an earlier one.
pub open spec fn targeted(sts: Seq<StateTransition>, s: usize) -> bool {
    exists|k: int| 0 <= k < sts.len() && (#[trigger] sts[k]).to == s && sts[k].from < s
}

/// Every state but the first is the target of a transition from an earlier
/// state.
pub open spec fn reached(count: nat, sts: Seq<StateTransition>) -> bool {
    forall|s: usize| 0 < s < count ==> #[trigger] targeted(sts, s)
}

/// The first transition comes before the second: it leaves an earlier
/// state, or the same state with a smaller symbol.
pub open spec fn comes_before(a: StateTransition, b: StateTransition) -> bool {
    a.from < b.from || (a.from == b.from && a.symbol < b.symbol)
}

/// The transitions are listed in the order of their origins and, for one
/// origin, of their symbols.
pub open spec fn ordered(sts: Seq<StateTransition>) -> bool {
    forall|k: int, m: int|
        0 <= k < m < sts.len() ==> comes_before(#[trigger] sts[k], #[trigger] sts[m])
}

/// A transition leads to state `s` before any leads to state `t`.
pub open spec fn led(sts: Seq<StateTransition>, s: usize, t: usize) -> bool {
    exists|k: int|
        0 <= k < sts.len() && (#[trigger] sts[k]).to == s && forall|m: int|
            0 <= m <= k ==> (#[trigger] sts[m]).to != t
}

/// The states are numbered in the order in which the transitions reach
/// them.
pub open spec fn numbered(count: nat, sts: Seq<StateTransition>) -> bool {
    forall|s: usize, t: usize| 0 < s < t < count ==> #[trigger] led(sts, s, t)
}

/// Whether an item of a state stands before a symbol does not change when
/// items are added to the list.
pub proof fn lemma_stands_frame(list: Seq<Item>, longer: Seq<Item>, state: Seq<usize>, symbol: usize)
    requires
        list.is_prefix_of(longer),
        forall|i: int| 0 <= i < state.len() ==> #[trigger] state[i] < list.len(),
    ensures
        stands_before(longer, state, symbol) == stands_before(list, state, symbol),
{
    if stands_before(longer, state, symbol) {
        let i = choose|i: int|
            0 <= i < state.len() && longer[#[trigger] state[i] as int].head == Some(symbol);
        assert(list[state[i] as int] == longer[state[i] as int]);
    }
    if stands_before(list, state, symbol) {
        let i = choose|i: int|
            0 <= i < state.len() && list[#[trigger] state[i] as int].head == Some(symbol);
        assert(list[state[i] as int] == longer[state[i] as int]);
    }
}

/// What was explored stays explored when items, states and a transition
/// from a later state are added.
pub proof fn lemma_explored_frame(
    list: Seq<Item>,
    longer: Seq<Item>,
    states: Seq<State>,
    more_states: Seq<State>,
    sts: Seq<StateTransition>,
    more: Seq<StateTransition>,
    upto: int,
)
    requires
        explored(list, states, sts, upto),
        upto < states.len(),
        list.is_prefix_of(longer),
        states.is_prefix_of(more_states),
        more.len() == sts.len() + 1,
        sts.is_prefix_of(more),
        more.last().from == upto,
        !covered(sts, upto as usize, more.last().symbol),
        forall|s: int| 0 <= s < states.len() ==> (#[trigger] states[s]).wf(list),
    ensures
        explored(longer, more_states, more, upto),
{
    assert forall|s: usize, symbol: usize| s < upto && s < more_states.len() implies ((symbol
        != NULL && stands_before(longer, more_states[s as int].items@, symbol)) <==> #[trigger] covered(
        more,
        s,
        symbol,
    )) by {
        assert(more_states[s as int] == states[s as int]);
        assert(states[s as int].wf(list));
        lemma_stands_frame(list, longer, states[s as int].items@, symbol);
        if covered(more, s, symbol) {
            let k = choose|k: int|
                0 <= k < more.len() && (#[trigger] more[k]).from == s && more[k].symbol == symbol;
            assert(sts[k] == more[k]);
        }
        if covered(sts, s, symbol) {
            let k = choose|k: int|
                0 <= k < sts.len() && (#[trigger] sts[k]).from == s && sts[k].symbol == symbol;
            assert(sts[k] == more[k]);
        }
    }
    assert forall|k: int, m: int| 0 <= k < m < more.len() implies !((#[trigger] more[k]).from == (
    #[trigger] more[m]).from && more[k].symbol == more[m].symbol) by {
        assert(more[k] == sts[k]);
        if m < sts.len() {
            assert(more[m] == sts[m]);
        }
    }
}

/// The automaton under construction.
struct Builder {
    items: ItemTable,
    states: StateTable,
    state_transitions: Vec<StateTransition>,
    item_transitions: Vec<ItemTransition>,
}

impl Builder {
    /// The tables are well formed, and what has been built fits together and
    /// is canonical.
    spec fn inv(&self, g: GrammarView) -> bool {
        &&& self.items.wf()
        &&& self.items.fit(g)
        &&& self.states.wf()
        &&& parts_ok(
            g,
            self.items.list@,
            self.states.list@,
            self.state_transitions@,
            self.item_transitions@,
        )
        &&& canonical(
            g,
            self.items.list@,
            self.states.list@,
            self.state_transitions@,
            self.item_transitions@,
        )
    }
}

/// The transition is one of the first `upto` transitions, not on ϵ, with the
/// state of its target replaced.
pub open spec fn came_from(
    transitions: Seq<ItemTransition>,
    upto: int,
    id: usize,
    x: ItemTransition,
) -> bool {
    exists|i: int|
        0 <= i < upto && (#[trigger] transitions[i]).symbol != NULL && x == retarget(
            transitions[i],
            id,
        )
}

/// The transition with the state of its target replaced.
pub open spec fn retarget(t: ItemTransition, id: usize) -> ItemTransition {
    Transition { from: t.from, to: (id, t.to.1), symbol: t.symbol }
}

impl Builder {
    /// The items of the table are fit to be the items of an automaton.
    proof fn lemma_items(&self, g: GrammarView)
        requires
            self.items.wf(),
            self.items.fit(g),
        ensures
            forall|i: int|
                0 <= i < self.items.list.len() ==> (#[trigger] self.items.list[i]).id == i
                    && self.items.list[i].fits(g),
            forall|i: int, j: int|
                0 <= i < j < self.items.list.len() ==> (#[trigger] self.items.list[i]).key() != (
                #[trigger] self.items.list[j]).key(),
    {
        let keys = crate::intern::item_keys(self.items.index);
        assert forall|i: int, j: int| 0 <= i < j < self.items.list.len() implies (
        #[trigger] self.items.list[i]).key() != (#[trigger] self.items.list[j]).key() by {
            assert(keys[i] == self.items.list[i].key());
            assert(keys[j] == self.items.list[j].key());
        }
    }

    /// The states of the table are fit to be the states of an automaton.
    proof fn lemma_states(&self)
        requires
            self.states.wf(),
        ensures
            forall|s: int, t: int|
                0 <= s < t < self.states.list.len() ==> (#[trigger] self.states.list[s]).items@ != (
                #[trigger] self.states.list[t]).items@,
    {
        let keys = crate::intern::state_keys(self.states.index);
        assert forall|s: int, t: int| 0 <= s < t < self.states.list.len() implies (
        #[trigger] self.states.list[s]).items@ != (#[trigger] self.states.list[t]).items@ by {
            assert(keys[s] == self.states.list[s].items@);
            assert(keys[t] == self.states.list[t].items@);
        }
    }

    /// Derives the next state of state `cursor` with the symbol, and adds
    /// it, or the state that holds the same items, with its transitions.
    #[verifier::rlimit(60)]
    fn step(&mut self, grammar: &Grammar, cursor: usize, symbol: usize)
        requires
            grammar.wf(),
            old(self).inv(grammar@),
            cursor < old(self).states.list.len(),
            symbol != NULL,
            stands_before(
                old(self).items.list@,
                old(self).states.list[cursor as int].items@,
                symbol,
            ),
            housed(old(self).items.list.len() as nat, old(self).states.list@),
        ensures
            final(self).inv(grammar@),
            housed(final(self).items.list.len() as nat, final(self).states.list@),
            old(self).items.list@.is_prefix_of(final(self).items.list@),
            old(self).states.list@.is_prefix_of(final(self).states.list@),
            old(self).item_transitions@.is_prefix_of(final(self).item_transitions@),
            final(self).state_transitions@.len() == old(self).state_transitions@.len() + 1,
            old(self).state_transitions@.is_prefix_of(final(self).state_transitions@),
            final(self).state_transitions@.last().from == cursor,
            final(self).state_transitions@.last().symbol == symbol,
            final(self).states.list.len() == old(self).states.list.len() || (final(self).states.list.len()
                == old(self).states.list.len() + 1 && final(self).state_transitions@.last().to
                == old(self).states.list.len()),
    {
        let ghost g = grammar@;
        let ghost list0 = self.items.list@;
        let ghost states0 = self.states.list@;
        let ghost sts0 = self.state_transitions@;
        let ghost its0 = self.item_transitions@;
        let ghost from = states0[cursor as int].items@;
        let state_id = self.states.list.len();
        assert(states0[cursor as int].wf(list0));
        let result = self.states.list[cursor].derive(symbol, grammar, &mut self.items, state_id);
        let ghost list = self.items.list@;
        proof {
            let i = choose|i: int|
                0 <= i < from.len() && list0[#[trigger] from[i] as int].head == Some(symbol);
            assert(result is Some);
            let item = list0[from[i] as int];
            assert(item.fits(g));
            assert(g.rules[item.rule as int].valid_in(item.rule as int, g.symbols.len()));
            assert(symbol < g.symbols.len());
            self.lemma_items(g);
            self.lemma_states();
            assert forall|s: int| 0 <= s < states0.len() implies (#[trigger] states0[s]).wf(list) by {
                lemma_state_frame(states0[s], list0, list);
            }
        }
        match result {
            None => {},
            Some((next, transitions)) => {
                let ghost to = next.items@;
                assert(derived(g, list, cursor, from, symbol, state_id, to, transitions@));
                match self.states.find(&next.items) {
                    Some(existing) => {
                        self.state_transitions.push(Transition::new(cursor, existing, symbol));
                        let ghost sts = self.state_transitions@;
                        let mut j: usize = 0;
                        while j < transitions.len()
                            invariant
                                j <= transitions.len(),
                                self.items.list@ == list,
                                self.items.wf(),
                                self.items.fit(g),
                                self.states.wf(),
                                self.states.list@ == states0,
                                self.state_transitions@ == sts,
                                its0.is_prefix_of(self.item_transitions@),
                                forall|i: int|
                                    0 <= i < j && (#[trigger] transitions[i]).symbol != NULL
                                        ==> self.item_transitions@.contains(
                                        retarget(transitions[i], existing),
                                    ),
                                forall|k: int|
                                    its0.len() <= k < self.item_transitions.len() ==> came_from(
                                        transitions@,
                                        j as int,
                                        existing,
                                        #[trigger] self.item_transitions[k],
                                    ),
                            decreases transitions.len() - j,
                        {
                            let t = transitions[j];
                            if t.symbol != NULL {
                                let ghost mid = self.item_transitions@;
                                self.item_transitions.push(
                                    Transition::new(t.from, (existing, t.to.1), t.symbol),
                                );
                                proof {
                                    let now = self.item_transitions@;
                                    assert(now[now.len() - 1] == retarget(t, existing));
                                    assert forall|i: int|
                                        0 <= i < j + 1 && (#[trigger] transitions[i]).symbol
                                            != NULL implies now.contains(
                                        retarget(transitions[i], existing),
                                    ) by {
                                        if i < j {
                                            let k = choose|k: int|
                                                0 <= k < mid.len() && mid[k] == retarget(
                                                    transitions[i],
                                                    existing,
                                                );
                                            assert(now[k] == mid[k]);
                                        }
                                    }
                                    assert forall|k: int|
                                        its0.len() <= k < now.len() implies came_from(
                                        transitions@,
                                        j + 1,
                                        existing,
                                        #[trigger] now[k],
                                    ) by {
                                        if k < mid.len() {
                                            assert(came_from(
                                                transitions@,
                                                j as int,
                                                existing,
                                                mid[k],
                                            ));
                                            let i = choose|i: int|
                                                0 <= i < j && (#[trigger] transitions@[i]).symbol
                                                    != NULL && mid[k] == retarget(
                                                    transitions@[i],
                                                    existing,
                                                );
                                            assert(now[k] == mid[k]);
                                            assert(transitions@[i].symbol != NULL && now[k]
                                                == retarget(transitions@[i], existing));
                                        } else {
                                            assert(transitions@[j as int].symbol != NULL && now[k]
                                                == retarget(transitions@[j as int], existing));
                                        }
                                    }
                                }
                            }
                            j += 1;
                        }
                        proof {
                            let its = self.item_transitions@;
                            let target = states0[existing as int].items@;
                            assert(target == to);
                            assert forall|k: usize| k < list.len() implies #[trigger] in_state(
                                states0,
                                k,
                            ) by {
                                if k < list0.len() {
                                    assert(in_state(states0, k));
                                } else {
                                    assert(states0[existing as int].items@.contains(k));
                                }
                            }
                            let last = sts.len() - 1;
                            assert(sts[last] == (Transition {
                                from: cursor,
                                to: existing,
                                symbol,
                            }));
                            assert forall|k: int| 0 <= k < sts.len() implies state_edge_ok(
                                g,
                                states0,
                                #[trigger] sts[k],
                            ) by {
                                if k < last {
                                    assert(sts[k] == sts0[k]);
                                }
                            }
                            // A retargeted transition of the kernel is one of the kernel.
                            assert forall|i: int|
                                0 <= i < transitions.len() && (#[trigger] transitions[i]).symbol
                                    != NULL implies kernel_edge(
                                list,
                                cursor,
                                from,
                                symbol,
                                existing,
                                to,
                                retarget(transitions[i], existing),
                            ) by {
                                assert(transitions@.contains(transitions[i]));
                            }
                            assert forall|k: int| 0 <= k < its.len() implies item_edge_ok(
                                g,
                                states0,
                                #[trigger] its[k],
                            ) && explained(g, list, states0, sts, its[k]) by {
                                if k < its0.len() {
                                    assert(its[k] == its0[k]);
                                    assert(explained(g, list0, states0, sts0, its0[k]));
                                    lemma_explained_frame(g, list0, list, states0, sts0, its0[k]);
                                    if exists|m: int|
                                        0 <= m < sts0.len() && kernel_edge(
                                            list,
                                            (#[trigger] sts0[m]).from,
                                            states0[sts0[m].from as int].items@,
                                            sts0[m].symbol,
                                            sts0[m].to,
                                            states0[sts0[m].to as int].items@,
                                            its0[k],
                                        ) {
                                        let m = choose|m: int|
                                            0 <= m < sts0.len() && kernel_edge(
                                                list,
                                                (#[trigger] sts0[m]).from,
                                                states0[sts0[m].from as int].items@,
                                                sts0[m].symbol,
                                                sts0[m].to,
                                                states0[sts0[m].to as int].items@,
                                                its0[k],
                                            );
                                        assert(sts[m] == sts0[m]);
                                    }
                                } else {
                                    assert(came_from(
                                        transitions@,
                                        transitions.len() as int,
                                        existing,
                                        its[k],
                                    ));
                                    let i = choose|i: int|
                                        0 <= i < transitions.len() && (
                                        #[trigger] transitions@[i]).symbol != NULL && its[k]
                                            == retarget(transitions@[i], existing);
                                    assert(kernel_edge(
                                        list,
                                        sts[last].from,
                                        states0[sts[last].from as int].items@,
                                        sts[last].symbol,
                                        sts[last].to,
                                        states0[sts[last].to as int].items@,
                                        its[k],
                                    ));
                                }
                            }
                            assert forall|k: int| 0 <= k < sts.len() implies goes(
                                g,
                                list,
                                its,
                                (#[trigger] sts[k]).from,
                                states0[sts[k].from as int].items@,
                                sts[k].symbol,
                                sts[k].to,
                                states0[sts[k].to as int].items@,
                            ) by {
                                if k < last {
                                    assert(sts[k] == sts0[k]);
                                    assert(states0[sts0[k].from as int].wf(list0));
                                    assert(states0[sts0[k].to as int].wf(list0));
                                    lemma_goes_frame(
                                        g,
                                        list0,
                                        its0,
                                        list,
                                        its,
                                        sts0[k].from,
                                        states0[sts0[k].from as int].items@,
                                        sts0[k].symbol,
                                        sts0[k].to,
                                        states0[sts0[k].to as int].items@,
                                    );
                                } else {
                                    assert forall|x: ItemTransition| #[trigger]
                                        kernel_edge(
                                            list,
                                            cursor,
                                            from,
                                            symbol,
                                            existing,
                                            to,
                                            x,
                                        ) implies its.contains(x) && (list[x.to.1 as int].unique
                                        ==> list[x.from.1 as int].unique) by {
                                        let y = retarget(x, state_id);
                                        assert(kernel_edge(
                                            list,
                                            cursor,
                                            from,
                                            symbol,
                                            state_id,
                                            to,
                                            y,
                                        ));
                                        assert(transitions@.contains(y));
                                        let i = choose|i: int|
                                            0 <= i < transitions.len() && transitions[i] == y;
                                        assert(retarget(transitions[i], existing) == x);
                                    }
                                    assert forall|i: int| 0 <= i < to.len() implies (list[
                                    #[trigger] to[i] as int].unique <==> !fades_away(
                                        g,
                                        list,
                                        cursor,
                                        from,
                                        symbol,
                                        existing,
                                        to,
                                        to[i],
                                    )) by {
                                        lemma_fades_frame(
                                            g,
                                            list,
                                            list,
                                            cursor,
                                            from,
                                            symbol,
                                            state_id,
                                            existing,
                                            to,
                                            to[i],
                                        );
                                    }
                                }
                            }
                            assert forall|s: int| 0 <= s < states0.len() implies closed(
                                g,
                                list,
                                its,
                                s as usize,
                                (#[trigger] states0[s]).items@,
                            ) by {
                                assert(states0[s].wf(list0));
                                lemma_closed_frame(
                                    g,
                                    list0,
                                    its0,
                                    list,
                                    its,
                                    s as usize,
                                    states0[s].items@,
                                );
                            }
                        }
                    },
                    None => {
                        let id = self.states.insert(next.items);
                        self.state_transitions.push(Transition::new(cursor, id, symbol));
                        let ghost sts = self.state_transitions@;
                        let ghost states = self.states.list@;
                        let mut j: usize = 0;
                        while j < transitions.len()
                            invariant
                                j <= transitions.len(),
                                self.items.list@ == list,
                                self.items.wf(),
                                self.items.fit(g),
                                self.states.wf(),
                                self.states.list@ == states,
                                self.state_transitions@ == sts,
                                self.item_transitions@ == its0 + transitions@.subrange(0, j as int),
                            decreases transitions.len() - j,
                        {
                            self.item_transitions.push(transitions[j]);
                            assert(transitions@.subrange(0, j + 1) =~= transitions@.subrange(
                                0,
                                j as int,
                            ).push(transitions[j as int]));
                            assert(self.item_transitions@ =~= its0 + transitions@.subrange(
                                0,
                                j + 1,
                            ));
                            j += 1;
                        }
                        proof {
                            assert(transitions@.subrange(0, transitions.len() as int)
                                =~= transitions@);
                            let its = self.item_transitions@;
                            assert(its == its0 + transitions@);
                            let last = sts.len() - 1;
                            assert(sts[last] == (Transition { from: cursor, to: id, symbol }));
                            assert(states[id as int].items@ == to);
                            assert(states[id as int].id == id);
                            assert forall|k: usize| k < list.len() implies #[trigger] in_state(
                                states,
                                k,
                            ) by {
                                if k < list0.len() {
                                    assert(in_state(states0, k));
                                    let t = choose|t: int|
                                        0 <= t < states0.len() && (#[trigger] states0[t]).items@.contains(
                                            k,
                                        );
                                    assert(states.subrange(0, id as int)[t] == states0[t]);
                                    assert(states[t].items@.contains(k));
                                } else {
                                    assert(states[id as int].items@.contains(k));
                                }
                            }
                            assert forall|s: int| 0 <= s < states0.len() implies #[trigger] states[s]
                                == states0[s] by {
                                assert(states.subrange(0, id as int)[s] == states0[s]);
                            }
                            assert(states0.is_prefix_of(states));
                            assert(states[id as int].wf(list)) by {
                                assert(next.wf(list));
                            }
                            assert forall|k: int| 0 <= k < sts.len() implies state_edge_ok(
                                g,
                                states,
                                #[trigger] sts[k],
                            ) by {
                                if k < last {
                                    assert(sts[k] == sts0[k]);
                                }
                            }
                            assert forall|x: ItemTransition| #[trigger]
                                transitions@.contains(x) implies its.contains(x) by {
                                let i = choose|i: int|
                                    0 <= i < transitions.len() && transitions[i] == x;
                                assert(its[its0.len() + i] == x);
                            }
                            assert forall|k: int| 0 <= k < its.len() implies item_edge_ok(
                                g,
                                states,
                                #[trigger] its[k],
                            ) && explained(g, list, states, sts, its[k]) by {
                                if k < its0.len() {
                                    assert(its[k] == its0[k]);
                                    assert(item_edge_ok(g, states0, its0[k]));
                                    assert(explained(g, list0, states0, sts0, its0[k]));
                                    lemma_explained_frame(g, list0, list, states0, sts0, its0[k]);
                                    if exists|m: int|
                                        0 <= m < sts0.len() && kernel_edge(
                                            list,
                                            (#[trigger] sts0[m]).from,
                                            states0[sts0[m].from as int].items@,
                                            sts0[m].symbol,
                                            sts0[m].to,
                                            states0[sts0[m].to as int].items@,
                                            its0[k],
                                        ) {
                                        let m = choose|m: int|
                                            0 <= m < sts0.len() && kernel_edge(
                                                list,
                                                (#[trigger] sts0[m]).from,
                                                states0[sts0[m].from as int].items@,
                                                sts0[m].symbol,
                                                sts0[m].to,
                                                states0[sts0[m].to as int].items@,
                                                its0[k],
                                            );
                                        assert(sts[m] == sts0[m]);
                                        assert(state_edge_ok(g, states0, sts0[m]));
                                    } else {
                                        assert(its0[k].to.0 < states0.len());
                                    }
                                } else {
                                    let x = transitions[k - its0.len()];
                                    assert(its[k] == x);
                                    assert(transitions@.contains(x));
                                    if kernel_edge(list, cursor, from, symbol, state_id, to, x) {
                                        assert(kernel_edge(
                                            list,
                                            sts[last].from,
                                            states[sts[last].from as int].items@,
                                            sts[last].symbol,
                                            sts[last].to,
                                            states[sts[last].to as int].items@,
                                            x,
                                        ));
                                    }
                                }
                            }
                            assert forall|k: int| 0 <= k < sts.len() implies goes(
                                g,
                                list,
                                its,
                                (#[trigger] sts[k]).from,
                                states[sts[k].from as int].items@,
                                sts[k].symbol,
                                sts[k].to,
                                states[sts[k].to as int].items@,
                            ) by {
                                if k < last {
                                    assert(sts[k] == sts0[k]);
                                    assert(state_edge_ok(g, states0, sts0[k]));
                                    assert(states0[sts0[k].from as int].wf(list0));
                                    assert(states0[sts0[k].to as int].wf(list0));
                                    lemma_goes_frame(
                                        g,
                                        list0,
                                        its0,
                                        list,
                                        its,
                                        sts0[k].from,
                                        states0[sts0[k].from as int].items@,
                                        sts0[k].symbol,
                                        sts0[k].to,
                                        states0[sts0[k].to as int].items@,
                                    );
                                } else {
                                    assert(states[cursor as int] == states0[cursor as int]);
                                    assert(id == state_id);
                                    assert forall|x: ItemTransition| #[trigger]
                                        kernel_edge(list, cursor, from, symbol, id, to, x) implies its.contains(
                                        x,
                                    ) && (list[x.to.1 as int].unique
                                        ==> list[x.from.1 as int].unique) by {
                                        assert(transitions@.contains(x));
                                    }
                                }
                            }
                            assert forall|x: ItemTransition| #[trigger]
                                closure_edge(g, list, id, to, x) implies its.contains(x) by {
                                assert(transitions@.contains(x));
                            }
                            assert(closed(g, list, its, id, to));
                            assert forall|s: int| 0 <= s < states.len() implies closed(
                                g,
                                list,
                                its,
                                s as usize,
                                (#[trigger] states[s]).items@,
                            ) by {
                                if s < states0.len() {
                                    assert(states0[s].wf(list0));
                                    lemma_closed_frame(
                                        g,
                                        list0,
                                        its0,
                                        list,
                                        its,
                                        s as usize,
                                        states0[s].items@,
                                    );
                                }
                            }
                            assert forall|s: int| 0 <= s < states.len() implies (
                            #[trigger] states[s]).id == s && states[s].wf(list) by {
                                if s < states0.len() {
                                    assert(states0[s].wf(list));
                                }
                            }
                            self.lemma_states();
                        }
                    },
                }
            },
        }
    }
}

impl Automaton {
    /// The automaton is built on a valid grammar, and its items, states and
    /// transitions fit together: every item has its index as its ID and
    /// belongs to the grammar, no two items are the same, every state has its
    /// index as its ID, no two states hold the same items, and transitions
    /// lead between states, or between items of states.
    pub open spec fn wf(&self) -> bool {
        &&& self.grammar.wf()
        &&& self.start_rule < self.grammar.rules.len()
        &&& self.states.len() > 0
        &&& parts_ok(
            self.grammar@,
            self.items@,
            self.states@,
            self.state_transitions@,
            self.item_transitions@,
        )
    }

    /// Constructs a new automaton: the canonical LR(1) automaton of the
    /// grammar with the given rule as its start rule. The first state holds
    /// the initial items of the start rule; states are numbered in the order
    /// in which they are found, breadth first and symbols in ascending order.
    /// Every item is an item of a state.
    pub fn new(grammar: &Grammar, rule: usize) -> (automaton: Automaton)
        requires
            grammar.wf(),
            rule < grammar.rules.len(),
            grammar.rules[rule as int].body[0] == END,
            grammar.rules[rule as int].follow.len() > 0,
        ensures
            automaton.wf(),
            automaton.grammar@ == grammar@,
            automaton.grammar.actions@ == grammar.actions@,
            automaton.start_rule == rule,
            initial(grammar@, rule, automaton.items@, automaton.states[0].items@),
            canonical(
                grammar@,
                automaton.items@,
                automaton.states@,
                automaton.state_transitions@,
                automaton.item_transitions@,
            ),
            explored(
                automaton.items@,
                automaton.states@,
                automaton.state_transitions@,
                automaton.states.len() as int,
            ),
            reached(automaton.states.len() as nat, automaton.state_transitions@),
            housed(automaton.items.len() as nat, automaton.states@),
            ordered(automaton.state_transitions@),
            numbered(automaton.states.len() as nat, automaton.state_transitions@),
    {
        let ghost g = grammar@;
        let start = &grammar.rules[rule];
        assert(g.rules[rule as int] == grammar.rules[rule as int]@);
        assert(g.rules[rule as int].valid_in(rule as int, g.symbols.len()));
        let mut builder = Builder {
            items: ItemTable::new(),
            states: StateTable::new(),
            state_transitions: Vec::new(),
            item_transitions: Vec::new(),
        };
        // Construct the initial state.
        let mut first: Vec<usize> = Vec::new();
        let mut k: usize = 0;
        while k < start.follow.len()
            invariant
                grammar.wf(),
                g == grammar@,
                rule < grammar.rules.len(),
                *start == grammar.rules[rule as int],
                g.rules[rule as int] == start@,
                g.rules[rule as int].valid_in(rule as int, g.symbols.len()),
                k <= start.follow.len(),
                builder.items.wf(),
                builder.items.fit(g),
                builder.states.wf(),
                builder.states.list.len() == 0,
                builder.state_transitions.len() == 0,
                builder.item_transitions.len() == 0,
                increasing(first@),
                forall|x: usize| first@.contains(x) <==> x < builder.items.list.len(),
                forall|i: int|
                    0 <= i < builder.items.list.len() ==> {
                        let item = #[trigger] builder.items.list[i];
                        &&& item.rule == rule
                        &&& item.dot == 0
                        &&& item.unique
                        &&& item.head == Some(start.body[0])
                        &&& start.follow@.contains(item.lookahead)
                    },
                forall|q: int|
                    0 <= q < k ==> has_lookahead(
                        builder.items.list@,
                        first@,
                        #[trigger] start.follow[q],
                    ),
            decreases start.follow.len() - k,
        {
            let lookahead = start.follow[k];
            let item = Item::initial(builder.items.list.len(), start, lookahead);
            let ghost before = builder.items.list@;
            assert(start.follow@.contains(lookahead));
            assert(start@.id == rule);
            assert(g.rules[rule as int].follow[k as int] < g.symbols.len());
            assert(item.fits(g));
            let id = builder.items.intern(item);
            let ghost had = first@;
            insert_unique(&mut first, id);
            proof {
                let list = builder.items.list@;
                assert forall|i: int| 0 <= i < list.len() implies {
                    let it = #[trigger] list[i];
                    &&& it.rule == rule
                    &&& it.dot == 0
                    &&& it.unique
                    &&& it.head == Some(start.body[0])
                    &&& start.follow@.contains(it.lookahead)
                } by {
                    if i < before.len() {
                        assert(list[i] == before[i]);
                    } else {
                        if id < before.len() {
                            assert(before[id as int] == list[id as int]);
                            assert(before[id as int].key() == item.key());
                        }
                        assert(i == id);
                        assert(list[i].key() == item.key());
                        assert(list[i].fits(g));
                    }
                }
                assert forall|x: usize| first@.contains(x) <==> x < list.len() by {
                    if x < list.len() {
                        if x < before.len() {
                            assert(had.contains(x));
                        } else {
                            if id < before.len() {
                                assert(before[id as int] == list[id as int]);
                                assert(before[id as int].key() == item.key());
                            }
                        }
                    }
                }
                assert forall|q: int| 0 <= q < k + 1 implies has_lookahead(
                    list,
                    first@,
                    #[trigger] start.follow[q],
                ) by {
                    if q < k {
                        let i = choose|i: int|
                            0 <= i < had.len() && before[#[trigger] had[i] as int].lookahead
                                == start.follow[q];
                        assert(had.contains(had[i]));
                        assert(first@.contains(had[i]));
                        let j = choose|j: int| 0 <= j < first.len() && first[j] == had[i];
                        assert(list[first@[j] as int] == before[had[i] as int]);
                    } else {
                        assert(first@.contains(id));
                        let j = choose|j: int| 0 <= j < first.len() && first[j] == id;
                        assert(list[first@[j] as int].lookahead == start.follow[q]);
                    }
                }
            }
            k += 1;
        }
        proof {
            builder.lemma_items(g);
        }
        let ghost origin = first@;
        let ghost list1 = builder.items.list@;
        let zero = builder.states.insert(first);
        proof {
            let list = builder.items.list@;
            let states = builder.states.list@;
            assert(states.len() == 1);
            assert(states[0].items@ == origin);
            assert(states[0].wf(list)) by {
                assert forall|i: int| 0 <= i < origin.len() implies #[trigger] origin[i]
                    < list.len() by {
                    assert(origin.contains(origin[i]));
                }
                assert forall|a: int, b: int| 0 <= a < b < origin.len() implies list[origin[a] as int].base()
                    != list[origin[b] as int].base() by {
                    assert(origin.contains(origin[a]));
                    assert(origin.contains(origin[b]));
                    assert(list[origin[a] as int].key() != list[origin[b] as int].key());
                }
            }
            assert forall|x: ItemTransition| !#[trigger] closure_edge(g, list, 0, origin, x) by {
                if closure_edge(g, list, 0, origin, x) {
                    assert(origin.contains(x.from.1));
                    let item = list[x.from.1 as int];
                    assert(item.fits(g));
                    assert(g.symbols[END as int] is End);
                }
            }
            assert(closed(g, list, builder.item_transitions@, 0, origin));
            assert(initial(g, rule, list, origin)) by {
                assert forall|i: int| 0 <= i < origin.len() implies {
                    let item = list[#[trigger] origin[i] as int];
                    &&& item.rule == rule
                    &&& item.dot == 0
                    &&& item.unique
                    &&& g.rules[rule as int].follow.contains(item.lookahead)
                } by {
                    assert(origin.contains(origin[i]));
                }
                assert forall|q: int|
                    0 <= q < g.rules[rule as int].follow.len() implies has_lookahead(
                    list,
                    origin,
                    #[trigger] g.rules[rule as int].follow[q],
                ) by {
                    assert(has_lookahead(list, origin, start.follow[q]));
                }
            }
            builder.lemma_states();
            assert(builder.inv(g));
        }
        let mut cursor: usize = 0;
        while cursor < builder.states.list.len()
            invariant
                grammar.wf(),
                g == grammar@,
                builder.inv(g),
                builder.states.list.len() > 0,
                cursor <= builder.states.list.len(),
                initial(g, rule, builder.items.list@, builder.states.list[0].items@),
                explored(
                    builder.items.list@,
                    builder.states.list@,
                    builder.state_transitions@,
                    cursor as int,
                ),
                forall|k: int|
                    0 <= k < builder.state_transitions.len() ==> (
                    #[trigger] builder.state_transitions[k]).from < cursor,
                reached(builder.states.list.len() as nat, builder.state_transitions@),
                housed(builder.items.list.len() as nat, builder.states.list@),
                ordered(builder.state_transitions@),
                numbered(builder.states.list.len() as nat, builder.state_transitions@),
            decreases usize::MAX - cursor,
        {
            let symbols = builder.states.list[cursor].transitions(&builder.items);
            let ghost list_a = builder.items.list@;
            let ghost here = builder.states.list[cursor as int].items@;
            assert(builder.states.list[cursor as int].wf(list_a));
            let mut si: usize = 0;
            while si < symbols.len()
                invariant
                    grammar.wf(),
                    g == grammar@,
                    builder.inv(g),
                    cursor < builder.states.list.len(),
                    builder.states.list[cursor as int].items@ == here,
                    list_a.is_prefix_of(builder.items.list@),
                    forall|i: int| 0 <= i < here.len() ==> #[trigger] here[i] < list_a.len(),
                    initial(g, rule, builder.items.list@, builder.states.list[0].items@),
                    increasing(symbols@),
                    forall|s: usize|
                        symbols@.contains(s) <==> (s != NULL && stands_before(list_a, here, s)),
                    si <= symbols.len(),
                    explored(
                        builder.items.list@,
                        builder.states.list@,
                        builder.state_transitions@,
                        cursor as int,
                    ),
                    forall|k: int|
                        0 <= k < builder.state_transitions.len() ==> (
                        #[trigger] builder.state_transitions[k]).from < cursor || (
                        builder.state_transitions[k].from == cursor && exists|q: int|
                            0 <= q < si && #[trigger] symbols[q]
                                == builder.state_transitions[k].symbol),
                    forall|q: int|
                        0 <= q < si ==> covered(
                            builder.state_transitions@,
                            cursor,
                            #[trigger] symbols[q],
                        ),
                    reached(builder.states.list.len() as nat, builder.state_transitions@),
                    housed(builder.items.list.len() as nat, builder.states.list@),
                    ordered(builder.state_transitions@),
                    numbered(builder.states.list.len() as nat, builder.state_transitions@),
                decreases symbols.len() - si,
            {
                let symbol = symbols[si];
                let ghost list_b = builder.items.list@;
                let ghost states_b = builder.states.list@;
                let ghost sts_b = builder.state_transitions@;
                proof {
                    assert(symbols@.contains(symbol));
                    lemma_stands_frame(list_a, list_b, here, symbol);
                    assert(!covered(sts_b, cursor, symbol)) by {
                        if covered(sts_b, cursor, symbol) {
                            let k = choose|k: int|
                                0 <= k < sts_b.len() && (#[trigger] sts_b[k]).from == cursor
                                    && sts_b[k].symbol == symbol;
                            let q = choose|q: int|
                                0 <= q < si && #[trigger] symbols[q] == sts_b[k].symbol;
                            assert(symbols[q] < symbols[si as int]);
                        }
                    }
                }
                builder.step(grammar, cursor, symbol);
                proof {
                    let list_c = builder.items.list@;
                    let states_c = builder.states.list@;
                    let sts_c = builder.state_transitions@;
                    let last = sts_c.len() - 1;
                    assert(states_c[cursor as int] == states_b[cursor as int]);
                    assert(states_c[0] == states_b[0]);
                    lemma_explored_frame(
                        list_b,
                        list_c,
                        states_b,
                        states_c,
                        sts_b,
                        sts_c,
                        cursor as int,
                    );
                    assert(initial(g, rule, list_c, states_c[0].items@)) by {
                        let origin = states_b[0].items@;
                        assert(states_b[0].wf(list_b));
                        assert forall|i: int| 0 <= i < origin.len() implies list_c[#[trigger] origin[i] as int]
                            == list_b[origin[i] as int] by {}
                        assert forall|q: int|
                            0 <= q < g.rules[rule as int].follow.len() implies has_lookahead(
                            list_c,
                            origin,
                            #[trigger] g.rules[rule as int].follow[q],
                        ) by {
                            assert(has_lookahead(list_b, origin, g.rules[rule as int].follow[q]));
                            let i = choose|i: int|
                                0 <= i < origin.len() && list_b[#[trigger] origin[i] as int].lookahead
                                    == g.rules[rule as int].follow[q];
                            assert(list_c[origin[i] as int] == list_b[origin[i] as int]);
                        }
                    }
                    assert forall|k: int| 0 <= k < sts_c.len() implies (#[trigger] sts_c[k]).from
                        < cursor || (sts_c[k].from == cursor && exists|q: int|
                        0 <= q < si + 1 && #[trigger] symbols[q] == sts_c[k].symbol) by {
                        if k < last {
                            assert(sts_c[k] == sts_b[k]);
                            if sts_b[k].from == cursor {
                                let q = choose|q: int|
                                    0 <= q < si && #[trigger] symbols[q] == sts_b[k].symbol;
                                assert(0 <= q < si + 1 && symbols[q] == sts_c[k].symbol);
                            }
                        } else {
                            assert(symbols[si as int] == sts_c[k].symbol);
                        }
                    }
                    assert forall|q: int| 0 <= q < si + 1 implies covered(
                        sts_c,
                        cursor,
                        #[trigger] symbols[q],
                    ) by {
                        if q < si {
                            let k = choose|k: int|
                                0 <= k < sts_b.len() && (#[trigger] sts_b[k]).from == cursor
                                    && sts_b[k].symbol == symbols[q];
                            assert(sts_c[k] == sts_b[k]);
                        } else {
                            assert(sts_c[last].from == cursor && sts_c[last].symbol == symbols[q]);
                        }
                    }
                    assert(ordered(sts_c)) by {
                        assert forall|k: int, m: int| 0 <= k < m < sts_c.len() implies comes_before(
                            #[trigger] sts_c[k],
                            #[trigger] sts_c[m],
                        ) by {
                            assert(sts_c[k] == sts_b[k]);
                            if m < last {
                                assert(sts_c[m] == sts_b[m]);
                            } else if sts_b[k].from == cursor {
                                let q = choose|q: int|
                                    0 <= q < si && #[trigger] symbols[q] == sts_b[k].symbol;
                                assert(symbols[q] < symbols[si as int]);
                            }
                        }
                    }
                    assert(numbered(states_c.len() as nat, sts_c)) by {
                        assert forall|s: usize, t: usize|
                            0 < s < t < states_c.len() implies #[trigger] led(sts_c, s, t) by {
                            if t < states_b.len() {
                                assert(led(sts_b, s, t));
                                let k = choose|k: int|
                                    0 <= k < sts_b.len() && (#[trigger] sts_b[k]).to == s
                                        && forall|m: int|
                                        0 <= m <= k ==> (#[trigger] sts_b[m]).to != t;
                                assert(sts_c[k] == sts_b[k]);
                                assert forall|m: int| 0 <= m <= k implies (#[trigger] sts_c[m]).to
                                    != t by {
                                    assert(sts_c[m] == sts_b[m]);
                                }
                            } else {
                                assert(targeted(sts_b, s));
                                let k = choose|k: int|
                                    0 <= k < sts_b.len() && (#[trigger] sts_b[k]).to == s;
                                assert(sts_c[k] == sts_b[k]);
                                assert forall|m: int| 0 <= m <= k implies (#[trigger] sts_c[m]).to
                                    != t by {
                                    assert(sts_c[m] == sts_b[m]);
                                    assert(state_edge_ok(g, states_b, sts_b[m]));
                                }
                            }
                        }
                    }
                    assert(reached(states_c.len() as nat, sts_c)) by {
                        assert forall|s: usize| 0 < s < states_c.len() implies #[trigger] targeted(
                            sts_c,
                            s,
                        ) by {
                            if s < states_b.len() {
                                assert(targeted(sts_b, s));
                                let k = choose|k: int|
                                    0 <= k < sts_b.len() && (#[trigger] sts_b[k]).to == s;
                                assert(sts_c[k] == sts_b[k]);
                            } else {
                                assert(sts_c[last].to == s);
                            }
                        }
                    }
                }
                si += 1;
            }
            proof {
                let list = builder.items.list@;
                let states = builder.states.list@;
                let sts = builder.state_transitions@;
                assert forall|s: usize, symbol: usize|
                    s < cursor + 1 && s < states.len() implies ((symbol != NULL && stands_before(
                    list,
                    states[s as int].items@,
                    symbol,
                )) <==> #[trigger] covered(sts, s, symbol)) by {
                    if s == cursor {
                        lemma_stands_frame(list_a, list, here, symbol);
                        if covered(sts, s, symbol) {
                            let k = choose|k: int|
                                0 <= k < sts.len() && (#[trigger] sts[k]).from == s
                                    && sts[k].symbol == symbol;
                            let q = choose|q: int|
                                0 <= q < si && #[trigger] symbols[q] == sts[k].symbol;
                            assert(symbols@.contains(symbol));
                        }
                        if symbol != NULL && stands_before(list_a, here, symbol) {
                            assert(symbols@.contains(symbol));
                            let q = choose|q: int| 0 <= q < symbols.len() && symbols[q] == symbol;
                            assert(covered(sts, cursor, symbols[q]));
                        }
                    }
                }
            }
            cursor += 1;
        }
        let copy = grammar.clone();
        Automaton {
            grammar: copy,
            start_rule: rule,
            states: builder.states.list,
            state_transitions: builder.state_transitions,
            items: builder.items.list,
            item_transitions: builder.item_transitions,
        }
    }

}

} // verus!
