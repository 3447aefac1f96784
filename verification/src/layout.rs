//! The automaton as it is drawn: its transitions in ascending order, and
//! the item transitions between the places that the items have in their
//! states.

use crate::state::State;
use crate::symbol::NULL;
use crate::transition::{ItemTransition, StateTransition};
use crate::util::get_index;
use vstd::prelude::*;
use vstd::seq_lib::{to_multiset_build, to_multiset_insert};

verus! {

/// The first state transition is the second or comes before it: by origin,
/// then by target, then by symbol.
pub open spec fn state_le(a: StateTransition, b: StateTransition) -> bool {
    a.from < b.from || (a.from == b.from && (a.to < b.to || (a.to == b.to && a.symbol
        <= b.symbol)))
}

/// The first end is the second or comes before it: by state, then by item.
pub open spec fn end_le(a: (usize, usize), b: (usize, usize)) -> bool {
    a.0 < b.0 || (a.0 == b.0 && a.1 <= b.1)
}

/// The first item transition is the second or comes before it: by origin,
/// then by target, then by symbol.
pub open spec fn item_le(a: ItemTransition, b: ItemTransition) -> bool {
    (end_le(a.from, b.from) && a.from != b.from) || (a.from == b.from && ((end_le(a.to, b.to)
        && a.to != b.to) || (a.to == b.to && a.symbol <= b.symbol)))
}

/// Returns `true` if the first state transition is the second or comes
/// before it.
pub fn state_before(a: &StateTransition, b: &StateTransition) -> (le: bool)
    ensures
        le == state_le(*a, *b),
{
    a.from < b.from || (a.from == b.from && (a.to < b.to || (a.to == b.to && a.symbol
        <= b.symbol)))
}

/// Returns `true` if the first end is the second or comes before it.
fn end_before(a: (usize, usize), b: (usize, usize)) -> (le: bool)
    ensures
        le == end_le(a, b),
{
    a.0 < b.0 || (a.0 == b.0 && a.1 <= b.1)
}

/// Returns `true` if the first item transition is the second or comes
/// before it.
pub fn item_before(a: &ItemTransition, b: &ItemTransition) -> (le: bool)
    ensures
        le == item_le(*a, *b),
{
    let same_from = a.from.0 == b.from.0 && a.from.1 == b.from.1;
    let same_to = a.to.0 == b.to.0 && a.to.1 == b.to.1;
    (end_before(a.from, b.from) && !same_from) || (same_from && ((end_before(a.to, b.to)
        && !same_to) || (same_to && a.symbol <= b.symbol)))
}

/// Returns the state transitions in ascending order: the same transitions,
/// each as often as before.
pub fn sorted_state_transitions(transitions: &Vec<StateTransition>) -> (sorted: Vec<
    StateTransition,
>)
    ensures
        forall|i: int, j: int| 0 <= i <= j < sorted.len() ==> state_le(sorted[i], sorted[j]),
        sorted@.to_multiset() == transitions@.to_multiset(),
{
    let mut sorted: Vec<StateTransition> = Vec::new();
    let mut taken: usize = 0;
    assert(sorted@ =~= transitions@.subrange(0, 0));
    while taken < transitions.len()
        invariant
            taken <= transitions.len(),
            forall|i: int, j: int| 0 <= i <= j < sorted.len() ==> state_le(sorted[i], sorted[j]),
            sorted@.to_multiset() == transitions@.subrange(0, taken as int).to_multiset(),
        decreases transitions.len() - taken,
    {
        let value = transitions[taken];
        let mut at: usize = 0;
        while at < sorted.len() && state_before(&sorted[at], &value)
            invariant
                at <= sorted.len(),
                forall|k: int| 0 <= k < at ==> state_le(sorted[k], value),
            decreases sorted.len() - at,
        {
            at += 1;
        }
        let ghost before = sorted@;
        sorted.insert(at, value);
        proof {
            to_multiset_insert(before, at as int, value);
            let prefix = transitions@.subrange(0, taken as int);
            to_multiset_build(prefix, value);
            assert(transitions@.subrange(0, taken + 1) =~= prefix.push(value));
            assert forall|i: int, j: int| 0 <= i <= j < sorted.len() implies state_le(
                sorted[i],
                sorted[j],
            ) by {
                if i < at && j > at {
                    assert(state_le(before[i], before[j - 1]));
                } else if i > at {
                    assert(state_le(before[i - 1], before[j - 1]));
                } else if j < at {
                    assert(state_le(before[i], before[j]));
                } else if i == at && j > at {
                    assert(state_le(before[at as int], before[j - 1]));
                }
            }
        }
        taken += 1;
    }
    assert(transitions@.subrange(0, taken as int) =~= transitions@);
    sorted
}

/// Returns the item transitions in ascending order: the same transitions,
/// each as often as before.
pub fn sorted_item_transitions(transitions: &Vec<ItemTransition>) -> (sorted: Vec<ItemTransition>)
    ensures
        forall|i: int, j: int| 0 <= i <= j < sorted.len() ==> item_le(sorted[i], sorted[j]),
        sorted@.to_multiset() == transitions@.to_multiset(),
{
    let mut sorted: Vec<ItemTransition> = Vec::new();
    let mut taken: usize = 0;
    assert(sorted@ =~= transitions@.subrange(0, 0));
    while taken < transitions.len()
        invariant
            taken <= transitions.len(),
            forall|i: int, j: int| 0 <= i <= j < sorted.len() ==> item_le(sorted[i], sorted[j]),
            sorted@.to_multiset() == transitions@.subrange(0, taken as int).to_multiset(),
        decreases transitions.len() - taken,
    {
        let value = transitions[taken];
        let mut at: usize = 0;
        while at < sorted.len() && item_before(&sorted[at], &value)
            invariant
                at <= sorted.len(),
                forall|k: int| 0 <= k < at ==> item_le(sorted[k], value),
            decreases sorted.len() - at,
        {
            at += 1;
        }
        let ghost before = sorted@;
        sorted.insert(at, value);
        proof {
            to_multiset_insert(before, at as int, value);
            let prefix = transitions@.subrange(0, taken as int);
            to_multiset_build(prefix, value);
            assert(transitions@.subrange(0, taken + 1) =~= prefix.push(value));
            assert forall|i: int, j: int| 0 <= i <= j < sorted.len() implies item_le(
                sorted[i],
                sorted[j],
            ) by {
                if i < at && j > at {
                    assert(item_le(before[i], before[j - 1]));
                } else if i > at {
                    assert(item_le(before[i - 1], before[j - 1]));
                } else if j < at {
                    assert(item_le(before[i], before[j]));
                } else if i == at && j > at {
                    assert(item_le(before[at as int], before[j - 1]));
                }
            }
        }
        taken += 1;
    }
    assert(transitions@.subrange(0, taken as int) =~= transitions@);
    sorted
}

/// How an item transition is drawn.
#[derive(Clone, Copy, Debug)]
pub enum Stroke {
    /// A transition of the closure to an item further down in the state.
    Forward,
    /// A transition of the closure to the item itself or to one further up.
    Backward,
    /// A transition with a symbol.
    Symbol,
}

/// An item transition between the places of the two items in their states.
#[derive(Clone, Copy, Debug)]
pub struct PortEdge {
    pub from: (usize, usize),
    pub to: (usize, usize),
    pub stroke: Stroke,
}

/// The index is that of the first occurrence of the item in the list.
pub open spec fn first_at(items: Seq<usize>, id: usize, at: int) -> bool {
    &&& 0 <= at < items.len()
    &&& items[at] == id
    &&& forall|j: int| 0 <= j < at ==> items[j] != id
}

/// The place of an item in its state: the index of the item in the list of
/// the state; the ID itself where there is no such state or the state does
/// not hold the item.
pub open spec fn port_of(states: Seq<State>, end: (usize, usize)) -> usize {
    if end.0 < states.len() && states[end.0 as int].items@.contains(end.1) {
        (choose|at: int| first_at(states[end.0 as int].items@, end.1, at)) as usize
    } else {
        end.1
    }
}

/// The item transition as it is drawn: between the places of its items, as
/// a transition with a symbol, or as a transition of the closure that leads
/// down or up in the state.
pub open spec fn drawn(states: Seq<State>, t: ItemTransition) -> PortEdge {
    let from = port_of(states, t.from);
    let to = port_of(states, t.to);
    PortEdge {
        from: (t.from.0, from),
        to: (t.to.0, to),
        stroke: if t.symbol != NULL {
            Stroke::Symbol
        } else if from < to {
            Stroke::Forward
        } else {
            Stroke::Backward
        },
    }
}

/// Returns `true` if the list holds the item.
fn holds(items: &Vec<usize>, id: usize) -> (found: bool)
    ensures
        found == items@.contains(id),
{
    let mut k: usize = 0;
    while k < items.len()
        invariant
            k <= items.len(),
            forall|j: int| 0 <= j < k ==> items[j] != id,
        decreases items.len() - k,
    {
        if items[k] == id {
            return true;
        }
        k += 1;
    }
    false
}

/// Returns the place of an item in its state.
pub fn port(states: &Vec<State>, end: (usize, usize)) -> (place: usize)
    ensures
        place == port_of(states@, end),
{
    if end.0 < states.len() && holds(&states[end.0].items, end.1) {
        let place = get_index(states[end.0].items.as_slice(), end.1);
        proof {
            let items = states[end.0 as int].items@;
            assert(first_at(items, end.1, place as int));
            let chosen = choose|at: int| first_at(items, end.1, at);
            assert(first_at(items, end.1, chosen));
            if chosen < place {
                assert(items[chosen] != end.1);
            }
            if place < chosen {
                assert(items[place as int] != end.1);
            }
        }
        place
    } else {
        end.1
    }
}

/// Returns the item transitions as they are drawn, in their order.
pub fn port_edges(states: &Vec<State>, transitions: &Vec<ItemTransition>) -> (edges: Vec<PortEdge>)
    ensures
        edges.len() == transitions.len(),
        forall|i: int| 0 <= i < edges.len() ==> #[trigger] edges[i] == drawn(states@, transitions[i]),
{
    let mut edges: Vec<PortEdge> = Vec::new();
    let mut k: usize = 0;
    while k < transitions.len()
        invariant
            k <= transitions.len(),
            edges.len() == k,
            forall|i: int| 0 <= i < k ==> #[trigger] edges[i] == drawn(states@, transitions[i]),
        decreases transitions.len() - k,
    {
        let t = transitions[k];
        let from = port(states, t.from);
        let to = port(states, t.to);
        let stroke = if t.symbol != NULL {
            Stroke::Symbol
        } else if from < to {
            Stroke::Forward
        } else {
            Stroke::Backward
        };
        edges.push(PortEdge { from: (t.from.0, from), to: (t.to.0, to), stroke });
        k += 1;
    }
    edges
}

} // verus!
