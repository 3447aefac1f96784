//! Transitions between the states and between the items of an automaton.

use vstd::prelude::*;

verus! {

/// The `Transition` struct describes an arbitrary transition in the automaton.
#[derive(Clone, Copy, Debug)]
pub struct Transition<T> {
    pub from: T,
    pub to: T,
    pub symbol: usize,
}

impl<T> Transition<T> {
    /// Constructs a new state or item transition.
    pub fn new(from: T, to: T, symbol: usize) -> (transition: Transition<T>)
        ensures
            transition.from == from,
            transition.to == to,
            transition.symbol == symbol,
    {
        Transition { from, to, symbol }
    }
}

/// `StateTransition` describes a transition between two states in the automaton.
pub type StateTransition = Transition<usize>;

/// `ItemTransition` describes a transition between two items in the
/// automaton. Each end is a state and an item of that state.
pub type ItemTransition = Transition<(usize, usize)>;

} // verus!
