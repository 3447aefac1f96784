//! Actions of the ACTION table.

use vstd::prelude::*;

verus! {

/// The `Action` enum in the ACTION table.
#[derive(Clone, Copy, Debug, PartialEq, Eq, Structural)]
pub enum Action {
    /// Shift the automaton to the next state.
    Shift(usize),
    /// Reduce a grammar rule from the parse stack.
    Reduce(usize),
    /// Reduce a grammar rule and accept the parse stack.
    Accept(usize),
}

impl Action {
    /// Returns `true` if the action is `Reduce`.
    pub fn is_reduce(&self) -> (reduce: bool)
        ensures
            reduce == (*self is Reduce),
    {
        match self {
            Action::Reduce(_) => true,
            _ => false,
        }
    }

    /// Returns `true` if the action is `Accept`.
    pub fn is_accept(&self) -> (accept: bool)
        ensures
            accept == (*self is Accept),
    {
        match self {
            Action::Accept(_) => true,
            _ => false,
        }
    }
}

} // verus!
