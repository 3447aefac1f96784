//! States of the LR(1) automaton, the table of all items, and the
//! uniqueness of items.

use crate::analysis::GrammarView;
use crate::intern::{
    item_keys, item_set_insert, item_set_new, state_keys, state_set_index_of, state_set_insert,
    state_set_new,
};
use crate::item::{Item, ItemKey};
use crate::util::increasing;
use indexmap::IndexSet;
use vstd::prelude::*;

verus! {

/// The `State` struct describes a state in the automaton.
///
/// Two states are equal when they hold the same items; states are ordered by
/// their IDs.
#[derive(Debug)]
pub struct State {
    pub id: usize,
    pub items: Vec<usize>,
}

impl State {
    /// The items of the state are listed in ascending order, are items of
    /// the list, and no two of them have the same rule, dot and lookahead.
    pub open spec fn wf(&self, list: Seq<Item>) -> bool {
        &&& increasing(self.items@)
        &&& forall|i: int| 0 <= i < self.items.len() ==> #[trigger] self.items[i] < list.len()
        &&& forall|a: int, b: int|
            0 <= a < b < self.items.len() ==> list[self.items[a] as int].base()
                != list[self.items[b] as int].base()
    }

    /// Constructs a new automaton state.
    pub fn new(id: usize, items: Vec<usize>) -> (state: State)
        ensures
            state.id == id,
            state.items == items,
    {
        State { id, items }
    }
}

impl PartialEq for State {
    fn eq(&self, other: &State) -> (equal: bool) {
        crate::rule::same_ids(self.items.as_slice(), other.items.as_slice())
    }
}

impl vstd::std_specs::cmp::PartialEqSpecImpl for State {
    open spec fn obeys_eq_spec() -> bool {
        true
    }

    open spec fn eq_spec(&self, other: &State) -> bool {
        self.items@ == other.items@
    }
}

/// All items of an automaton. The ID of an item is its index in the order of
/// insertion; an item is found again by its rule, dot, lookahead and
/// uniqueness.
pub struct ItemTable {
    pub index: IndexSet<ItemKey>,
    pub list: Vec<Item>,
}

impl ItemTable {
    /// The index holds the keys of the listed items in their order, every
    /// item has its index as its ID, and no two items have the same key.
    pub open spec fn wf(&self) -> bool {
        &&& item_keys(self.index).len() == self.list.len()
        &&& forall|i: int|
            0 <= i < self.list.len() ==> #[trigger] item_keys(self.index)[i] == self.list[i].key()
        &&& forall|i: int| 0 <= i < self.list.len() ==> (#[trigger] self.list[i]).id == i
        &&& item_keys(self.index).no_duplicates()
    }

    /// Every item belongs to the grammar.
    pub open spec fn fit(&self, g: GrammarView) -> bool {
        forall|i: int| 0 <= i < self.list.len() ==> (#[trigger] self.list[i]).fits(g)
    }

    /// Constructs an empty table.
    pub fn new() -> (table: ItemTable)
        ensures
            table.wf(),
            table.list.len() == 0,
    {
        ItemTable { index: item_set_new(), list: Vec::new() }
    }

    /// Returns the ID of the item in the table: that of the same item where
    /// the table holds it, else a new one, under which the item is added.
    pub fn intern(&mut self, item: Item) -> (id: usize)
        requires
            old(self).wf(),
        ensures
            final(self).wf(),
            id < final(self).list.len(),
            final(self).list[id as int].key() == item.key(),
            old(self).list@.is_prefix_of(final(self).list@),
            final(self).list.len() <= old(self).list.len() + 1,
            forall|g: GrammarView| old(self).fit(g) && item.fits(g) ==> final(self).fit(g),
            (exists|i: int| 0 <= i < old(self).list.len() && (#[trigger] old(self).list[i]).key()
                == item.key()) ==> final(self).list@ == old(self).list@,
    {
        let key = (item.rule, item.dot, item.lookahead, item.unique);
        let ghost before = item_keys(self.index);
        let (id, fresh) = item_set_insert(&mut self.index, key);
        if fresh {
            let mut stored = item;
            stored.id = id;
            self.list.push(stored);
            proof {
                let after = item_keys(self.index);
                assert forall|i: int, j: int| 0 <= i < after.len() && 0 <= j < after.len() && i
                    != j implies after[i] != after[j] by {
                    if i < before.len() && j < before.len() {
                        assert(before[i] != before[j]);
                    } else if i < before.len() {
                        assert(before.contains(before[i]));
                    } else {
                        assert(before.contains(before[j]));
                    }
                }
                assert forall|i: int| 0 <= i < old(self).list.len() && (#[trigger] old(
                    self,
                ).list[i]).key() == item.key() implies false by {
                    assert(before[i] == key);
                    assert(before.contains(key));
                }
            }
        }
        id
    }
}

/// All states of an automaton. The ID of a state is its index in the order
/// of insertion; a state is found again by its items.
pub struct StateTable {
    pub index: IndexSet<Vec<usize>>,
    pub list: Vec<State>,
}

impl StateTable {
    /// The index holds the item lists of the listed states in their order,
    /// every state has its index as its ID, and no two states hold the same
    /// items.
    pub open spec fn wf(&self) -> bool {
        &&& state_keys(self.index).len() == self.list.len()
        &&& forall|i: int|
            0 <= i < self.list.len() ==> #[trigger] state_keys(self.index)[i]
                == self.list[i].items@
        &&& forall|i: int| 0 <= i < self.list.len() ==> (#[trigger] self.list[i]).id == i
        &&& state_keys(self.index).no_duplicates()
    }

    /// Constructs an empty table.
    pub fn new() -> (table: StateTable)
        ensures
            table.wf(),
            table.list.len() == 0,
    {
        StateTable { index: state_set_new(), list: Vec::new() }
    }

    /// Returns the ID of the state with the given items, if the table holds
    /// it.
    pub fn find(&self, items: &Vec<usize>) -> (found: Option<usize>)
        requires
            self.wf(),
        ensures
            match found {
                Some(id) => id < self.list.len() && self.list[id as int].items@ == items@,
                None => forall|i: int|
                    0 <= i < self.list.len() ==> (#[trigger] self.list[i]).items@ != items@,
            },
    {
        let found = state_set_index_of(&self.index, items);
        proof {
            if found is None {
                assert forall|i: int| 0 <= i < self.list.len() implies (#[trigger] self.list[i]).items@
                    != items@ by {
                    assert(state_keys(self.index)[i] == self.list[i].items@);
                }
            }
        }
        found
    }

    /// Adds a state with the given items, which the table does not hold yet,
    /// and returns its ID.
    pub fn insert(&mut self, items: Vec<usize>) -> (id: usize)
        requires
            old(self).wf(),
            forall|i: int|
                0 <= i < old(self).list.len() ==> (#[trigger] old(self).list[i]).items@ != items@,
        ensures
            final(self).wf(),
            id == old(self).list.len(),
            final(self).list.len() == old(self).list.len() + 1,
            final(self).list@.subrange(0, id as int) == old(self).list@,
            final(self).list[id as int].items@ == items@,
    {
        let ghost before = state_keys(self.index);
        let ghost wanted = items@;
        let copy = items.clone();
        assert(copy@ == wanted);
        let (id, fresh) = state_set_insert(&mut self.index, copy);
        proof {
            if before.contains(wanted) {
                let k = choose|k: int| 0 <= k < before.len() && before[k] == wanted;
                assert(self.list[k].items@ == wanted);
            }
            let after = state_keys(self.index);
            assert forall|i: int, j: int| 0 <= i < after.len() && 0 <= j < after.len() && i
                != j implies after[i] != after[j] by {
                if i < before.len() && j < before.len() {
                    assert(before[i] != before[j]);
                } else if i < before.len() {
                    assert(before.contains(before[i]));
                } else {
                    assert(before.contains(before[j]));
                }
            }
        }
        self.list.push(State::new(id, items));
        assert(self.list@.subrange(0, id as int) =~= old(self).list@);
        id
    }
}

} // verus!
