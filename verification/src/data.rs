//! The tables of an automaton, detached from it, as the parsers take them.

use crate::action::Action;
use crate::analysis::GrammarView;
use crate::automaton::{item_edge_ok, Automaton};
use crate::grammar::Grammar;
use crate::item::Item;
use crate::table::Table;
use crate::tables::{action_ok, back_cell, backed, gotos, left_cell, shifts_ok, sole, Error};
use vstd::prelude::*;

verus! {

/// The `Data` struct contains all automaton data tables.
pub struct Data {
    pub grammar: Grammar,
    pub start_rule: usize,
    pub items: Vec<Item>,
    pub action_table: Table<Action>,
    pub goto_table: Table<usize>,
    pub left_table: Table<usize>,
    pub backtrack_table: Table<(usize, usize)>,
}

/// What the parsers read of the tables of an automaton.
pub struct DataView {
    pub g: GrammarView,
    pub start_rule: usize,
    pub items: Seq<Item>,
    pub action: Map<(usize, usize), Action>,
    pub goto: Map<(usize, usize), usize>,
    pub left: Map<(usize, usize), usize>,
    pub backtrack: Map<(usize, usize), (usize, usize)>,
    pub limit: nat,
}

impl View for Data {
    type V = DataView;

    open spec fn view(&self) -> DataView {
        DataView {
            g: self.grammar@,
            start_rule: self.start_rule,
            items: self.items@,
            action: self.action_table@,
            goto: self.goto_table@,
            left: self.left_table@,
            backtrack: self.backtrack_table@,
            limit: self.backtrack_table.spec_size() as nat,
        }
    }
}

impl Data {
    /// The grammar is well formed, the items belong to it, and the tables
    /// name rules of the grammar and items of the list.
    pub open spec fn wf(&self) -> bool {
        &&& self.grammar.wf()
        &&& self.start_rule < self.grammar.rules.len()
        &&& forall|i: int| 0 <= i < self.items.len() ==> (#[trigger] self.items[i]).fits(self.grammar@)
        &&& forall|k: (usize, usize)| #[trigger]
            self.action_table@.contains_key(k) ==> action_ok(
                self.action_table@[k],
                self.action_table.height(),
                self.grammar.rules.len() as nat,
            )
        &&& shifts_ok(self.action_table@)
        &&& forall|k: (usize, usize)| #[trigger]
            self.left_table@.contains_key(k) ==> self.left_table@[k] < self.items.len()
        &&& forall|k: (usize, usize)| #[trigger]
            self.backtrack_table@.contains_key(k) ==> self.backtrack_table@[k].1 < self.items.len()
    }

    /// Constructs a new data table.
    pub fn new(
        grammar: &Grammar,
        start_rule: usize,
        items: &[Item],
        action_table: Table<Action>,
        goto_table: Table<usize>,
        left_table: Table<usize>,
        backtrack_table: Table<(usize, usize)>,
    ) -> (data: Data)
        ensures
            data.grammar@ == grammar@,
            grammar.wf() ==> data.grammar.wf(),
            data.grammar.symbols@ == grammar.symbols@,
            data.start_rule == start_rule,
            data.items@ == items@,
            data.action_table == action_table,
            data.goto_table == goto_table,
            data.left_table == left_table,
            data.backtrack_table == backtrack_table,
    {
        let mut list: Vec<Item> = Vec::new();
        let mut i: usize = 0;
        while i < items.len()
            invariant
                i <= items.len(),
                list@ == items@.subrange(0, i as int),
            decreases items.len() - i,
        {
            list.push(items[i]);
            assert(items@.subrange(0, i + 1) =~= items@.subrange(0, i as int).push(items[i as int]));
            i += 1;
        }
        assert(items@.subrange(0, i as int) =~= items@);
        Data {
            grammar: grammar.clone(),
            start_rule,
            items: list,
            action_table,
            goto_table,
            left_table,
            backtrack_table,
        }
    }
}

impl Automaton {
    /// The data are those of the automaton: its grammar, start rule and
    /// items, its ACTION table, which has no conflict, and its GOTO, LEFT and
    /// BACKTRACK tables.
    pub open spec fn gives(&self, data: Data) -> bool {
        &&& data.wf()
        &&& data.grammar@ == self.grammar@
        &&& data.start_rule == self.start_rule
        &&& data.items@ == self.items@
        &&& self.action_result() == Ok::<Map<(usize, usize), Action>, (usize, usize)>(
            data.action_table@,
        )
        &&& data.goto_table@ == gotos(
            self.grammar@,
            self.state_transitions@,
            self.state_transitions.len() as int,
        )
        &&& forall|k: (usize, usize)| #[trigger]
            data.left_table@.contains_key(k) <==> (k.0 < self.states.len()
                && exists|id: usize|
                left_cell(
                    self.grammar@,
                    self.items@,
                    self.states[k.0 as int].items@,
                    k.1,
                    id,
                ))
        &&& forall|k: (usize, usize)|
            data.left_table@.contains_key(k) ==> left_cell(
                self.grammar@,
                self.items@,
                self.states[k.0 as int].items@,
                k.1,
                #[trigger] data.left_table@[k],
            )
        &&& forall|k: (usize, usize)| #[trigger]
            data.backtrack_table@.contains_key(k) <==> backed(
                self.items@,
                self.item_transitions@,
                self.item_transitions.len() as int,
                k,
            )
        &&& forall|k: (usize, usize)|
            data.backtrack_table@.contains_key(k) ==> back_cell(
                self.item_transitions@,
                self.item_transitions.len() as int,
                k,
                #[trigger] data.backtrack_table@[k],
            )
    }

    /// Returns all automaton data tables, or the first conflict of the
    /// ACTION table.
    pub fn data(&self) -> (result: Result<Data, Error>)
        requires
            self.wf(),
        ensures
            match result {
                Ok(data) => self.gives(data),
                Err(Error::ActionConflict(state, symbol)) => exists|id: usize|
                    id < self.grammar.symbols.len() && symbol == self.grammar.symbols[id as int]
                        && self.action_result() == Err::<
                        Map<(usize, usize), Action>,
                        (usize, usize),
                    >((state, id)),
            },
    {
        let action_table = match self.action_table() {
            Ok(table) => table,
            Err(error) => {
                return Err(error);
            },
        };
        let goto_table = self.goto_table();
        let left_table = self.left_table();
        let backtrack_table = self.backtrack_table();
        proof {
            let g = self.grammar@;
            assert forall|k: (usize, usize)| #[trigger] left_table@.contains_key(k) implies left_table@[k]
                < self.items.len() by {
                let id = left_table@[k];
                let here = self.states[k.0 as int].items@;
                assert(left_cell(g, self.items@, here, k.1, id));
                let j = choose|j: int| #[trigger]
                    sole(g, self.items@, here, k.1, j) && here[j] == id && self.items[id as int].unique;
                assert(self.states[k.0 as int].wf(self.items@));
                assert(here[j] < self.items.len());
            }
            assert forall|k: (usize, usize)| #[trigger]
                backtrack_table@.contains_key(k) implies backtrack_table@[k].1
                < self.items.len() by {
                let from = backtrack_table@[k];
                assert(back_cell(
                    self.item_transitions@,
                    self.item_transitions.len() as int,
                    k,
                    from,
                ));
                let w = choose|w: int|
                    0 <= w < self.item_transitions.len() && (#[trigger] self.item_transitions[w]).to
                        == k && self.item_transitions[w].from == from;
                assert(item_edge_ok(g, self.states@, self.item_transitions[w]));
                let state = self.states[from.0 as int];
                assert(state.wf(self.items@));
                let j = choose|j: int| 0 <= j < state.items.len() && state.items[j] == from.1;
                assert(state.items[j] < self.items.len());
            }
        }
        let data = Data::new(
            &self.grammar,
            self.start_rule,
            self.items.as_slice(),
            action_table,
            goto_table,
            left_table,
            backtrack_table,
        );
        Ok(data)
    }
}

} // verus!
