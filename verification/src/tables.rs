//! The tables of an automaton: ACTION, GOTO, LEFT and BACKTRACK.

use crate::action::Action;
use crate::analysis::{in_first_seq, GrammarView};
use crate::automaton::{item_edge_ok, state_edge_ok, Automaton};
use crate::item::Item;
use crate::symbol::{Symbol, NULL};
use crate::table::Table;
use crate::transition::{ItemTransition, StateTransition};
use vstd::prelude::*;

verus! {

/// What stops the construction of the tables.
#[derive(Debug)]
pub enum Error {
    /// Two actions ask for the cell of the state and the symbol, and the
    /// grammar states no preference for the symbol.
    ActionConflict(usize, Symbol),
}

/// The symbol can be shifted: it is a terminal or the end marker.
pub open spec fn shiftable(g: GrammarView, symbol: usize) -> bool {
    symbol < g.symbols.len() && (g.symbols[symbol as int] is Terminal
        || g.symbols[symbol as int] is End)
}

/// The shift actions of the first `upto` state transitions.
pub open spec fn shifts(g: GrammarView, sts: Seq<StateTransition>, upto: int) -> Map<
    (usize, usize),
    Action,
>
    decreases upto,
{
    if upto <= 0 {
        Map::empty()
    } else {
        let t = sts[upto - 1];
        if shiftable(g, t.symbol) {
            shifts(g, sts, upto - 1).insert((t.from, t.symbol), Action::Shift(t.to))
        } else {
            shifts(g, sts, upto - 1)
        }
    }
}

/// The GOTO entries of the first `upto` state transitions: those on
/// nonterminals.
pub open spec fn gotos(g: GrammarView, sts: Seq<StateTransition>, upto: int) -> Map<
    (usize, usize),
    usize,
>
    decreases upto,
{
    if upto <= 0 {
        Map::empty()
    } else {
        let t = sts[upto - 1];
        if g.is_nonterminal(t.symbol) {
            gotos(g, sts, upto - 1).insert((t.from, t.symbol), t.to)
        } else {
            gotos(g, sts, upto - 1)
        }
    }
}

/// The preferred action for conflicts on the symbol: that of the first
/// entry for the symbol.
pub open spec fn preference(actions: Seq<(usize, Action)>, symbol: usize) -> Option<Action>
    decreases actions.len(),
{
    if actions.len() == 0 {
        None
    } else if actions[0].0 == symbol {
        Some(actions[0].1)
    } else {
        preference(actions.drop_first(), symbol)
    }
}

/// The symbol and the action that an item asks for: accept at its
/// lookahead, where it is an item of the start rule with the dot at the end;
/// reduce at its lookahead, where it is an item of another rule with the dot
/// at the end or before ϵ.
pub open spec fn wish(item: Item, start_rule: usize) -> Option<(usize, Action)> {
    if item.rule == start_rule && item.head is None {
        Some((item.lookahead, Action::Accept(item.rule)))
    } else if item.rule != start_rule && (item.head is None || item.head == Some(NULL)) {
        Some((item.lookahead, Action::Reduce(item.rule)))
    } else {
        None
    }
}

/// The table after an item of the state has asked for its action. A free
/// cell takes the action. A cell that is taken keeps its action where the
/// preference for the symbol is to shift, takes the new one where it is to
/// reduce, and is a conflict where the grammar states none.
pub open spec fn grant(
    table: Map<(usize, usize), Action>,
    actions: Seq<(usize, Action)>,
    state: usize,
    asked: Option<(usize, Action)>,
) -> Result<Map<(usize, usize), Action>, (usize, usize)> {
    match asked {
        None => Ok(table),
        Some((symbol, action)) => if table.contains_key((state, symbol)) {
            match preference(actions, symbol) {
                Some(preferred) => Ok(
                    if preferred is Reduce {
                        table.insert((state, symbol), action)
                    } else {
                        table
                    },
                ),
                None => Err((state, symbol)),
            }
        } else {
            Ok(table.insert((state, symbol), action))
        },
    }
}

/// A collision in a cell of the ACTION table is a conflict, unless the
/// grammar states a preference for the symbol.
pub proof fn lemma_collision(
    table: Map<(usize, usize), Action>,
    actions: Seq<(usize, Action)>,
    state: usize,
    symbol: usize,
    action: Action,
)
    requires
        table.contains_key((state, symbol)),
    ensures
        preference(actions, symbol) is None ==> grant(table, actions, state, Some((symbol, action)))
            == Err::<Map<(usize, usize), Action>, (usize, usize)>((state, symbol)),
        preference(actions, symbol) is Some ==> grant(
            table,
            actions,
            state,
            Some((symbol, action)),
        ) is Ok,
{
}

/// The action is one of the automaton: it shifts to a state or reduces a
/// rule.
pub open spec fn action_ok(action: Action, states: nat, rules: nat) -> bool {
    match action {
        Action::Shift(state) => state < states,
        Action::Reduce(rule) => rule < rules,
        Action::Accept(rule) => rule < rules,
    }
}

/// No cell for ϵ holds a shift.
pub open spec fn shifts_ok(table: Map<(usize, usize), Action>) -> bool {
    forall|k: (usize, usize)| #[trigger] table.contains_key(k) && table[k] is Shift ==> k.1 != NULL
}

/// The symbol is in FIRST of what follows the dot of the item, lookahead
/// included.
pub open spec fn predicts(g: GrammarView, item: Item, symbol: usize) -> bool {
    in_first_seq(
        g,
        g.rules[item.rule as int].body.subrange(
            item.dot as int,
            g.rules[item.rule as int].body.len() as int,
        ).push(item.lookahead),
        symbol,
    )
}

/// The item at position `j` of the state predicts the symbol, and no other
/// item of the state does.
pub open spec fn sole(g: GrammarView, items: Seq<Item>, state: Seq<usize>, symbol: usize, j: int) -> bool {
    &&& 0 <= j < state.len()
    &&& predicts(g, items[state[j] as int], symbol)
    &&& forall|m: int|
        0 <= m < state.len() && #[trigger] predicts(g, items[state[m] as int], symbol) ==> m == j
}

/// Item `id` is the one item of the state that predicts the symbol, and it
/// is unique.
pub open spec fn left_cell(
    g: GrammarView,
    items: Seq<Item>,
    state: Seq<usize>,
    symbol: usize,
    id: usize,
) -> bool {
    exists|j: int| #[trigger] sole(g, items, state, symbol, j) && state[j] == id && items[id as int].unique
}

/// The first pair is not behind the second: pairs are ordered by their first
/// parts, then by their second parts.
pub open spec fn pair_le(a: (usize, usize), b: (usize, usize)) -> bool {
    a.0 < b.0 || (a.0 == b.0 && a.1 <= b.1)
}

/// One of the first `upto` item transitions leads to the item `to`, which
/// is unique.
pub open spec fn backed(items: Seq<Item>, its: Seq<ItemTransition>, upto: int, to: (usize, usize)) -> bool {
    items[to.1 as int].unique && exists|k: int| 0 <= k < upto && (#[trigger] its[k]).to == to
}

/// `from` is the first, in the order of pairs, of the origins of those of
/// the first `upto` item transitions that lead to `to`.
pub open spec fn back_cell(
    its: Seq<ItemTransition>,
    upto: int,
    to: (usize, usize),
    from: (usize, usize),
) -> bool {
    &&& exists|k: int| 0 <= k < upto && (#[trigger] its[k]).to == to && its[k].from == from
    &&& forall|k: int| 0 <= k < upto && (#[trigger] its[k]).to == to ==> pair_le(from, its[k].from)
}

/// What is known of a symbol after the first `upto` items of a state: no
/// item predicts it, one does, the one at position `at`, or more than one do.
pub open spec fn tally(
    g: GrammarView,
    items: Seq<Item>,
    state: Seq<usize>,
    symbol: usize,
    upto: int,
    count: u8,
    at: usize,
) -> bool {
    &&& count <= 2
    &&& count == 0 ==> forall|m: int|
        0 <= m < upto ==> !#[trigger] predicts(g, items[state[m] as int], symbol)
    &&& count == 1 ==> at < upto && predicts(g, items[state[at as int] as int], symbol) && forall|
        m: int,
    |
        0 <= m < upto && #[trigger] predicts(g, items[state[m] as int], symbol) ==> m == at
    &&& count == 2 ==> exists|m: int, q: int|
        0 <= m < q < upto && #[trigger] predicts(g, items[state[m] as int], symbol)
            && #[trigger] predicts(g, items[state[q] as int], symbol)
}

impl Automaton {
    /// The ACTION table after the shifts and after the first `i` items of
    /// state `s` and all items of the states before it have asked for their
    /// actions, or the first conflict.
    pub open spec fn actions_upto(&self, s: int, i: int) -> Result<
        Map<(usize, usize), Action>,
        (usize, usize),
    >
        decreases s, i,
    {
        if s < 0 || i < 0 {
            Ok(Map::empty())
        } else if i > 0 {
            match self.actions_upto(s, i - 1) {
                Err(conflict) => Err(conflict),
                Ok(table) => grant(
                    table,
                    self.grammar.actions@,
                    s as usize,
                    wish(self.items[self.states[s].items[i - 1] as int], self.start_rule),
                ),
            }
        } else if s > 0 {
            self.actions_upto(s - 1, self.states[s - 1].items.len() as int)
        } else {
            Ok(shifts(self.grammar@, self.state_transitions@, self.state_transitions.len() as int))
        }
    }

    /// The ACTION table of the automaton, or its first conflict.
    pub open spec fn action_result(&self) -> Result<Map<(usize, usize), Action>, (usize, usize)> {
        self.actions_upto(self.states.len() as int, 0)
    }

    /// A conflict stays: what comes after it does not change the result.
    pub proof fn lemma_conflict_stays(&self, s: int, i: int, t: int, j: int)
        requires
            self.actions_upto(s, i) is Err,
            0 <= s,
            0 <= i <= self.states[s].items.len(),
            s < t || (s == t && i <= j),
            0 <= j,
            t <= self.states.len(),
            t < self.states.len() ==> j <= self.states[t].items.len(),
            t == self.states.len() ==> j == 0,
        ensures
            self.actions_upto(t, j) == self.actions_upto(s, i),
        decreases t, j,
    {
        if s == t && i == j {
        } else if j > 0 {
            self.lemma_conflict_stays(s, i, t, j - 1);
        } else {
            self.lemma_conflict_stays(s, i, t - 1, self.states[t - 1].items.len() as int);
        }
    }

    /// Returns the preferred action for conflicts on the symbol.
    fn preferred(&self, symbol: usize) -> (found: Option<Action>)
        ensures
            found == preference(self.grammar.actions@, symbol),
    {
        let actions = &self.grammar.actions;
        let mut at: usize = 0;
        assert(actions@.subrange(0, actions.len() as int) =~= actions@);
        while at < actions.len()
            invariant
                *actions == self.grammar.actions,
                at <= actions.len(),
                preference(actions@, symbol) == preference(
                    actions@.subrange(at as int, actions.len() as int),
                    symbol,
                ),
            decreases actions.len() - at,
        {
            let ghost rest = actions@.subrange(at as int, actions.len() as int);
            assert(rest.drop_first() =~= actions@.subrange(at + 1, actions.len() as int));
            assert(rest[0] == actions@[at as int]);
            if actions[at].0 == symbol {
                return Some(actions[at].1);
            }
            at += 1;
        }
        None
    }

    /// Returns the ACTION table of the automaton.
    ///
    /// The table holds a shift for every state transition on a terminal or
    /// on the end marker. Then the items of every state ask for their
    /// actions, in the order of the states and of the items in each state.
    pub fn action_table(&self) -> (result: Result<Table<Action>, Error>)
        requires
            self.wf(),
        ensures
            match result {
                Ok(table) => self.action_result() == Ok::<
                    Map<(usize, usize), Action>,
                    (usize, usize),
                >(table@) && table.height() == self.states.len() && shifts_ok(table@) && forall|
                    k: (usize, usize),
                | #[trigger]
                    table@.contains_key(k) ==> action_ok(
                        table@[k],
                        self.states.len() as nat,
                        self.grammar.rules.len() as nat,
                    ),
                Err(Error::ActionConflict(state, symbol)) => exists|id: usize|
                    id < self.grammar.symbols.len() && symbol == self.grammar.symbols[id as int]
                        && self.action_result() == Err::<
                        Map<(usize, usize), Action>,
                        (usize, usize),
                    >((state, id)),
            },
    {
        let ghost g = self.grammar@;
        let ghost sts = self.state_transitions@;
        let mut table: Table<Action> = Table::new(self.states.len());
        // All transitions with terminal symbols correspond to a Shift action.
        let mut k: usize = 0;
        while k < self.state_transitions.len()
            invariant
                self.wf(),
                g == self.grammar@,
                sts == self.state_transitions@,
                k <= sts.len(),
                table.height() == self.states.len(),
                shifts_ok(table@),
                table@ == shifts(g, sts, k as int),
                forall|key: (usize, usize)| #[trigger]
                    table@.contains_key(key) ==> action_ok(
                        table@[key],
                        self.states.len() as nat,
                        self.grammar.rules.len() as nat,
                    ),
            decreases sts.len() - k,
        {
            let t = self.state_transitions[k];
            assert(state_edge_ok(g, self.states@, sts[k as int]));
            let shift = match self.grammar.symbol(t.symbol) {
                Symbol::Terminal(..) => true,
                Symbol::End => true,
                _ => false,
            };
            if shift {
                table.insert(t.from, t.symbol, Action::Shift(t.to));
            }
            k += 1;
        }
        let mut s: usize = 0;
        while s < self.states.len()
            invariant
                self.wf(),
                g == self.grammar@,
                s <= self.states.len(),
                table.height() == self.states.len(),
                shifts_ok(table@),
                self.actions_upto(s as int, 0) == Ok::<
                    Map<(usize, usize), Action>,
                    (usize, usize),
                >(table@),
                forall|key: (usize, usize)| #[trigger]
                    table@.contains_key(key) ==> action_ok(
                        table@[key],
                        self.states.len() as nat,
                        self.grammar.rules.len() as nat,
                    ),
            decreases self.states.len() - s,
        {
            let state = &self.states[s];
            assert(state.wf(self.items@));
            let mut i: usize = 0;
            while i < state.items.len()
                invariant
                    self.wf(),
                    g == self.grammar@,
                    s < self.states.len(),
                    *state == self.states[s as int],
                    state.wf(self.items@),
                    i <= state.items.len(),
                    table.height() == self.states.len(),
                    shifts_ok(table@),
                shifts_ok(table@),
                    self.actions_upto(s as int, i as int) == Ok::<
                        Map<(usize, usize), Action>,
                        (usize, usize),
                    >(table@),
                    forall|key: (usize, usize)| #[trigger]
                        table@.contains_key(key) ==> action_ok(
                            table@[key],
                            self.states.len() as nat,
                            self.grammar.rules.len() as nat,
                        ),
                decreases state.items.len() - i,
            {
                let item = self.items[state.items[i]];
                assert(item.fits(g));
                // Accept actions have a higher precedence.
                let asked = if item.can_accept(self.start_rule) {
                    Some((item.lookahead, Action::Accept(item.rule)))
                } else if item.can_reduce(self.start_rule) {
                    Some((item.lookahead, Action::Reduce(item.rule)))
                } else {
                    None
                };
                assert(asked == wish(item, self.start_rule));
                match asked {
                    None => {},
                    Some((symbol, action)) => {
                        // Every symbol in each state can only correspond to a single action.
                        if table.get(s, symbol).is_some() {
                            // Resolve conflicts if the grammar has specified an override.
                            match self.preferred(symbol) {
                                Some(preferred) => {
                                    if preferred.is_reduce() {
                                        table.insert(s, symbol, action);
                                    }
                                },
                                None => {
                                    proof {
                                        assert(self.actions_upto(s as int, i + 1) == Err::<
                                            Map<(usize, usize), Action>,
                                            (usize, usize),
                                        >((s, symbol)));
                                        self.lemma_conflict_stays(
                                            s as int,
                                            i + 1,
                                            self.states.len() as int,
                                            0,
                                        );
                                    }
                                    return Err(
                                        Error::ActionConflict(
                                            s,
                                            self.grammar.symbols[symbol].clone(),
                                        ),
                                    );
                                },
                            }
                        } else {
                            table.insert(s, symbol, action);
                        }
                    },
                }
                i += 1;
            }
            s += 1;
        }
        Ok(table)
    }

    /// Returns the GOTO table of the automaton: for every state transition on
    /// a nonterminal, the state it leads to.
    pub fn goto_table(&self) -> (table: Table<usize>)
        requires
            self.wf(),
        ensures
            table.height() == self.states.len(),
            table@ == gotos(
                self.grammar@,
                self.state_transitions@,
                self.state_transitions.len() as int,
            ),
    {
        let ghost g = self.grammar@;
        let ghost sts = self.state_transitions@;
        let mut table: Table<usize> = Table::new(self.states.len());
        let mut k: usize = 0;
        while k < self.state_transitions.len()
            invariant
                self.wf(),
                g == self.grammar@,
                sts == self.state_transitions@,
                k <= sts.len(),
                table.height() == self.states.len(),
                table@ == gotos(g, sts, k as int),
            decreases sts.len() - k,
        {
            let t = self.state_transitions[k];
            assert(state_edge_ok(g, self.states@, sts[k as int]));
            if self.grammar.symbol(t.symbol).is_nonterminal() {
                table.insert(t.from, t.symbol, t.to);
            }
            k += 1;
        }
        table
    }

    /// Adds the LEFT entries of state `s` to the table.
    fn left_row(&self, s: usize, table: &mut Table<usize>)
        requires
            self.wf(),
            s < self.states.len(),
            old(table).height() == self.states.len(),
            forall|k: (usize, usize)| #[trigger] old(table)@.contains_key(k) ==> k.0 < s,
        ensures
            final(table).height() == old(table).height(),
            forall|k: (usize, usize)| #[trigger]
                final(table)@.contains_key(k) <==> (old(table)@.contains_key(k) || (k.0 == s
                    && exists|id: usize|
                    left_cell(self.grammar@, self.items@, self.states[s as int].items@, k.1, id))),
            forall|k: (usize, usize)|
                old(table)@.contains_key(k) ==> #[trigger] final(table)@[k] == old(table)@[k],
            forall|k: (usize, usize)|
                final(table)@.contains_key(k) && k.0 == s ==> left_cell(
                    self.grammar@,
                    self.items@,
                    self.states[s as int].items@,
                    k.1,
                    #[trigger] final(table)@[k],
                ),
    {
        let ghost g = self.grammar@;
        let ghost items = self.items@;
        let state = &self.states[s];
        let ghost here = state.items@;
        assert(state.wf(items));
        let n = self.grammar.symbols.len();
        let mut count: Vec<u8> = Vec::new();
        let mut place: Vec<usize> = Vec::new();
        while count.len() < n
            invariant
                count.len() <= n,
                place.len() == count.len(),
                forall|t: int| 0 <= t < count.len() ==> count[t] == 0,
            decreases n - count.len(),
        {
            count.push(0);
            place.push(0);
        }
        let mut i: usize = 0;
        while i < state.items.len()
            invariant
                self.wf(),
                g == self.grammar@,
                items == self.items@,
                s < self.states.len(),
                *state == self.states[s as int],
                here == state.items@,
                state.wf(items),
                n == self.grammar.symbols.len(),
                count.len() == n,
                place.len() == n,
                i <= here.len(),
                forall|t: usize|
                    t < n ==> tally(g, items, here, t, i as int, #[trigger] count[t as int], place[t as int]),
            decreases here.len() - i,
        {
            let item = self.items[state.items[i]];
            assert(item.fits(g));
            assert(g.rules[item.rule as int] == self.grammar.rules[item.rule as int]@);
            assert(g.rules[item.rule as int].valid_in(item.rule as int, g.symbols.len()));
            let rule = self.grammar.rule(item.rule);
            // Find the FIRST set of the item's follow sequence.
            let sequence = item.follow(rule);
            let bits = self.grammar.first_sequence_bits(sequence.as_slice());
            assert forall|t: usize| t < n implies (bits[t as int] <==> predicts(g, item, t)) by {}
            let mut t: usize = 0;
            while t < n
                invariant
                    n == count.len(),
                    place.len() == n,
                    bits.len() == n,
                    i < here.len(),
                    t <= n,
                    item == items[here[i as int] as int],
                    forall|u: usize| u < n ==> (bits[u as int] <==> predicts(g, item, u)),
                    forall|u: usize|
                        u < t ==> tally(
                            g,
                            items,
                            here,
                            u,
                            i + 1,
                            #[trigger] count[u as int],
                            place[u as int],
                        ),
                    forall|u: usize|
                        t <= u < n ==> tally(
                            g,
                            items,
                            here,
                            u,
                            i as int,
                            #[trigger] count[u as int],
                            place[u as int],
                        ),
                decreases n - t,
            {
                let ghost old_count = count[t as int];
                let ghost old_place = place[t as int];
                assert(tally(g, items, here, t, i as int, old_count, old_place));
                if bits[t] {
                    if count[t] == 0 {
                        count[t] = 1;
                        place[t] = i;
                    } else {
                        proof {
                            if old_count == 1 {
                                assert(predicts(g, items[here[old_place as int] as int], t));
                                assert(predicts(g, items[here[i as int] as int], t));
                            } else {
                                let (m, q) = choose|m: int, q: int|
                                    0 <= m < q < i && #[trigger] predicts(
                                        g,
                                        items[here[m] as int],
                                        t,
                                    ) && #[trigger] predicts(g, items[here[q] as int], t);
                                assert(0 <= m < q < i + 1);
                            }
                        }
                        count[t] = 2;
                    }
                } else {
                    proof {
                        if old_count == 2 {
                            let (m, q) = choose|m: int, q: int|
                                0 <= m < q < i && #[trigger] predicts(g, items[here[m] as int], t)
                                    && #[trigger] predicts(g, items[here[q] as int], t);
                            assert(0 <= m < q < i + 1);
                        }
                    }
                }
                assert(tally(g, items, here, t, i + 1, count[t as int], place[t as int]));
                t += 1;
            }
            i += 1;
        }
        // The LEFT table only contains symbols that correspond to a single, unique item.
        let mut t: usize = 0;
        while t < n
            invariant
                self.wf(),
                g == self.grammar@,
                items == self.items@,
                s < self.states.len(),
                *state == self.states[s as int],
                here == state.items@,
                state.wf(items),
                n == count.len(),
                place.len() == n,
                t <= n,
                table.height() == self.states.len(),
                forall|u: usize|
                    u < n ==> tally(
                        g,
                        items,
                        here,
                        u,
                        here.len() as int,
                        #[trigger] count[u as int],
                        place[u as int],
                    ),
                forall|k: (usize, usize)| #[trigger]
                    table@.contains_key(k) <==> (old(table)@.contains_key(k) || (k.0 == s && k.1 < t
                        && exists|id: usize| left_cell(g, items, here, k.1, id))),
                forall|k: (usize, usize)| #[trigger] old(table)@.contains_key(k) ==> k.0 < s,
                forall|k: (usize, usize)|
                    old(table)@.contains_key(k) ==> #[trigger] table@[k] == old(table)@[k],
                forall|k: (usize, usize)|
                    table@.contains_key(k) && k.0 == s ==> left_cell(
                        g,
                        items,
                        here,
                        k.1,
                        #[trigger] table@[k],
                    ),
            decreases n - t,
        {
            assert(tally(g, items, here, t, here.len() as int, count[t as int], place[t as int]));
            let mut added = false;
            if count[t] == 1 {
                let id = state.items[place[t]];
                if self.items[id].unique {
                    proof {
                        assert(sole(g, items, here, t, place[t as int] as int));
                        assert(left_cell(g, items, here, t, id));
                    }
                    table.insert(s, t, id);
                    added = true;
                }
            }
            proof {
                if !added {
                    assert forall|id: usize| !left_cell(g, items, here, t, id) by {
                        if left_cell(g, items, here, t, id) {
                            let j = choose|j: int| #[trigger]
                                sole(g, items, here, t, j) && here[j] == id && items[id as int].unique;
                            if count[t as int] == 2 {
                                let (m, q) = choose|m: int, q: int|
                                    0 <= m < q < here.len() && #[trigger] predicts(
                                        g,
                                        items[here[m] as int],
                                        t,
                                    ) && #[trigger] predicts(g, items[here[q] as int], t);
                                assert(m == j && q == j);
                            } else if count[t as int] == 1 {
                                assert(j == place[t as int]);
                            }
                        }
                    }
                }
            }
            t += 1;
        }
        proof {
            assert forall|k: (usize, usize)| #[trigger]
                table@.contains_key(k) <==> (old(table)@.contains_key(k) || (k.0 == s
                    && exists|id: usize| left_cell(g, items, here, k.1, id))) by {
                if k.0 == s && exists|id: usize| left_cell(g, items, here, k.1, id) {
                    let id = choose|id: usize| left_cell(g, items, here, k.1, id);
                    let j = choose|j: int| #[trigger]
                        sole(g, items, here, k.1, j) && here[j] == id && items[id as int].unique;
                    assert(here[j] < items.len());
                    assert(items[here[j] as int].fits(g));
                    crate::analysis::lemma_first_seq_range(
                        g,
                        g.rules[items[here[j] as int].rule as int].body.subrange(
                            items[here[j] as int].dot as int,
                            g.rules[items[here[j] as int].rule as int].body.len() as int,
                        ).push(items[here[j] as int].lookahead),
                        k.1,
                    );
                }
            }
        }
    }

    /// Returns the LEFT table of the automaton.
    ///
    /// The LEFT table describes which item a symbol in a state corresponds to.
    /// A symbol corresponds to an item, if it's in the FIRST set of what
    /// follows the dot of the item. A cell is kept only where exactly one item
    /// of the state corresponds to the symbol, and that item is unique.
    pub fn left_table(&self) -> (table: Table<usize>)
        requires
            self.wf(),
        ensures
            table.height() == self.states.len(),
            forall|k: (usize, usize)| #[trigger]
                table@.contains_key(k) <==> (k.0 < self.states.len() && exists|id: usize|
                    left_cell(self.grammar@, self.items@, self.states[k.0 as int].items@, k.1, id)),
            forall|k: (usize, usize)|
                table@.contains_key(k) ==> left_cell(
                    self.grammar@,
                    self.items@,
                    self.states[k.0 as int].items@,
                    k.1,
                    #[trigger] table@[k],
                ),
    {
        let mut table: Table<usize> = Table::new(self.states.len());
        let mut s: usize = 0;
        while s < self.states.len()
            invariant
                self.wf(),
                s <= self.states.len(),
                table.height() == self.states.len(),
                forall|k: (usize, usize)| #[trigger]
                    table@.contains_key(k) <==> (k.0 < s && exists|id: usize|
                        left_cell(
                            self.grammar@,
                            self.items@,
                            self.states[k.0 as int].items@,
                            k.1,
                            id,
                        )),
                forall|k: (usize, usize)|
                    table@.contains_key(k) ==> left_cell(
                        self.grammar@,
                        self.items@,
                        self.states[k.0 as int].items@,
                        k.1,
                        #[trigger] table@[k],
                    ),
            decreases self.states.len() - s,
        {
            self.left_row(s, &mut table);
            s += 1;
        }
        table
    }

    /// Returns the BACKTRACK table of the automaton.
    /// It describes reverse transitions between unique items: for every
    /// unique item that item transitions lead to, the origin of the first of
    /// them in the order of origins.
    #[verifier::rlimit(60)]
    pub fn backtrack_table(&self) -> (table: Table<(usize, usize)>)
        requires
            self.wf(),
        ensures
            table.height() == self.states.len(),
            forall|k: (usize, usize)| #[trigger]
                table@.contains_key(k) <==> backed(
                    self.items@,
                    self.item_transitions@,
                    self.item_transitions.len() as int,
                    k,
                ),
            forall|k: (usize, usize)|
                table@.contains_key(k) ==> back_cell(
                    self.item_transitions@,
                    self.item_transitions.len() as int,
                    k,
                    #[trigger] table@[k],
                ),
    {
        let ghost g = self.grammar@;
        let ghost items = self.items@;
        let ghost its = self.item_transitions@;
        let mut table: Table<(usize, usize)> = Table::new(self.states.len());
        let mut k: usize = 0;
        while k < self.item_transitions.len()
            invariant
                self.wf(),
                g == self.grammar@,
                items == self.items@,
                its == self.item_transitions@,
                k <= its.len(),
                table.height() == self.states.len(),
                forall|key: (usize, usize)| #[trigger]
                    table@.contains_key(key) <==> backed(items, its, k as int, key),
                forall|key: (usize, usize)|
                    table@.contains_key(key) ==> back_cell(its, k as int, key, #[trigger] table@[key]),
            decreases its.len() - k,
        {
            let t = self.item_transitions[k];
            let ghost before = table@;
            assert(item_edge_ok(g, self.states@, its[k as int]));
            assert(self.states[t.to.0 as int].wf(items));
            proof {
                let j = choose|j: int|
                    0 <= j < self.states[t.to.0 as int].items.len() && self.states[t.to.0 as int].items[j]
                        == t.to.1;
                assert(self.states[t.to.0 as int].items[j] < items.len());
            }
            if self.items[t.to.1].unique {
                match table.get(t.to.0, t.to.1) {
                    None => {
                        table.insert(t.to.0, t.to.1, t.from);
                        proof {
                            assert(!backed(items, its, k as int, t.to));
                            assert(back_cell(its, k + 1, t.to, t.from)) by {
                                assert(its[k as int].to == t.to && its[k as int].from == t.from);
                            }
                        }
                    },
                    Some(current) => {
                        assert(back_cell(its, k as int, t.to, current));
                        let less = t.from.0 < current.0 || (t.from.0 == current.0 && t.from.1
                            < current.1);
                        if less {
                            table.insert(t.to.0, t.to.1, t.from);
                            proof {
                                assert(back_cell(its, k + 1, t.to, t.from)) by {
                                    assert(its[k as int].to == t.to && its[k as int].from
                                        == t.from);
                                }
                            }
                        } else {
                            proof {
                                let w = choose|w: int|
                                    0 <= w < k && (#[trigger] its[w]).to == t.to && its[w].from
                                        == current;
                                assert(back_cell(its, k + 1, t.to, current)) by {
                                    assert(its[w].to == t.to && its[w].from == current);
                                }
                            }
                        }
                    },
                }
            }
            proof {
                assert forall|key: (usize, usize)| #[trigger]
                    table@.contains_key(key) <==> backed(items, its, k + 1, key) by {
                    if backed(items, its, k + 1, key) {
                        let w = choose|w: int| 0 <= w < k + 1 && (#[trigger] its[w]).to == key;
                        if w < k {
                            assert(backed(items, its, k as int, key));
                        }
                    }
                    if backed(items, its, k as int, key) {
                        let w = choose|w: int| 0 <= w < k && (#[trigger] its[w]).to == key;
                        assert(0 <= w < k + 1 && its[w].to == key);
                    }
                    if key == t.to && items[t.to.1 as int].unique {
                        assert(its[k as int].to == key);
                    }
                }
                assert forall|key: (usize, usize)| table@.contains_key(key) implies back_cell(
                    its,
                    k + 1,
                    key,
                    #[trigger] table@[key],
                ) by {
                    if key != t.to {
                        assert(before.contains_key(key));
                        assert(back_cell(its, k as int, key, before[key]));
                        let w = choose|w: int|
                            0 <= w < k && (#[trigger] its[w]).to == key && its[w].from
                                == before[key];
                        assert(0 <= w < k + 1 && its[w].to == key && its[w].from == before[key]);
                    }
                }
            }
            k += 1;
        }
        table
    }

}

} // verus!
