//! Grammar rules.

use crate::symbol::{Symbol, END};
use std::collections::HashSet;
use vstd::prelude::*;
use vstd::slice::slice_subrange;

verus! {

broadcast use vstd::std_specs::hash::group_hash_axioms;

/// A place in a rule body: the rule's ID and an index into its body.
pub type Position = (usize, usize);

/// The `Rule` struct describes a grammar rule.
///
/// Two rules are equal when they have the same head and body; rules are
/// ordered by their IDs.
#[derive(Debug)]
pub struct Rule {
    pub id: usize,
    pub head: usize,
    pub body: Vec<usize>,
    pub follow: Vec<usize>,
}

/// What a rule holds, as mathematical values.
pub struct RuleView {
    pub id: usize,
    pub head: usize,
    pub body: Seq<usize>,
    pub follow: Seq<usize>,
}

impl RuleView {
    /// The rule has the given ID, a non-empty body in which a leading end
    /// marker is followed by another symbol, and names only symbols below
    /// `count`.
    pub open spec fn valid_in(self, id: int, count: nat) -> bool {
        &&& self.id == id
        &&& self.head < count
        &&& self.body.len() > 0
        &&& self.body[0] == END ==> self.body.len() > 1
        &&& forall|i: int| 0 <= i < self.body.len() ==> #[trigger] self.body[i] < count
        &&& forall|i: int| 0 <= i < self.follow.len() ==> #[trigger] self.follow[i] < count
    }
}

impl View for Rule {
    type V = RuleView;

    open spec fn view(&self) -> RuleView {
        RuleView { id: self.id, head: self.head, body: self.body@, follow: self.follow@ }
    }
}

/// The views of a list of rules.
pub open spec fn rule_views(rules: Seq<Rule>) -> Seq<RuleView> {
    rules.map_values(|rule: Rule| rule@)
}

/// The symbols of a rule body from the given index on, each with its place.
pub open spec fn positions_from(id: usize, body: Seq<usize>, idx: int) -> Seq<(usize, Position)> {
    Seq::new(
        if idx <= body.len() {
            (body.len() - idx) as nat
        } else {
            0nat
        },
        |k: int| (body[idx + k], (id, (idx + k) as usize)),
    )
}

impl Rule {
    /// Constructs a new grammar rule.
    pub fn new(id: usize, head: usize, body: Vec<usize>, follow: Vec<usize>) -> (rule: Rule)
        ensures
            rule.id == id,
            rule.head == head,
            rule.body == body,
            rule.follow == follow,
    {
        Rule { id, head, body, follow }
    }

    /// Returns the set of nonterminal symbols in the rule body.
    pub fn nonterminals(&self, symbols: &[Symbol]) -> (set: HashSet<usize>)
        requires
            forall|i: int| 0 <= i < self.body.len() ==> self.body[i] < symbols.len(),
        ensures
            forall|id: usize|
                set@.contains(id) <==> (self.body@.contains(id) && symbols[id as int] is NonTerminal),
    {
        let mut set: HashSet<usize> = HashSet::new();
        let mut idx: usize = 0;
        while idx < self.body.len()
            invariant
                idx <= self.body.len(),
                forall|i: int| 0 <= i < self.body.len() ==> self.body[i] < symbols.len(),
                forall|id: usize|
                    set@.contains(id) <==> (self.body@.subrange(0, idx as int).contains(id)
                        && symbols[id as int] is NonTerminal),
            decreases self.body.len() - idx,
        {
            let id = self.body[idx];
            let ghost before = self.body@.subrange(0, idx as int);
            let ghost after = self.body@.subrange(0, idx + 1);
            proof {
                assert(after =~= before.push(id));
                assert forall|other: usize| after.contains(other) <==> (before.contains(other)
                    || other == id) by {
                    if after.contains(other) {
                        let k = choose|k: int| 0 <= k < after.len() && after[k] == other;
                        if k < before.len() {
                            assert(before[k] == other);
                        }
                    }
                    if before.contains(other) {
                        let k = choose|k: int| 0 <= k < before.len() && before[k] == other;
                        assert(after[k] == other);
                    }
                    if other == id {
                        assert(after[idx as int] == other);
                    }
                }
            }
            if symbols[id].is_nonterminal() {
                set.insert(id);
            }
            idx += 1;
        }
        assert(self.body@.subrange(0, idx as int) =~= self.body@);
        set
    }

    /// Returns the tail from the specified index.
    pub fn tail(&self, idx: usize) -> (tail: &[usize])
        requires
            idx <= self.body.len(),
        ensures
            tail@ == self.body@.subrange(idx as int, self.body.len() as int),
    {
        slice_subrange(self.body.as_slice(), idx, self.body.len())
    }

    /// Returns the symbol positions from the specified index.
    pub fn positions(&self, idx: usize) -> (positions: Vec<(usize, Position)>)
        ensures
            positions@ == positions_from(self.id, self.body@, idx as int),
    {
        let mut positions: Vec<(usize, Position)> = Vec::new();
        let mut at: usize = idx;
        while at < self.body.len()
            invariant
                idx <= at,
                idx <= self.body.len() ==> at <= self.body.len(),
                idx <= self.body.len() ==> positions.len() == at - idx,
                idx > self.body.len() ==> positions.len() == 0,
                forall|k: int|
                    0 <= k < positions.len() ==> positions[k] == (
                        self.body[idx + k],
                        (self.id, (idx + k) as usize),
                    ),
            decreases self.body.len() - at,
        {
            positions.push((self.body[at], (self.id, at)));
            at += 1;
        }
        assert(positions@ =~= positions_from(self.id, self.body@, idx as int));
        positions
    }
}

impl Clone for Rule {
    fn clone(&self) -> (copy: Rule)
        ensures
            copy@ == self@,
    {
        Rule {
            id: self.id,
            head: self.head,
            body: self.body.clone(),
            follow: self.follow.clone(),
        }
    }
}

impl PartialEq for Rule {
    fn eq(&self, other: &Rule) -> (equal: bool) {
        self.head == other.head && same_ids(self.body.as_slice(), other.body.as_slice())
    }
}

impl vstd::std_specs::cmp::PartialEqSpecImpl for Rule {
    open spec fn obeys_eq_spec() -> bool {
        true
    }

    open spec fn eq_spec(&self, other: &Rule) -> bool {
        self.head == other.head && self.body@ == other.body@
    }
}

/// Returns `true` if the two lists hold the same IDs in the same order.
pub fn same_ids(a: &[usize], b: &[usize]) -> (equal: bool)
    ensures
        equal == (a@ == b@),
{
    if a.len() != b.len() {
        return false;
    }
    let mut idx: usize = 0;
    while idx < a.len()
        invariant
            a.len() == b.len(),
            idx <= a.len(),
            forall|i: int| 0 <= i < idx ==> a[i] == b[i],
        decreases a.len() - idx,
    {
        if a[idx] != b[idx] {
            return false;
        }
        idx += 1;
    }
    assert(a@ =~= b@);
    true
}

} // verus!
