//! Items of the LR(1) automaton.

use crate::analysis::GrammarView;
use crate::rule::Rule;
use crate::symbol::{Symbol, END, NULL};
use vstd::prelude::*;

verus! {

/// What identifies an item: rule, dot, lookahead and uniqueness.
pub type ItemKey = (usize, usize, usize, bool);

/// What an item says of the grammar: rule, dot and lookahead.
pub type Core = (usize, usize, usize);

/// The `Item` struct describes an item of a state in an automaton.
///
/// An item is unique, if all its parents are unique, and represent the same rule.
/// If an item's parent is the item itself, it's not unique.
///
/// Two items are the same item when they agree in rule, dot, lookahead and
/// uniqueness, whatever their IDs; items are ordered by their IDs.
#[derive(Clone, Copy, Debug)]
pub struct Item {
    pub id: usize,
    pub rule: usize,
    // Index into the body of the rule.
    pub dot: usize,
    // The symbol the `dot` field refers to.
    pub head: Option<usize>,
    // The symbol that follows the item.
    pub lookahead: usize,
    pub unique: bool,
}

/// The symbol of a rule body at the dot, if the dot is not at its end.
pub open spec fn symbol_at(body: Seq<usize>, dot: int) -> Option<usize> {
    if 0 <= dot < body.len() {
        Some(body[dot])
    } else {
        None
    }
}

/// Where the dot of a new item stands: behind a leading end marker, else at
/// the start.
pub open spec fn start_dot(body: Seq<usize>) -> usize {
    if body[0] == END {
        1
    } else {
        0
    }
}

impl Item {
    /// What identifies the item.
    pub open spec fn key(&self) -> ItemKey {
        (self.rule, self.dot, self.lookahead, self.unique)
    }

    /// Rule, dot and lookahead of the item.
    pub open spec fn base(&self) -> Core {
        (self.rule, self.dot, self.lookahead)
    }

    /// Rule, dot and lookahead of the item when its dot has moved on by one.
    pub open spec fn advanced(&self) -> Core {
        (self.rule, (self.dot + 1) as usize, self.lookahead)
    }

    /// The item belongs to the grammar: its rule and lookahead exist, its
    /// dot is within the body, and its head is the symbol at the dot.
    pub open spec fn fits(&self, g: GrammarView) -> bool {
        &&& self.rule < g.rules.len()
        &&& self.dot <= g.rules[self.rule as int].body.len()
        &&& self.head == symbol_at(g.rules[self.rule as int].body, self.dot as int)
        &&& self.lookahead < g.symbols.len()
    }

    /// Constructs the initial item.
    pub fn initial(id: usize, rule: &Rule, lookahead: usize) -> (item: Item)
        requires
            rule.body.len() > 0,
        ensures
            item == (Item {
                id,
                rule: rule.id,
                dot: 0,
                head: Some(rule.body[0]),
                lookahead,
                unique: true,
            }),
    {
        Item { id, rule: rule.id, dot: 0, head: Some(rule.body[0]), lookahead, unique: true }
    }

    /// Constructs a new item.
    pub fn new(id: usize, rule: &Rule, lookahead: usize, unique: bool) -> (item: Item)
        requires
            rule.body.len() > 0,
            rule.body[0] == END ==> rule.body.len() > 1,
        ensures
            item == (Item {
                id,
                rule: rule.id,
                dot: start_dot(rule.body@),
                head: Some(rule.body[start_dot(rule.body@) as int]),
                lookahead,
                unique,
            }),
    {
        let mut dot: usize = 0;
        // Ignore the starting $ symbol in wrapper rules.
        if rule.body[dot] == END {
            dot += 1;
        }
        Item { id, rule: rule.id, dot, head: Some(rule.body[dot]), lookahead, unique }
    }

    /// Advances `dot` by 1 and updates `head`.
    /// The caller must update `id` to a unique value manually.
    pub fn pass(&mut self, rule: &Rule)
        ensures
            old(self).dot < rule.body.len() ==> *final(self) == (Item {
                dot: (old(self).dot + 1) as usize,
                head: symbol_at(rule.body@, old(self).dot + 1),
                ..*old(self)
            }),
            old(self).dot >= rule.body.len() ==> *final(self) == *old(self),
    {
        if self.dot < rule.body.len() {
            self.dot += 1;
            self.head = if self.dot < rule.body.len() {
                Some(rule.body[self.dot])
            } else {
                None
            };
        }
    }

    /// Returns all symbols following `head`, including the lookahead.
    pub fn tail(&self, rule: &Rule) -> (tail: Vec<usize>)
        requires
            self.head is Some ==> self.dot < rule.body.len(),
        ensures
            tail@ == (if self.head is Some {
                rule.body@.subrange(self.dot + 1, rule.body.len() as int)
            } else {
                Seq::<usize>::empty()
            }).push(self.lookahead),
    {
        let mut tail: Vec<usize> = Vec::new();
        if self.head.is_some() {
            let mut at: usize = self.dot + 1;
            while at < rule.body.len()
                invariant
                    self.dot < at <= rule.body.len(),
                    tail@ == rule.body@.subrange(self.dot + 1, at as int),
                decreases rule.body.len() - at,
            {
                tail.push(rule.body[at]);
                assert(rule.body@.subrange(self.dot + 1, at + 1) =~= rule.body@.subrange(
                    self.dot + 1,
                    at as int,
                ).push(rule.body[at as int]));
                at += 1;
            }
        }
        tail.push(self.lookahead);
        tail
    }

    /// Returns `head` and all the symbols following it, including the lookahead.
    pub fn follow(&self, rule: &Rule) -> (follow: Vec<usize>)
        requires
            self.dot <= rule.body.len(),
        ensures
            follow@ == rule.body@.subrange(self.dot as int, rule.body.len() as int).push(
                self.lookahead,
            ),
    {
        let mut follow: Vec<usize> = Vec::new();
        let mut at: usize = self.dot;
        while at < rule.body.len()
            invariant
                self.dot <= at <= rule.body.len(),
                follow@ == rule.body@.subrange(self.dot as int, at as int),
            decreases rule.body.len() - at,
        {
            follow.push(rule.body[at]);
            assert(rule.body@.subrange(self.dot as int, at + 1) =~= rule.body@.subrange(
                self.dot as int,
                at as int,
            ).push(rule.body[at as int]));
            at += 1;
        }
        follow.push(self.lookahead);
        follow
    }

    /// Returns `true` if the head of the item is a nonterminal symbol.
    pub fn at_nonterminal(&self, symbols: &[Symbol]) -> (nonterminal: bool)
        requires
            self.head matches Some(id) ==> id < symbols.len(),
        ensures
            nonterminal == (self.head matches Some(id) && symbols[id as int] is NonTerminal),
    {
        match self.head {
            Some(id) => symbols[id].is_nonterminal(),
            None => false,
        }
    }

    /// Returns `true` if the item can reduce the rule.
    pub fn can_reduce(&self, initial_rule: usize) -> (reduce: bool)
        ensures
            reduce == (self.rule != initial_rule && (self.head is None || self.head == Some(NULL))),
    {
        if self.rule == initial_rule {
            return false;
        }
        match self.head {
            Some(id) => id == NULL,
            None => true,
        }
    }

    /// Returns `true` if the item can accept the parse stack.
    pub fn can_accept(&self, initial_rule: usize) -> (accept: bool)
        ensures
            accept == (self.rule == initial_rule && self.head is None),
    {
        self.rule == initial_rule && self.head.is_none()
    }
}

impl PartialEq for Item {
    fn eq(&self, other: &Item) -> (equal: bool) {
        self.rule == other.rule && self.dot == other.dot && self.lookahead == other.lookahead
            && self.unique == other.unique
    }
}

impl vstd::std_specs::cmp::PartialEqSpecImpl for Item {
    open spec fn obeys_eq_spec() -> bool {
        true
    }

    open spec fn eq_spec(&self, other: &Item) -> bool {
        self.rule == other.rule && self.dot == other.dot && self.lookahead == other.lookahead
            && self.unique == other.unique
    }
}

} // verus!
