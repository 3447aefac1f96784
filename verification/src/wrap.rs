//! Wrapper rules: a fresh nonterminal for a sequence of symbols, which the
//! embedded LR(1) parser takes as its start rule.

use crate::analysis::{compute_first, compute_follow, GrammarView};
use crate::grammar::{lists_rules_of, Grammar};
use crate::matcher::{match_of, Matcher};
use crate::rule::{rule_views, same_ids, Rule, RuleView};
use crate::symbol::{symbol_name, Symbol, END};
use vstd::prelude::*;
use vstd::string::StringExecFns;

verus! {

/// The name followed by `count` apostrophes.
pub open spec fn primed(name: Seq<char>, count: nat) -> Seq<char>
    decreases count,
{
    if count == 0 {
        name
    } else {
        primed(name, (count - 1) as nat).push('\'')
    }
}

/// No symbol of the grammar has the name.
pub open spec fn name_free(g: GrammarView, name: Seq<char>) -> bool {
    forall|s: int| 0 <= s < g.symbols.len() ==> symbol_name(#[trigger] g.symbols[s]) != name
}

/// `s` is the first symbol of the grammar with the name.
pub open spec fn named(g: GrammarView, name: Seq<char>, s: int) -> bool {
    &&& 0 <= s < g.symbols.len()
    &&& symbol_name(g.symbols[s]) == name
    &&& forall|j: int| 0 <= j < s ==> symbol_name(#[trigger] g.symbols[j]) != name
}

/// Rule `r` has the head, the body and the lookaheads.
pub open spec fn rule_is(
    g: GrammarView,
    r: int,
    head: int,
    body: Seq<usize>,
    follow: Seq<usize>,
) -> bool {
    0 <= r < g.rules.len() && g.rules[r].head == head && g.rules[r].body == body
        && g.rules[r].follow == follow
}

/// Rule `r` is the first rule with the head, the body and the lookaheads.
pub open spec fn wraps(
    g: GrammarView,
    r: int,
    head: int,
    body: Seq<usize>,
    follow: Seq<usize>,
) -> bool {
    rule_is(g, r, head, body, follow) && forall|q: int|
        0 <= q < r ==> !#[trigger] rule_is(g, q, head, body, follow)
}

/// A symbol has the name, and the first such symbol has no rule with the
/// body and the lookaheads.
pub open spec fn name_taken(
    g: GrammarView,
    name: Seq<char>,
    body: Seq<usize>,
    follow: Seq<usize>,
) -> bool {
    exists|s: int| #[trigger]
        named(g, name, s) && forall|r: int| !#[trigger] rule_is(g, r, s, body, follow)
}

/// The grammar `after` is `before` with one more nonterminal of the given
/// name and one more rule, from that nonterminal to the body.
pub open spec fn extended(
    before: GrammarView,
    after: GrammarView,
    name: Seq<char>,
    body: Seq<usize>,
    follow: Seq<usize>,
) -> bool {
    &&& after.start == before.start
    &&& after.symbols.len() == before.symbols.len() + 1
    &&& after.symbols.subrange(0, before.symbols.len() as int) == before.symbols
    &&& after.symbols.last() matches Symbol::NonTerminal(id, text) && id == before.symbols.len()
        && text@ == name
    &&& after.rules == before.rules.push(
        RuleView {
            id: before.rules.len() as usize,
            head: before.symbols.len() as usize,
            body,
            follow,
        },
    )
}

/// The grammar `after` holds the symbols and rules of `before`, in their
/// places, and maybe more, and has the same start symbol.
pub open spec fn grows(before: GrammarView, after: GrammarView) -> bool {
    &&& after.start == before.start
    &&& before.symbols.is_prefix_of(after.symbols)
    &&& before.rules.is_prefix_of(after.rules)
}

/// What wrapping does, with `count` apostrophes: every shorter primed name
/// is taken by a symbol without a rule for the body and the lookaheads; then
/// either the name is free, and the grammar gets a new nonterminal of that
/// name with rule `rule`, or the first symbol of that name has `rule` as its
/// first rule for the body and the lookaheads, and the grammar stays as it
/// is.
pub open spec fn wrapped(
    before: GrammarView,
    after: GrammarView,
    base: Seq<char>,
    body: Seq<usize>,
    follow: Seq<usize>,
    rule: usize,
    count: nat,
) -> bool {
    &&& count >= 1
    &&& forall|c: nat| 1 <= c < count ==> name_taken(before, #[trigger] primed(base, c), body, follow)
    &&& if name_free(before, primed(base, count)) {
        rule == before.rules.len() && extended(before, after, primed(base, count), body, follow)
    } else {
        after == before && exists|s: int| #[trigger]
            named(before, primed(base, count), s) && wraps(before, rule as int, s, body, follow)
    }
}

impl Grammar {
    /// Returns the length of the longest symbol name.
    fn longest_name(&self) -> (longest: usize)
        ensures
            forall|s: int|
                0 <= s < self.symbols.len() ==> symbol_name(#[trigger] self.symbols[s]).len()
                    <= longest,
    {
        let mut longest: usize = 0;
        let mut s: usize = 0;
        while s < self.symbols.len()
            invariant
                s <= self.symbols.len(),
                forall|j: int|
                    0 <= j < s ==> symbol_name(#[trigger] self.symbols[j]).len() <= longest,
            decreases self.symbols.len() - s,
        {
            let len = self.symbols[s].name().as_str().unicode_len();
            if len > longest {
                longest = len;
            }
            s += 1;
        }
        longest
    }

    /// Returns the first symbol with the name.
    fn find_named(&self, name: &String) -> (found: Option<usize>)
        ensures
            match found {
                Some(s) => named(self@, name@, s as int),
                None => name_free(self@, name@),
            },
    {
        let mut s: usize = 0;
        while s < self.symbols.len()
            invariant
                s <= self.symbols.len(),
                forall|j: int| 0 <= j < s ==> symbol_name(#[trigger] self.symbols[j]) != name@,
            decreases self.symbols.len() - s,
        {
            let candidate = self.symbols[s].name();
            if candidate == *name {
                return Some(s);
            }
            s += 1;
        }
        None
    }

    /// Returns the first rule with the head, the body and the lookaheads.
    fn find_wrapper(&self, head: usize, body: &Vec<usize>, follow: &Vec<usize>) -> (found: Option<
        usize,
    >)
        ensures
            match found {
                Some(r) => wraps(self@, r as int, head as int, body@, follow@),
                None => forall|r: int| !#[trigger] rule_is(self@, r, head as int, body@, follow@),
            },
    {
        let mut r: usize = 0;
        while r < self.rules.len()
            invariant
                r <= self.rules.len(),
                forall|q: int|
                    0 <= q < r ==> !#[trigger] rule_is(self@, q, head as int, body@, follow@),
            decreases self.rules.len() - r,
        {
            assert(self@.rules[r as int] == self.rules[r as int]@);
            if self.rules[r].head == head && same_ids(
                self.rules[r].body.as_slice(),
                body.as_slice(),
            ) && same_ids(self.rules[r].follow.as_slice(), follow.as_slice()) {
                return Some(r);
            }
            r += 1;
        }
        None
    }

    /// Wraps a sequence of symbols in a new rule and returns its ID.
    ///
    /// The rule goes from a new nonterminal, named after the first symbol of
    /// the sequence with apostrophes added, to the end marker followed by the
    /// sequence, and has `follow` as its lookaheads. Where a symbol of that
    /// name with such a rule, lookaheads included, exists already, the ID of
    /// that rule is returned.
    pub fn wrap_symbols(&mut self, symbols: &[usize], follow: &[usize]) -> (rule: usize)
        requires
            old(self).wf(),
            symbols.len() > 0,
            forall|i: int| 0 <= i < symbols.len() ==> symbols[i] < old(self).symbols.len(),
            forall|i: int| 0 <= i < follow.len() ==> follow[i] < old(self).symbols.len(),
        ensures
            final(self).wf(),
            rule < final(self).rules.len(),
            final(self).rules[rule as int].body@ == seq![END] + symbols@,
            final(self).rules[rule as int].follow@ == follow@,
            grows(old(self)@, final(self)@),
            final(self).name == old(self).name,
            final(self).description == old(self).description,
            final(self).tokens == old(self).tokens,
            final(self).actions == old(self).actions,
            exists|count: nat| #[trigger]
                wrapped(
                    old(self)@,
                    final(self)@,
                    symbol_name(old(self).symbols[symbols[0] as int]),
                    seq![END] + symbols@,
                    follow@,
                    rule,
                    count,
                ),
    {
        let ghost g = self@;
        let ghost wanted = seq![END] + symbols@;
        let mut body: Vec<usize> = Vec::new();
        body.push(END);
        let mut i: usize = 0;
        while i < symbols.len()
            invariant
                i <= symbols.len(),
                body@ == seq![END] + symbols@.subrange(0, i as int),
            decreases symbols.len() - i,
        {
            body.push(symbols[i]);
            assert(symbols@.subrange(0, i + 1) =~= symbols@.subrange(0, i as int).push(
                symbols[i as int],
            ));
            assert(body@ =~= seq![END] + symbols@.subrange(0, i + 1));
            i += 1;
        }
        assert(symbols@.subrange(0, i as int) =~= symbols@);
        let mut lookaheads: Vec<usize> = Vec::new();
        let mut i: usize = 0;
        while i < follow.len()
            invariant
                i <= follow.len(),
                lookaheads@ == follow@.subrange(0, i as int),
            decreases follow.len() - i,
        {
            lookaheads.push(follow[i]);
            assert(follow@.subrange(0, i + 1) =~= follow@.subrange(0, i as int).push(
                follow[i as int],
            ));
            i += 1;
        }
        assert(follow@.subrange(0, i as int) =~= follow@);

        let base = self.symbols[symbols[0]].name();
        let longest = self.longest_name();
        let mut name = base.clone();
        let mut len = base.as_str().unicode_len();
        let ghost mut count: nat = 0;
        proof {
            reveal_strlit("'");
            assert("'"@ =~= seq!['\'']);
        }
        loop
            invariant_except_break
                len == name@.len(),
                forall|c: nat| 1 <= c <= count ==> name_taken(g, #[trigger] primed(base@, c), wanted, follow@),
            invariant
                *self == *old(self),
                g == self@,
                self.wf(),
                symbols.len() > 0,
                symbols[0] < self.symbols.len(),
                body@ == wanted,
                lookaheads@ == follow@,
                wanted == seq![END] + symbols@,
                base@ == symbol_name(self.symbols[symbols[0] as int]),
                name@ == primed(base@, count),
                "'"@ == seq!['\''],
                forall|s: int|
                    0 <= s < self.symbols.len() ==> symbol_name(#[trigger] self.symbols[s]).len()
                        <= longest,
            ensures
                *self == *old(self),
                count >= 1,
                name@ == primed(base@, count),
                name_free(g, name@),
                forall|c: nat| 1 <= c < count ==> name_taken(g, #[trigger] primed(base@, c), wanted, follow@),
            decreases longest - len,
        {
            name = name.concat("'");
            proof {
                count = count + 1;
                assert(name@ =~= primed(base@, count));
            }
            if len >= longest {
                break;
            }
            len += 1;
            match self.find_named(&name) {
                None => {
                    break;
                },
                Some(s) => {
                    match self.find_wrapper(s, &body, &lookaheads) {
                        Some(r) => {
                            proof {
                                assert(named(g, primed(base@, count), s as int));
                                assert(!name_free(g, primed(base@, count))) by {
                                    assert(symbol_name(g.symbols[s as int]) == primed(
                                        base@,
                                        count,
                                    ));
                                }
                                assert(wraps(g, r as int, s as int, wanted, follow@));
                                assert(wrapped(g, g, base@, wanted, follow@, r, count));
                                assert(self@.rules[r as int] == self.rules[r as int]@);
                            }
                            return r;
                        },
                        None => {
                            assert(named(g, name@, s as int));
                        },
                    }
                },
            }
        }
        // Create the wrapper symbol and rule.
        let symbol_id = self.symbols.len();
        let rule_id = self.rules.len();
        let ghost before_rules = self.rules@;
        let ghost before_index = self.symbol_rules@;
        self.symbols.push(Symbol::NonTerminal(symbol_id, name));
        self.rules.push(Rule::new(rule_id, symbol_id, body, lookaheads));
        let mut ids: Vec<usize> = Vec::new();
        ids.push(rule_id);
        self.symbol_rules.push(ids);
        let ghost h = self@;
        proof {
            assert(h.rules =~= g.rules.push(
                RuleView { id: rule_id, head: symbol_id, body: wanted, follow: follow@ },
            ));
            assert(h.symbols.subrange(0, g.symbols.len() as int) =~= g.symbols);
            assert forall|r: int| 0 <= r < h.rules.len() implies (#[trigger] h.rules[r]).valid_in(
                r,
                h.symbols.len(),
            ) by {
                if r < g.rules.len() {
                    assert(g.rules[r].valid_in(r, g.symbols.len()));
                }
            }
            assert forall|x: int| 0 <= x < h.symbols.len() implies (#[trigger] h.symbols[x]).spec_id()
                == x by {
                if x < g.symbols.len() {
                    assert(g.symbols[x].spec_id() == x);
                }
            }
            assert(h.rules[0] == g.rules[0]);
            assert(h.valid());
            assert forall|x: usize| x < self.symbols.len() implies lists_rules_of(
                h,
                x,
                (#[trigger] self.symbol_rules[x as int])@,
            ) by {
                let list = self.symbol_rules[x as int]@;
                if x < symbol_id {
                    assert(self.symbol_rules[x as int] == before_index[x as int]);
                    assert(lists_rules_of(g, x, list));
                    assert forall|r: usize| list.contains(r) <==> (r < h.rules.len()
                        && h.rules[r as int].head == x) by {
                        if r < g.rules.len() {
                            assert(h.rules[r as int] == g.rules[r as int]);
                        }
                    }
                } else {
                    assert(list =~= seq![rule_id]);
                    assert forall|r: usize| list.contains(r) <==> (r < h.rules.len()
                        && h.rules[r as int].head == x) by {
                        if r < g.rules.len() {
                            assert(g.rules[r as int].valid_in(r as int, g.symbols.len()));
                        }
                        if r == rule_id {
                            assert(list[0] == r);
                        }
                    }
                }
            }
        }
        self.first = compute_first(&self.symbols, &self.rules, Ghost(h));
        self.follow = compute_follow(&self.symbols, &self.rules, &self.first, Ghost(h));
        proof {
            assert(self@ == h);
            assert(extended(g, h, primed(base@, count), wanted, follow@));
            assert(wrapped(g, h, base@, wanted, follow@, rule_id, count));
        }
        rule_id
    }
}

impl Clone for Grammar {
    /// Returns a copy of the grammar with the same symbols, rules and sets.
    fn clone(&self) -> (copy: Grammar)
        ensures
            copy@ == self@,
            self.wf() ==> copy.wf(),
            copy.name == self.name,
            copy.description == self.description,
            copy.symbols@ == self.symbols@,
            copy.actions@ == self.actions@,
            copy.tokens.len() == self.tokens.len(),
            forall|i: int|
                0 <= i < self.tokens.len() ==> (#[trigger] copy.tokens[i]).0 == self.tokens[i].0
                    && forall|text: Seq<char>|
                    match_of(copy.tokens[i].1, text) == match_of(self.tokens[i].1, text),
    {
        let mut symbols: Vec<Symbol> = Vec::new();
        while symbols.len() < self.symbols.len()
            invariant
                symbols.len() <= self.symbols.len(),
                forall|i: int| 0 <= i < symbols.len() ==> symbols[i] == self.symbols[i],
            decreases self.symbols.len() - symbols.len(),
        {
            let symbol = self.symbols[symbols.len()].clone();
            symbols.push(symbol);
        }
        let mut tokens: Vec<(usize, Matcher)> = Vec::new();
        while tokens.len() < self.tokens.len()
            invariant
                tokens.len() <= self.tokens.len(),
                forall|i: int|
                    0 <= i < tokens.len() ==> (#[trigger] tokens[i]).0 == self.tokens[i].0
                        && forall|text: Seq<char>|
                        match_of(tokens[i].1, text) == match_of(self.tokens[i].1, text),
            decreases self.tokens.len() - tokens.len(),
        {
            let entry = &self.tokens[tokens.len()];
            let copy = (entry.0, entry.1.duplicate());
            tokens.push(copy);
        }
        let mut rules: Vec<Rule> = Vec::new();
        while rules.len() < self.rules.len()
            invariant
                rules.len() <= self.rules.len(),
                forall|i: int| 0 <= i < rules.len() ==> (#[trigger] rules[i])@ == self.rules[i]@,
            decreases self.rules.len() - rules.len(),
        {
            let rule = self.rules[rules.len()].clone();
            rules.push(rule);
        }
        let mut symbol_rules: Vec<Vec<usize>> = Vec::new();
        while symbol_rules.len() < self.symbol_rules.len()
            invariant
                symbol_rules.len() <= self.symbol_rules.len(),
                forall|i: int|
                    0 <= i < symbol_rules.len() ==> (#[trigger] symbol_rules[i])@
                        == self.symbol_rules[i]@,
            decreases self.symbol_rules.len() - symbol_rules.len(),
        {
            let ids = self.symbol_rules[symbol_rules.len()].clone();
            symbol_rules.push(ids);
        }
        let mut actions: Vec<(usize, crate::action::Action)> = Vec::new();
        while actions.len() < self.actions.len()
            invariant
                actions.len() <= self.actions.len(),
                forall|i: int| 0 <= i < actions.len() ==> actions[i] == self.actions[i],
            decreases self.actions.len() - actions.len(),
        {
            let entry = self.actions[actions.len()];
            actions.push(entry);
        }
        assert(symbols@ =~= self.symbols@);
        assert(actions@ =~= self.actions@);
        assert(rule_views(rules@) =~= rule_views(self.rules@));
        let first = self.first.duplicate();
        let follow = self.follow.duplicate();
        Grammar {
            name: self.name.clone(),
            description: self.description.clone(),
            symbols,
            tokens,
            start_symbol: self.start_symbol,
            rules,
            symbol_rules,
            actions,
            first,
            follow,
        }
    }
}

} // verus!
