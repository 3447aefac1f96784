//! Grammars: symbols, rules, and the sets computed from them.

use crate::action::Action;
use crate::analysis::{
    compute_first, compute_follow, first_pairs, in_first, in_first_seq, in_follow, prefix_nullable,
    tracks_first, tracks_follow, GrammarView,
};
use crate::bits::{cleared, members, Relation};
use crate::matcher::{match_of, Match, Matcher};
use crate::rule::{rule_views, Rule};
use crate::symbol::{Symbol, NULL};
use crate::util::increasing;
use vstd::prelude::*;

verus! {

/// The `Grammar` struct describes a grammar to parse the input file with.
///
/// The FIRST and FOLLOW sets of all symbols are computed when the grammar is
/// made and whenever a rule is added, so that reading them never changes the
/// grammar.
pub struct Grammar {
    pub name: String,
    pub description: String,
    pub symbols: Vec<Symbol>,
    // List of matchers for a specific symbol.
    pub tokens: Vec<(usize, Matcher)>,
    pub start_symbol: usize,
    pub rules: Vec<Rule>,
    // List of rules for a specific symbol.
    pub symbol_rules: Vec<Vec<usize>>,
    // Preferred action for conflicts on a specific symbol.
    pub actions: Vec<(usize, Action)>,
    pub first: Relation,
    pub follow: Relation,
}

/// The IDs of the rules with the given head, in ascending order.
pub open spec fn lists_rules_of(g: GrammarView, h: usize, ids: Seq<usize>) -> bool {
    &&& increasing(ids)
    &&& forall|r: usize| ids.contains(r) <==> (r < g.rules.len() && g.rules[r as int].head == h)
}

/// `t` is in FIRST of the sequence where that set is not empty and has no
/// ϵ; otherwise ϵ is replaced with FOLLOW of the symbol `a`.
pub open spec fn in_first_follow(g: GrammarView, alpha: Seq<usize>, a: usize, t: usize) -> bool {
    t != NULL && (in_first_seq(g, alpha, t) || ((in_first_seq(g, alpha, NULL) || forall|u: usize|
        !in_first_seq(g, alpha, u)) && in_follow(g, a, t)))
}

/// The symbol of the first matcher that matches the text in full.
pub open spec fn first_full(matchers: Seq<(usize, Matcher)>, text: Seq<char>) -> Option<usize>
    decreases matchers.len(),
{
    if matchers.len() == 0 {
        None
    } else if match_of(matchers[0].1, text) is Full {
        Some(matchers[0].0)
    } else {
        first_full(matchers.drop_first(), text)
    }
}

/// The symbol of the first matcher that matches the text in part.
pub open spec fn first_partial(matchers: Seq<(usize, Matcher)>, text: Seq<char>) -> Option<usize>
    decreases matchers.len(),
{
    if matchers.len() == 0 {
        None
    } else if match_of(matchers[0].1, text) is Partial {
        Some(matchers[0].0)
    } else {
        first_partial(matchers.drop_first(), text)
    }
}

/// The symbol that matches the text: that of the first full match, marked
/// `true`, else that of the first partial match, marked `false`.
pub open spec fn find_spec(matchers: Seq<(usize, Matcher)>, text: Seq<char>) -> Option<
    (usize, bool),
> {
    match first_full(matchers, text) {
        Some(id) => Some((id, true)),
        None => match first_partial(matchers, text) {
            Some(id) => Some((id, false)),
            None => None,
        },
    }
}

/// What the constructor takes: the core of the grammar is valid, and
/// matchers and preferences are attached to symbols of the grammar.
pub open spec fn valid_parts(
    symbols: Seq<Symbol>,
    tokens: Seq<(usize, Matcher)>,
    start_symbol: usize,
    rules: Seq<Rule>,
    actions: Seq<(usize, Action)>,
) -> bool {
    &&& (GrammarView { symbols, rules: rule_views(rules), start: start_symbol }).valid()
    &&& forall|i: int| 0 <= i < tokens.len() ==> (#[trigger] tokens[i]).0 < symbols.len()
    &&& forall|i: int| 0 <= i < actions.len() ==> (#[trigger] actions[i]).0 < symbols.len()
}

/// Marks in `bits` every symbol but ϵ that the relation has in the given row.
pub fn mark_row(bits: &mut Vec<bool>, relation: &Relation, row: usize)
    requires
        relation.wf(),
        row < relation.height(),
        old(bits).len() == relation.width(),
    ensures
        final(bits).len() == old(bits).len(),
        forall|u: int|
            0 <= u < old(bits).len() ==> (#[trigger] final(bits)[u] <==> (old(bits)[u] || (u
                != NULL && relation.has(row as int, u)))),
{
    let n = bits.len();
    let mut t: usize = 0;
    while t < n
        invariant
            relation.wf(),
            row < relation.height(),
            n == relation.width(),
            bits.len() == n,
            old(bits).len() == n,
            t <= n,
            forall|u: int|
                0 <= u < n ==> (#[trigger] bits[u] <==> (old(bits)[u] || (u < t && u != NULL
                    && relation.has(row as int, u)))),
        decreases n - t,
    {
        if t != NULL && relation.get(row, t) {
            bits[t] = true;
        }
        t += 1;
    }
}

impl View for Grammar {
    type V = GrammarView;

    open spec fn view(&self) -> GrammarView {
        GrammarView {
            symbols: self.symbols@,
            rules: rule_views(self.rules@),
            start: self.start_symbol,
        }
    }
}

impl Grammar {
    /// The rule index lists the rules of every symbol.
    pub open spec fn indexed(&self) -> bool {
        &&& self.symbol_rules.len() == self.symbols.len()
        &&& forall|h: usize|
            h < self.symbols.len() ==> lists_rules_of(self@, h, (#[trigger] self.symbol_rules[h as int])@)
    }

    /// The stored FIRST and FOLLOW sets are those of the grammar.
    pub open spec fn analysed(&self) -> bool {
        tracks_first(self@, self.first) && tracks_follow(self@, self.follow)
    }

    /// The grammar is valid, and what it stores beside its symbols and rules
    /// agrees with them.
    pub open spec fn wf(&self) -> bool {
        &&& self@.valid()
        &&& self.indexed()
        &&& self.analysed()
        &&& forall|i: int|
            0 <= i < self.tokens.len() ==> (#[trigger] self.tokens[i]).0
                < self.symbols.len()
        &&& forall|i: int|
            0 <= i < self.actions.len() ==> (#[trigger] self.actions[i]).0 < self.symbols.len()
    }

    /// Builds the rule index: for every symbol the rules with that head.
    fn index_rules(symbols: &Vec<Symbol>, rules: &Vec<Rule>, Ghost(g): Ghost<GrammarView>) -> (index:
        Vec<Vec<usize>>)
        requires
            g.valid(),
            g.symbols == symbols@,
            g.rules == rule_views(rules@),
        ensures
            index.len() == symbols.len(),
            forall|h: usize|
                h < symbols.len() ==> lists_rules_of(g, h, (#[trigger] index[h as int])@),
    {
        let mut index: Vec<Vec<usize>> = Vec::new();
        while index.len() < symbols.len()
            invariant
                index.len() <= symbols.len(),
                forall|h: int| 0 <= h < index.len() ==> (#[trigger] index[h])@.len() == 0,
            decreases symbols.len() - index.len(),
        {
            index.push(Vec::new());
        }
        let mut r: usize = 0;
        while r < rules.len()
            invariant
                g.valid(),
                g.symbols == symbols@,
                g.rules == rule_views(rules@),
                index.len() == symbols.len(),
                r <= rules.len(),
                forall|h: usize|
                    h < symbols.len() ==> increasing((#[trigger] index[h as int])@),
                forall|h: usize, q: usize|
                    h < symbols.len() ==> (#[trigger] index[h as int]@.contains(q) <==> (q < r
                        && g.rules[q as int].head == h)),
            decreases rules.len() - r,
        {
            assert(g.rules[r as int] == rules[r as int]@);
            assert(g.rules[r as int].valid_in(r as int, g.symbols.len()));
            let head = rules[r].head;
            let ghost before = index@;
            let ghost row = index[head as int]@;
            index[head].push(r);
            proof {
                let after = index[head as int]@;
                assert(after == row.push(r));
                assert forall|i: int, j: int| 0 <= i < j < after.len() implies after[i]
                    < after[j] by {
                    if j == after.len() - 1 {
                        assert(row.contains(row[i]));
                    }
                }
                assert forall|h: usize, q: usize| h < symbols.len() implies (
                #[trigger] index[h as int]@.contains(q) <==> (q < r + 1 && g.rules[q as int].head
                    == h)) by {
                    if h == head {
                        if after.contains(q) {
                            let k = choose|k: int| 0 <= k < after.len() && after[k] == q;
                            if k < row.len() {
                                assert(row.contains(q));
                            }
                        }
                        if q < r + 1 && g.rules[q as int].head == h {
                            if q == r {
                                assert(after[after.len() - 1] == q);
                            } else {
                                assert(row.contains(q));
                                let k = choose|k: int| 0 <= k < row.len() && row[k] == q;
                                assert(after[k] == q);
                            }
                        }
                    } else {
                        assert(index[h as int] == before[h as int]);
                    }
                }
                assert forall|h: usize| h < symbols.len() implies increasing(
                    (#[trigger] index[h as int])@,
                ) by {
                    if h != head {
                        assert(index[h as int] == before[h as int]);
                    }
                }
            }
            r += 1;
        }
        index
    }

    /// Constructs a grammar and computes its FIRST and FOLLOW sets.
    pub fn new(
        name: String,
        description: String,
        symbols: Vec<Symbol>,
        tokens: Vec<(usize, Matcher)>,
        start_symbol: usize,
        rules: Vec<Rule>,
        actions: Vec<(usize, Action)>,
    ) -> (grammar: Grammar)
        requires
            valid_parts(symbols@, tokens@, start_symbol, rules@, actions@),
        ensures
            grammar.wf(),
            grammar.name == name,
            grammar.description == description,
            grammar.symbols == symbols,
            grammar.rules == rules,
            grammar.actions == actions,
            grammar.tokens == tokens,
            grammar.start_symbol == start_symbol,
    {
        let ghost g = GrammarView {
            symbols: symbols@,
            rules: rule_views(rules@),
            start: start_symbol,
        };
        let symbol_rules = Grammar::index_rules(&symbols, &rules, Ghost(g));
        let first = compute_first(&symbols, &rules, Ghost(g));
        let follow = compute_follow(&symbols, &rules, &first, Ghost(g));
        Grammar {
            name,
            description,
            symbols,
            tokens,
            start_symbol,
            rules,
            symbol_rules,
            actions,
            first,
            follow,
        }
    }

    /// Returns the symbol with the specified ID.
    pub fn symbol(&self, id: usize) -> (symbol: &Symbol)
        requires
            id < self.symbols.len(),
        ensures
            *symbol == self.symbols[id as int],
    {
        &self.symbols[id]
    }

    /// Returns the rule with the specified ID.
    pub fn rule(&self, id: usize) -> (rule: &Rule)
        requires
            id < self.rules.len(),
        ensures
            *rule == self.rules[id as int],
    {
        &self.rules[id]
    }

    /// Returns the IDs of the rules for the specified symbol, in ascending
    /// order.
    pub fn rule_ids(&self, symbol: usize) -> (ids: &Vec<usize>)
        requires
            self.wf(),
            symbol < self.symbols.len(),
        ensures
            lists_rules_of(self@, symbol, ids@),
    {
        &self.symbol_rules[symbol]
    }

    /// Returns the list of rules for the specified symbol, in the order of
    /// their IDs.
    pub fn rules(&self, symbol: usize) -> (rules: Vec<&Rule>)
        requires
            self.wf(),
            symbol < self.symbols.len(),
        ensures
            lists_rules_of(self@, symbol, rules@.map_values(|rule: &Rule| rule.id)),
            forall|k: int|
                0 <= k < rules.len() ==> (#[trigger] rules[k]).id < self.rules.len()
                    && *rules[k] == self.rules[rules[k].id as int],
    {
        let ids = &self.symbol_rules[symbol];
        let mut rules: Vec<&Rule> = Vec::new();
        let mut k: usize = 0;
        while k < ids.len()
            invariant
                self.wf(),
                lists_rules_of(self@, symbol, ids@),
                k <= ids.len(),
                rules.len() == k,
                forall|j: int|
                    0 <= j < k ==> (#[trigger] rules[j]).id == ids[j] && ids[j] < self.rules.len()
                        && *rules[j] == self.rules[ids[j] as int],
            decreases ids.len() - k,
        {
            let id = ids[k];
            assert(ids@.contains(id));
            assert(self@.rules[id as int] == self.rules[id as int]@);
            assert(self@.rules[id as int].valid_in(id as int, self@.symbols.len()));
            rules.push(&self.rules[id]);
            k += 1;
        }
        assert(rules@.map_values(|rule: &Rule| rule.id) =~= ids@);
        rules
    }

    /// Returns the FIRST set of the specified symbol, in ascending order.
    pub fn first(&self, symbol: usize) -> (first: Vec<usize>)
        requires
            self.wf(),
            symbol < self.symbols.len(),
        ensures
            increasing(first@),
            forall|t: usize| first@.contains(t) <==> in_first(self@, symbol, t),
    {
        let row = self.first.row_copy(symbol);
        let first = members(&row);
        proof {
            assert forall|t: usize| first@.contains(t) <==> in_first(self@, symbol, t) by {
                if in_first(self@, symbol, t) {
                    assert(self.first.has(symbol as int, t as int));
                    self.first.lemma_has_range(symbol as int, t as int);
                }
                if first@.contains(t) {
                    assert(self.first.has(symbol as int, t as int));
                }
            }
        }
        first
    }

    /// Returns the FOLLOW set of the specified symbol, in ascending order.
    pub fn follow(&self, symbol: usize) -> (follow: Vec<usize>)
        requires
            self.wf(),
            symbol < self.symbols.len(),
        ensures
            increasing(follow@),
            forall|t: usize| follow@.contains(t) <==> in_follow(self@, symbol, t),
    {
        let row = self.follow.row_copy(symbol);
        let follow = members(&row);
        proof {
            assert forall|t: usize| follow@.contains(t) <==> in_follow(self@, symbol, t) by {
                if in_follow(self@, symbol, t) {
                    assert(self.follow.has(symbol as int, t as int));
                    self.follow.lemma_has_range(symbol as int, t as int);
                }
                if follow@.contains(t) {
                    assert(self.follow.has(symbol as int, t as int));
                }
            }
        }
        follow
    }

    /// Marks the members of FIRST of a sequence of symbols.
    pub fn first_sequence_bits(&self, symbols: &[usize]) -> (bits: Vec<bool>)
        requires
            self.wf(),
            forall|i: int| 0 <= i < symbols.len() ==> symbols[i] < self.symbols.len(),
        ensures
            bits.len() == self.symbols.len(),
            forall|t: usize| t < bits.len() ==> (bits[t as int] <==> in_first_seq(self@, symbols@, t)),
            forall|t: usize| in_first_seq(self@, symbols@, t) ==> t < bits.len(),
    {
        let n = self.symbols.len();
        let ghost g = self@;
        let ghost alpha = symbols@;
        let mut bits = cleared(n);
        let mut i: usize = 0;
        proof {
            assert forall|t: usize| in_first_seq(g, alpha, t) implies t < n by {
                if t != NULL {
                    let k = choose|k: int|
                        0 <= k < alpha.len() && prefix_nullable(first_pairs(g), alpha, k)
                            && in_first(g, #[trigger] alpha[k], t);
                    assert(self.first.has(alpha[k] as int, t as int));
                    self.first.lemma_has_range(alpha[k] as int, t as int);
                }
            }
        }
        while i < symbols.len()
            invariant
                self.wf(),
                g == self@,
                alpha == symbols@,
                n == self.symbols.len(),
                bits.len() == n,
                i <= symbols.len(),
                forall|k: int| 0 <= k < symbols.len() ==> symbols[k] < n,
                forall|t: usize| in_first_seq(g, alpha, t) ==> t < n,
                prefix_nullable(first_pairs(g), alpha, i as int),
                !bits[NULL as int],
                forall|t: usize|
                    t < n && t != NULL ==> (bits[t as int] <==> exists|k: int|
                        0 <= k < i && prefix_nullable(first_pairs(g), alpha, k) && in_first(
                            g,
                            #[trigger] alpha[k],
                            t,
                        )),
            decreases symbols.len() - i,
        {
            let y = symbols[i];
            let ghost before = bits@;
            mark_row(&mut bits, &self.first, y);
            proof {
                assert forall|u: usize| u < n implies (bits[u as int] <==> (before[u as int] || (u
                    != NULL && in_first(g, y, u)))) by {
                    assert(self.first.has(y as int, u as int) <==> in_first(g, y, u));
                }
            }
            proof {
                assert forall|t: usize| t < n && t != NULL implies (bits[t as int] <==> exists|
                    k: int,
                |
                    0 <= k < i + 1 && prefix_nullable(first_pairs(g), alpha, k) && in_first(
                        g,
                        #[trigger] alpha[k],
                        t,
                    )) by {
                    if bits[t as int] {
                        if before[t as int] {
                            let k = choose|k: int|
                                0 <= k < i && prefix_nullable(first_pairs(g), alpha, k)
                                    && in_first(g, #[trigger] alpha[k], t);
                            assert(0 <= k < i + 1 && prefix_nullable(first_pairs(g), alpha, k)
                                && in_first(g, alpha[k], t));
                        } else {
                            assert(in_first(g, alpha[i as int], t));
                        }
                    }
                    if exists|k: int|
                        0 <= k < i + 1 && prefix_nullable(first_pairs(g), alpha, k) && in_first(
                            g,
                            #[trigger] alpha[k],
                            t,
                        ) {
                        let k = choose|k: int|
                            0 <= k < i + 1 && prefix_nullable(first_pairs(g), alpha, k)
                                && in_first(g, #[trigger] alpha[k], t);
                        if k < i {
                            assert(before[t as int]);
                        }
                    }
                }
            }
            if !self.first.get(y, NULL) {
                proof {
                    assert forall|t: usize| t < n implies (bits[t as int] <==> in_first_seq(
                        g,
                        alpha,
                        t,
                    )) by {
                        if t == NULL {
                            if in_first_seq(g, alpha, t) {
                                assert(first_pairs(g).contains((alpha[i as int], NULL)));
                            }
                        } else {
                            if in_first_seq(g, alpha, t) {
                                let k = choose|k: int|
                                    0 <= k < alpha.len() && prefix_nullable(
                                        first_pairs(g),
                                        alpha,
                                        k,
                                    ) && in_first(g, #[trigger] alpha[k], t);
                                if k > i {
                                    assert(first_pairs(g).contains((alpha[i as int], NULL)));
                                }
                            }
                        }
                    }
                }
                return bits;
            }
            proof {
                assert(first_pairs(g).contains((alpha[i as int], NULL)));
            }
            i += 1;
        }
        if symbols.len() > 0 {
            bits[NULL] = true;
        }
        bits
    }

    /// Returns the FIRST set of a sequence of symbols, in ascending order.
    pub fn first_sequence(&self, symbols: &[usize]) -> (first: Vec<usize>)
        requires
            self.wf(),
            forall|i: int| 0 <= i < symbols.len() ==> symbols[i] < self.symbols.len(),
        ensures
            increasing(first@),
            forall|t: usize| first@.contains(t) <==> in_first_seq(self@, symbols@, t),
            forall|i: int| 0 <= i < first.len() ==> first[i] < self.symbols.len(),
    {
        let bits = self.first_sequence_bits(symbols);
        let first = members(&bits);
        assert forall|i: int| 0 <= i < first.len() implies first[i] < self.symbols.len() by {
            assert(first@.contains(first[i]));
        }
        first
    }

    /// Returns the FIRST set of a sequence of symbols in which ϵ is replaced
    /// with the FOLLOW set of the given symbol; the FOLLOW set alone where the
    /// FIRST set is empty. In ascending order.
    pub fn first_follow(&self, symbols: &[usize], follow: usize) -> (result: Vec<usize>)
        requires
            self.wf(),
            follow < self.symbols.len(),
            forall|i: int| 0 <= i < symbols.len() ==> symbols[i] < self.symbols.len(),
        ensures
            increasing(result@),
            forall|t: usize| result@.contains(t) <==> in_first_follow(self@, symbols@, follow, t),
            forall|i: int| 0 <= i < result.len() ==> result[i] < self.symbols.len(),
    {
        let n = self.symbols.len();
        let ghost g = self@;
        let mut bits = self.first_sequence_bits(symbols);
        let mut empty = true;
        let mut t: usize = 0;
        while t < n
            invariant
                n == bits.len(),
                t <= n,
                empty <==> forall|u: usize| u < t ==> !bits[u as int],
            decreases n - t,
        {
            if bits[t] {
                empty = false;
            }
            t += 1;
        }
        let nullable = bits[NULL];
        let ghost before = bits@;
        bits[NULL] = false;
        if empty || nullable {
            let ghost cleared_bits = bits@;
            mark_row(&mut bits, &self.follow, follow);
            proof {
                assert forall|u: usize| u < n implies (bits[u as int] <==> (cleared_bits[u as int]
                    || (u != NULL && in_follow(g, follow, u)))) by {
                    assert(self.follow.has(follow as int, u as int) <==> in_follow(g, follow, u));
                }
            }
        }
        let result = members(&bits);
        proof {
            assert forall|i: int| 0 <= i < result.len() implies result[i] < self.symbols.len() by {
                assert(result@.contains(result[i]));
            }
            assert forall|t: usize| result@.contains(t) <==> in_first_follow(
                g,
                symbols@,
                follow,
                t,
            ) by {
                if in_first_follow(g, symbols@, follow, t) {
                    if !in_first_seq(g, symbols@, t) {
                        assert(self.follow.has(follow as int, t as int));
                        self.follow.lemma_has_range(follow as int, t as int);
                    }
                }
                if result@.contains(t) {
                    if !before[t as int] {
                        if empty {
                            assert forall|u: usize| !in_first_seq(g, symbols@, u) by {
                                if in_first_seq(g, symbols@, u) {
                                    assert(before[u as int]);
                                }
                            }
                        }
                    }
                }
            }
        }
        result
    }

    /// Returns a symbol matching the specified text. The second return value
    /// indicates whether the symbol is a full or a partial match.
    ///
    /// This method returns the first full match if it exists,
    /// otherwise it returns the first partial match.
    pub fn find_symbol(&self, text: &str) -> (found: Option<(usize, bool)>)
        ensures
            found == find_spec(self.tokens@, text@),
    {
        let ghost all = self.tokens@;
        let mut partial: Option<usize> = None;
        let mut idx: usize = 0;
        assert(all.subrange(0, all.len() as int) =~= all);
        while idx < self.tokens.len()
            invariant
                idx <= self.tokens.len(),
                all == self.tokens@,
                first_full(all, text@) == first_full(all.subrange(idx as int, all.len() as int), text@),
                match partial {
                    Some(id) => first_partial(all, text@) == Some(id),
                    None => first_partial(all, text@) == first_partial(
                        all.subrange(idx as int, all.len() as int),
                        text@,
                    ),
                },
            decreases self.tokens.len() - idx,
        {
            let ghost rest = all.subrange(idx as int, all.len() as int);
            assert(rest.drop_first() =~= all.subrange(idx + 1, all.len() as int));
            assert(rest[0] == all[idx as int]);
            match self.tokens[idx].1.match_str(text) {
                Match::Full => {
                    return Some((self.tokens[idx].0, true));
                },
                Match::Partial => {
                    if partial.is_none() {
                        partial = Some(self.tokens[idx].0);
                    }
                },
                Match::Nothing => {},
            }
            idx += 1;
        }
        match partial {
            Some(id) => Some((id, false)),
            None => None,
        }
    }
}

} // verus!
