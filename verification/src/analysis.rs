//! FIRST and FOLLOW sets of a grammar.
//!
//! Both are defined as least sets: a pair is in FIRST (or FOLLOW) when it is
//! in every set that is closed under the rules of FIRST (or FOLLOW). The
//! functions of this module compute them by iterating to a fixed point.

use crate::bits::Relation;
use crate::rule::{Rule, RuleView, rule_views};
use crate::symbol::{Symbol, END, INTERNAL, NULL, START};
use vstd::prelude::*;

verus! {

/// What the analysis reads of a grammar: its symbols, its rules and its
/// start symbol.
pub struct GrammarView {
    pub symbols: Seq<Symbol>,
    pub rules: Seq<RuleView>,
    pub start: usize,
}

impl GrammarView {
    /// `x` is the ID of a nonterminal symbol.
    pub open spec fn is_nonterminal(self, x: usize) -> bool {
        x < self.symbols.len() && self.symbols[x as int] is NonTerminal
    }

    /// `x` is the ID of a symbol that is not nonterminal.
    pub open spec fn is_terminal(self, x: usize) -> bool {
        x < self.symbols.len() && !(self.symbols[x as int] is NonTerminal)
    }

    /// The internal symbols come first, IDs are dense, rules name only
    /// symbols of the grammar, and rule 0 is the augmentation rule
    /// `Start → End start End` with ϵ as its lookahead.
    pub open spec fn valid(self) -> bool {
        &&& self.symbols.len() >= INTERNAL
        &&& self.symbols[START as int] is Start
        &&& self.symbols[END as int] is End
        &&& self.symbols[NULL as int] is Null
        &&& forall|x: int|
            0 <= x < self.symbols.len() ==> (#[trigger] self.symbols[x]).spec_id() == x
        &&& self.rules.len() > 0
        &&& forall|r: int|
            0 <= r < self.rules.len() ==> (#[trigger] self.rules[r]).valid_in(
                r,
                self.symbols.len(),
            )
        &&& self.is_nonterminal(self.start)
        &&& self.rules[0].head == START
        &&& self.rules[0].body == seq![END, self.start, END]
        &&& self.rules[0].follow == seq![NULL]
    }
}

/// Every symbol of `body` before index `i` has ϵ in its set.
pub open spec fn prefix_nullable(f: Set<(usize, usize)>, body: Seq<usize>, i: int) -> bool {
    forall|j: int| 0 <= j < i ==> f.contains((#[trigger] body[j], NULL))
}

/// Under `f`, rule `r` puts `t` into FIRST of its head: for ϵ, `i` is the
/// length of the body and every body symbol has ϵ; for another symbol, `t` is
/// in the set of the body symbol at `i` and every symbol before it has ϵ.
pub open spec fn first_fires(g: GrammarView, f: Set<(usize, usize)>, r: int, i: int, t: usize) -> bool {
    &&& 0 <= r < g.rules.len()
    &&& g.is_nonterminal(g.rules[r].head)
    &&& prefix_nullable(f, g.rules[r].body, i)
    &&& if t == NULL {
        i == g.rules[r].body.len()
    } else {
        0 <= i < g.rules[r].body.len() && f.contains((g.rules[r].body[i], t))
    }
}

/// `f` is closed under the rules of FIRST: a symbol that is not nonterminal
/// has itself, and a nonterminal head has what its rules put there.
pub open spec fn first_closed(g: GrammarView, f: Set<(usize, usize)>) -> bool {
    &&& forall|x: usize| g.is_terminal(x) ==> #[trigger] f.contains((x, x))
    &&& forall|r: int, i: int, t: usize| #[trigger]
        first_fires(g, f, r, i, t) ==> f.contains((g.rules[r].head, t))
}

/// `t` is in FIRST(`x`): the pair is in every closed set.
pub open spec fn in_first(g: GrammarView, x: usize, t: usize) -> bool {
    forall|f: Set<(usize, usize)>| #[trigger] first_closed(g, f) ==> f.contains((x, t))
}

/// The FIRST sets of all symbols, as a set of pairs.
pub open spec fn first_pairs(g: GrammarView) -> Set<(usize, usize)> {
    Set::new(|p: (usize, usize)| in_first(g, p.0, p.1))
}

/// `t` is in FIRST of the sequence `alpha`: ϵ where the sequence is not
/// empty and every symbol of it has ϵ; another symbol where a symbol of the
/// sequence has it and every symbol before that one has ϵ.
pub open spec fn in_first_seq(g: GrammarView, alpha: Seq<usize>, t: usize) -> bool {
    if t == NULL {
        alpha.len() > 0 && prefix_nullable(first_pairs(g), alpha, alpha.len() as int)
    } else {
        exists|i: int|
            0 <= i < alpha.len() && prefix_nullable(first_pairs(g), alpha, i) && in_first(
                g,
                #[trigger] alpha[i],
                t,
            )
    }
}

/// Under `fo`, rule `r` puts `t` into FOLLOW of the nonterminal at index `i`
/// of its body: either `t` is in FIRST of the body symbol at `j`, and every
/// symbol between has ϵ, or `j` is the length of the body, every symbol after
/// `i` has ϵ, and `t` is in FOLLOW of the rule's head.
pub open spec fn follow_fires(
    g: GrammarView,
    fo: Set<(usize, usize)>,
    r: int,
    i: int,
    j: int,
    t: usize,
) -> bool {
    &&& 0 <= r < g.rules.len()
    &&& 0 <= i < j <= g.rules[r].body.len()
    &&& g.is_nonterminal(g.rules[r].body[i])
    &&& t != NULL
    &&& forall|k: int| i < k < j ==> in_first(g, #[trigger] g.rules[r].body[k], NULL)
    &&& if j == g.rules[r].body.len() {
        fo.contains((g.rules[r].head, t))
    } else {
        in_first(g, g.rules[r].body[j], t)
    }
}

/// `fo` is closed under the rules of FOLLOW.
pub open spec fn follow_closed(g: GrammarView, fo: Set<(usize, usize)>) -> bool {
    forall|r: int, i: int, j: int, t: usize| #[trigger]
        follow_fires(g, fo, r, i, j, t) ==> fo.contains((g.rules[r].body[i], t))
}

/// `t` is in FOLLOW(`x`): the pair is in every closed set.
pub open spec fn in_follow(g: GrammarView, x: usize, t: usize) -> bool {
    forall|fo: Set<(usize, usize)>| #[trigger] follow_closed(g, fo) ==> fo.contains((x, t))
}

/// The FOLLOW sets of all symbols, as a set of pairs.
pub open spec fn follow_pairs(g: GrammarView) -> Set<(usize, usize)> {
    Set::new(|p: (usize, usize)| in_follow(g, p.0, p.1))
}

/// The pairs of a set are all in FIRST.
pub open spec fn within_first(g: GrammarView, f: Set<(usize, usize)>) -> bool {
    forall|p: (usize, usize)| #[trigger] f.contains(p) ==> in_first(g, p.0, p.1)
}

/// The pairs of a set are all in FOLLOW.
pub open spec fn within_follow(g: GrammarView, fo: Set<(usize, usize)>) -> bool {
    forall|p: (usize, usize)| #[trigger] fo.contains(p) ==> in_follow(g, p.0, p.1)
}

/// What a rule puts into FIRST of its head from pairs of FIRST is in FIRST.
pub proof fn lemma_first_step(g: GrammarView, f: Set<(usize, usize)>, r: int, i: int, t: usize)
    requires
        within_first(g, f),
        first_fires(g, f, r, i, t),
    ensures
        in_first(g, g.rules[r].head, t),
{
    let body = g.rules[r].body;
    assert forall|c: Set<(usize, usize)>| #[trigger] first_closed(g, c) implies c.contains(
        (g.rules[r].head, t),
    ) by {
        assert forall|j: int| 0 <= j < i implies c.contains((#[trigger] body[j], NULL)) by {
            assert(f.contains((body[j], NULL)));
        }
        if t != NULL {
            assert(f.contains((body[i], t)));
        }
        assert(first_fires(g, c, r, i, t));
    }
}

/// What a rule puts into FOLLOW from pairs of FOLLOW is in FOLLOW.
pub proof fn lemma_follow_step(
    g: GrammarView,
    fo: Set<(usize, usize)>,
    r: int,
    i: int,
    j: int,
    t: usize,
)
    requires
        within_follow(g, fo),
        follow_fires(g, fo, r, i, j, t),
    ensures
        in_follow(g, g.rules[r].body[i], t),
{
    assert forall|c: Set<(usize, usize)>| #[trigger] follow_closed(g, c) implies c.contains(
        (g.rules[r].body[i], t),
    ) by {
        if j == g.rules[r].body.len() {
            assert(fo.contains((g.rules[r].head, t)));
        }
        assert(follow_fires(g, c, r, i, j, t));
    }
}

/// FIRST is the least fixed point of its rules: the FIRST sets are closed
/// under the rules, and every set that is closed under them holds them.
pub proof fn lemma_first_least_fixed_point(g: GrammarView)
    ensures
        first_closed(g, first_pairs(g)),
        forall|f: Set<(usize, usize)>| #[trigger]
            first_closed(g, f) ==> first_pairs(g).subset_of(f),
{
    let s = first_pairs(g);
    assert forall|r: int, i: int, t: usize| #[trigger] first_fires(g, s, r, i, t) implies s.contains(
        (g.rules[r].head, t),
    ) by {
        lemma_first_step(g, s, r, i, t);
    }
}

/// FIRST of a symbol that is not nonterminal holds that symbol and nothing
/// else.
pub proof fn lemma_first_of_terminal(g: GrammarView, x: usize, t: usize)
    requires
        g.is_terminal(x),
    ensures
        in_first(g, x, t) <==> t == x,
{
    let c = Set::new(|p: (usize, usize)| g.is_nonterminal(p.0) || p.0 == p.1);
    assert(first_closed(g, c)) by {
        assert forall|r: int, i: int, u: usize| #[trigger] first_fires(g, c, r, i, u) implies c.contains(
            (g.rules[r].head, u),
        ) by {}
    }
    if in_first(g, x, t) {
        assert(c.contains((x, t)));
    }
    if t == x {
        assert forall|f: Set<(usize, usize)>| #[trigger] first_closed(g, f) implies f.contains(
            (x, t),
        ) by {}
    }
}

/// FIRST relates symbols of the grammar only, and a member of a FIRST set is
/// never nonterminal.
pub proof fn lemma_first_range(g: GrammarView, x: usize, t: usize)
    requires
        g.valid(),
        in_first(g, x, t),
    ensures
        x < g.symbols.len(),
        g.is_terminal(t),
{
    let c = Set::new(|p: (usize, usize)| p.0 < g.symbols.len() && g.is_terminal(p.1));
    assert(first_closed(g, c)) by {
        assert forall|r: int, i: int, u: usize| #[trigger] first_fires(g, c, r, i, u) implies c.contains(
            (g.rules[r].head, u),
        ) by {
            if u != NULL {
                assert(c.contains((g.rules[r].body[i], u)));
            }
        }
    }
    assert(c.contains((x, t)));
}

/// A member of FIRST of a sequence of symbols of the grammar is a symbol of
/// the grammar.
pub proof fn lemma_first_seq_range(g: GrammarView, alpha: Seq<usize>, t: usize)
    requires
        g.valid(),
        in_first_seq(g, alpha, t),
    ensures
        t < g.symbols.len(),
{
    if t != NULL {
        let i = choose|i: int|
            0 <= i < alpha.len() && prefix_nullable(first_pairs(g), alpha, i) && in_first(
                g,
                #[trigger] alpha[i],
                t,
            );
        lemma_first_range(g, alpha[i], t);
    }
}

/// For a sequence that is not empty, FIRST of the sequence holds every
/// symbol but ϵ of FIRST of its first symbol, and ϵ only if that symbol has
/// it.
pub proof fn lemma_first_seq_head(g: GrammarView, alpha: Seq<usize>, t: usize)
    requires
        alpha.len() > 0,
    ensures
        in_first(g, alpha[0], t) && t != NULL ==> in_first_seq(g, alpha, t),
        in_first_seq(g, alpha, NULL) ==> in_first(g, alpha[0], NULL),
{
    if in_first(g, alpha[0], t) && t != NULL {
        assert(prefix_nullable(first_pairs(g), alpha, 0));
    }
    if in_first_seq(g, alpha, NULL) {
        assert(first_pairs(g).contains((alpha[0], NULL)));
    }
}

/// FOLLOW is the least fixed point of its rules.
pub proof fn lemma_follow_least_fixed_point(g: GrammarView)
    ensures
        follow_closed(g, follow_pairs(g)),
        forall|fo: Set<(usize, usize)>| #[trigger]
            follow_closed(g, fo) ==> follow_pairs(g).subset_of(fo),
{
    let s = follow_pairs(g);
    assert forall|r: int, i: int, j: int, t: usize| #[trigger]
        follow_fires(g, s, r, i, j, t) implies s.contains((g.rules[r].body[i], t)) by {
        lemma_follow_step(g, s, r, i, j, t);
    }
}

/// FOLLOW of the start symbol holds the end marker. For every rule
/// `A → α B β` with `B` nonterminal, FOLLOW(`B`) holds every symbol of
/// FIRST(`β`) but ϵ, and all of FOLLOW(`A`) where every symbol of `β` has ϵ
/// in its FIRST set.
pub proof fn lemma_follow_laws(g: GrammarView, r: int, i: int, t: usize)
    requires
        g.valid(),
        0 <= r < g.rules.len(),
        0 <= i < g.rules[r].body.len(),
        g.is_nonterminal(g.rules[r].body[i]),
    ensures
        in_follow(g, g.start, END),
        t != NULL && in_first_seq(
            g,
            g.rules[r].body.subrange(i + 1, g.rules[r].body.len() as int),
            t,
        ) ==> in_follow(g, g.rules[r].body[i], t),
        prefix_nullable(
            first_pairs(g),
            g.rules[r].body.subrange(i + 1, g.rules[r].body.len() as int),
            g.rules[r].body.len() - i - 1,
        ) && in_follow(g, g.rules[r].head, t) && t != NULL ==> in_follow(g, g.rules[r].body[i], t),
{
    let s = follow_pairs(g);
    let body = g.rules[r].body;
    let beta = body.subrange(i + 1, body.len() as int);
    assert(in_follow(g, g.start, END)) by {
        lemma_first_of_terminal(g, END, END);
        assert(g.rules[0].body[1] == g.start);
        assert(g.rules[0].body[2] == END);
        assert(follow_fires(g, s, 0, 1, 2, END));
        lemma_follow_step(g, s, 0, 1, 2, END);
    }
    if t != NULL && in_first_seq(g, beta, t) {
        let k = choose|k: int|
            0 <= k < beta.len() && prefix_nullable(first_pairs(g), beta, k) && in_first(
                g,
                #[trigger] beta[k],
                t,
            );
        assert forall|m: int| i < m < i + 1 + k implies in_first(g, #[trigger] body[m], NULL) by {
            assert(first_pairs(g).contains((beta[m - i - 1], NULL)));
        }
        assert(beta[k] == body[i + 1 + k]);
        assert(follow_fires(g, s, r, i, i + 1 + k, t));
        lemma_follow_step(g, s, r, i, i + 1 + k, t);
    }
    if prefix_nullable(first_pairs(g), beta, body.len() - i - 1) && in_follow(g, g.rules[r].head, t)
        && t != NULL {
        assert forall|m: int| i < m < body.len() implies in_first(g, #[trigger] body[m], NULL) by {
            assert(first_pairs(g).contains((beta[m - i - 1], NULL)));
        }
        assert(s.contains((g.rules[r].head, t)));
        assert(follow_fires(g, s, r, i, body.len() as int, t));
        lemma_follow_step(g, s, r, i, body.len() as int, t);
    }
}

/// FOLLOW relates symbols of the grammar only: a nonterminal to symbols
/// that are not nonterminal and not ϵ.
pub proof fn lemma_follow_range(g: GrammarView, x: usize, t: usize)
    requires
        g.valid(),
        in_follow(g, x, t),
    ensures
        g.is_nonterminal(x),
        g.is_terminal(t),
        t != NULL,
{
    let c = Set::new(
        |p: (usize, usize)| g.is_nonterminal(p.0) && g.is_terminal(p.1) && p.1 != NULL,
    );
    assert(follow_closed(g, c)) by {
        assert forall|r: int, i: int, j: int, u: usize| #[trigger]
            follow_fires(g, c, r, i, j, u) implies c.contains((g.rules[r].body[i], u)) by {
            if j < g.rules[r].body.len() {
                lemma_first_range(g, g.rules[r].body[j], u);
            }
        }
    }
    assert(c.contains((x, t)));
}

/// The relation holds exactly the FIRST sets of the grammar.
pub open spec fn tracks_first(g: GrammarView, m: Relation) -> bool {
    &&& m.wf()
    &&& m.height() == g.symbols.len()
    &&& m.width() == g.symbols.len()
    &&& forall|x: usize, t: usize| #[trigger] m.has(x as int, t as int) <==> in_first(g, x, t)
}

/// The relation holds exactly the FOLLOW sets of the grammar.
pub open spec fn tracks_follow(g: GrammarView, m: Relation) -> bool {
    &&& m.wf()
    &&& m.height() == g.symbols.len()
    &&& m.width() == g.symbols.len()
    &&& forall|x: usize, t: usize| #[trigger] m.has(x as int, t as int) <==> in_follow(g, x, t)
}

/// The symbols and rules are those of the view.
pub open spec fn views(g: GrammarView, symbols: Seq<Symbol>, rules: Seq<Rule>) -> bool {
    g.symbols == symbols && g.rules == rule_views(rules)
}

/// Rule `r` puts nothing into FIRST of its head that the relation lacks.
pub open spec fn first_settled(g: GrammarView, m: Relation, r: int) -> bool {
    forall|i: int, t: usize| #[trigger]
        first_fires(g, m.pairs(), r, i, t) ==> m.has(g.rules[r].head as int, t as int)
}

/// Rule `r` puts nothing into FOLLOW of the symbol at `i` that the relation
/// lacks.
pub open spec fn follow_settled(g: GrammarView, m: Relation, r: int, i: int) -> bool {
    forall|j: int, t: usize| #[trigger]
        follow_fires(g, m.pairs(), r, i, j, t) ==> m.has(g.rules[r].body[i] as int, t as int)
}

/// Applies rule `r` to the FIRST relation once.
fn first_apply(m: &mut Relation, rules: &Vec<Rule>, r: usize, Ghost(g): Ghost<GrammarView>) -> (changed:
    bool)
    requires
        g.valid(),
        g.rules == rule_views(rules@),
        r < rules.len(),
        g.is_nonterminal(rules[r as int].head),
        old(m).wf(),
        old(m).height() == g.symbols.len(),
        old(m).width() == g.symbols.len(),
        within_first(g, old(m).pairs()),
    ensures
        final(m).wf(),
        final(m).height() == old(m).height(),
        final(m).width() == old(m).width(),
        within_first(g, final(m).pairs()),
        old(m).pairs().subset_of(final(m).pairs()),
        final(m).free() <= old(m).free(),
        changed ==> final(m).free() < old(m).free(),
        !changed ==> *final(m) == *old(m),
        !changed ==> first_settled(g, *final(m), r as int),
{
    let rule = &rules[r];
    let head = rule.head;
    let ghost body = g.rules[r as int].body;
    assert(g.rules[r as int] == rules[r as int]@);
    assert(g.rules[r as int].valid_in(r as int, g.symbols.len()));
    let mut changed = false;
    let mut i: usize = 0;
    while i < rule.body.len()
        invariant
            g.valid(),
            g.rules == rule_views(rules@),
            r < rules.len(),
            *rule == rules[r as int],
            body == rule.body@,
            body == g.rules[r as int].body,
            head == g.rules[r as int].head,
            g.is_nonterminal(head),
            m.wf(),
            m.height() == g.symbols.len(),
            m.width() == g.symbols.len(),
            m.height() == old(m).height(),
            m.width() == old(m).width(),
            within_first(g, m.pairs()),
            old(m).pairs().subset_of(m.pairs()),
            m.free() <= old(m).free(),
            changed ==> m.free() < old(m).free(),
            !changed ==> *m == *old(m),
            i <= body.len(),
            forall|k: int| 0 <= k < body.len() ==> #[trigger] body[k] < g.symbols.len(),
            prefix_nullable(m.pairs(), body, i as int),
            !changed ==> forall|k: int, u: usize|
                0 <= k < i && u != NULL && #[trigger] m.has(body[k] as int, u as int) ==> m.has(
                    head as int,
                    u as int,
                ),
        decreases body.len() - i,
    {
        let y = rule.body[i];
        let ghost before = *m;
        let source = m.row_copy(y);
        let grew = absorb_row(m, head, &source);
        proof {
            assert forall|p: (usize, usize)| #[trigger] m.pairs().contains(p) implies in_first(
                g,
                p.0,
                p.1,
            ) by {
                if !before.pairs().contains(p) {
                    assert(m.has(p.0 as int, p.1 as int));
                    assert(before.has(y as int, p.1 as int));
                    assert(before.pairs().contains((y, p.1)));
                    assert(first_fires(g, before.pairs(), r as int, i as int, p.1));
                    lemma_first_step(g, before.pairs(), r as int, i as int, p.1);
                }
            }
            assert forall|k: int| 0 <= k < i implies m.pairs().contains((#[trigger] body[k], NULL)) by {
                assert(before.pairs().contains((body[k], NULL)));
            }
            assert forall|u: usize| u != NULL && #[trigger] m.has(y as int, u as int) implies m.has(
                head as int,
                u as int,
            ) by {
                m.lemma_has_range(y as int, u as int);
                if y != head {
                    assert(before.has(y as int, u as int));
                    assert(source[u as int]);
                }
            }
        }
        if grew {
            changed = true;
        }
        assert(!changed ==> forall|k: int, u: usize|
            0 <= k < i + 1 && u != NULL && #[trigger] m.has(body[k] as int, u as int) ==> m.has(
                head as int,
                u as int,
            ));
        if !m.get(y, NULL) {
            proof {
                if !changed {
                    assert forall|k: int, t: usize| #[trigger]
                        first_fires(g, m.pairs(), r as int, k, t) implies m.has(
                        head as int,
                        t as int,
                    ) by {
                        if k > i {
                            assert(m.pairs().contains((body[i as int], NULL)));
                        }
                        if t != NULL {
                            assert(m.pairs().contains((body[k], t)));
                            assert(m.has(body[k] as int, t as int));
                        }
                    }
                }
            }
            return changed;
        }
        proof {
            assert(m.pairs().contains((body[i as int], NULL)));
        }
        i += 1;
    }
    if !m.get(head, NULL) {
        proof {
            assert(first_fires(g, m.pairs(), r as int, i as int, NULL));
            lemma_first_step(g, m.pairs(), r as int, i as int, NULL);
        }
        let ghost before = *m;
        m.set(head, NULL);
        changed = true;
        proof {
            assert forall|p: (usize, usize)| #[trigger] m.pairs().contains(p) implies in_first(
                g,
                p.0,
                p.1,
            ) by {
                if !before.pairs().contains(p) {
                    assert(p == (head, NULL));
                }
            }
        }
    }
    proof {
        if !changed {
            assert forall|k: int, t: usize| #[trigger]
                first_fires(g, m.pairs(), r as int, k, t) implies m.has(head as int, t as int) by {
                if t != NULL {
                    assert(m.pairs().contains((body[k], t)));
                    assert(m.has(body[k] as int, t as int));
                }
            }
        }
    }
    changed
}

/// Adds to row `to` every symbol but ϵ of the given row.
fn absorb_row(m: &mut Relation, to: usize, source: &Vec<bool>) -> (changed: bool)
    requires
        old(m).wf(),
        to < old(m).height(),
        source.len() == old(m).width(),
    ensures
        final(m).wf(),
        final(m).height() == old(m).height(),
        final(m).width() == old(m).width(),
        forall|a: int, b: int|
            final(m).has(a, b) == (old(m).has(a, b) || (a == to && b != NULL && 0 <= b
                < source.len() && source[b])),
        final(m).free() <= old(m).free(),
        changed ==> final(m).free() < old(m).free(),
        !changed ==> *final(m) == *old(m),
{
    let mut changed = false;
    let mut t: usize = 0;
    while t < source.len()
        invariant
            m.wf(),
            to < m.height(),
            m.height() == old(m).height(),
            m.width() == old(m).width(),
            source.len() == m.width(),
            t <= source.len(),
            forall|a: int, b: int|
                m.has(a, b) == (old(m).has(a, b) || (a == to && b != NULL && 0 <= b < t
                    && source[b])),
            changed ==> m.free() < old(m).free(),
            !changed ==> *m == *old(m),
            m.free() <= old(m).free(),
        decreases source.len() - t,
    {
        if t != NULL && source[t] && !m.get(to, t) {
            m.set(to, t);
            changed = true;
        }
        t += 1;
    }
    changed
}

/// Computes the FIRST sets of all symbols.
pub(crate) fn compute_first(symbols: &Vec<Symbol>, rules: &Vec<Rule>, Ghost(g): Ghost<GrammarView>) -> (m:
    Relation)
    requires
        g.valid(),
        views(g, symbols@, rules@),
    ensures
        tracks_first(g, m),
{
    let n = symbols.len();
    let mut m = Relation::new(n, n);
    let mut x: usize = 0;
    while x < n
        invariant
            g.valid(),
            views(g, symbols@, rules@),
            n == symbols.len(),
            m.wf(),
            m.height() == n,
            m.width() == n,
            x <= n,
            within_first(g, m.pairs()),
            forall|y: usize| y < x && g.is_terminal(y) ==> m.has(y as int, y as int),
        decreases n - x,
    {
        if symbols[x].is_terminal() {
            let ghost before = m;
            m.set(x, x);
            proof {
                lemma_first_of_terminal(g, x, x);
                assert forall|p: (usize, usize)| #[trigger] m.pairs().contains(p) implies in_first(
                    g,
                    p.0,
                    p.1,
                ) by {
                    if !before.pairs().contains(p) {
                        assert(m.has(p.0 as int, p.1 as int));
                    }
                }
            }
        }
        x += 1;
    }
    loop
        invariant
            g.valid(),
            views(g, symbols@, rules@),
            n == symbols.len(),
            m.wf(),
            m.height() == n,
            m.width() == n,
            within_first(g, m.pairs()),
            forall|y: usize| g.is_terminal(y) ==> m.has(y as int, y as int),
        ensures
            tracks_first(g, m),
        decreases m.free(),
    {
        let ghost start = m;
        let mut changed = false;
        let mut r: usize = 0;
        while r < rules.len()
            invariant
                g.valid(),
                views(g, symbols@, rules@),
                n == symbols.len(),
                m.wf(),
                m.height() == n,
                m.width() == n,
                within_first(g, m.pairs()),
                forall|y: usize| g.is_terminal(y) ==> m.has(y as int, y as int),
                r <= rules.len(),
                m.free() <= start.free(),
                changed ==> m.free() < start.free(),
                !changed ==> m == start,
                !changed ==> forall|q: int|
                    0 <= q < r && g.is_nonterminal(g.rules[q].head) ==> #[trigger] first_settled(
                        g,
                        m,
                        q,
                    ),
            decreases rules.len() - r,
        {
            assert(g.rules[r as int] == rules[r as int]@);
            assert(g.rules[r as int].valid_in(r as int, g.symbols.len()));
            if symbols[rules[r].head].is_nonterminal() {
                let ghost before = m;
                let grew = first_apply(&mut m, rules, r, Ghost(g));
                proof {
                    assert forall|y: usize| g.is_terminal(y) implies m.has(y as int, y as int) by {
                        assert(before.pairs().contains((y, y)));
                        assert(m.pairs().contains((y, y)));
                    }
                }
                if grew {
                    changed = true;
                }
            }
            r += 1;
        }
        if !changed {
            proof {
                let f = m.pairs();
                assert forall|q: int, i: int, t: usize| #[trigger]
                    first_fires(g, f, q, i, t) implies f.contains((g.rules[q].head, t)) by {
                    assert(first_settled(g, m, q));
                }
                assert(first_closed(g, f));
                assert forall|y: usize, t: usize| #[trigger]
                    m.has(y as int, t as int) <==> in_first(g, y, t) by {
                    if m.has(y as int, t as int) {
                        assert(f.contains((y, t)));
                    }
                    if in_first(g, y, t) {
                        assert(f.contains((y, t)));
                    }
                }
            }
            break;
        }
    }
    m
}

/// Applies rule `r` to FOLLOW of the nonterminal at index `i` of its body
/// once.
fn follow_apply(
    m: &mut Relation,
    first: &Relation,
    rules: &Vec<Rule>,
    r: usize,
    i: usize,
    Ghost(g): Ghost<GrammarView>,
) -> (changed: bool)
    requires
        g.valid(),
        g.rules == rule_views(rules@),
        r < rules.len(),
        i < rules[r as int].body.len(),
        g.is_nonterminal(rules[r as int].body[i as int]),
        tracks_first(g, *first),
        old(m).wf(),
        old(m).height() == g.symbols.len(),
        old(m).width() == g.symbols.len(),
        within_follow(g, old(m).pairs()),
    ensures
        final(m).wf(),
        final(m).height() == old(m).height(),
        final(m).width() == old(m).width(),
        within_follow(g, final(m).pairs()),
        final(m).free() <= old(m).free(),
        changed ==> final(m).free() < old(m).free(),
        !changed ==> *final(m) == *old(m),
        !changed ==> follow_settled(g, *final(m), r as int, i as int),
{
    let rule = &rules[r];
    let head = rule.head;
    let x = rule.body[i];
    let ghost body = g.rules[r as int].body;
    assert(g.rules[r as int] == rules[r as int]@);
    assert(g.rules[r as int].valid_in(r as int, g.symbols.len()));
    let mut changed = false;
    let mut j: usize = i + 1;
    while j < rule.body.len()
        invariant
            g.valid(),
            g.rules == rule_views(rules@),
            r < rules.len(),
            *rule == rules[r as int],
            body == rule.body@,
            body == g.rules[r as int].body,
            head == g.rules[r as int].head,
            x == body[i as int],
            g.is_nonterminal(x),
            tracks_first(g, *first),
            m.wf(),
            m.height() == g.symbols.len(),
            m.width() == g.symbols.len(),
            m.height() == old(m).height(),
            m.width() == old(m).width(),
            within_follow(g, m.pairs()),
            m.free() <= old(m).free(),
            changed ==> m.free() < old(m).free(),
            !changed ==> *m == *old(m),
            i < j <= body.len(),
            forall|k: int| 0 <= k < body.len() ==> #[trigger] body[k] < g.symbols.len(),
            forall|k: int| i < k < j ==> in_first(g, #[trigger] body[k], NULL),
            !changed ==> forall|q: int, u: usize|
                i < q < j && #[trigger] follow_fires(g, m.pairs(), r as int, i as int, q, u)
                    ==> m.has(x as int, u as int),
        decreases body.len() - j,
    {
        let y = rule.body[j];
        let source = first.row_copy(y);
        let ghost before = *m;
        let grew = absorb_row(m, x, &source);
        proof {
            assert forall|p: (usize, usize)| #[trigger] m.pairs().contains(p) implies in_follow(
                g,
                p.0,
                p.1,
            ) by {
                if !before.pairs().contains(p) {
                    assert(m.has(p.0 as int, p.1 as int));
                    assert(first.has(y as int, p.1 as int));
                    assert(follow_fires(g, before.pairs(), r as int, i as int, j as int, p.1));
                    lemma_follow_step(g, before.pairs(), r as int, i as int, j as int, p.1);
                }
            }
            assert forall|u: usize| #[trigger]
                follow_fires(g, m.pairs(), r as int, i as int, j as int, u) implies m.has(
                x as int,
                u as int,
            ) by {
                assert(first.has(y as int, u as int));
                first.lemma_has_range(y as int, u as int);
                assert(source[u as int]);
            }
        }
        if grew {
            changed = true;
        }
        assert(!changed ==> forall|q: int, u: usize|
            i < q < j + 1 && #[trigger] follow_fires(g, m.pairs(), r as int, i as int, q, u)
                ==> m.has(x as int, u as int));
        if !first.get(y, NULL) {
            proof {
                if !changed {
                    assert forall|q: int, u: usize| #[trigger]
                        follow_fires(g, m.pairs(), r as int, i as int, q, u) implies m.has(
                        x as int,
                        u as int,
                    ) by {
                        if q > j {
                            assert(in_first(g, body[j as int], NULL));
                        }
                    }
                }
            }
            return changed;
        }
        j += 1;
    }
    let source = m.row_copy(head);
    let ghost before = *m;
    let grew = absorb_row(m, x, &source);
    proof {
        assert forall|p: (usize, usize)| #[trigger] m.pairs().contains(p) implies in_follow(
            g,
            p.0,
            p.1,
        ) by {
            if !before.pairs().contains(p) {
                assert(m.has(p.0 as int, p.1 as int));
                assert(before.has(head as int, p.1 as int));
                assert(before.pairs().contains((head, p.1)));
                assert(follow_fires(g, before.pairs(), r as int, i as int, body.len() as int, p.1));
                lemma_follow_step(g, before.pairs(), r as int, i as int, body.len() as int, p.1);
            }
        }
    }
    if grew {
        changed = true;
    }
    proof {
        if !changed {
            assert forall|q: int, u: usize| #[trigger]
                follow_fires(g, m.pairs(), r as int, i as int, q, u) implies m.has(
                x as int,
                u as int,
            ) by {
                if q == body.len() {
                    assert(m.pairs().contains((head, u)));
                    assert(before.has(head as int, u as int));
                    before.lemma_has_range(head as int, u as int);
                    assert(source[u as int]);
                }
            }
        }
    }
    changed
}

/// Applies rule `r` to FOLLOW of every nonterminal of its body once.
fn follow_apply_rule(
    m: &mut Relation,
    first: &Relation,
    symbols: &Vec<Symbol>,
    rules: &Vec<Rule>,
    r: usize,
    Ghost(g): Ghost<GrammarView>,
) -> (changed: bool)
    requires
        g.valid(),
        views(g, symbols@, rules@),
        r < rules.len(),
        tracks_first(g, *first),
        old(m).wf(),
        old(m).height() == g.symbols.len(),
        old(m).width() == g.symbols.len(),
        within_follow(g, old(m).pairs()),
    ensures
        final(m).wf(),
        final(m).height() == old(m).height(),
        final(m).width() == old(m).width(),
        within_follow(g, final(m).pairs()),
        final(m).free() <= old(m).free(),
        changed ==> final(m).free() < old(m).free(),
        !changed ==> *final(m) == *old(m),
        !changed ==> forall|i: int|
            0 <= i < g.rules[r as int].body.len() && g.is_nonterminal(g.rules[r as int].body[i])
                ==> #[trigger] follow_settled(g, *final(m), r as int, i),
{
    let rule = &rules[r];
    let ghost body = g.rules[r as int].body;
    assert(g.rules[r as int] == rules[r as int]@);
    assert(g.rules[r as int].valid_in(r as int, g.symbols.len()));
    let mut changed = false;
    let mut i: usize = 0;
    while i < rule.body.len()
        invariant
            g.valid(),
            views(g, symbols@, rules@),
            r < rules.len(),
            *rule == rules[r as int],
            body == rule.body@,
            body == g.rules[r as int].body,
            tracks_first(g, *first),
            m.wf(),
            m.height() == g.symbols.len(),
            m.width() == g.symbols.len(),
            m.height() == old(m).height(),
            m.width() == old(m).width(),
            within_follow(g, m.pairs()),
            m.free() <= old(m).free(),
            changed ==> m.free() < old(m).free(),
            !changed ==> *m == *old(m),
            i <= body.len(),
            forall|k: int| 0 <= k < body.len() ==> #[trigger] body[k] < g.symbols.len(),
            !changed ==> forall|k: int|
                0 <= k < i && g.is_nonterminal(body[k]) ==> #[trigger] follow_settled(
                    g,
                    *m,
                    r as int,
                    k,
                ),
        decreases body.len() - i,
    {
        if symbols[rule.body[i]].is_nonterminal() {
            let grew = follow_apply(m, first, rules, r, i, Ghost(g));
            if grew {
                changed = true;
            }
        }
        i += 1;
    }
    changed
}

/// Computes the FOLLOW sets of all symbols from the FIRST sets.
pub(crate) fn compute_follow(
    symbols: &Vec<Symbol>,
    rules: &Vec<Rule>,
    first: &Relation,
    Ghost(g): Ghost<GrammarView>,
) -> (m: Relation)
    requires
        g.valid(),
        views(g, symbols@, rules@),
        tracks_first(g, *first),
    ensures
        tracks_follow(g, m),
{
    let n = symbols.len();
    let mut m = Relation::new(n, n);
    loop
        invariant
            g.valid(),
            views(g, symbols@, rules@),
            tracks_first(g, *first),
            n == symbols.len(),
            m.wf(),
            m.height() == n,
            m.width() == n,
            within_follow(g, m.pairs()),
        ensures
            tracks_follow(g, m),
        decreases m.free(),
    {
        let ghost start = m;
        let mut changed = false;
        let mut r: usize = 0;
        while r < rules.len()
            invariant
                g.valid(),
                views(g, symbols@, rules@),
                tracks_first(g, *first),
                n == symbols.len(),
                m.wf(),
                m.height() == n,
                m.width() == n,
                within_follow(g, m.pairs()),
                r <= rules.len(),
                m.free() <= start.free(),
                changed ==> m.free() < start.free(),
                !changed ==> m == start,
                !changed ==> forall|q: int, i: int|
                    0 <= q < r && 0 <= i < g.rules[q].body.len() && g.is_nonterminal(
                        g.rules[q].body[i],
                    ) ==> #[trigger] follow_settled(g, m, q, i),
            decreases rules.len() - r,
        {
            let grew = follow_apply_rule(&mut m, first, symbols, rules, r, Ghost(g));
            if grew {
                changed = true;
            }
            r += 1;
        }
        if !changed {
            proof {
                let f = m.pairs();
                assert forall|q: int, i: int, j: int, t: usize| #[trigger]
                    follow_fires(g, f, q, i, j, t) implies f.contains((g.rules[q].body[i], t)) by {
                    assert(follow_settled(g, m, q, i));
                }
                assert(follow_closed(g, f));
                assert forall|y: usize, t: usize| #[trigger]
                    m.has(y as int, t as int) <==> in_follow(g, y, t) by {
                    if m.has(y as int, t as int) {
                        assert(f.contains((y, t)));
                    }
                    if in_follow(g, y, t) {
                        assert(f.contains((y, t)));
                    }
                }
            }
            break;
        }
    }
    m
}

} // verus!
