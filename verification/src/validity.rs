//! Validity of a grammar: every nonterminal can be reached, is not left
//! recursive in all its rules, and derives some string of terminals.

use crate::analysis::GrammarView;
use crate::bits::{cleared, count_true, lemma_count_bound, lemma_count_update};
use crate::grammar::{lists_rules_of, Grammar};
use crate::symbol::Symbol;
use vstd::prelude::*;

verus! {

/// What makes a grammar invalid; each carries the symbol at fault.
#[derive(Debug)]
pub enum Error {
    /// The start symbol has no rule.
    NoSymbol(Symbol),
    /// The nonterminal has rules, but no rule body holds it.
    Unreachable(Symbol),
    /// Every rule of the nonterminal begins with the nonterminal itself.
    LeftRecursive(Symbol),
    /// The nonterminal derives no string of terminals.
    NotRealizable(Symbol),
}

/// Some rule has `h` as its head.
pub open spec fn has_rule(g: GrammarView, h: usize) -> bool {
    exists|r: int| 0 <= r < g.rules.len() && (#[trigger] g.rules[r]).head == h
}

/// The body of rule `r` holds `x`.
pub open spec fn occurs_in(g: GrammarView, x: usize, r: int) -> bool {
    exists|i: int| 0 <= i < g.rules[r].body.len() && #[trigger] g.rules[r].body[i] == x
}

/// The body of a rule before `end` holds `x`.
pub open spec fn occurs_before(g: GrammarView, x: usize, end: int) -> bool {
    exists|r: int| 0 <= r < end && #[trigger] occurs_in(g, x, r)
}

/// Some rule body holds `x`.
pub open spec fn occurs(g: GrammarView, x: usize) -> bool {
    occurs_before(g, x, g.rules.len() as int)
}

/// `h` is a nonterminal with rules that is not the start symbol and that no
/// rule body holds.
pub open spec fn unreachable(g: GrammarView, h: usize) -> bool {
    g.is_nonterminal(h) && has_rule(g, h) && h != g.start && !occurs(g, h)
}

/// `h` is a nonterminal with rules, each of which begins with `h`.
pub open spec fn left_recursive(g: GrammarView, h: usize) -> bool {
    &&& g.is_nonterminal(h)
    &&& has_rule(g, h)
    &&& forall|r: int|
        0 <= r < g.rules.len() && (#[trigger] g.rules[r]).head == h ==> g.rules[r].body[0] == h
}

/// Every nonterminal of the body of rule `r` is in `s`.
pub open spec fn realizable_fires(g: GrammarView, s: Set<usize>, r: int) -> bool {
    &&& 0 <= r < g.rules.len()
    &&& forall|i: int|
        0 <= i < g.rules[r].body.len() && g.is_nonterminal(#[trigger] g.rules[r].body[i])
            ==> s.contains(g.rules[r].body[i])
}

/// `s` holds the head of every rule whose body nonterminals it holds.
pub open spec fn realizable_closed(g: GrammarView, s: Set<usize>) -> bool {
    forall|r: int| #[trigger] realizable_fires(g, s, r) ==> s.contains(g.rules[r].head)
}

/// `x` derives a string of terminals: it is in every set that holds the
/// head of each rule whose body nonterminals it holds.
pub open spec fn realizable(g: GrammarView, x: usize) -> bool {
    forall|s: Set<usize>| #[trigger] realizable_closed(g, s) ==> s.contains(x)
}

/// `x` is a nonterminal in use, as the start symbol or in a rule body, that
/// derives no string of terminals.
pub open spec fn not_realizable(g: GrammarView, x: usize) -> bool {
    g.is_nonterminal(x) && (x == g.start || occurs(g, x)) && !realizable(g, x)
}

/// Rule `r` is the first rule whose head is unreachable.
pub open spec fn first_unreachable(g: GrammarView, r: int) -> bool {
    &&& 0 <= r < g.rules.len()
    &&& unreachable(g, g.rules[r].head)
    &&& forall|q: int| 0 <= q < r ==> !unreachable(g, #[trigger] g.rules[q].head)
}

/// Rule `r` is the first rule whose head is left recursive.
pub open spec fn first_left_recursive(g: GrammarView, r: int) -> bool {
    &&& 0 <= r < g.rules.len()
    &&& left_recursive(g, g.rules[r].head)
    &&& forall|q: int| 0 <= q < r ==> !left_recursive(g, #[trigger] g.rules[q].head)
}

/// The verdict on a grammar: the first violation in the order no rule for the
/// start symbol, unreachable, left recursive, not realizable. Of several
/// unreachable or left recursive nonterminals the one whose first rule comes
/// first is named; of several that are not realizable the one with the
/// smallest ID.
pub open spec fn verdict(g: GrammarView, result: Result<(), Error>) -> bool {
    match result {
        Ok(()) => {
            &&& has_rule(g, g.start)
            &&& forall|h: usize| !unreachable(g, h)
            &&& forall|h: usize| !left_recursive(g, h)
            &&& forall|x: usize| !not_realizable(g, x)
        },
        Err(Error::NoSymbol(symbol)) => !has_rule(g, g.start) && symbol == g.symbols[g.start as int],
        Err(Error::Unreachable(symbol)) => {
            &&& has_rule(g, g.start)
            &&& exists|r: int| #[trigger]
                first_unreachable(g, r) && symbol
                    == g.symbols[g.rules[r].head as int]
        },
        Err(Error::LeftRecursive(symbol)) => {
            &&& has_rule(g, g.start)
            &&& forall|h: usize| !unreachable(g, h)
            &&& exists|r: int| #[trigger]
                first_left_recursive(g, r) && symbol
                    == g.symbols[g.rules[r].head as int]
        },
        Err(Error::NotRealizable(symbol)) => {
            &&& has_rule(g, g.start)
            &&& forall|h: usize| !unreachable(g, h)
            &&& forall|h: usize| !left_recursive(g, h)
            &&& exists|x: usize|
                #![trigger not_realizable(g, x)]
                not_realizable(g, x) && symbol == g.symbols[x as int] && forall|y: usize|
                    y < x ==> !not_realizable(g, y)
        },
    }
}

/// The head of a rule whose body nonterminals are realizable is realizable.
pub proof fn lemma_realizable_step(g: GrammarView, s: Set<usize>, r: int)
    requires
        forall|x: usize| #[trigger] s.contains(x) ==> realizable(g, x),
        realizable_fires(g, s, r),
    ensures
        realizable(g, g.rules[r].head),
{
    assert forall|c: Set<usize>| #[trigger] realizable_closed(g, c) implies c.contains(
        g.rules[r].head,
    ) by {
        assert forall|i: int|
            0 <= i < g.rules[r].body.len() && g.is_nonterminal(
                #[trigger] g.rules[r].body[i],
            ) implies c.contains(g.rules[r].body[i]) by {
            assert(s.contains(g.rules[r].body[i]));
        }
        assert(realizable_fires(g, c, r));
    }
}

/// A grammar in which every rule of a nonterminal with rules begins with
/// that nonterminal is refused as left recursive, unless its start symbol has
/// no rule or one of its nonterminals is unreachable.
pub proof fn lemma_left_recursive_refused(g: GrammarView, h: usize, result: Result<(), Error>)
    requires
        verdict(g, result),
        left_recursive(g, h),
        has_rule(g, g.start),
        forall|x: usize| !unreachable(g, x),
    ensures
        result is Err,
        result->Err_0 is LeftRecursive,
{
}

/// The members of a bit vector, as a set of IDs.
pub open spec fn marked(bits: Seq<bool>) -> Set<usize> {
    Set::new(|x: usize| x < bits.len() && bits[x as int])
}

impl Grammar {
    /// Marks the symbols that occur in a rule body.
    fn occurrences(&self) -> (occ: Vec<bool>)
        requires
            self.wf(),
        ensures
            occ.len() == self.symbols.len(),
            forall|x: usize| x < occ.len() ==> (occ[x as int] <==> occurs(self@, x)),
    {
        let ghost g = self@;
        let n = self.symbols.len();
        let mut occ = cleared(n);
        let mut r: usize = 0;
        while r < self.rules.len()
            invariant
                self.wf(),
                g == self@,
                n == self.symbols.len(),
                occ.len() == n,
                r <= self.rules.len(),
                forall|x: usize|
                    x < n ==> (#[trigger] occ[x as int] <==> occurs_before(g, x, r as int)),
            decreases self.rules.len() - r,
        {
            let rule = &self.rules[r];
            assert(g.rules[r as int] == self.rules[r as int]@);
            assert(g.rules[r as int].valid_in(r as int, g.symbols.len()));
            let ghost body = g.rules[r as int].body;
            let ghost before = occ@;
            let mut i: usize = 0;
            while i < rule.body.len()
                invariant
                    occ.len() == n,
                    before.len() == n,
                    body == rule.body@,
                    i <= body.len(),
                    forall|k: int| 0 <= k < body.len() ==> #[trigger] body[k] < n,
                    forall|x: usize|
                        x < n ==> (#[trigger] occ[x as int] <==> (before[x as int] || exists|
                            k: int,
                        |
                            0 <= k < i && #[trigger] body[k] == x)),
                decreases body.len() - i,
            {
                let ghost mid = occ@;
                occ[rule.body[i]] = true;
                proof {
                    assert forall|x: usize| x < n implies (#[trigger] occ[x as int] <==> (
                    before[x as int] || exists|k: int| 0 <= k < i + 1 && #[trigger] body[k] == x)) by {
                        assert(mid[x as int] <==> (before[x as int] || exists|k: int|
                            0 <= k < i && #[trigger] body[k] == x));
                        if occ[x as int] && !before[x as int] {
                            if mid[x as int] {
                                let k = choose|k: int| 0 <= k < i && #[trigger] body[k] == x;
                                assert(0 <= k < i + 1 && body[k] == x);
                            } else {
                                assert(body[i as int] == x);
                            }
                        }
                        if exists|k: int| 0 <= k < i + 1 && #[trigger] body[k] == x {
                            let k = choose|k: int| 0 <= k < i + 1 && #[trigger] body[k] == x;
                            if k < i {
                                assert(mid[x as int]);
                            }
                        }
                    }
                }
                i += 1;
            }
            proof {
                assert forall|x: usize| x < n implies (#[trigger] occ[x as int] <==> occurs_before(
                    g,
                    x,
                    r + 1,
                )) by {
                    assert(before[x as int] <==> occurs_before(g, x, r as int));
                    if occ[x as int] {
                        if before[x as int] {
                            let q = choose|q: int| 0 <= q < r && #[trigger] occurs_in(g, x, q);
                            assert(0 <= q < r + 1 && occurs_in(g, x, q));
                        } else {
                            let k = choose|k: int| 0 <= k < i && #[trigger] body[k] == x;
                            assert(occurs_in(g, x, r as int));
                        }
                    }
                    if occurs_before(g, x, r + 1) {
                        let q = choose|q: int| 0 <= q < r + 1 && #[trigger] occurs_in(g, x, q);
                        if q < r {
                            assert(occurs_before(g, x, r as int));
                        } else {
                            let k = choose|k: int|
                                0 <= k < g.rules[q].body.len() && #[trigger] g.rules[q].body[k]
                                    == x;
                            assert(body[k] == x);
                        }
                    }
                }
            }
            r += 1;
        }
        occ
    }

    /// Returns `true` if every nonterminal of the body of rule `r` is marked.
    fn body_marked(&self, done: &Vec<bool>, r: usize) -> (fires: bool)
        requires
            self.wf(),
            r < self.rules.len(),
            done.len() == self.symbols.len(),
        ensures
            fires == realizable_fires(self@, marked(done@), r as int),
    {
        let ghost g = self@;
        let rule = &self.rules[r];
        assert(g.rules[r as int] == self.rules[r as int]@);
        assert(g.rules[r as int].valid_in(r as int, g.symbols.len()));
        let ghost body = g.rules[r as int].body;
        let mut i: usize = 0;
        while i < rule.body.len()
            invariant
                self.wf(),
                g == self@,
                r < self.rules.len(),
                done.len() == self.symbols.len(),
                body == rule.body@,
                body == g.rules[r as int].body,
                i <= body.len(),
                forall|k: int| 0 <= k < body.len() ==> #[trigger] body[k] < g.symbols.len(),
                forall|k: int|
                    0 <= k < i && g.is_nonterminal(#[trigger] body[k]) ==> marked(done@).contains(
                        body[k],
                    ),
            decreases body.len() - i,
        {
            let y = rule.body[i];
            if self.symbols[y].is_nonterminal() && !done[y] {
                assert(!marked(done@).contains(body[i as int]));
                return false;
            }
            i += 1;
        }
        true
    }

    /// Marks the symbols that derive a string of terminals.
    fn realizable_symbols(&self) -> (done: Vec<bool>)
        requires
            self.wf(),
        ensures
            done.len() == self.symbols.len(),
            forall|x: usize| x < done.len() ==> (done[x as int] <==> realizable(self@, x)),
    {
        let ghost g = self@;
        let n = self.symbols.len();
        let mut done = cleared(n);
        loop
            invariant
                self.wf(),
                g == self@,
                n == self.symbols.len(),
                done.len() == n,
                forall|x: usize| #[trigger] marked(done@).contains(x) ==> realizable(g, x),
            ensures
                done.len() == n,
                forall|x: usize| x < n ==> (done[x as int] <==> realizable(g, x)),
            decreases n - count_true(done@),
        {
            proof {
                lemma_count_bound(done@);
            }
            let ghost start = done@;
            let mut changed = false;
            let mut r: usize = 0;
            while r < self.rules.len()
                invariant
                    self.wf(),
                    g == self@,
                    n == self.symbols.len(),
                    done.len() == n,
                    r <= self.rules.len(),
                    forall|x: usize| #[trigger] marked(done@).contains(x) ==> realizable(g, x),
                    count_true(done@) >= count_true(start),
                    changed ==> count_true(done@) > count_true(start),
                    !changed ==> done@ == start,
                    !changed ==> forall|q: int|
                        0 <= q < r && #[trigger] realizable_fires(g, marked(done@), q)
                            ==> marked(done@).contains(g.rules[q].head),
                decreases self.rules.len() - r,
            {
                assert(g.rules[r as int] == self.rules[r as int]@);
                assert(g.rules[r as int].valid_in(r as int, g.symbols.len()));
                let head = self.rules[r].head;
                if !done[head] && self.body_marked(&done, r) {
                    let ghost before = done@;
                    proof {
                        lemma_realizable_step(g, marked(before), r as int);
                        lemma_count_update(before, head as int, true);
                    }
                    done[head] = true;
                    changed = true;
                    proof {
                        assert forall|x: usize| #[trigger]
                            marked(done@).contains(x) implies realizable(g, x) by {
                            if x != head {
                                assert(marked(before).contains(x));
                            }
                        }
                    }
                }
                r += 1;
            }
            if !changed {
                proof {
                    let s = marked(done@);
                    assert(realizable_closed(g, s));
                    assert forall|x: usize| x < n implies (done[x as int] <==> realizable(
                        g,
                        x,
                    )) by {
                        if done[x as int] {
                            assert(s.contains(x));
                        }
                        if realizable(g, x) {
                            assert(s.contains(x));
                        }
                    }
                }
                break;
            }
            proof {
                lemma_count_bound(done@);
            }
        }
        done
    }

    /// Returns `true` if every rule of the symbol begins with the symbol.
    fn all_rules_begin_with(&self, head: usize) -> (all: bool)
        requires
            self.wf(),
            head < self.symbols.len(),
        ensures
            all == forall|r: int|
                0 <= r < self@.rules.len() && (#[trigger] self@.rules[r]).head == head
                    ==> self@.rules[r].body[0] == head,
    {
        let ghost g = self@;
        let ids = &self.symbol_rules[head];
        let mut k: usize = 0;
        while k < ids.len()
            invariant
                self.wf(),
                g == self@,
                lists_rules_of(g, head, ids@),
                k <= ids.len(),
                forall|j: int| 0 <= j < k ==> g.rules[#[trigger] ids[j] as int].body[0] == head,
            decreases ids.len() - k,
        {
            let r = ids[k];
            assert(ids@.contains(r));
            assert(g.rules[r as int] == self.rules[r as int]@);
            assert(g.rules[r as int].valid_in(r as int, g.symbols.len()));
            if self.rules[r].body[0] != head {
                return false;
            }
            k += 1;
        }
        proof {
            assert forall|r: int|
                0 <= r < g.rules.len() && (#[trigger] g.rules[r]).head == head implies g.rules[r].body[0]
                == head by {
                assert(ids@.contains(r as usize));
                let j = choose|j: int| 0 <= j < ids.len() && ids[j] == r as usize;
                assert(g.rules[ids[j] as int].body[0] == head);
            }
        }
        true
    }

    /// Verifies if the grammar is valid.
    pub fn verify(&self) -> (result: Result<(), Error>)
        requires
            self.wf(),
        ensures
            verdict(self@, result),
    {
        let ghost g = self@;
        let n = self.symbols.len();
        let start = self.start_symbol;
        if self.symbol_rules[start].len() == 0 {
            proof {
                if has_rule(g, start) {
                    let r = choose|r: int| 0 <= r < g.rules.len() && (#[trigger] g.rules[r]).head
                        == start;
                    assert(self.symbol_rules[start as int]@.contains(r as usize));
                }
            }
            return Err(Error::NoSymbol(self.symbols[start].clone()));
        }
        proof {
            let r = self.symbol_rules[start as int][0];
            assert(self.symbol_rules[start as int]@.contains(r));
            assert(g.rules[r as int].head == start);
        }
        // Verify that all nonterminal symbols are reachable from at least one rule.
        let occ = self.occurrences();
        let mut r: usize = 0;
        while r < self.rules.len()
            invariant
                self.wf(),
                g == self@,
                n == self.symbols.len(),
                start == g.start,
                has_rule(g, start),
                occ.len() == n,
                forall|x: usize| x < n ==> (occ[x as int] <==> occurs(g, x)),
                r <= self.rules.len(),
                forall|q: int| 0 <= q < r ==> !unreachable(g, #[trigger] g.rules[q].head),
            decreases self.rules.len() - r,
        {
            assert(g.rules[r as int] == self.rules[r as int]@);
            assert(g.rules[r as int].valid_in(r as int, g.symbols.len()));
            let head = self.rules[r].head;
            if self.symbols[head].is_nonterminal() && head != start && !occ[head] {
                proof {
                    assert(first_unreachable(g, r as int));
                }
                return Err(Error::Unreachable(self.symbols[head].clone()));
            }
            r += 1;
        }
        proof {
            assert forall|h: usize| !unreachable(g, h) by {
                if unreachable(g, h) {
                    let q = choose|q: int| 0 <= q < g.rules.len() && (#[trigger] g.rules[q]).head
                        == h;
                    assert(!unreachable(g, g.rules[q].head));
                }
            }
        }
        // Verify that no symbol is left-recursive in all its rules.
        let mut r: usize = 0;
        while r < self.rules.len()
            invariant
                self.wf(),
                g == self@,
                n == self.symbols.len(),
                has_rule(g, g.start),
                forall|h: usize| !unreachable(g, h),
                r <= self.rules.len(),
                forall|q: int| 0 <= q < r ==> !left_recursive(g, #[trigger] g.rules[q].head),
            decreases self.rules.len() - r,
        {
            assert(g.rules[r as int] == self.rules[r as int]@);
            assert(g.rules[r as int].valid_in(r as int, g.symbols.len()));
            let head = self.rules[r].head;
            if self.symbols[head].is_nonterminal() && self.all_rules_begin_with(head) {
                proof {
                    assert(left_recursive(g, head));
                    assert(first_left_recursive(g, r as int));
                }
                return Err(Error::LeftRecursive(self.symbols[head].clone()));
            }
            r += 1;
        }
        proof {
            assert forall|h: usize| !left_recursive(g, h) by {
                if left_recursive(g, h) {
                    let q = choose|q: int| 0 <= q < g.rules.len() && (#[trigger] g.rules[q]).head
                        == h;
                    assert(!left_recursive(g, g.rules[q].head));
                }
            }
        }
        // Every nonterminal in use must derive a string of terminals.
        let done = self.realizable_symbols();
        let mut x: usize = 0;
        while x < n
            invariant
                self.wf(),
                g == self@,
                n == self.symbols.len(),
                start == g.start,
                occ.len() == n,
                done.len() == n,
                forall|y: usize| y < n ==> (occ[y as int] <==> occurs(g, y)),
                forall|y: usize| y < n ==> (done[y as int] <==> realizable(g, y)),
                has_rule(g, g.start),
                forall|h: usize| !unreachable(g, h),
                forall|h: usize| !left_recursive(g, h),
                x <= n,
                forall|y: usize| y < x ==> !not_realizable(g, y),
            decreases n - x,
        {
            if self.symbols[x].is_nonterminal() && (x == start || occ[x]) && !done[x] {
                assert(not_realizable(g, x));
                return Err(Error::NotRealizable(self.symbols[x].clone()));
            }
            x += 1;
        }
        Ok(())
    }
}

} // verus!
