//! The LL(1) parse table.

use crate::analysis::{in_first_seq, in_follow, lemma_first_seq_range, lemma_follow_range, GrammarView};
use crate::bits::{cleared, members};
use crate::grammar::{mark_row, Grammar};
use crate::symbol::NULL;
use crate::table::Table;
use crate::util::increasing;
use std::collections::HashSet;
use vstd::prelude::*;

verus! {

broadcast use vstd::std_specs::hash::group_hash_axioms;

/// Rule `r` is chosen for its head when the symbol comes next: the symbol
/// is in FIRST of its body and is not ϵ, or FIRST of its body holds ϵ and
/// the symbol is in FOLLOW of its head.
pub open spec fn selects(g: GrammarView, r: int, t: usize) -> bool {
    &&& 0 <= r < g.rules.len()
    &&& t != NULL
    &&& (in_first_seq(g, g.rules[r].body, t) || (in_first_seq(g, g.rules[r].body, NULL)
        && in_follow(g, g.rules[r].head, t)))
}

/// Rule `r` has the head `h`, which is not ignored, and is chosen for it
/// when `t` comes next.
pub open spec fn offers(g: GrammarView, ignored: Set<usize>, h: usize, t: usize, r: int) -> bool {
    selects(g, r, t) && g.rules[r].head == h && !ignored.contains(h)
}

/// Two rules before `upto` are chosen for `h` with the same symbol.
pub open spec fn clash(g: GrammarView, ignored: Set<usize>, upto: int, h: usize) -> bool {
    exists|r: int, q: int, t: usize|
        0 <= r < q < upto && #[trigger] offers(g, ignored, h, t, r) && #[trigger] offers(
            g,
            ignored,
            h,
            t,
            q,
        )
}

/// Rule `r` is the first rule before `upto` that is chosen for `h` with `t`.
pub open spec fn first_offer(
    g: GrammarView,
    ignored: Set<usize>,
    upto: int,
    h: usize,
    t: usize,
    r: int,
) -> bool {
    &&& r < upto
    &&& offers(g, ignored, h, t, r)
    &&& forall|q: int| 0 <= q < r ==> !#[trigger] offers(g, ignored, h, t, q)
}

/// A rule before `upto` is chosen for `h` with `t`.
pub open spec fn offered(g: GrammarView, ignored: Set<usize>, upto: int, h: usize, t: usize) -> bool {
    exists|r: int| r < upto && #[trigger] offers(g, ignored, h, t, r)
}

/// Where a rule is chosen, a first rule is chosen.
pub proof fn lemma_first_offer(
    g: GrammarView,
    ignored: Set<usize>,
    upto: int,
    h: usize,
    t: usize,
    r: int,
) -> (first: int)
    requires
        r < upto,
        offers(g, ignored, h, t, r),
    ensures
        first <= r,
        first_offer(g, ignored, upto, h, t, first),
    decreases r,
{
    if exists|q: int| 0 <= q < r && #[trigger] offers(g, ignored, h, t, q) {
        let q = choose|q: int| 0 <= q < r && #[trigger] offers(g, ignored, h, t, q);
        lemma_first_offer(g, ignored, upto, h, t, q)
    } else {
        r
    }
}

/// What the construction of the LL(1) table gives: the conflicted heads, in
/// ascending order, where two rules are chosen for a head with the same
/// symbol; otherwise the table, which has for a head and a symbol the one
/// rule that is chosen.
pub open spec fn ll_table_result(
    g: GrammarView,
    ignored: Set<usize>,
    result: Result<Table<usize>, Vec<usize>>,
) -> bool {
    let all = g.rules.len() as int;
    match result {
        Ok(table) => {
            &&& table.height() == g.symbols.len()
            &&& forall|h: usize| !clash(g, ignored, all, h)
            &&& forall|k: (usize, usize)| #[trigger]
                table@.contains_key(k) <==> offered(g, ignored, all, k.0, k.1)
            &&& forall|k: (usize, usize)|
                table@.contains_key(k) ==> first_offer(g, ignored, all, k.0, k.1, #[trigger] table@[k] as int)
        },
        Err(conflicts) => {
            &&& conflicts.len() > 0
            &&& increasing(conflicts@)
            &&& forall|i: int| 0 <= i < conflicts.len() ==> conflicts[i] < g.symbols.len()
            &&& forall|h: usize| conflicts@.contains(h) <==> clash(g, ignored, all, h)
        },
    }
}

/// The LL(1) table of a grammar without the rules of the ignored heads: for
/// a head and a symbol the first rule that is chosen.
pub open spec fn ll_map(g: GrammarView, ignored: Set<usize>) -> Map<(usize, usize), usize> {
    Map::new(
        |k: (usize, usize)| offered(g, ignored, g.rules.len() as int, k.0, k.1),
        |k: (usize, usize)|
            (choose|r: int| first_offer(g, ignored, g.rules.len() as int, k.0, k.1, r)) as usize,
    )
}

/// A table that was built is the LL(1) table of the grammar.
pub proof fn lemma_ll_map(g: GrammarView, ignored: Set<usize>, table: Table<usize>)
    requires
        ll_table_result(g, ignored, Ok(table)),
    ensures
        table@ == ll_map(g, ignored),
{
    let all = g.rules.len() as int;
    assert forall|k: (usize, usize)| table@.contains_key(k) implies #[trigger] table@[k] == ll_map(
        g,
        ignored,
    )[k] by {
        let r = table@[k] as int;
        assert(first_offer(g, ignored, all, k.0, k.1, r));
        let q = choose|q: int| first_offer(g, ignored, all, k.0, k.1, q);
        assert(first_offer(g, ignored, all, k.0, k.1, q));
        if q < r {
            assert(!offers(g, ignored, k.0, k.1, q));
        } else if r < q {
            assert(!offers(g, ignored, k.0, k.1, r));
        }
    }
    assert(table@ =~= ll_map(g, ignored));
}

/// A cell of the LL(1) table is never overridden: in a table that was
/// built, the rule of a cell is the only rule that is chosen for the head
/// with the symbol.
pub proof fn lemma_ll_cell(g: GrammarView, ignored: Set<usize>, table: Table<usize>, h: usize, t: usize, r: int)
    requires
        ll_table_result(g, ignored, Ok(table)),
        offers(g, ignored, h, t, r),
    ensures
        table@.contains_key((h, t)),
        table@[(h, t)] == r,
{
    let all = g.rules.len() as int;
    assert(offered(g, ignored, all, h, t));
    let first = table@[(h, t)] as int;
    assert(first_offer(g, ignored, all, h, t, first));
    if first != r {
        if first < r {
            assert(0 <= first < r < all && offers(g, ignored, h, t, first) && offers(
                g,
                ignored,
                h,
                t,
                r,
            ));
        } else {
            assert(0 <= r < first < all && offers(g, ignored, h, t, r) && offers(
                g,
                ignored,
                h,
                t,
                first,
            ));
        }
        assert(clash(g, ignored, all, h));
    }
}

/// Constructs the LL parse table or returns the list of conflicts.
///
/// Rules whose head is in `ignored_symbols` are left out.
pub fn get_ll_table(grammar: &Grammar, ignored_symbols: &HashSet<usize>) -> (result: Result<
    Table<usize>,
    Vec<usize>,
>)
    requires
        grammar.wf(),
    ensures
        ll_table_result(grammar@, ignored_symbols@, result),
{
    let ghost g = grammar@;
    let ghost ig = ignored_symbols@;
    let n = grammar.symbols.len();
    let mut table: Table<usize> = Table::new(n);
    let mut marks = cleared(n);
    let mut r: usize = 0;
    while r < grammar.rules.len()
        invariant
            grammar.wf(),
            g == grammar@,
            ig == ignored_symbols@,
            n == grammar.symbols.len(),
            r <= grammar.rules.len(),
            table.height() == n,
            marks.len() == n,
            forall|k: (usize, usize)| #[trigger]
                table@.contains_key(k) <==> offered(g, ig, r as int, k.0, k.1),
            forall|k: (usize, usize)|
                table@.contains_key(k) ==> first_offer(g, ig, r as int, k.0, k.1, #[trigger] table@[k] as int),
            forall|h: usize| h < n ==> (#[trigger] marks[h as int] <==> clash(g, ig, r as int, h)),
        decreases grammar.rules.len() - r,
    {
        assert(g.rules[r as int] == grammar.rules[r as int]@);
        assert(g.rules[r as int].valid_in(r as int, g.symbols.len()));
        let rule = &grammar.rules[r];
        let head = rule.head;
        let ghost before = table@;
        let ghost before_marks = marks@;
        if !ignored_symbols.contains(&head) {
            let mut bits = grammar.first_sequence_bits(rule.body.as_slice());
            if bits[NULL] {
                bits[NULL] = false;
                let ghost plain = bits@;
                mark_row(&mut bits, &grammar.follow, head);
                proof {
                    assert forall|t: usize| t < n implies (#[trigger] bits[t as int] <==> selects(
                        g,
                        r as int,
                        t,
                    )) by {
                        assert(grammar.follow.has(head as int, t as int) <==> in_follow(g, head, t));
                    }
                }
            } else {
                proof {
                    assert forall|t: usize| t < n implies (#[trigger] bits[t as int] <==> selects(
                        g,
                        r as int,
                        t,
                    )) by {}
                }
            }
            proof {
                assert forall|t: usize| selects(g, r as int, t) implies t < n by {
                    if in_first_seq(g, g.rules[r as int].body, t) {
                        lemma_first_seq_range(g, g.rules[r as int].body, t);
                    } else {
                        lemma_follow_range(g, head, t);
                    }
                }
            }
            let mut t: usize = 0;
            while t < n
                invariant
                    grammar.wf(),
                    g == grammar@,
                    n == grammar.symbols.len(),
                    r < grammar.rules.len(),
                    head == g.rules[r as int].head,
                    head < n,
                    !ig.contains(head),
                    t <= n,
                    bits.len() == n,
                    marks.len() == n,
                    before_marks.len() == n,
                    table.height() == n,
                    forall|u: usize| u < n ==> (#[trigger] bits[u as int] <==> selects(g, r as int, u)),
                    forall|k: (usize, usize)| #[trigger]
                        before.contains_key(k) <==> offered(g, ig, r as int, k.0, k.1),
                    forall|k: (usize, usize)|
                        before.contains_key(k) ==> first_offer(
                            g,
                            ig,
                            r as int,
                            k.0,
                            k.1,
                            #[trigger] before[k] as int,
                        ),
                    forall|k: (usize, usize)| #[trigger]
                        table@.contains_key(k) <==> (before.contains_key(k) || (k.0 == head && k.1
                            < t && selects(g, r as int, k.1))),
                    forall|k: (usize, usize)|
                        before.contains_key(k) ==> #[trigger] table@[k] == before[k],
                    forall|k: (usize, usize)|
                        table@.contains_key(k) && !before.contains_key(k) ==> #[trigger] table@[k]
                            == r,
                    forall|h: usize|
                        h < n && h != head ==> #[trigger] marks[h as int] == before_marks[h as int],
                    marks[head as int] <==> (before_marks[head as int] || exists|u: usize|
                        u < t && selects(g, r as int, u) && #[trigger] before.contains_key((head, u))),
                decreases n - t,
            {
                if bits[t] {
                    if table.get(head, t).is_some() {
                        marks[head] = true;
                    } else {
                        table.insert(head, t, r);
                    }
                }
                proof {
                    if marks[head as int] && !before_marks[head as int] {
                        if bits[t as int] && before.contains_key((head, t)) {
                            assert(t < t + 1 && selects(g, r as int, t) && before.contains_key(
                                (head, t),
                            ));
                        } else {
                            let u = choose|u: usize|
                                u < t && selects(g, r as int, u) && #[trigger] before.contains_key(
                                    (head, u),
                                );
                            assert(u < t + 1);
                        }
                    }
                }
                t += 1;
            }
        }
        proof {
            let upto = r as int;
            assert forall|k: (usize, usize)| #[trigger]
                table@.contains_key(k) <==> offered(g, ig, upto + 1, k.0, k.1) by {
                if offered(g, ig, upto + 1, k.0, k.1) {
                    let q = choose|q: int| q < upto + 1 && #[trigger] offers(g, ig, k.0, k.1, q);
                    if q < upto {
                        assert(offered(g, ig, upto, k.0, k.1));
                    }
                }
                if before.contains_key(k) {
                    let q = choose|q: int| q < upto && #[trigger] offers(g, ig, k.0, k.1, q);
                    assert(q < upto + 1);
                }
                if table@.contains_key(k) && !before.contains_key(k) {
                    assert(offers(g, ig, k.0, k.1, upto));
                }
            }
            assert forall|k: (usize, usize)| table@.contains_key(k) implies first_offer(
                g,
                ig,
                upto + 1,
                k.0,
                k.1,
                #[trigger] table@[k] as int,
            ) by {
                if before.contains_key(k) {
                    assert(first_offer(g, ig, upto, k.0, k.1, before[k] as int));
                } else {
                    assert(offers(g, ig, k.0, k.1, upto));
                    assert forall|q: int| 0 <= q < upto implies !#[trigger] offers(
                        g,
                        ig,
                        k.0,
                        k.1,
                        q,
                    ) by {
                        if offers(g, ig, k.0, k.1, q) {
                            assert(offered(g, ig, upto, k.0, k.1));
                        }
                    }
                }
            }
            assert forall|h: usize| h < n implies (#[trigger] marks[h as int] <==> clash(
                g,
                ig,
                upto + 1,
                h,
            )) by {
                if clash(g, ig, upto + 1, h) {
                    let (a, b, t) = choose|a: int, b: int, t: usize|
                        0 <= a < b < upto + 1 && #[trigger] offers(g, ig, h, t, a)
                            && #[trigger] offers(g, ig, h, t, b);
                    if b < upto {
                        assert(clash(g, ig, upto, h));
                    } else {
                        assert(offered(g, ig, upto, h, t));
                        assert(before.contains_key((h, t)));
                    }
                }
                if before_marks[h as int] {
                    let (a, b, t) = choose|a: int, b: int, t: usize|
                        0 <= a < b < upto && #[trigger] offers(g, ig, h, t, a)
                            && #[trigger] offers(g, ig, h, t, b);
                    assert(0 <= a < b < upto + 1);
                }
                if marks[h as int] && !before_marks[h as int] {
                    let u = choose|u: usize|
                        u < n && selects(g, r as int, u) && #[trigger] before.contains_key((h, u));
                    let q = choose|q: int| q < upto && #[trigger] offers(g, ig, h, u, q);
                    assert(0 <= q < upto < upto + 1 && offers(g, ig, h, u, q) && offers(
                        g,
                        ig,
                        h,
                        u,
                        upto,
                    ));
                }
            }
        }
        r += 1;
    }
    let conflicts = members(&marks);
    proof {
        assert forall|h: usize| clash(g, ig, g.rules.len() as int, h) implies h < n by {
            let (a, b, t) = choose|a: int, b: int, t: usize|
                0 <= a < b < g.rules.len() && #[trigger] offers(g, ig, h, t, a)
                    && #[trigger] offers(g, ig, h, t, b);
            assert(g.rules[a].valid_in(a, g.symbols.len()));
        }
    }
    if conflicts.len() > 0 {
        assert forall|i: int| 0 <= i < conflicts.len() implies conflicts[i] < g.symbols.len() by {
            assert(conflicts@.contains(conflicts[i]));
        }
        return Err(conflicts);
    }
    proof {
        assert forall|h: usize| !clash(g, ig, g.rules.len() as int, h) by {
            if clash(g, ig, g.rules.len() as int, h) {
                assert(marks[h as int]);
                assert(conflicts@.contains(h));
            }
        }
    }
    Ok(table)
}

} // verus!
