//! Deriving the next state of the automaton: the kernel of the items that
//! pass the transition symbol, and its closure.

use crate::analysis::{in_first_seq, GrammarView};
use crate::grammar::{lists_rules_of, Grammar};
use crate::item::{start_dot, symbol_at, Core, Item};
use crate::state::{ItemTable, State};
use crate::symbol::NULL;
use crate::transition::{ItemTransition, Transition};
use crate::unique::{
    agree, edges_within, fades, lemma_spreads_root, lemma_spreads_step, spreads,
    stays_unique, update_uniqueness,
};
use crate::util::{increasing, insert_unique};
use vstd::prelude::*;

verus! {

/// The closure derives an item with core `child` from one with core
/// `parent`: the dot of the parent stands before a nonterminal, the child is
/// a new item for a rule of that nonterminal, and its lookahead is in FIRST
/// of what follows the nonterminal in the parent, lookahead included.
pub open spec fn derives(g: GrammarView, parent: Core, child: Core) -> bool {
    let body = g.rules[parent.0 as int].body;
    &&& parent.0 < g.rules.len()
    &&& parent.1 < body.len()
    &&& g.is_nonterminal(body[parent.1 as int])
    &&& child.0 < g.rules.len()
    &&& g.rules[child.0 as int].head == body[parent.1 as int]
    &&& child.1 == start_dot(g.rules[child.0 as int].body)
    &&& in_first_seq(g, body.subrange(parent.1 + 1, body.len() as int).push(parent.2), child.2)
}

/// `k` holds the kernel and every core derived from a core of `k`.
pub open spec fn closure_closed(g: GrammarView, kernel: Set<Core>, k: Set<Core>) -> bool {
    &&& forall|c: Core| #[trigger] kernel.contains(c) ==> k.contains(c)
    &&& forall|p: Core, c: Core| k.contains(p) && #[trigger] derives(g, p, c) ==> k.contains(c)
}

/// The core is in the closure of the kernel: in every set that holds the
/// kernel and is closed under derivation.
pub open spec fn in_closure(g: GrammarView, kernel: Set<Core>, c: Core) -> bool {
    forall|k: Set<Core>| #[trigger] closure_closed(g, kernel, k) ==> k.contains(c)
}

/// The cores of the items of a state that stand before `symbol`, with the
/// dot moved on by one.
pub open spec fn kernel_cores(list: Seq<Item>, from: Seq<usize>, symbol: usize) -> Set<Core> {
    Set::new(
        |c: Core|
            exists|p: int|
                0 <= p < from.len() && list[#[trigger] from[p] as int].head == Some(symbol)
                    && list[from[p] as int].advanced() == c,
    )
}

/// The items under construction: each has its index as its ID and belongs
/// to the grammar, and no two have the same core.
pub open spec fn temp_wf(g: GrammarView, next: Seq<Item>) -> bool {
    &&& forall|j: int| 0 <= j < next.len() ==> (#[trigger] next[j]).id == j && next[j].fits(g)
    &&& forall|a: int, b: int|
        0 <= a < b < next.len() ==> (#[trigger] next[a]).base() != (#[trigger] next[b]).base()
}

/// Every item under construction is in the closure of the kernel.
pub open spec fn sound(g: GrammarView, kernel: Set<Core>, next: Seq<Item>) -> bool {
    forall|j: int| 0 <= j < next.len() ==> in_closure(g, kernel, (#[trigger] next[j]).base())
}

/// The transition from item `a` to item `b` of the state under construction.
pub open spec fn edge(state: usize, a: usize, b: usize) -> ItemTransition {
    Transition { from: (state, a), to: (state, b), symbol: NULL }
}

/// Every transition leads from an item to an item that the closure derives
/// from it.
pub open spec fn edges_ok(
    g: GrammarView,
    next: Seq<Item>,
    state: usize,
    edges: Seq<ItemTransition>,
) -> bool {
    forall|k: int|
        0 <= k < edges.len() ==> {
            let e = #[trigger] edges[k];
            &&& e == edge(state, e.from.1, e.to.1)
            &&& e.from.1 < next.len()
            &&& e.to.1 < next.len()
            &&& derives(g, next[e.from.1 as int].base(), next[e.to.1 as int].base())
        }
}

/// An item with the core is under construction, and a transition leads to
/// it from item `a`.
pub open spec fn linked(
    next: Seq<Item>,
    edges: Seq<ItemTransition>,
    state: usize,
    a: usize,
    c: Core,
) -> bool {
    exists|b: usize|
        b < next.len() && (#[trigger] next[b as int]).base() == c && edges.contains(
            edge(state, a, b),
        )
}

/// What the closure derives from the items before `upto` is under
/// construction, with its transition.
pub open spec fn expanded(
    g: GrammarView,
    next: Seq<Item>,
    edges: Seq<ItemTransition>,
    state: usize,
    upto: int,
) -> bool {
    forall|a: usize, c: Core|
        a < upto && a < next.len() && #[trigger] derives(g, next[a as int].base(), c) ==> linked(
            next,
            edges,
            state,
            a,
            c,
        )
}

/// An item that a transition derives is unique only if the item it is derived
/// from is another item and unique, and if all items it is derived from stand
/// at the same place of the same rule.
pub open spec fn uniq_closed(next: Seq<Item>, edges: Seq<ItemTransition>) -> bool {
    &&& forall|k: int|
        0 <= k < edges.len() && next[(#[trigger] edges[k]).to.1 as int].unique ==> edges[k].from.1
            != edges[k].to.1 && next[edges[k].from.1 as int].unique
    &&& forall|k: int, m: int|
        0 <= k < edges.len() && 0 <= m < edges.len() && (#[trigger] edges[k]).to.1 == (
        #[trigger] edges[m]).to.1 && next[edges[k].to.1 as int].unique ==> next[edges[k].from.1 as int].rule
            == next[edges[m].from.1 as int].rule && next[edges[k].from.1 as int].dot
            == next[edges[m].from.1 as int].dot
}

/// What is derived from a core of the closure is in the closure.
pub proof fn lemma_closure_step(g: GrammarView, kernel: Set<Core>, p: Core, c: Core)
    requires
        in_closure(g, kernel, p),
        derives(g, p, c),
    ensures
        in_closure(g, kernel, c),
{
    assert forall|k: Set<Core>| #[trigger] closure_closed(g, kernel, k) implies k.contains(c) by {
        assert(k.contains(p));
    }
}

/// Returns the index of the item with the core, if there is one.
fn find_core(next: &Vec<Item>, rule: usize, dot: usize, lookahead: usize) -> (found: Option<usize>)
    ensures
        match found {
            Some(b) => b < next.len() && next[b as int].base() == (rule, dot, lookahead),
            None => forall|j: int|
                0 <= j < next.len() ==> (#[trigger] next[j]).base() != (rule, dot, lookahead),
        },
{
    let mut j: usize = 0;
    while j < next.len()
        invariant
            j <= next.len(),
            forall|i: int| 0 <= i < j ==> (#[trigger] next[i]).base() != (rule, dot, lookahead),
        decreases next.len() - j,
    {
        let item = &next[j];
        if item.rule == rule && item.dot == dot && item.lookahead == lookahead {
            return Some(j);
        }
        j += 1;
    }
    None
}

/// The second list continues the first: it holds the items of the first,
/// some of them no longer unique, and maybe more.
pub open spec fn extends(before: Seq<Item>, after: Seq<Item>) -> bool {
    &&& after.len() >= before.len()
    &&& forall|j: int|
        0 <= j < before.len() ==> (#[trigger] after[j]) == (Item {
            unique: after[j].unique,
            ..before[j]
        })
    &&& forall|j: int| 0 <= j < before.len() && (#[trigger] after[j]).unique ==> before[j].unique
}

/// All that holds of the items and transitions under construction.
pub open spec fn building(
    g: GrammarView,
    kernel: Set<Core>,
    next: Seq<Item>,
    edges: Seq<ItemTransition>,
    state: usize,
) -> bool {
    &&& temp_wf(g, next)
    &&& sound(g, kernel, next)
    &&& edges_ok(g, next, state, edges)
    &&& uniq_closed(next, edges)
}

/// The two items stand at different places or in different rules.
pub open spec fn differ(next: Seq<Item>, a: usize, b: usize) -> bool {
    next[a as int].rule != next[b as int].rule || next[a as int].dot != next[b as int].dot
}

/// `s` holds every item that cannot be unique: an item of the kernel that
/// comes from an item that is not unique, an item that derives itself, an
/// item that is derived from items at different places, and an item that is
/// derived from an item of `s`.
pub open spec fn fade_closed(
    first: Seq<Item>,
    next: Seq<Item>,
    edges: Seq<ItemTransition>,
    s: Set<usize>,
) -> bool {
    &&& forall|j: int| 0 <= j < first.len() && !(#[trigger] first[j]).unique ==> s.contains(j as usize)
    &&& forall|k: int|
        0 <= k < edges.len() && (#[trigger] edges[k]).from.1 == edges[k].to.1 ==> s.contains(
            edges[k].to.1,
        )
    &&& forall|k: int, m: int|
        0 <= k < edges.len() && 0 <= m < edges.len() && (#[trigger] edges[k]).to.1 == (
        #[trigger] edges[m]).to.1 && differ(next, edges[k].from.1, edges[m].from.1) ==> s.contains(
            edges[k].to.1,
        )
    &&& forall|k: int|
        0 <= k < edges.len() && s.contains((#[trigger] edges[k]).from.1) ==> s.contains(
            edges[k].to.1,
        )
}

/// The item cannot be unique: it is in every set that holds the items that
/// cannot be unique.
pub open spec fn faded(first: Seq<Item>, next: Seq<Item>, edges: Seq<ItemTransition>, j: usize) -> bool {
    forall|s: Set<usize>| #[trigger] fade_closed(first, next, edges, s) ==> s.contains(j)
}

/// Every item that is not unique cannot be unique.
pub open spec fn fade_sound(first: Seq<Item>, next: Seq<Item>, edges: Seq<ItemTransition>) -> bool {
    forall|j: int|
        0 <= j < next.len() && !(#[trigger] next[j]).unique ==> faded(first, next, edges, j as usize)
}

/// An item that cannot be unique stays so when the items and the
/// transitions are continued.
pub proof fn lemma_faded_frame(
    g: GrammarView,
    first: Seq<Item>,
    next: Seq<Item>,
    edges: Seq<ItemTransition>,
    after: Seq<Item>,
    more: Seq<ItemTransition>,
    state: usize,
    j: usize,
)
    requires
        faded(first, next, edges, j),
        extends(next, after),
        edges.is_prefix_of(more),
        edges_ok(g, next, state, edges),
    ensures
        faded(first, after, more, j),
{
    assert forall|s: Set<usize>| #[trigger] fade_closed(first, after, more, s) implies s.contains(
        j,
    ) by {
        assert forall|k: int|
            0 <= k < edges.len() && (#[trigger] edges[k]).from.1 == edges[k].to.1 implies s.contains(
            edges[k].to.1,
        ) by {
            assert(more[k] == edges[k]);
        }
        assert forall|k: int, m: int|
            0 <= k < edges.len() && 0 <= m < edges.len() && (#[trigger] edges[k]).to.1 == (
            #[trigger] edges[m]).to.1 && differ(
                next,
                edges[k].from.1,
                edges[m].from.1,
            ) implies s.contains(edges[k].to.1) by {
            assert(more[k] == edges[k]);
            assert(more[m] == edges[m]);
            assert(after[edges[k].from.1 as int] == (Item {
                unique: after[edges[k].from.1 as int].unique,
                ..next[edges[k].from.1 as int]
            }));
            assert(after[edges[m].from.1 as int] == (Item {
                unique: after[edges[m].from.1 as int].unique,
                ..next[edges[m].from.1 as int]
            }));
        }
        assert forall|k: int|
            0 <= k < edges.len() && s.contains((#[trigger] edges[k]).from.1) implies s.contains(
            edges[k].to.1,
        ) by {
            assert(more[k] == edges[k]);
        }
        assert(fade_closed(first, next, edges, s));
    }
}

/// Links stay when the items and the transitions are continued.
pub proof fn lemma_linked_frame(
    next: Seq<Item>,
    edges: Seq<ItemTransition>,
    after: Seq<Item>,
    more: Seq<ItemTransition>,
    state: usize,
    a: usize,
    c: Core,
)
    requires
        linked(next, edges, state, a, c),
        extends(next, after),
        edges.is_prefix_of(more),
    ensures
        linked(after, more, state, a, c),
{
    let b = choose|b: usize|
        b < next.len() && (#[trigger] next[b as int]).base() == c && edges.contains(
            edge(state, a, b),
        );
    let k = choose|k: int| 0 <= k < edges.len() && edges[k] == edge(state, a, b);
    assert(more[k] == edge(state, a, b));
    assert(after[b as int].base() == c);
}

/// Derives from item `a` the item of rule `rule` with lookahead
/// `lookahead`: a new item, or one more transition to the item that exists.
fn attach(
    grammar: &Grammar,
    next: &mut Vec<Item>,
    edges: &mut Vec<ItemTransition>,
    a: usize,
    rule: usize,
    lookahead: usize,
    state: usize,
    Ghost(kernel): Ghost<Set<Core>>,
    Ghost(first): Ghost<Seq<Item>>,
)
    requires
        grammar.wf(),
        a < old(next).len(),
        rule < grammar.rules.len(),
        lookahead < grammar.symbols.len(),
        fade_sound(first, old(next)@, old(edges)@),
        derives(
            grammar@,
            old(next)[a as int].base(),
            (rule, start_dot(grammar@.rules[rule as int].body), lookahead),
        ),
        building(grammar@, kernel, old(next)@, old(edges)@, state),
    ensures
        building(grammar@, kernel, final(next)@, final(edges)@, state),
        fade_sound(first, final(next)@, final(edges)@),
        extends(old(next)@, final(next)@),
        old(edges)@.is_prefix_of(final(edges)@),
        linked(
            final(next)@,
            final(edges)@,
            state,
            a,
            (rule, start_dot(grammar@.rules[rule as int].body), lookahead),
        ),
{
    let ghost g = grammar@;
    let ghost before = next@;
    let ghost before_edges = edges@;
    assert(g.rules[rule as int] == grammar.rules[rule as int]@);
    assert(g.rules[rule as int].valid_in(rule as int, g.symbols.len()));
    let target = &grammar.rules[rule];
    let dot: usize = if target.body[0] == crate::symbol::END {
        1
    } else {
        0
    };
    let ghost c: Core = (rule, dot, lookahead);
    match find_core(next, rule, dot, lookahead) {
        Some(b) => {
            edges.push(Transition::new((state, a), (state, b), NULL));
            let ghost more = edges@;
            assert(more[more.len() - 1] == edge(state, a, b));
            assert(edges_ok(g, before, state, more));
            assert(edges_within(more, state, before.len() as nat));
            let ghost last = more.len() - 1;
            update_uniqueness(b, (state, a), next, edges);
            proof {
                let after = next@;
                assert(fades(before, after));
                assert forall|j: int| 0 <= j < after.len() implies (#[trigger] after[j]).base()
                    == before[j].base() && after[j].fits(g) && after[j].id == j by {}
                assert(temp_wf(g, after));
                assert(sound(g, kernel, after));
                assert(edges_ok(g, after, state, more));
                if !before[b as int].unique || stays_unique(before, more, state, b, a) {
                    assert(after == before);
                    if before[b as int].unique {
                        assert forall|k: int| 0 <= k < more.len() implies #[trigger] agree(
                            before,
                            more,
                            state,
                            b,
                            k,
                            last,
                        ) && agree(before, more, state, b, last, k) by {}
                        assert(agree(before, more, state, b, last, last));
                    }
                    assert forall|k: int|
                        0 <= k < more.len() && after[(#[trigger] more[k]).to.1 as int].unique implies more[k].from.1
                        != more[k].to.1 && after[more[k].from.1 as int].unique by {
                        if k < last {
                            assert(before_edges[k] == more[k]);
                        }
                    }
                    assert forall|k: int, m: int|
                        0 <= k < more.len() && 0 <= m < more.len() && (#[trigger] more[k]).to.1 == (
                        #[trigger] more[m]).to.1 && after[more[k].to.1 as int].unique implies after[more[k].from.1 as int].rule
                        == after[more[m].from.1 as int].rule && after[more[k].from.1 as int].dot
                        == after[more[m].from.1 as int].dot by {
                        if k < last && m < last {
                            assert(before_edges[k] == more[k]);
                            assert(before_edges[m] == more[m]);
                        } else if k == last && m == last {
                        } else if k == last {
                            assert(agree(before, more, state, b, m, last));
                        } else {
                            assert(agree(before, more, state, b, k, last));
                        }
                    }
                } else {
                    lemma_spreads_root(before, more, state, b);
                    assert(!after[b as int].unique);
                    assert forall|k: int|
                        0 <= k < more.len() && after[(#[trigger] more[k]).to.1 as int].unique implies more[k].from.1
                        != more[k].to.1 && after[more[k].from.1 as int].unique by {
                        if k < last {
                            assert(before_edges[k] == more[k]);
                            if spreads(before, more, state, b, more[k].from.1) {
                                lemma_spreads_step(before, more, state, b, k);
                            }
                        }
                    }
                    assert forall|k: int, m: int|
                        0 <= k < more.len() && 0 <= m < more.len() && (#[trigger] more[k]).to.1 == (
                        #[trigger] more[m]).to.1 && after[more[k].to.1 as int].unique implies after[more[k].from.1 as int].rule
                        == after[more[m].from.1 as int].rule && after[more[k].from.1 as int].dot
                        == after[more[m].from.1 as int].dot by {
                        if k < last && m < last {
                            assert(before_edges[k] == more[k]);
                            assert(before_edges[m] == more[m]);
                        }
                    }
                }
                assert(uniq_closed(after, more));
                assert(more.contains(edge(state, a, b)));
                assert(after[b as int].base() == c);
                assert(extends(before, after));
                assert forall|j: int| 0 <= j < after.len() && !(#[trigger] after[j]).unique implies faded(
                    first,
                    after,
                    more,
                    j as usize,
                ) by {
                    if !before[j].unique {
                        lemma_faded_frame(
                            g,
                            first,
                            before,
                            before_edges,
                            after,
                            more,
                            state,
                            j as usize,
                        );
                    } else {
                        let f = Set::new(|i: usize| faded(first, after, more, i));
                        assert(faded(first, after, more, b)) by {
                            if a == b {
                                assert forall|s: Set<usize>| #[trigger]
                                    fade_closed(first, after, more, s) implies s.contains(b) by {
                                    assert(more[last].from.1 == more[last].to.1);
                                }
                            } else {
                                let (k1, k2) = choose|k1: int, k2: int|
                                    0 <= k1 < more.len() && 0 <= k2 < more.len() && !#[trigger] agree(
                                        before,
                                        more,
                                        state,
                                        b,
                                        k1,
                                        k2,
                                    );
                                let pa = more[k1].from.1;
                                let pb = more[k2].from.1;
                                assert(more[k1].to.1 == b && more[k2].to.1 == b);
                                if !before[pa as int].unique {
                                    lemma_faded_frame(
                                        g,
                                        first,
                                        before,
                                        before_edges,
                                        after,
                                        more,
                                        state,
                                        pa,
                                    );
                                    assert forall|s: Set<usize>| #[trigger]
                                        fade_closed(first, after, more, s) implies s.contains(
                                        b,
                                    ) by {
                                        assert(s.contains(more[k1].from.1));
                                    }
                                } else {
                                    assert(differ(after, pa, pb));
                                    assert forall|s: Set<usize>| #[trigger]
                                        fade_closed(first, after, more, s) implies s.contains(
                                        b,
                                    ) by {
                                        assert(differ(after, more[k1].from.1, more[k2].from.1));
                                    }
                                }
                            }
                        }
                        assert(crate::unique::spread_closed(before, more, state, b, f)) by {
                            assert forall|k: int| #[trigger]
                                crate::unique::spread_fires(
                                    before,
                                    more,
                                    state,
                                    f,
                                    k,
                                ) implies f.contains(more[k].to.1) by {
                                assert(faded(first, after, more, more[k].from.1));
                                assert forall|s: Set<usize>| #[trigger]
                                    fade_closed(first, after, more, s) implies s.contains(
                                    more[k].to.1,
                                ) by {
                                    assert(s.contains(more[k].from.1));
                                }
                            }
                        }
                        assert(spreads(before, more, state, b, j as usize));
                        assert(f.contains(j as usize));
                    }
                }
            }
        },
        None => {
            let unique = next[a].unique;
            let b = next.len();
            let item = Item::new(b, target, lookahead, unique);
            next.push(item);
            edges.push(Transition::new((state, a), (state, b), NULL));
            proof {
                let after = next@;
                let more = edges@;
                let last = more.len() - 1;
                assert(item.base() == c);
                assert(item.fits(g));
                assert forall|x: int, y: int| 0 <= x < y < after.len() implies (
                #[trigger] after[x]).base() != (#[trigger] after[y]).base() by {
                    if y < before.len() {
                        assert(before[x].base() != before[y].base());
                    } else {
                        assert(before[x].base() != c);
                    }
                }
                assert(temp_wf(g, after));
                lemma_closure_step(g, kernel, before[a as int].base(), c);
                assert(sound(g, kernel, after)) by {
                    assert forall|j: int| 0 <= j < after.len() implies in_closure(
                        g,
                        kernel,
                        (#[trigger] after[j]).base(),
                    ) by {
                        if j < before.len() {
                            assert(after[j] == before[j]);
                        }
                    }
                }
                assert(edges_ok(g, after, state, more)) by {
                    assert forall|k: int| 0 <= k < more.len() implies {
                        let e = #[trigger] more[k];
                        &&& e == edge(state, e.from.1, e.to.1)
                        &&& e.from.1 < after.len()
                        &&& e.to.1 < after.len()
                        &&& derives(g, after[e.from.1 as int].base(), after[e.to.1 as int].base())
                    } by {
                        if k < last {
                            assert(before_edges[k] == more[k]);
                        }
                    }
                }
                assert(uniq_closed(after, more)) by {
                    assert forall|k: int|
                        0 <= k < more.len() && after[(#[trigger] more[k]).to.1 as int].unique implies more[k].from.1
                        != more[k].to.1 && after[more[k].from.1 as int].unique by {
                        if k < last {
                            assert(before_edges[k] == more[k]);
                        }
                    }
                    assert forall|k: int, m: int|
                        0 <= k < more.len() && 0 <= m < more.len() && (#[trigger] more[k]).to.1 == (
                        #[trigger] more[m]).to.1 && after[more[k].to.1 as int].unique implies after[more[k].from.1 as int].rule
                        == after[more[m].from.1 as int].rule && after[more[k].from.1 as int].dot
                        == after[more[m].from.1 as int].dot by {
                        if k < last {
                            assert(before_edges[k] == more[k]);
                        }
                        if m < last {
                            assert(before_edges[m] == more[m]);
                        }
                    }
                }
                assert(more[last] == edge(state, a, b));
                assert(more.contains(edge(state, a, b)));
                assert(after[b as int].base() == c);
                assert(extends(before, after));
                assert forall|j: int| 0 <= j < after.len() && !(#[trigger] after[j]).unique implies faded(
                    first,
                    after,
                    more,
                    j as usize,
                ) by {
                    if j < before.len() {
                        assert(after[j] == before[j]);
                        lemma_faded_frame(
                            g,
                            first,
                            before,
                            before_edges,
                            after,
                            more,
                            state,
                            j as usize,
                        );
                    } else {
                        lemma_faded_frame(g, first, before, before_edges, after, more, state, a);
                        assert forall|s: Set<usize>| #[trigger]
                            fade_closed(first, after, more, s) implies s.contains(b) by {
                            assert(s.contains(more[last].from.1));
                        }
                    }
                }
            }
        },
    }
}

/// Continuing is transitive.
pub proof fn lemma_extends_trans(a: Seq<Item>, b: Seq<Item>, c: Seq<Item>)
    requires
        extends(a, b),
        extends(b, c),
    ensures
        extends(a, c),
{
    assert forall|j: int| 0 <= j < a.len() implies (#[trigger] c[j]) == (Item {
        unique: c[j].unique,
        ..a[j]
    }) && (c[j].unique ==> a[j].unique) by {
        assert(b[j] == (Item { unique: b[j].unique, ..a[j] }));
    }
}

/// What was expanded stays expanded when the items and the transitions are
/// continued.
pub proof fn lemma_expanded_frame(
    g: GrammarView,
    next: Seq<Item>,
    edges: Seq<ItemTransition>,
    after: Seq<Item>,
    more: Seq<ItemTransition>,
    state: usize,
    upto: int,
)
    requires
        expanded(g, next, edges, state, upto),
        extends(next, after),
        edges.is_prefix_of(more),
        upto <= next.len(),
    ensures
        expanded(g, after, more, state, upto),
{
    assert forall|a: usize, c: Core|
        a < upto && a < after.len() && #[trigger] derives(
            g,
            after[a as int].base(),
            c,
        ) implies linked(after, more, state, a, c) by {
        assert(after[a as int].base() == next[a as int].base());
        lemma_linked_frame(next, edges, after, more, state, a, c);
    }
}

/// Derives from item `a`, which stands before a nonterminal, all that the
/// closure derives from it.
fn expand(
    grammar: &Grammar,
    next: &mut Vec<Item>,
    edges: &mut Vec<ItemTransition>,
    a: usize,
    state: usize,
    Ghost(kernel): Ghost<Set<Core>>,
    Ghost(first): Ghost<Seq<Item>>,
)
    requires
        grammar.wf(),
        a < old(next).len(),
        old(next)[a as int].head matches Some(h) && grammar@.is_nonterminal(h),
        building(grammar@, kernel, old(next)@, old(edges)@, state),
        fade_sound(first, old(next)@, old(edges)@),
    ensures
        building(grammar@, kernel, final(next)@, final(edges)@, state),
        fade_sound(first, final(next)@, final(edges)@),
        extends(old(next)@, final(next)@),
        old(edges)@.is_prefix_of(final(edges)@),
        forall|c: Core| #[trigger]
            derives(grammar@, final(next)[a as int].base(), c) ==> linked(
                final(next)@,
                final(edges)@,
                state,
                a,
                c,
            ),
{
    let ghost g = grammar@;
    let item = next[a];
    let ghost parent = item.base();
    assert(item.fits(g));
    assert(g.rules[item.rule as int] == grammar.rules[item.rule as int]@);
    assert(g.rules[item.rule as int].valid_in(item.rule as int, g.symbols.len()));
    let head = match item.head {
        Some(h) => h,
        None => 0,
    };
    let rule = &grammar.rules[item.rule];
    let tail = item.tail(rule);
    let lookaheads = grammar.first_sequence(tail.as_slice());
    let ids = grammar.rule_ids(head);
    let ghost body = g.rules[item.rule as int].body;
    assert(tail@ == body.subrange(item.dot + 1, body.len() as int).push(item.lookahead));
    let mut ri: usize = 0;
    while ri < ids.len()
        invariant
            grammar.wf(),
            g == grammar@,
            a < next.len(),
            next.len() >= old(next).len(),
            next[a as int].base() == parent,
            parent == (item.rule, item.dot, item.lookahead),
            item.fits(g),
            item.head == Some(head),
            g.is_nonterminal(head),
            body == g.rules[item.rule as int].body,
            tail@ == body.subrange(item.dot + 1, body.len() as int).push(item.lookahead),
            lists_rules_of(g, head, ids@),
            increasing(lookaheads@),
            forall|t: usize| lookaheads@.contains(t) <==> in_first_seq(g, tail@, t),
            forall|i: int| 0 <= i < lookaheads.len() ==> lookaheads[i] < grammar.symbols.len(),
            building(g, kernel, next@, edges@, state),
            fade_sound(first, next@, edges@),
            extends(old(next)@, next@),
            old(edges)@.is_prefix_of(edges@),
            ri <= ids.len(),
            forall|x: int, y: int|
                0 <= x < ri && 0 <= y < lookaheads.len() ==> linked(
                    next@,
                    edges@,
                    state,
                    a,
                    (#[trigger] ids[x], start_dot(g.rules[ids[x] as int].body), #[trigger] lookaheads[y]),
                ),
        decreases ids.len() - ri,
    {
        let target = ids[ri];
        assert(ids@.contains(target));
        let mut li: usize = 0;
        while li < lookaheads.len()
            invariant
                grammar.wf(),
                g == grammar@,
                a < next.len(),
                next.len() >= old(next).len(),
                next[a as int].base() == parent,
                parent == (item.rule, item.dot, item.lookahead),
                item.fits(g),
                item.head == Some(head),
                g.is_nonterminal(head),
                body == g.rules[item.rule as int].body,
                tail@ == body.subrange(item.dot + 1, body.len() as int).push(item.lookahead),
                lists_rules_of(g, head, ids@),
                forall|t: usize| lookaheads@.contains(t) <==> in_first_seq(g, tail@, t),
                forall|i: int| 0 <= i < lookaheads.len() ==> lookaheads[i] < grammar.symbols.len(),
                building(g, kernel, next@, edges@, state),
                fade_sound(first, next@, edges@),
                extends(old(next)@, next@),
                old(edges)@.is_prefix_of(edges@),
                ri < ids.len(),
                target == ids[ri as int],
                target < g.rules.len(),
                g.rules[target as int].head == head,
                li <= lookaheads.len(),
                forall|x: int, y: int|
                    0 <= x < ri && 0 <= y < lookaheads.len() ==> linked(
                        next@,
                        edges@,
                        state,
                        a,
                        (
                            #[trigger] ids[x],
                            start_dot(g.rules[ids[x] as int].body),
                            #[trigger] lookaheads[y],
                        ),
                    ),
                forall|y: int|
                    0 <= y < li ==> linked(
                        next@,
                        edges@,
                        state,
                        a,
                        (target, start_dot(g.rules[target as int].body), #[trigger] lookaheads[y]),
                    ),
            decreases lookaheads.len() - li,
        {
            let lookahead = lookaheads[li];
            let ghost mid = next@;
            let ghost mid_edges = edges@;
            proof {
                assert(lookaheads@.contains(lookahead));
                assert(derives(
                    g,
                    parent,
                    (target, start_dot(g.rules[target as int].body), lookahead),
                ));
            }
            attach(grammar, next, edges, a, target, lookahead, state, Ghost(kernel), Ghost(first));
            proof {
                lemma_extends_trans(old(next)@, mid, next@);
                assert forall|x: int, y: int|
                    0 <= x < ri && 0 <= y < lookaheads.len() implies linked(
                    next@,
                    edges@,
                    state,
                    a,
                    (#[trigger] ids[x], start_dot(g.rules[ids[x] as int].body), #[trigger] lookaheads[y]),
                ) by {
                    lemma_linked_frame(
                        mid,
                        mid_edges,
                        next@,
                        edges@,
                        state,
                        a,
                        (ids[x], start_dot(g.rules[ids[x] as int].body), lookaheads[y]),
                    );
                }
                assert forall|y: int| 0 <= y < li + 1 implies linked(
                    next@,
                    edges@,
                    state,
                    a,
                    (target, start_dot(g.rules[target as int].body), #[trigger] lookaheads[y]),
                ) by {
                    if y < li {
                        lemma_linked_frame(
                            mid,
                            mid_edges,
                            next@,
                            edges@,
                            state,
                            a,
                            (target, start_dot(g.rules[target as int].body), lookaheads[y]),
                        );
                    }
                }
            }
            li += 1;
        }
        ri += 1;
    }
    proof {
        assert forall|c: Core| #[trigger] derives(g, next[a as int].base(), c) implies linked(
            next@,
            edges@,
            state,
            a,
            c,
        ) by {
            assert(ids@.contains(c.0));
            let x = choose|x: int| 0 <= x < ids.len() && ids[x] == c.0;
            assert(lookaheads@.contains(c.2));
            let y = choose|y: int| 0 <= y < lookaheads.len() && lookaheads[y] == c.2;
            assert(linked(
                next@,
                edges@,
                state,
                a,
                (ids[x], start_dot(g.rules[ids[x] as int].body), lookaheads[y]),
            ));
        }
    }
}

/// Completes the items of a state from its kernel: derives from every item
/// that stands before a nonterminal what the closure derives from it.
fn close(grammar: &Grammar, next: &mut Vec<Item>, state: usize, Ghost(kernel): Ghost<Set<Core>>) -> (edges:
    Vec<ItemTransition>)
    requires
        grammar.wf(),
        temp_wf(grammar@, old(next)@),
        sound(grammar@, kernel, old(next)@),
    ensures
        building(grammar@, kernel, final(next)@, edges@, state),
        fade_sound(old(next)@, final(next)@, edges@),
        extends(old(next)@, final(next)@),
        expanded(grammar@, final(next)@, edges@, state, final(next).len() as int),
{
    let ghost g = grammar@;
    let ghost first = next@;
    let mut edges: Vec<ItemTransition> = Vec::new();
    let mut cursor: usize = 0;
    proof {
        assert forall|j: int| 0 <= j < first.len() && !(#[trigger] first[j]).unique implies faded(
            first,
            first,
            edges@,
            j as usize,
        ) by {}
    }
    while cursor < next.len()
        invariant
            grammar.wf(),
            g == grammar@,
            first == old(next)@,
            cursor <= next.len(),
            building(g, kernel, next@, edges@, state),
            fade_sound(first, next@, edges@),
            extends(old(next)@, next@),
            expanded(g, next@, edges@, state, cursor as int),
        decreases usize::MAX - cursor,
    {
        let item = next[cursor];
        assert(item.fits(g));
        let ghost mid = next@;
        let ghost mid_edges = edges@;
        if item.at_nonterminal(grammar.symbols.as_slice()) {
            expand(grammar, next, &mut edges, cursor, state, Ghost(kernel), Ghost(first));
            proof {
                lemma_extends_trans(old(next)@, mid, next@);
                lemma_expanded_frame(g, mid, mid_edges, next@, edges@, state, cursor as int);
            }
        }
        proof {
            assert forall|a: usize, c: Core|
                a < cursor + 1 && a < next.len() && #[trigger] derives(
                    g,
                    next[a as int].base(),
                    c,
                ) implies linked(next@, edges@, state, a, c) by {
                if a == cursor {
                    assert(next[a as int].base() == item.base());
                    assert(next[a as int].head == item.head);
                }
            }
        }
        cursor += 1;
    }
    edges
}

/// The item with its dot moved on by one, under the ID `id`.
pub open spec fn moved(g: GrammarView, item: Item, id: usize) -> Item {
    Item {
        id,
        dot: (item.dot + 1) as usize,
        head: symbol_at(g.rules[item.rule as int].body, item.dot + 1),
        ..item
    }
}

/// The transition is one of the kernel: it leads from an item of the state
/// `from` that stands before `symbol` to the item of the state `to` that has
/// the dot moved on by one.
pub open spec fn kernel_edge(
    list: Seq<Item>,
    from_id: usize,
    from: Seq<usize>,
    symbol: usize,
    to_id: usize,
    to: Seq<usize>,
    t: ItemTransition,
) -> bool {
    &&& t.symbol == symbol
    &&& t.from.0 == from_id
    &&& from.contains(t.from.1)
    &&& list[t.from.1 as int].head == Some(symbol)
    &&& t.to.0 == to_id
    &&& to.contains(t.to.1)
    &&& list[t.to.1 as int].base() == list[t.from.1 as int].advanced()
}

/// The transition is one of the closure: it leads from an item of the state
/// to an item of the state that the closure derives from it.
pub open spec fn closure_edge(
    g: GrammarView,
    list: Seq<Item>,
    to_id: usize,
    to: Seq<usize>,
    t: ItemTransition,
) -> bool {
    &&& t.symbol == NULL
    &&& t.from.0 == to_id
    &&& t.to.0 == to_id
    &&& to.contains(t.from.1)
    &&& to.contains(t.to.1)
    &&& derives(g, list[t.from.1 as int].base(), list[t.to.1 as int].base())
}

/// `s` holds every item of the state `to` that cannot be unique: an item
/// of the kernel that comes from an item that is not unique, an item that the
/// closure derives from itself, an item that it derives from items at
/// different places, and an item that it derives from an item of `s`.
pub open spec fn holds_faded(
    g: GrammarView,
    list: Seq<Item>,
    from_id: usize,
    from: Seq<usize>,
    symbol: usize,
    to_id: usize,
    to: Seq<usize>,
    s: Set<usize>,
) -> bool {
    &&& forall|t: ItemTransition| #[trigger]
        kernel_edge(list, from_id, from, symbol, to_id, to, t) && !list[t.from.1 as int].unique
            ==> s.contains(t.to.1)
    &&& forall|t: ItemTransition| #[trigger]
        closure_edge(g, list, to_id, to, t) && t.from.1 == t.to.1 ==> s.contains(t.to.1)
    &&& forall|t: ItemTransition, u: ItemTransition|
        #![trigger closure_edge(g, list, to_id, to, t), closure_edge(g, list, to_id, to, u)]
        closure_edge(g, list, to_id, to, t) && closure_edge(g, list, to_id, to, u) && t.to.1
            == u.to.1 && differ(list, t.from.1, u.from.1) ==> s.contains(t.to.1)
    &&& forall|t: ItemTransition| #[trigger]
        closure_edge(g, list, to_id, to, t) && s.contains(t.from.1) ==> s.contains(t.to.1)
}

/// The item cannot be unique: it is in every set that holds the items of
/// the state that cannot be unique.
pub open spec fn fades_away(
    g: GrammarView,
    list: Seq<Item>,
    from_id: usize,
    from: Seq<usize>,
    symbol: usize,
    to_id: usize,
    to: Seq<usize>,
    id: usize,
) -> bool {
    forall|s: Set<usize>| #[trigger]
        holds_faded(g, list, from_id, from, symbol, to_id, to, s) ==> s.contains(id)
}

/// A set that holds the items that cannot be unique holds them whatever the
/// ID of the state is, and whatever the list holds beside the items of the
/// two states.
pub proof fn lemma_holds_faded_frame(
    g: GrammarView,
    list: Seq<Item>,
    other: Seq<Item>,
    from_id: usize,
    from: Seq<usize>,
    symbol: usize,
    a: usize,
    b: usize,
    to: Seq<usize>,
    s: Set<usize>,
)
    requires
        forall|i: int| 0 <= i < from.len() ==> list[#[trigger] from[i] as int] == other[from[i] as int],
        forall|i: int| 0 <= i < to.len() ==> list[#[trigger] to[i] as int] == other[to[i] as int],
        holds_faded(g, list, from_id, from, symbol, a, to, s),
    ensures
        holds_faded(g, other, from_id, from, symbol, b, to, s),
{
    assert forall|t: ItemTransition| #[trigger]
        kernel_edge(other, from_id, from, symbol, b, to, t)
            && !other[t.from.1 as int].unique implies s.contains(t.to.1) by {
        let x = choose|x: int| 0 <= x < from.len() && from[x] == t.from.1;
        let y = choose|y: int| 0 <= y < to.len() && to[y] == t.to.1;
        assert(list[from[x] as int] == other[from[x] as int]);
        assert(list[to[y] as int] == other[to[y] as int]);
        let u = Transition { from: t.from, to: (a, t.to.1), symbol: t.symbol };
        assert(kernel_edge(list, from_id, from, symbol, a, to, u));
    }
    assert forall|t: ItemTransition| #[trigger]
        closure_edge(g, other, b, to, t) implies closure_edge(
        g,
        list,
        a,
        to,
        Transition { from: (a, t.from.1), to: (a, t.to.1), symbol: t.symbol },
    ) by {
        let x = choose|x: int| 0 <= x < to.len() && to[x] == t.from.1;
        let y = choose|y: int| 0 <= y < to.len() && to[y] == t.to.1;
        assert(list[to[x] as int] == other[to[x] as int]);
        assert(list[to[y] as int] == other[to[y] as int]);
    }
    assert forall|t: ItemTransition| #[trigger]
        closure_edge(g, other, b, to, t) && t.from.1 == t.to.1 implies s.contains(t.to.1) by {
        let u = Transition { from: (a, t.from.1), to: (a, t.to.1), symbol: t.symbol };
        assert(closure_edge(g, list, a, to, u));
    }
    assert forall|t: ItemTransition, u: ItemTransition|
        #![trigger closure_edge(g, other, b, to, t), closure_edge(g, other, b, to, u)]
        closure_edge(g, other, b, to, t) && closure_edge(g, other, b, to, u) && t.to.1 == u.to.1
            && differ(other, t.from.1, u.from.1) implies s.contains(t.to.1) by {
        let v = Transition { from: (a, t.from.1), to: (a, t.to.1), symbol: t.symbol };
        let w = Transition { from: (a, u.from.1), to: (a, u.to.1), symbol: u.symbol };
        assert(closure_edge(g, list, a, to, v));
        assert(closure_edge(g, list, a, to, w));
        let x = choose|x: int| 0 <= x < to.len() && to[x] == t.from.1;
        let y = choose|y: int| 0 <= y < to.len() && to[y] == u.from.1;
        assert(list[to[x] as int] == other[to[x] as int]);
        assert(list[to[y] as int] == other[to[y] as int]);
        assert(differ(list, v.from.1, w.from.1));
    }
    assert forall|t: ItemTransition| #[trigger]
        closure_edge(g, other, b, to, t) && s.contains(t.from.1) implies s.contains(t.to.1) by {
        let u = Transition { from: (a, t.from.1), to: (a, t.to.1), symbol: t.symbol };
        assert(closure_edge(g, list, a, to, u));
    }
}

/// Whether an item can be unique depends on the items of the two states
/// alone: not on the ID of the state, nor on what else the list holds.
pub proof fn lemma_fades_frame(
    g: GrammarView,
    list: Seq<Item>,
    other: Seq<Item>,
    from_id: usize,
    from: Seq<usize>,
    symbol: usize,
    a: usize,
    b: usize,
    to: Seq<usize>,
    id: usize,
)
    requires
        forall|i: int| 0 <= i < from.len() ==> list[#[trigger] from[i] as int] == other[from[i] as int],
        forall|i: int| 0 <= i < to.len() ==> list[#[trigger] to[i] as int] == other[to[i] as int],
    ensures
        fades_away(g, list, from_id, from, symbol, a, to, id) == fades_away(
            g,
            other,
            from_id,
            from,
            symbol,
            b,
            to,
            id,
        ),
{
    if fades_away(g, list, from_id, from, symbol, a, to, id) {
        assert forall|s: Set<usize>| #[trigger]
            holds_faded(g, other, from_id, from, symbol, b, to, s) implies s.contains(id) by {
            lemma_holds_faded_frame(g, other, list, from_id, from, symbol, b, a, to, s);
        }
    }
    if fades_away(g, other, from_id, from, symbol, b, to, id) {
        assert forall|s: Set<usize>| #[trigger]
            holds_faded(g, list, from_id, from, symbol, a, to, s) implies s.contains(id) by {
            lemma_holds_faded_frame(g, list, other, from_id, from, symbol, a, b, to, s);
        }
    }
}

/// The state `to` is what the state `from` derives with `symbol`: its items
/// are, by rule, dot and lookahead, the closure of the kernel; the
/// transitions are those of the kernel and of the closure; and an item is
/// unique unless it cannot be: unless it comes from an item that is not
/// unique, is derived from itself or from items at different places of the
/// rules, or is derived from an item that cannot be unique.
pub open spec fn derived(
    g: GrammarView,
    list: Seq<Item>,
    from_id: usize,
    from: Seq<usize>,
    symbol: usize,
    to_id: usize,
    to: Seq<usize>,
    transitions: Seq<ItemTransition>,
) -> bool {
    let kernel = kernel_cores(list, from, symbol);
    &&& forall|i: int|
        0 <= i < to.len() ==> in_closure(g, kernel, list[#[trigger] to[i] as int].base())
    &&& forall|c: Core| #[trigger]
        in_closure(g, kernel, c) ==> exists|i: int|
            0 <= i < to.len() && list[#[trigger] to[i] as int].base() == c
    &&& forall|t: ItemTransition| #[trigger]
        transitions.contains(t) <==> (kernel_edge(list, from_id, from, symbol, to_id, to, t)
            || closure_edge(g, list, to_id, to, t))
    &&& forall|t: ItemTransition| #[trigger]
        kernel_edge(list, from_id, from, symbol, to_id, to, t) && list[t.to.1 as int].unique
            ==> list[t.from.1 as int].unique
    &&& forall|t: ItemTransition| #[trigger]
        closure_edge(g, list, to_id, to, t) && list[t.to.1 as int].unique ==> t.from.1 != t.to.1
            && list[t.from.1 as int].unique
    &&& forall|t: ItemTransition, u: ItemTransition|
        #![trigger closure_edge(g, list, to_id, to, t), closure_edge(g, list, to_id, to, u)]
        closure_edge(g, list, to_id, to, t) && closure_edge(g, list, to_id, to, u) && t.to.1
            == u.to.1 && list[t.to.1 as int].unique ==> list[t.from.1 as int].rule
            == list[u.from.1 as int].rule && list[t.from.1 as int].dot == list[u.from.1 as int].dot
    &&& forall|i: int|
        0 <= i < to.len() ==> (list[#[trigger] to[i] as int].unique <==> !fades_away(
            g,
            list,
            from_id,
            from,
            symbol,
            to_id,
            to,
            to[i],
        ))
}

impl State {
    /// Moves the items that stand before `symbol` on by one: the kernel of
    /// the next state, with the position in this state of each of its items.
    fn kernel(&self, symbol: usize, grammar: &Grammar, items: &ItemTable) -> (result: (
        Vec<Item>,
        Vec<usize>,
    ))
        requires
            grammar.wf(),
            items.wf(),
            items.fit(grammar@),
            self.wf(items.list@),
        ensures
            result.0.len() == result.1.len(),
            increasing(result.1@),
            forall|p: usize|
                result.1@.contains(p) <==> (p < self.items.len() && items.list[self.items[p as int] as int].head
                    == Some(symbol)),
            forall|j: int|
                0 <= j < result.0.len() ==> #[trigger] result.0[j] == moved(
                    grammar@,
                    items.list[self.items[result.1[j] as int] as int],
                    j as usize,
                ),
    {
        let ghost g = grammar@;
        let mut next: Vec<Item> = Vec::new();
        let mut positions: Vec<usize> = Vec::new();
        let mut p: usize = 0;
        while p < self.items.len()
            invariant
                grammar.wf(),
                g == grammar@,
                items.wf(),
                items.fit(g),
                self.wf(items.list@),
                p <= self.items.len(),
                next.len() == positions.len(),
                increasing(positions@),
                forall|j: int| 0 <= j < positions.len() ==> positions[j] < p,
                forall|q: usize|
                    positions@.contains(q) <==> (q < p && items.list[self.items[q as int] as int].head
                        == Some(symbol)),
                forall|j: int|
                    0 <= j < next.len() ==> #[trigger] next[j] == moved(
                        g,
                        items.list[self.items[positions[j] as int] as int],
                        j as usize,
                    ),
            decreases self.items.len() - p,
        {
            let source = items.list[self.items[p]];
            assert(source.fits(g));
            if source.head == Some(symbol) {
                assert(g.rules[source.rule as int] == grammar.rules[source.rule as int]@);
                let mut item = source;
                item.id = next.len();
                item.pass(&grammar.rules[source.rule]);
                let ghost before = positions@;
                next.push(item);
                positions.push(p);
                proof {
                    assert forall|q: usize|
                        positions@.contains(q) <==> (q < p + 1 && items.list[self.items[q as int] as int].head
                            == Some(symbol)) by {
                        if positions@.contains(q) {
                            let k = choose|k: int| 0 <= k < positions.len() && positions[k] == q;
                            if k < before.len() {
                                assert(before.contains(q));
                            }
                        }
                        if q < p + 1 && items.list[self.items[q as int] as int].head == Some(symbol) {
                            if q == p {
                                assert(positions[positions.len() - 1] == q);
                            } else {
                                assert(before.contains(q));
                                let k = choose|k: int| 0 <= k < before.len() && before[k] == q;
                                assert(positions[k] == q);
                            }
                        }
                    }
                }
            } else {
                proof {
                    assert forall|q: usize|
                        positions@.contains(q) <==> (q < p + 1 && items.list[self.items[q as int] as int].head
                            == Some(symbol)) by {}
                }
            }
            p += 1;
        }
        (next, positions)
    }
}

/// The transitions are those of the kernel, in the order of its items,
/// followed by those of the closure, all with the IDs of the item table.
pub open spec fn assembled(
    from_id: usize,
    from: Seq<usize>,
    symbol: usize,
    to_id: usize,
    positions: Seq<usize>,
    edges: Seq<ItemTransition>,
    ids: Seq<usize>,
    transitions: Seq<ItemTransition>,
) -> bool {
    &&& transitions.len() == positions.len() + edges.len()
    &&& forall|j: int|
        0 <= j < positions.len() ==> #[trigger] transitions[j] == (Transition {
            from: (from_id, from[positions[j] as int]),
            to: (to_id, ids[j]),
            symbol,
        })
    &&& forall|k: int|
        0 <= k < edges.len() ==> #[trigger] transitions[positions.len() + k] == (Transition {
            from: (to_id, ids[edges[k].from.1 as int]),
            to: (to_id, ids[edges[k].to.1 as int]),
            symbol: NULL,
        })
}

/// The state assembled from the items under construction is what the state
/// `from` derives with `symbol`.
pub proof fn lemma_assemble(
    g: GrammarView,
    before: Seq<Item>,
    list: Seq<Item>,
    from_id: usize,
    from: Seq<usize>,
    symbol: usize,
    to_id: usize,
    positions: Seq<usize>,
    first: Seq<Item>,
    next: Seq<Item>,
    edges: Seq<ItemTransition>,
    ids: Seq<usize>,
    to: Seq<usize>,
    transitions: Seq<ItemTransition>,
)
    requires
        before.is_prefix_of(list),
        first.len() == positions.len(),
        forall|j: int|
            0 <= j < first.len() ==> (#[trigger] first[j]).unique
                == before[from[positions[j] as int] as int].unique,
        fade_sound(first, next, edges),
        from.len() <= usize::MAX,
        next.len() <= usize::MAX,
        increasing(from),
        forall|i: int| 0 <= i < from.len() ==> #[trigger] from[i] < before.len(),
        forall|a: int, b: int|
            0 <= a < b < from.len() ==> before[from[a] as int].base() != before[from[b] as int].base(),
        positions.len() <= next.len(),
        increasing(positions),
        forall|p: usize|
            positions.contains(p) <==> (p < from.len() && before[from[p as int] as int].head
                == Some(symbol)),
        forall|j: int|
            0 <= j < positions.len() ==> (#[trigger] next[j]).base()
                == before[from[positions[j] as int] as int].advanced() && (next[j].unique
                ==> before[from[positions[j] as int] as int].unique),
        building(g, kernel_cores(before, from, symbol), next, edges, to_id),
        expanded(g, next, edges, to_id, next.len() as int),
        ids.len() == next.len(),
        forall|j: int|
            0 <= j < next.len() ==> #[trigger] ids[j] < list.len() && list[ids[j] as int].key()
                == next[j].key(),
        increasing(to),
        forall|x: usize| to.contains(x) <==> ids.contains(x),
        assembled(from_id, from, symbol, to_id, positions, edges, ids, transitions),
    ensures
        derived(g, list, from_id, from, symbol, to_id, to, transitions),
        forall|i: int| 0 <= i < to.len() ==> #[trigger] to[i] < list.len(),
        forall|a: int, b: int|
            0 <= a < b < to.len() ==> list[to[a] as int].base() != list[to[b] as int].base(),
{
    let kernel = kernel_cores(before, from, symbol);
    assert(kernel_cores(list, from, symbol) =~= kernel) by {
        assert forall|p: int| 0 <= p < from.len() implies list[#[trigger] from[p] as int]
            == before[from[p] as int] by {}
    }
    // Every member of `to` is the ID of an item under construction.
    assert forall|i: int| 0 <= i < to.len() implies #[trigger] to[i] < list.len() && in_closure(
        g,
        kernel,
        list[to[i] as int].base(),
    ) by {
        assert(to.contains(to[i]));
        let j = choose|j: int| 0 <= j < ids.len() && ids[j] == to[i];
        assert(list[ids[j] as int].key() == next[j].key());
        assert(in_closure(g, kernel, next[j].base()));
    }
    assert forall|a: int, b: int| 0 <= a < b < to.len() implies list[to[a] as int].base()
        != list[to[b] as int].base() by {
        assert(to.contains(to[a]));
        assert(to.contains(to[b]));
        let i = choose|i: int| 0 <= i < ids.len() && ids[i] == to[a];
        let j = choose|j: int| 0 <= j < ids.len() && ids[j] == to[b];
        assert(list[ids[i] as int].key() == next[i].key());
        assert(list[ids[j] as int].key() == next[j].key());
        if i < j {
            assert(next[i].base() != next[j].base());
        } else if j < i {
            assert(next[j].base() != next[i].base());
        }
    }
    // The items under construction hold the closure.
    let held = Set::new(|c: Core| exists|j: int| 0 <= j < next.len() && (#[trigger] next[j]).base() == c);
    assert(closure_closed(g, kernel, held)) by {
        assert forall|c: Core| #[trigger] kernel.contains(c) implies held.contains(c) by {
            let p = choose|p: int|
                0 <= p < from.len() && before[#[trigger] from[p] as int].head == Some(symbol)
                    && before[from[p] as int].advanced() == c;
            assert(positions.contains(p as usize));
            let j = choose|j: int| 0 <= j < positions.len() && positions[j] == p as usize;
            assert(next[j].base() == c);
        }
        assert forall|p: Core, c: Core| held.contains(p) && #[trigger] derives(
            g,
            p,
            c,
        ) implies held.contains(c) by {
            let a = choose|a: int| 0 <= a < next.len() && (#[trigger] next[a]).base() == p;
            assert(derives(g, next[a as usize as int].base(), c));
            assert(linked(next, edges, to_id, a as usize, c));
            let b = choose|b: usize|
                b < next.len() && (#[trigger] next[b as int]).base() == c && edges.contains(
                    edge(to_id, a as usize, b),
                );
            assert(next[b as int].base() == c);
        }
    }
    assert forall|c: Core| #[trigger] in_closure(g, kernel, c) implies exists|i: int|
        0 <= i < to.len() && list[#[trigger] to[i] as int].base() == c by {
        assert(held.contains(c));
        let j = choose|j: int| 0 <= j < next.len() && (#[trigger] next[j]).base() == c;
        assert(list[ids[j] as int].key() == next[j].key());
        assert(ids.contains(ids[j]));
        assert(to.contains(ids[j]));
        let i = choose|i: int| 0 <= i < to.len() && to[i] == ids[j];
        assert(list[to[i] as int].base() == c);
    }
    // Two items under construction with the same ID are the same.
    assert forall|i: int, j: int|
        0 <= i < next.len() && 0 <= j < next.len() && ids[i] == ids[j] implies i == j by {
        assert(list[ids[i] as int].key() == next[i].key());
        assert(list[ids[j] as int].key() == next[j].key());
        if i < j {
            assert(next[i].base() != next[j].base());
        } else if j < i {
            assert(next[j].base() != next[i].base());
        }
    }
    // Kernel transitions.
    assert forall|t: ItemTransition| #[trigger]
        kernel_edge(list, from_id, from, symbol, to_id, to, t) implies transitions.contains(t) && (
    list[t.to.1 as int].unique ==> list[t.from.1 as int].unique) by {
        let p = choose|p: int| 0 <= p < from.len() && from[p] == t.from.1;
        assert(list[from[p] as int] == before[from[p] as int]);
        assert(positions.contains(p as usize));
        let j = choose|j: int| 0 <= j < positions.len() && positions[j] == p as usize;
        let i = choose|i: int| 0 <= i < ids.len() && ids[i] == t.to.1;
        assert(list[ids[i] as int].key() == next[i].key());
        assert(list[ids[j] as int].key() == next[j].key());
        if i < j {
            assert(next[i].base() != next[j].base());
        } else if j < i {
            assert(next[j].base() != next[i].base());
        }
        assert(transitions[j] == t);
    }
    // Closure transitions.
    assert forall|t: ItemTransition| #[trigger]
        closure_edge(g, list, to_id, to, t) implies exists|k: int|
        0 <= k < edges.len() && #[trigger] edges[k] == edge(to_id, edges[k].from.1, edges[k].to.1)
            && ids[edges[k].from.1 as int] == t.from.1 && ids[edges[k].to.1 as int] == t.to.1
            && transitions[positions.len() + k] == t by {
        let a = choose|a: int| 0 <= a < ids.len() && ids[a] == t.from.1;
        let b = choose|b: int| 0 <= b < ids.len() && ids[b] == t.to.1;
        assert(list[ids[a] as int].key() == next[a].key());
        assert(list[ids[b] as int].key() == next[b].key());
        assert(derives(g, next[a as usize as int].base(), next[b].base()));
        assert(linked(next, edges, to_id, a as usize, next[b].base()));
        let b2 = choose|b2: usize|
            b2 < next.len() && (#[trigger] next[b2 as int]).base() == next[b].base()
                && edges.contains(edge(to_id, a as usize, b2));
        if (b2 as int) < b {
            assert(next[b2 as int].base() != next[b].base());
        } else if b < b2 as int {
            assert(next[b].base() != next[b2 as int].base());
        }
        let k = choose|k: int| 0 <= k < edges.len() && edges[k] == edge(to_id, a as usize, b2);
        assert(transitions[positions.len() + k] == t);
    }
    assert forall|t: ItemTransition| #[trigger]
        closure_edge(g, list, to_id, to, t) implies transitions.contains(t) && (list[t.to.1 as int].unique
        ==> t.from.1 != t.to.1 && list[t.from.1 as int].unique) by {
        let k = choose|k: int|
            0 <= k < edges.len() && #[trigger] edges[k] == edge(
                to_id,
                edges[k].from.1,
                edges[k].to.1,
            ) && ids[edges[k].from.1 as int] == t.from.1 && ids[edges[k].to.1 as int] == t.to.1
                && transitions[positions.len() + k] == t;
        assert(list[ids[edges[k].from.1 as int] as int].key() == next[edges[k].from.1 as int].key());
        assert(list[ids[edges[k].to.1 as int] as int].key() == next[edges[k].to.1 as int].key());
    }
    assert forall|t: ItemTransition, u: ItemTransition|
        #![trigger closure_edge(g, list, to_id, to, t), closure_edge(g, list, to_id, to, u)]
        closure_edge(g, list, to_id, to, t) && closure_edge(g, list, to_id, to, u) && t.to.1
            == u.to.1 && list[t.to.1 as int].unique implies list[t.from.1 as int].rule
        == list[u.from.1 as int].rule && list[t.from.1 as int].dot == list[u.from.1 as int].dot by {
        let k = choose|k: int|
            0 <= k < edges.len() && #[trigger] edges[k] == edge(
                to_id,
                edges[k].from.1,
                edges[k].to.1,
            ) && ids[edges[k].from.1 as int] == t.from.1 && ids[edges[k].to.1 as int] == t.to.1
                && transitions[positions.len() + k] == t;
        let m = choose|m: int|
            0 <= m < edges.len() && #[trigger] edges[m] == edge(
                to_id,
                edges[m].from.1,
                edges[m].to.1,
            ) && ids[edges[m].from.1 as int] == u.from.1 && ids[edges[m].to.1 as int] == u.to.1
                && transitions[positions.len() + m] == u;
        assert(list[ids[edges[k].from.1 as int] as int].key() == next[edges[k].from.1 as int].key());
        assert(list[ids[edges[k].to.1 as int] as int].key() == next[edges[k].to.1 as int].key());
        assert(list[ids[edges[m].from.1 as int] as int].key() == next[edges[m].from.1 as int].key());
        assert(list[ids[edges[m].to.1 as int] as int].key() == next[edges[m].to.1 as int].key());
        assert(edges[k].to.1 == edges[m].to.1);
    }
    // The transitions of the kernel and of the closure, one by one.
    assert forall|x: int| 0 <= x < positions.len() implies kernel_edge(
        list,
        from_id,
        from,
        symbol,
        to_id,
        to,
        #[trigger] transitions[x],
    ) by {
        let p = positions[x];
        assert(positions.contains(p));
        assert(list[from[p as int] as int] == before[from[p as int] as int]);
        assert(list[ids[x] as int].key() == next[x].key());
        assert(ids.contains(ids[x]));
        assert(from.contains(from[p as int]));
    }
    assert forall|k: int| 0 <= k < edges.len() implies closure_edge(
        g,
        list,
        to_id,
        to,
        #[trigger] transitions[positions.len() + k],
    ) by {
        let e = edges[k];
        assert(list[ids[e.from.1 as int] as int].key() == next[e.from.1 as int].key());
        assert(list[ids[e.to.1 as int] as int].key() == next[e.to.1 as int].key());
        assert(ids.contains(ids[e.from.1 as int]));
        assert(ids.contains(ids[e.to.1 as int]));
    }
    // An item is unique unless it cannot be.
    assert forall|i: int| 0 <= i < to.len() implies (list[#[trigger] to[i] as int].unique
        <==> !fades_away(g, list, from_id, from, symbol, to_id, to, to[i])) by {
        let id = to[i];
        assert(to.contains(id));
        let j = choose|j: int| 0 <= j < ids.len() && ids[j] == id;
        assert(list[ids[j] as int].key() == next[j].key());
        if !list[id as int].unique {
            assert forall|s: Set<usize>| #[trigger]
                holds_faded(g, list, from_id, from, symbol, to_id, to, s) implies s.contains(
                id,
            ) by {
                let st = Set::new(|x: usize| x < next.len() && s.contains(ids[x as int]));
                assert(fade_closed(first, next, edges, st)) by {
                    assert forall|q: int|
                        0 <= q < first.len() && !(#[trigger] first[q]).unique implies st.contains(
                        q as usize,
                    ) by {
                        let t = transitions[q];
                        assert(kernel_edge(list, from_id, from, symbol, to_id, to, t));
                        assert(positions.contains(positions[q]));
                        assert(list[from[positions[q] as int] as int]
                            == before[from[positions[q] as int] as int]);
                    }
                    assert forall|k: int|
                        0 <= k < edges.len() && (#[trigger] edges[k]).from.1
                            == edges[k].to.1 implies st.contains(edges[k].to.1) by {
                        let t = transitions[positions.len() + k];
                        assert(closure_edge(g, list, to_id, to, t));
                    }
                    assert forall|k: int, m: int|
                        0 <= k < edges.len() && 0 <= m < edges.len() && (#[trigger] edges[k]).to.1
                            == (#[trigger] edges[m]).to.1 && differ(
                            next,
                            edges[k].from.1,
                            edges[m].from.1,
                        ) implies st.contains(edges[k].to.1) by {
                        let t = transitions[positions.len() + k];
                        let u = transitions[positions.len() + m];
                        assert(closure_edge(g, list, to_id, to, t));
                        assert(closure_edge(g, list, to_id, to, u));
                        assert(list[ids[edges[k].from.1 as int] as int].key()
                            == next[edges[k].from.1 as int].key());
                        assert(list[ids[edges[m].from.1 as int] as int].key()
                            == next[edges[m].from.1 as int].key());
                        assert(differ(list, t.from.1, u.from.1));
                    }
                    assert forall|k: int|
                        0 <= k < edges.len() && st.contains(
                            (#[trigger] edges[k]).from.1,
                        ) implies st.contains(edges[k].to.1) by {
                        let t = transitions[positions.len() + k];
                        assert(closure_edge(g, list, to_id, to, t));
                    }
                }
                assert(!next[j].unique);
                assert(faded(first, next, edges, j as usize));
                assert(st.contains(j as usize));
            }
        }
        if fades_away(g, list, from_id, from, symbol, to_id, to, id) {
            let n = Set::new(|x: usize| !list[x as int].unique);
            assert(holds_faded(g, list, from_id, from, symbol, to_id, to, n));
            assert(n.contains(id));
        }
    }
    // Every transition is one of the kernel or of the closure.
    assert forall|t: ItemTransition| #[trigger] transitions.contains(t) implies (kernel_edge(
        list,
        from_id,
        from,
        symbol,
        to_id,
        to,
        t,
    ) || closure_edge(g, list, to_id, to, t)) by {
        let x = choose|x: int| 0 <= x < transitions.len() && transitions[x] == t;
        if x < positions.len() {
            let p = positions[x];
            assert(positions.contains(p));
            assert(list[from[p as int] as int] == before[from[p as int] as int]);
            assert(list[ids[x] as int].key() == next[x].key());
            assert(ids.contains(ids[x]));
            assert(from.contains(from[p as int]));
        } else {
            let k = x - positions.len();
            assert(transitions[positions.len() + k] == t);
            let e = edges[k];
            assert(list[ids[e.from.1 as int] as int].key() == next[e.from.1 as int].key());
            assert(list[ids[e.to.1 as int] as int].key() == next[e.to.1 as int].key());
            assert(ids.contains(ids[e.from.1 as int]));
            assert(ids.contains(ids[e.to.1 as int]));
        }
    }
}

impl State {
    /// Returns the list of transitions from the state: the symbols but ϵ
    /// that its items stand before, in ascending order.
    pub fn transitions(&self, items: &ItemTable) -> (symbols: Vec<usize>)
        requires
            forall|i: int| 0 <= i < self.items.len() ==> self.items[i] < items.list.len(),
        ensures
            increasing(symbols@),
            forall|s: usize|
                symbols@.contains(s) <==> (s != NULL && exists|i: int|
                    0 <= i < self.items.len() && items.list[#[trigger] self.items[i] as int].head
                        == Some(s)),
    {
        let mut symbols: Vec<usize> = Vec::new();
        let mut p: usize = 0;
        while p < self.items.len()
            invariant
                p <= self.items.len(),
                forall|i: int| 0 <= i < self.items.len() ==> self.items[i] < items.list.len(),
                increasing(symbols@),
                forall|s: usize|
                    symbols@.contains(s) <==> (s != NULL && exists|i: int|
                        0 <= i < p && items.list[#[trigger] self.items[i] as int].head == Some(s)),
            decreases self.items.len() - p,
        {
            let ghost before = symbols@;
            match items.list[self.items[p]].head {
                Some(head) => {
                    if head != NULL {
                        insert_unique(&mut symbols, head);
                    }
                },
                None => {},
            }
            proof {
                assert forall|s: usize|
                    symbols@.contains(s) <==> (s != NULL && exists|i: int|
                        0 <= i < p + 1 && items.list[#[trigger] self.items[i] as int].head == Some(
                            s,
                        )) by {
                    if symbols@.contains(s) {
                        if before.contains(s) {
                            let i = choose|i: int|
                                0 <= i < p && items.list[#[trigger] self.items[i] as int].head
                                    == Some(s);
                            assert(0 <= i < p + 1 && items.list[self.items[i] as int].head == Some(
                                s,
                            ));
                        } else {
                            assert(items.list[self.items[p as int] as int].head == Some(s));
                        }
                    }
                    if s != NULL && exists|i: int|
                        0 <= i < p + 1 && items.list[#[trigger] self.items[i] as int].head == Some(
                            s,
                        ) {
                        let i = choose|i: int|
                            0 <= i < p + 1 && items.list[#[trigger] self.items[i] as int].head
                                == Some(s);
                        if i < p {
                            assert(before.contains(s));
                        }
                    }
                }
            }
            p += 1;
        }
        symbols
    }

    /// Derives the next state with specified transition symbol.
    ///
    /// The result is `None` where no item of the state stands before the
    /// symbol. Otherwise the items of the next state are added to the table
    /// where it lacks them, and no other, and the next state is returned
    /// under the ID `state_id`, with the transitions that lead to its items.
    pub fn derive(
        &self,
        symbol: usize,
        grammar: &Grammar,
        items: &mut ItemTable,
        state_id: usize,
    ) -> (result: Option<(State, Vec<ItemTransition>)>)
        requires
            grammar.wf(),
            old(items).wf(),
            old(items).fit(grammar@),
            self.wf(old(items).list@),
        ensures
            final(items).wf(),
            final(items).fit(grammar@),
            old(items).list@.is_prefix_of(final(items).list@),
            result is None <==> forall|p: int|
                0 <= p < self.items.len() ==> old(items).list[#[trigger] self.items[p] as int].head
                    != Some(symbol),
            result is None ==> final(items).list@ == old(items).list@,
            result matches Some((state, transitions)) ==> forall|k: usize|
                old(items).list.len() <= k < final(items).list.len() ==> state.items@.contains(k),
            result matches Some((state, transitions)) ==> state.id == state_id && state.wf(
                final(items).list@,
            ) && derived(
                grammar@,
                final(items).list@,
                self.id,
                self.items@,
                symbol,
                state_id,
                state.items@,
                transitions@,
            ),
    {
        let ghost g = grammar@;
        let ghost before = items.list@;
        let ghost kernel = kernel_cores(before, self.items@, symbol);
        // Keep all items which can transition with the symbol.
        let (mut next, positions) = self.kernel(symbol, grammar, items);
        if next.len() == 0 {
            proof {
                assert forall|p: int| 0 <= p < self.items.len() implies before[#[trigger] self.items[p] as int].head
                    != Some(symbol) by {
                    if before[self.items[p] as int].head == Some(symbol) {
                        assert(positions@.contains(p as usize));
                    }
                }
            }
            return None;
        }
        let ghost first = next@;
        proof {
            assert(positions@.contains(positions[0]));
            assert forall|j: int| 0 <= j < first.len() implies (#[trigger] first[j]).id == j
                && first[j].fits(g) && in_closure(g, kernel, first[j].base()) && first[j].base()
                == before[self.items[positions[j] as int] as int].advanced() && first[j].unique
                == before[self.items[positions[j] as int] as int].unique by {
                assert(positions@.contains(positions[j]));
                let p = positions[j] as int;
                assert(0 <= p < self.items.len());
                let source = before[self.items@[p] as int];
                assert(source.head == Some(symbol));
                assert(source.fits(g));
                assert(g.rules[source.rule as int] == grammar.rules[source.rule as int]@);
                assert(g.rules[source.rule as int].body.len()
                    == grammar.rules[source.rule as int].body.len());
                assert(first[j] == moved(g, source, j as usize));
                assert(first[j].id == j);
                assert(source.dot < g.rules[source.rule as int].body.len());
                assert(first[j].fits(g));
                assert(first[j].base() == source.advanced());
                assert(kernel.contains(source.advanced())) by {
                    assert(before[self.items@[p] as int].head == Some(symbol)
                        && before[self.items@[p] as int].advanced() == source.advanced());
                }
                assert(in_closure(g, kernel, first[j].base()));
            }
            assert forall|a: int, b: int| 0 <= a < b < first.len() implies (#[trigger] first[a]).base()
                != (#[trigger] first[b]).base() by {
                assert(positions@.contains(positions[a]));
                assert(positions@.contains(positions[b]));
                assert(positions[a] < positions[b]);
                let pa = positions[a] as int;
                let pb = positions[b] as int;
                assert(before[self.items@[pa] as int].base() != before[self.items@[pb] as int].base());
                let sa = before[self.items@[pa] as int];
                let sb = before[self.items@[pb] as int];
                assert(sa.fits(g) && sb.fits(g));
                assert(g.rules[sa.rule as int] == grammar.rules[sa.rule as int]@);
                assert(g.rules[sb.rule as int] == grammar.rules[sb.rule as int]@);
                assert(g.rules[sa.rule as int].body.len() == grammar.rules[sa.rule as int].body.len());
                assert(g.rules[sb.rule as int].body.len() == grammar.rules[sb.rule as int].body.len());
                assert(sa.dot < g.rules[sa.rule as int].body.len());
                assert(sb.dot < g.rules[sb.rule as int].body.len());
                assert(first[a] == moved(g, sa, a as usize));
                assert(first[b] == moved(g, sb, b as usize));
            }
        }
        // Derive the items of the closure.
        let edges = close(grammar, &mut next, state_id, Ghost(kernel));
        // Update items with final unique IDs.
        let mut ids: Vec<usize> = Vec::new();
        let mut j: usize = 0;
        while j < next.len()
            invariant
                grammar.wf(),
                g == grammar@,
                items.wf(),
                items.fit(g),
                before.is_prefix_of(items.list@),
                temp_wf(g, next@),
                j <= next.len(),
                ids.len() == j,
                forall|i: int|
                    0 <= i < j ==> #[trigger] ids[i] < items.list.len() && items.list[ids[i] as int].key()
                        == next[i].key(),
                forall|k: usize| before.len() <= k < items.list.len() ==> ids@.contains(k),
            decreases next.len() - j,
        {
            let ghost mid = items.list@;
            let ghost had = ids@;
            let id = items.intern(next[j]);
            ids.push(id);
            proof {
                assert forall|k: usize| before.len() <= k < items.list.len() implies ids@.contains(
                    k,
                ) by {
                    if k < mid.len() {
                        assert(had.contains(k));
                        let i = choose|i: int| 0 <= i < had.len() && had[i] == k;
                        assert(ids[i] == k);
                    } else {
                        if id < mid.len() {
                            assert(mid[id as int] == items.list[id as int]);
                            assert(mid[id as int].key() == next[j as int].key());
                        }
                        assert(ids[j as int] == k);
                    }
                }
                assert forall|i: int| 0 <= i < j + 1 implies #[trigger] ids[i] < items.list.len()
                    && items.list[ids[i] as int].key() == next[i].key() by {
                    if i < j {
                        assert(mid[ids[i] as int] == items.list[ids[i] as int]);
                    }
                }
            }
            j += 1;
        }
        let mut sorted: Vec<usize> = Vec::new();
        let mut j: usize = 0;
        while j < ids.len()
            invariant
                j <= ids.len(),
                increasing(sorted@),
                forall|x: usize| sorted@.contains(x) <==> ids@.subrange(0, j as int).contains(x),
            decreases ids.len() - j,
        {
            let ghost prefix = ids@.subrange(0, j as int);
            insert_unique(&mut sorted, ids[j]);
            proof {
                let longer = ids@.subrange(0, j + 1);
                assert(longer =~= prefix.push(ids[j as int]));
                assert forall|x: usize| sorted@.contains(x) <==> longer.contains(x) by {
                    if longer.contains(x) {
                        let k = choose|k: int| 0 <= k < longer.len() && longer[k] == x;
                        if k < j {
                            assert(prefix[k] == x);
                        }
                    }
                    if prefix.contains(x) {
                        let k = choose|k: int| 0 <= k < prefix.len() && prefix[k] == x;
                        assert(longer[k] == x);
                    }
                    if x == ids[j as int] {
                        assert(longer[j as int] == x);
                    }
                }
            }
            j += 1;
        }
        assert(ids@.subrange(0, ids.len() as int) =~= ids@);
        // Update transitions with correct item IDs.
        let mut transitions: Vec<ItemTransition> = Vec::new();
        let mut j: usize = 0;
        proof {
            assert(positions.len() <= next.len()) by {
                assert(extends(first, next@));
            }
        }
        while j < positions.len()
            invariant
                j <= positions.len(),
                positions.len() <= ids.len(),
                transitions.len() == j,
                forall|p: usize|
                    positions@.contains(p) ==> p < self.items.len(),
                forall|i: int|
                    0 <= i < j ==> #[trigger] transitions[i] == (Transition {
                        from: (self.id, self.items[positions[i] as int]),
                        to: (state_id, ids[i]),
                        symbol,
                    }),
            decreases positions.len() - j,
        {
            assert(positions@.contains(positions[j as int]));
            transitions.push(
                Transition::new((self.id, self.items[positions[j]]), (state_id, ids[j]), symbol),
            );
            j += 1;
        }
        let mut k: usize = 0;
        while k < edges.len()
            invariant
                k <= edges.len(),
                ids.len() == next.len(),
                edges_ok(g, next@, state_id, edges@),
                transitions.len() == positions.len() + k,
                forall|i: int|
                    0 <= i < positions.len() ==> #[trigger] transitions[i] == (Transition {
                        from: (self.id, self.items[positions[i] as int]),
                        to: (state_id, ids[i]),
                        symbol,
                    }),
                forall|i: int|
                    0 <= i < k ==> #[trigger] transitions[positions.len() + i] == (Transition {
                        from: (state_id, ids[edges[i].from.1 as int]),
                        to: (state_id, ids[edges[i].to.1 as int]),
                        symbol: NULL,
                    }),
            decreases edges.len() - k,
        {
            let e = edges[k];
            assert(e.from.1 < next.len() && e.to.1 < next.len());
            transitions.push(
                Transition::new((state_id, ids[e.from.1]), (state_id, ids[e.to.1]), NULL),
            );
            k += 1;
        }
        let state = State::new(state_id, sorted);
        proof {
            assert(extends(first, next@));
            assert forall|i: int| 0 <= i < positions.len() implies (#[trigger] next[i]).base()
                == before[self.items[positions[i] as int] as int].advanced() && (next[i].unique
                ==> before[self.items[positions[i] as int] as int].unique) by {
                assert(next[i] == (Item { unique: next[i].unique, ..first[i] }));
            }
            assert(assembled(
                self.id,
                self.items@,
                symbol,
                state_id,
                positions@,
                edges@,
                ids@,
                transitions@,
            ));
            lemma_assemble(
                g,
                before,
                items.list@,
                self.id,
                self.items@,
                symbol,
                state_id,
                positions@,
                first,
                next@,
                edges@,
                ids@,
                state.items@,
                transitions@,
            );
            assert(exists|p: int|
                0 <= p < self.items.len() && before[#[trigger] self.items[p] as int].head == Some(
                    symbol,
                )) by {
                assert(positions@.contains(positions[0]));
                let p = positions[0] as int;
                assert(before[self.items[p] as int].head == Some(symbol));
            }
        }
        Some((state, transitions))
    }
}

} // verus!
