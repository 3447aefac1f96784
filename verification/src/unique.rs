//! Uniqueness of the items of a state.
//!
//! An item is unique if it does not derive itself, and all the items of its
//! state from which the closure derives it are unique and stand at the same
//! place of the same rule. An item that is not unique makes every item
//! derived from it not unique.

use crate::bits::{cleared, count_true, lemma_count_bound, lemma_count_update};
use crate::item::Item;
use crate::transition::ItemTransition;
use vstd::prelude::*;

verus! {

/// The transition derives item `id` from an item of the state.
pub open spec fn is_parent(t: ItemTransition, state: usize, id: usize) -> bool {
    t.from.0 == state && t.to.1 == id
}

/// The transitions that stay inside the state name items of the list.
pub open spec fn edges_within(edges: Seq<ItemTransition>, state: usize, len: nat) -> bool {
    forall|k: int|
        0 <= k < edges.len() && (#[trigger] edges[k]).from.0 == state ==> edges[k].from.1 < len
            && edges[k].to.1 < len
}

/// Where both transitions derive item `id`, the item of the first is unique
/// and stands at the same place of the same rule as that of the second.
pub open spec fn agree(
    items: Seq<Item>,
    edges: Seq<ItemTransition>,
    state: usize,
    id: usize,
    a: int,
    b: int,
) -> bool {
    is_parent(edges[a], state, id) && is_parent(edges[b], state, id) ==> {
        let p = items[edges[a].from.1 as int];
        let q = items[edges[b].from.1 as int];
        p.unique && p.rule == q.rule && p.dot == q.dot
    }
}

/// Item `id` stays unique when it is derived from item `from`: the two are
/// different items, and all that derive `id` are unique and stand at the same
/// place of the same rule.
pub open spec fn stays_unique(
    items: Seq<Item>,
    edges: Seq<ItemTransition>,
    state: usize,
    id: usize,
    from: usize,
) -> bool {
    id != from && forall|a: int, b: int|
        0 <= a < edges.len() && 0 <= b < edges.len() ==> #[trigger] agree(
            items,
            edges,
            state,
            id,
            a,
            b,
        )
}

/// Transition `k` stays inside the state, starts at an item of `s`, and
/// leads to an item that is unique in `items`.
pub open spec fn spread_fires(
    items: Seq<Item>,
    edges: Seq<ItemTransition>,
    state: usize,
    s: Set<usize>,
    k: int,
) -> bool {
    &&& 0 <= k < edges.len()
    &&& edges[k].from.0 == state
    &&& s.contains(edges[k].from.1)
    &&& items[edges[k].to.1 as int].unique
}

/// `s` holds `id` and every unique item that a transition inside the state
/// derives from an item of `s`.
pub open spec fn spread_closed(
    items: Seq<Item>,
    edges: Seq<ItemTransition>,
    state: usize,
    id: usize,
    s: Set<usize>,
) -> bool {
    &&& s.contains(id)
    &&& forall|k: int| #[trigger]
        spread_fires(items, edges, state, s, k) ==> s.contains(edges[k].to.1)
}

/// Item `i` is reached from item `id` along transitions inside the state
/// that lead to unique items: it is in every set closed under them.
pub open spec fn spreads(
    items: Seq<Item>,
    edges: Seq<ItemTransition>,
    state: usize,
    id: usize,
    i: usize,
) -> bool {
    forall|s: Set<usize>| #[trigger] spread_closed(items, edges, state, id, s) ==> s.contains(i)
}

/// Item `id` is reached from itself.
pub proof fn lemma_spreads_root(
    items: Seq<Item>,
    edges: Seq<ItemTransition>,
    state: usize,
    id: usize,
)
    ensures
        spreads(items, edges, state, id, id),
{
}

/// A unique item that a transition inside the state derives from a reached
/// item is reached.
pub proof fn lemma_spreads_step(
    items: Seq<Item>,
    edges: Seq<ItemTransition>,
    state: usize,
    id: usize,
    k: int,
)
    requires
        0 <= k < edges.len(),
        edges[k].from.0 == state,
        spreads(items, edges, state, id, edges[k].from.1),
        items[edges[k].to.1 as int].unique,
    ensures
        spreads(items, edges, state, id, edges[k].to.1),
{
    assert forall|s: Set<usize>| #[trigger] spread_closed(items, edges, state, id, s) implies s.contains(
        edges[k].to.1,
    ) by {
        assert(spread_fires(items, edges, state, s, k));
    }
}

/// The items of the two lists differ in uniqueness only, and no item of the
/// second is unique that is not unique in the first.
pub open spec fn fades(before: Seq<Item>, after: Seq<Item>) -> bool {
    &&& after.len() == before.len()
    &&& forall|i: int|
        0 <= i < before.len() ==> (#[trigger] after[i]) == (Item {
            unique: after[i].unique,
            ..before[i]
        })
    &&& forall|i: int| 0 <= i < before.len() && (#[trigger] after[i]).unique ==> before[i].unique
}

/// The members of a bit vector, as a set of IDs.
pub open spec fn chosen(bits: Seq<bool>) -> Set<usize> {
    Set::new(|x: usize| x < bits.len() && bits[x as int])
}

/// Marks item `id` and every unique item reached from it as not unique.
pub fn spread(id: usize, state: usize, items: &mut Vec<Item>, transitions: &Vec<ItemTransition>)
    requires
        id < old(items).len(),
        old(items)[id as int].unique,
        edges_within(transitions@, state, old(items).len() as nat),
    ensures
        fades(old(items)@, final(items)@),
        forall|i: usize|
            i < old(items).len() ==> (#[trigger] final(items)[i as int].unique <==> (old(
                items,
            )[i as int].unique && !spreads(old(items)@, transitions@, state, id, i))),
{
    let ghost before = items@;
    let ghost edges = transitions@;
    let n = items.len();
    let mut reached = cleared(n);
    reached[id] = true;
    let mut marked = items[id];
    marked.unique = false;
    items[id] = marked;
    loop
        invariant
            n == before.len(),
            items.len() == n,
            reached.len() == n,
            id < n,
            reached[id as int],
            edges == transitions@,
            edges_within(edges, state, n as nat),
            fades(before, items@),
            forall|i: int|
                0 <= i < n ==> (#[trigger] items[i].unique <==> (before[i].unique && !reached[i])),
            forall|i: usize| #[trigger]
                chosen(reached@).contains(i) ==> spreads(before, edges, state, id, i),
        ensures
            items.len() == n,
            fades(before, items@),
            forall|i: usize|
                i < n ==> (#[trigger] items[i as int].unique <==> (before[i as int].unique
                    && !spreads(before, edges, state, id, i))),
        decreases n - count_true(reached@),
    {
        proof {
            lemma_count_bound(reached@);
        }
        let ghost start = reached@;
        let mut changed = false;
        let mut k: usize = 0;
        while k < transitions.len()
            invariant
                n == before.len(),
                items.len() == n,
                reached.len() == n,
                id < n,
                reached[id as int],
                edges == transitions@,
                edges_within(edges, state, n as nat),
                fades(before, items@),
                forall|i: int|
                    0 <= i < n ==> (#[trigger] items[i].unique <==> (before[i].unique
                        && !reached[i])),
                forall|i: usize| #[trigger]
                    chosen(reached@).contains(i) ==> spreads(before, edges, state, id, i),
                k <= transitions.len(),
                count_true(reached@) >= count_true(start),
                changed ==> count_true(reached@) > count_true(start),
                !changed ==> reached@ == start,
                !changed ==> forall|q: int|
                    0 <= q < k && #[trigger] spread_fires(before, edges, state, chosen(reached@), q)
                        ==> chosen(reached@).contains(edges[q].to.1),
            decreases transitions.len() - k,
        {
            let t = transitions[k];
            if t.from.0 == state {
                let a = t.from.1;
                let b = t.to.1;
                if reached[a] && items[b].unique {
                    let ghost mid = reached@;
                    let ghost mid_items = items@;
                    proof {
                        lemma_count_update(mid, b as int, true);
                        assert(chosen(mid).contains(a));
                        assert forall|s: Set<usize>| #[trigger]
                            spread_closed(before, edges, state, id, s) implies s.contains(b) by {
                            assert(s.contains(a));
                            assert(spread_fires(before, edges, state, s, k as int));
                        }
                    }
                    reached[b] = true;
                    let mut marked = items[b];
                    marked.unique = false;
                    items[b] = marked;
                    changed = true;
                    proof {
                        assert forall|i: usize| #[trigger]
                            chosen(reached@).contains(i) implies spreads(
                            before,
                            edges,
                            state,
                            id,
                            i,
                        ) by {
                            if i != b {
                                assert(chosen(mid).contains(i));
                            }
                        }
                    }
                }
            }
            k += 1;
        }
        if !changed {
            proof {
                let s = chosen(reached@);
                assert(s.contains(id));
                assert(spread_closed(before, edges, state, id, s));
                assert forall|i: usize| i < n implies (#[trigger] items[i as int].unique <==> (
                before[i as int].unique && !spreads(before, edges, state, id, i))) by {
                    if spreads(before, edges, state, id, i) {
                        assert(s.contains(i));
                    }
                    if reached[i as int] {
                        assert(s.contains(i));
                    }
                }
            }
            break;
        }
        proof {
            lemma_count_bound(reached@);
        }
    }
}

/// Updates the item uniqueness if necessary.
///
/// Item `id` has just been derived once more, from item `from.1` of state
/// `from.0`. Where it was unique and does not stay so, it and every unique
/// item reached from it are marked as not unique. An item that is not unique
/// never becomes unique again.
pub fn update_uniqueness(
    id: usize,
    from: (usize, usize),
    items: &mut Vec<Item>,
    transitions: &Vec<ItemTransition>,
)
    requires
        id < old(items).len(),
        edges_within(transitions@, from.0, old(items).len() as nat),
    ensures
        fades(old(items)@, final(items)@),
        !old(items)[id as int].unique || stays_unique(
            old(items)@,
            transitions@,
            from.0,
            id,
            from.1,
        ) ==> final(items)@ == old(items)@,
        old(items)[id as int].unique && !stays_unique(
            old(items)@,
            transitions@,
            from.0,
            id,
            from.1,
        ) ==> forall|i: usize|
            i < old(items).len() ==> (#[trigger] final(items)[i as int].unique <==> (old(
                items,
            )[i as int].unique && !spreads(old(items)@, transitions@, from.0, id, i))),
{
    if !items[id].unique {
        return;
    }
    let ghost edges = transitions@;
    let ghost list = items@;
    if id != from.1 {
        // All its parents must be unique and represent the same rule.
        let mut first: Option<(usize, usize)> = None;
        let ghost mut witness: int = 0;
        let mut keep = true;
        let mut k: usize = 0;
        while k < transitions.len()
            invariant_except_break
                keep,
                match first {
                    Some((rule, dot)) => 0 <= witness < k && is_parent(edges[witness], from.0, id)
                        && list[edges[witness].from.1 as int].rule == rule
                        && list[edges[witness].from.1 as int].dot == dot,
                    None => forall|q: int| 0 <= q < k ==> !is_parent(#[trigger] edges[q], from.0, id),
                },
                forall|q: int|
                    0 <= q < k && is_parent(#[trigger] edges[q], from.0, id) ==> list[edges[q].from.1 as int].unique
                        && first == Some(
                        (list[edges[q].from.1 as int].rule, list[edges[q].from.1 as int].dot),
                    ),
            invariant
                edges == transitions@,
                list == items@,
                *items == *old(items),
                id < items.len(),
                id != from.1,
                edges_within(edges, from.0, items.len() as nat),
                k <= transitions.len(),
            ensures
                keep ==> stays_unique(list, edges, from.0, id, from.1),
                !keep ==> !stays_unique(list, edges, from.0, id, from.1),
            decreases transitions.len() - k,
        {
            let t = transitions[k];
            if t.from.0 == from.0 && t.to.1 == id {
                let parent = items[t.from.1];
                if !parent.unique {
                    keep = false;
                    assert(!agree(list, edges, from.0, id, k as int, k as int));
                    break;
                }
                match first {
                    None => {
                        first = Some((parent.rule, parent.dot));
                        proof {
                            witness = k as int;
                        }
                    },
                    Some((rule, dot)) => {
                        if parent.rule != rule || parent.dot != dot {
                            keep = false;
                            assert(!agree(list, edges, from.0, id, k as int, witness));
                            break;
                        }
                    },
                }
            }
            k += 1;
        }
        if keep {
            return;
        }
    }
    spread(id, from.0, items, transitions);
}

} // verus!
