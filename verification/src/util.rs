//! Helpers on lists of IDs.

use vstd::prelude::*;
use vstd::seq_lib::{to_multiset_build, to_multiset_insert};

verus! {

/// The list is in ascending order; equal neighbours are allowed.
pub open spec fn ascending(s: Seq<usize>) -> bool {
    forall|i: int, j: int| 0 <= i <= j < s.len() ==> s[i] <= s[j]
}

/// The list is in strictly ascending order, so nothing occurs twice.
pub open spec fn increasing(s: Seq<usize>) -> bool {
    forall|i: int, j: int| 0 <= i < j < s.len() ==> s[i] < s[j]
}

/// Two strictly ascending lists that hold the same values are the same
/// list.
pub proof fn lemma_increasing_same(a: Seq<usize>, b: Seq<usize>)
    requires
        increasing(a),
        increasing(b),
        forall|x: usize| a.contains(x) <==> b.contains(x),
    ensures
        a == b,
    decreases a.len(),
{
    if a.len() == 0 {
        if b.len() > 0 {
            assert(b.contains(b[0]));
        }
        assert(a =~= b);
    } else {
        let last = a.last();
        assert(a.contains(last));
        assert(b.contains(last));
        let k = choose|k: int| 0 <= k < b.len() && b[k] == last;
        if k < b.len() - 1 {
            assert(b.contains(b.last()));
            let m = choose|m: int| 0 <= m < a.len() && a[m] == b.last();
            assert(b[k] < b[b.len() - 1]);
            if m < a.len() - 1 {
                assert(a[m] < a[a.len() - 1]);
            }
        }
        let front = a.drop_last();
        let other = b.drop_last();
        assert forall|x: usize| front.contains(x) <==> other.contains(x) by {
            if front.contains(x) {
                let i = choose|i: int| 0 <= i < front.len() && front[i] == x;
                assert(a[i] == x);
                assert(a[i] < a[a.len() - 1]);
                assert(a.contains(x));
                let j = choose|j: int| 0 <= j < b.len() && b[j] == x;
                assert(other[j] == x);
            }
            if other.contains(x) {
                let j = choose|j: int| 0 <= j < other.len() && other[j] == x;
                assert(b[j] == x);
                assert(b[j] < b[b.len() - 1]);
                assert(b.contains(x));
                let i = choose|i: int| 0 <= i < a.len() && a[i] == x;
                assert(front[i] == x);
            }
        }
        lemma_increasing_same(front, other);
        assert(a =~= front.push(last));
        assert(b =~= other.push(last));
    }
}

/// Returns the index of the first occurrence of an element in a list.
pub fn get_index(vec: &[usize], value: usize) -> (idx: usize)
    requires
        vec@.contains(value),
    ensures
        idx < vec.len(),
        vec[idx as int] == value,
        forall|i: int| 0 <= i < idx ==> vec[i] != value,
{
    let mut idx: usize = 0;
    while idx < vec.len()
        invariant
            idx <= vec.len(),
            vec@.contains(value),
            forall|i: int| 0 <= i < idx ==> vec[i] != value,
        decreases vec.len() - idx,
    {
        if vec[idx] == value {
            return idx;
        }
        idx += 1;
    }
    proof {
        let k = choose|k: int| 0 <= k < vec.len() && vec[k] == value;
        assert(false);
    }
    idx
}

/// Puts a value into a strictly ascending list, unless the list holds it.
pub fn insert_unique(sorted: &mut Vec<usize>, value: usize)
    requires
        increasing(old(sorted)@),
    ensures
        increasing(final(sorted)@),
        forall|x: usize| final(sorted)@.contains(x) <==> (old(sorted)@.contains(x) || x == value),
        final(sorted).len() == old(sorted).len() + (if old(sorted)@.contains(value) {
            0int
        } else {
            1int
        }),
{
    let mut at: usize = 0;
    while at < sorted.len() && sorted[at] < value
        invariant
            *sorted == *old(sorted),
            at <= sorted.len(),
            forall|k: int| 0 <= k < at ==> sorted[k] < value,
        decreases sorted.len() - at,
    {
        at += 1;
    }
    let ghost before = sorted@;
    if at < sorted.len() && sorted[at] == value {
        assert(before.contains(value));
        return;
    }
    assert(!before.contains(value)) by {
        if before.contains(value) {
            let k = choose|k: int| 0 <= k < before.len() && before[k] == value;
            if k > at {
                assert(before[at as int] < before[k]);
            }
        }
    }
    sorted.insert(at, value);
    proof {
        let after = sorted@;
        assert forall|i: int, j: int| 0 <= i < j < after.len() implies after[i] < after[j] by {
            if j < at {
                assert(before[i] < before[j]);
            } else if i < at && j == at {
            } else if i < at && j > at {
                assert(before[j - 1] >= before[at as int]);
                assert(before[i] < value);
                if j - 1 > at {
                    assert(before[at as int] < before[j - 1]);
                }
            } else if i == at {
                if j - 1 > at {
                    assert(before[at as int] < before[j - 1]);
                }
            } else {
                assert(before[i - 1] < before[j - 1]);
            }
        }
        assert forall|x: usize| after.contains(x) <==> (before.contains(x) || x == value) by {
            if after.contains(x) {
                let k = choose|k: int| 0 <= k < after.len() && after[k] == x;
                if k < at {
                    assert(before[k] == x);
                } else if k > at {
                    assert(before[k - 1] == x);
                }
            }
            if before.contains(x) {
                let k = choose|k: int| 0 <= k < before.len() && before[k] == x;
                if k < at {
                    assert(after[k] == x);
                } else {
                    assert(after[k + 1] == x);
                }
            }
            if x == value {
                assert(after[at as int] == x);
            }
        }
    }
}

/// Converts a collection to a sorted vector: the same elements, each as often
/// as before, in ascending order.
pub fn to_sorted_vec(collection: Vec<usize>) -> (sorted: Vec<usize>)
    ensures
        ascending(sorted@),
        sorted@.to_multiset() == collection@.to_multiset(),
{
    let mut sorted: Vec<usize> = Vec::new();
    let mut taken: usize = 0;
    assert(sorted@ =~= collection@.subrange(0, 0));
    while taken < collection.len()
        invariant
            taken <= collection.len(),
            ascending(sorted@),
            sorted@.to_multiset() == collection@.subrange(0, taken as int).to_multiset(),
        decreases collection.len() - taken,
    {
        let value = collection[taken];
        let mut at: usize = 0;
        while at < sorted.len() && sorted[at] <= value
            invariant
                at <= sorted.len(),
                forall|k: int| 0 <= k < at ==> sorted[k] <= value,
            decreases sorted.len() - at,
        {
            at += 1;
        }
        let ghost before = sorted@;
        sorted.insert(at, value);
        proof {
            to_multiset_insert(before, at as int, value);
            let prefix = collection@.subrange(0, taken as int);
            to_multiset_build(prefix, value);
            assert(collection@.subrange(0, taken + 1) =~= prefix.push(value));
            assert forall|i: int, j: int| 0 <= i <= j < sorted.len() implies sorted[i]
                <= sorted[j] by {
                if i < at && j > at {
                    assert(before[i] <= before[j - 1]);
                } else if i > at {
                    assert(before[i - 1] <= before[j - 1]);
                } else if j < at {
                    assert(before[i] <= before[j]);
                } else if i == at && j > at {
                    assert(before[at as int] <= before[j - 1]);
                }
            }
        }
        taken += 1;
    }
    assert(collection@.subrange(0, taken as int) =~= collection@);
    sorted
}

} // verus!
