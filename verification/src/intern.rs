//! Insertion-ordered sets that give items and states their IDs: the ID of a
//! value is its index in the order of insertion.

use crate::item::ItemKey;
use indexmap::IndexSet;
use vstd::prelude::*;

verus! {

/// `indexmap::IndexSet`, a set that keeps its values in the order of their
/// insertion. Nothing of what a value of the type holds is known to the
/// proofs but what the functions below state.
#[verifier::external_type_specification]
#[verifier::external_body]
#[verifier::reject_recursive_types(T)]
#[verifier::reject_recursive_types(S)]
pub struct ExIndexSet<T, S>(IndexSet<T, S>);

/// The item keys that a set holds, in the order of their insertion.
pub uninterp spec fn item_keys(set: IndexSet<ItemKey>) -> Seq<ItemKey>;

/// The item lists that a set holds, in the order of their insertion.
pub uninterp spec fn state_keys(set: IndexSet<Vec<usize>>) -> Seq<Seq<usize>>;

/// `indexmap::IndexSet::new`: the new set holds nothing.
#[verifier::external_body]
pub(crate) fn item_set_new() -> (set: IndexSet<ItemKey>)
    ensures
        item_keys(set).len() == 0,
{
    IndexSet::new()
}

/// `indexmap::IndexSet::insert_full`: a key that the set holds stays where
/// it is, and its index comes back with `false`; a new key is put behind all
/// others, and its index comes back with `true`.
#[verifier::external_body]
pub(crate) fn item_set_insert(set: &mut IndexSet<ItemKey>, key: ItemKey) -> (result: (usize, bool))
    ensures
        result.1 == !item_keys(*old(set)).contains(key),
        result.1 ==> item_keys(*final(set)) == item_keys(*old(set)).push(key) && result.0
            == item_keys(*old(set)).len(),
        !result.1 ==> item_keys(*final(set)) == item_keys(*old(set)) && result.0 < item_keys(
            *old(set),
        ).len() && item_keys(*old(set))[result.0 as int] == key,
{
    set.insert_full(key)
}

/// `indexmap::IndexSet::new`: the new set holds nothing.
#[verifier::external_body]
pub(crate) fn state_set_new() -> (set: IndexSet<Vec<usize>>)
    ensures
        state_keys(set).len() == 0,
{
    IndexSet::new()
}

/// `indexmap::IndexSet::get_index_of`: the index of the list, if the set
/// holds it.
#[verifier::external_body]
pub(crate) fn state_set_index_of(set: &IndexSet<Vec<usize>>, key: &Vec<usize>) -> (index: Option<
    usize,
>)
    ensures
        match index {
            Some(i) => i < state_keys(*set).len() && state_keys(*set)[i as int] == key@,
            None => !state_keys(*set).contains(key@),
        },
{
    set.get_index_of(key)
}

/// `indexmap::IndexSet::insert_full`: a list that the set holds stays where
/// it is, and its index comes back with `false`; a new list is put behind
/// all others, and its index comes back with `true`.
#[verifier::external_body]
pub(crate) fn state_set_insert(set: &mut IndexSet<Vec<usize>>, key: Vec<usize>) -> (result: (
    usize,
    bool,
))
    ensures
        result.1 == !state_keys(*old(set)).contains(key@),
        result.1 ==> state_keys(*final(set)) == state_keys(*old(set)).push(key@) && result.0
            == state_keys(*old(set)).len(),
        !result.1 ==> state_keys(*final(set)) == state_keys(*old(set)) && result.0 < state_keys(
            *old(set),
        ).len() && state_keys(*old(set))[result.0 as int] == key@,
{
    set.insert_full(key)
}

} // verus!
