//! Operations on ordered sets of numbers, stated over their views.

use std::collections::BTreeSet;
use vstd::prelude::*;
use vstd::seq_lib::*;
use vstd::set_lib::*;
use vstd::std_specs::btree::*;
use vstd::std_specs::iter::IteratorSpec;

verus! {

broadcast use vstd::laws_cmp::group_laws_cmp;

/// An ordered set holds finitely many items.
pub proof fn lemma_finite(set: &BTreeSet<usize>)
    ensures
        set@.finite(),
{
    let items = spec_btree_keys_iter(set).remaining().unref();
    assert(items.to_set() == set@);
    seq_to_set_is_finite(items);
}

/// The items of `set`, each once.
pub fn set_items(set: &BTreeSet<usize>) -> (items: Vec<usize>)
    ensures
        items@.to_set() == set@,
        items@.no_duplicates(),
        items@.len() == set@.len(),
        set@.finite(),
{
    let mut items: Vec<usize> = Vec::new();
    let ghost keys = spec_btree_keys_iter(set).remaining();
    for item in it: set.iter()
        invariant
            it.seq() == keys,
            items@ == keys.take(it.index()).unref(),
    {
        items.push(*item);
    }
    proof {
        assert(items@ == keys.unref());
        items@.unique_seq_to_set();
        lemma_finite(set);
    }
    items
}

/// Adds every item of `from` to `into`.
pub fn insert_all(into: &mut BTreeSet<usize>, from: &BTreeSet<usize>)
    ensures
        final(into)@ == old(into)@.union(from@),
{
    let items = set_items(from);
    let mut i: usize = 0;
    while i < items.len()
        invariant
            i <= items.len(),
            into@ == old(into)@.union(items@.take(i as int).to_set()),
        decreases items.len() - i,
    {
        proof {
            items@.lemma_take_succ_push(i as int);
            items@.take(i as int).lemma_push_to_set_commute(items@[i as int]);
        }
        into.insert(items[i]);
        i += 1;
    }
    assert(items@.take(items@.len() as int) == items@);
}

/// The items of `left` that `right` does not hold.
pub fn difference(left: &BTreeSet<usize>, right: &BTreeSet<usize>) -> (rest: BTreeSet<usize>)
    ensures
        rest@ == left@.difference(right@),
{
    let items = set_items(left);
    let mut rest: BTreeSet<usize> = BTreeSet::new();
    let mut i: usize = 0;
    while i < items.len()
        invariant
            i <= items.len(),
            rest@ == items@.take(i as int).to_set().difference(right@),
        decreases items.len() - i,
    {
        proof {
            items@.lemma_take_succ_push(i as int);
            items@.take(i as int).lemma_push_to_set_commute(items@[i as int]);
        }
        if !right.contains(&items[i]) {
            rest.insert(items[i]);
        }
        i += 1;
    }
    assert(items@.take(items@.len() as int) == items@);
    rest
}

/// Whether the two sets share an item.
pub fn intersects(left: &BTreeSet<usize>, right: &BTreeSet<usize>) -> (shared: bool)
    ensures
        shared == !left@.disjoint(right@),
{
    let items = set_items(left);
    let mut i: usize = 0;
    while i < items.len()
        invariant
            i <= items.len(),
            items@.to_set() == left@,
            forall|j: int| 0 <= j < i ==> !right@.contains(#[trigger] items@[j]),
        decreases items.len() - i,
    {
        if right.contains(&items[i]) {
            assert(left@.contains(items@[i as int]));
            return true;
        }
        i += 1;
    }
    assert forall|item: usize| left@.contains(item) implies !right@.contains(item) by {
        assert(items@.to_set().contains(item));
        let j = choose|j: int| 0 <= j < items@.len() && items@[j] == item;
    }
    false
}

/// Whether the two sets hold the same items.
pub fn same_items(left: &BTreeSet<usize>, right: &BTreeSet<usize>) -> (same: bool)
    ensures
        same == (left@ == right@),
{
    let items = set_items(left);
    let others = set_items(right);
    if items.len() != others.len() {
        return false;
    }
    let mut i: usize = 0;
    while i < items.len()
        invariant
            i <= items.len(),
            items@.to_set() == left@,
            forall|j: int| 0 <= j < i ==> right@.contains(#[trigger] items@[j]),
        decreases items.len() - i,
    {
        if !right.contains(&items[i]) {
            assert(left@.contains(items@[i as int]));
            return false;
        }
        i += 1;
    }
    proof {
        assert forall|item: usize| left@.contains(item) implies right@.contains(item) by {
            assert(items@.to_set().contains(item));
            let j = choose|j: int| 0 <= j < items@.len() && items@[j] == item;
        }
        lemma_subset_equality(left@, right@);
        assert(left@ =~= right@);
    }
    true
}

} // verus!
