//! Merge sort.

use vstd::prelude::*;

verus! {

broadcast use vstd::seq_lib::group_to_multiset_ensures;

/// Items with a total preorder to sort them by.
pub trait SortItem: Sized {
    /// Whether `self` may stand before `other`.
    spec fn sorts_before(&self, other: &Self) -> bool;

    proof fn lemma_total_preorder(a: &Self, b: &Self, c: &Self)
        ensures
            a.sorts_before(a),
            a.sorts_before(b) || b.sorts_before(a),
            a.sorts_before(b) && b.sorts_before(c) ==> a.sorts_before(c),
    ;

    /// Whether `self` may stand before `other`.
    fn is_before(&self, other: &Self) -> (before: bool)
        ensures
            before == self.sorts_before(other),
    ;
}

/// Every item may stand before each that follows it.
pub open spec fn is_sorted<T: SortItem>(items: Seq<T>) -> bool {
    forall|i: int, j: int|
        #![trigger items[i], items[j]]
        0 <= i < j < items.len() ==> items[i].sorts_before(&items[j])
}

/// Puts the items in the opposite order.
pub fn reversed<T>(items: Vec<T>) -> (result: Vec<T>)
    ensures
        result@ == items@.reverse(),
{
    let mut items = items;
    let ghost all = items@;
    let mut result: Vec<T> = Vec::with_capacity(items.len());
    while items.len() > 0
        invariant
            items@ == all.take(items@.len() as int),
            items@.len() <= all.len(),
            result@ == all.skip(items@.len() as int).reverse(),
        decreases items@.len(),
    {
        let ghost n = items@.len() as int;
        let item = items.pop().unwrap();
        result.push(item);
        assert(all.skip(n - 1).reverse() =~= all.skip(n).reverse().push(all[n - 1]));
        assert(items@ =~= all.take(n - 1));
    }
    assert(all.skip(0) =~= all);
    result
}

/// Merges two sorted vectors.
fn merge<T: SortItem>(left: Vec<T>, right: Vec<T>) -> (merged: Vec<T>)
    requires
        is_sorted(left@),
        is_sorted(right@),
    ensures
        is_sorted(merged@),
        merged@.to_multiset() == left@.to_multiset().add(right@.to_multiset()),
{
    let mut left = left;
    let mut right = right;
    let ghost all = left@.to_multiset().add(right@.to_multiset());
    // What has been taken so far, last item first.
    let mut taken: Vec<T> = Vec::with_capacity(0);
    while left.len() > 0 || right.len() > 0
        invariant
            is_sorted(left@),
            is_sorted(right@),
            forall|i: int, j: int|
                #![trigger taken@[i], taken@[j]]
                0 <= i < j < taken@.len() ==> taken@[j].sorts_before(&taken@[i]),
            forall|i: int, j: int|
                #![trigger left@[i], taken@[j]]
                0 <= i < left@.len() && 0 <= j < taken@.len() ==> left@[i].sorts_before(
                    &taken@[j],
                ),
            forall|i: int, j: int|
                #![trigger right@[i], taken@[j]]
                0 <= i < right@.len() && 0 <= j < taken@.len() ==> right@[i].sorts_before(
                    &taken@[j],
                ),
            all == left@.to_multiset().add(right@.to_multiset()).add(taken@.to_multiset()),
        decreases left@.len() + right@.len(),
    {
        let take_right = right.len() > 0 && (left.len() == 0 || left[left.len() - 1].is_before(
            &right[right.len() - 1],
        ));
        let ghost old_left = left@;
        let ghost old_right = right@;
        let ghost old_taken = taken@;
        let item = if take_right {
            right.pop().unwrap()
        } else {
            left.pop().unwrap()
        };
        proof {
            if take_right {
                assert(old_right =~= right@.push(item));
                assert forall|i: int| 0 <= i < old_left.len() implies (
                #[trigger] old_left[i]).sorts_before(&item) by {
                    T::lemma_total_preorder(&old_left[i], &old_left.last(), &item);
                }
            } else {
                assert(old_left =~= left@.push(item));
                assert forall|i: int| 0 <= i < old_right.len() implies (
                #[trigger] old_right[i]).sorts_before(&item) by {
                    T::lemma_total_preorder(&old_right[i], &old_right.last(), &item);
                    T::lemma_total_preorder(&old_right.last(), &item, &item);
                }
            }
        }
        taken.push(item);
        assert(taken@.to_multiset() =~= old_taken.to_multiset().insert(item));
        assert(old_left.to_multiset().add(old_right.to_multiset()) =~= left@.to_multiset().add(
            right@.to_multiset(),
        ).insert(item));
        assert(all =~= left@.to_multiset().add(right@.to_multiset()).add(taken@.to_multiset()));
    }
    assert(all =~= taken@.to_multiset()) by {
        assert(left@ =~= Seq::<T>::empty());
        assert(right@ =~= Seq::<T>::empty());
    }
    let ghost rev = taken@;
    let merged = reversed(taken);
    proof {
        rev.lemma_reverse_to_multiset();
    }
    merged
}

/// Sorts the items.
pub fn sort<T: SortItem>(items: Vec<T>) -> (sorted: Vec<T>)
    ensures
        is_sorted(sorted@),
        sorted@.to_multiset() == items@.to_multiset(),
    decreases items@.len(),
{
    if items.len() <= 1 {
        return items;
    }
    let mut left = items;
    let half = left.len() / 2;
    let ghost all = left@;
    let right = left.split_off(half);
    proof {
        assert(all =~= left@ + right@);
        vstd::seq_lib::lemma_multiset_commutative(left@, right@);
    }
    merge(sort(left), sort(right))
}

} // verus!
