//! Merge sort itself: split the input in half, sort the halves, merge.
//! `sort_spec` is the mathematical description; `merge_sort_sequential`
//! sorts the halves one after the other, `merge_sort_parallel` hands them
//! to worker threads and joins, and both return exactly `sort_spec` of the
//! input, so the two variants always agree.

use crate::merge::lemma_merge_spec_multiset;
use crate::merge::lemma_merge_spec_of_sorted_concat;
use crate::merge::lemma_merge_spec_sorted;
use crate::merge::lemma_merge_spec_stable;
use crate::merge::lemma_ties_of_add;
use crate::merge::merge_spec;
use crate::merge::sorted;
use crate::merge::sorted_merge;
use crate::merge::ties_of;
use crate::order::TotalOrder;
use vstd::prelude::*;
use vstd::seq_lib::lemma_multiset_commutative;
use vstd::slice::slice_subrange;

verus! {

/// Merge sort as a mathematical function: sequences of length at most one
/// are already sorted; a longer sequence is split at the midpoint (an odd
/// length leaves the extra element on the right), the halves are sorted,
/// and the sorted halves are merged.
pub open spec fn sort_spec<T: TotalOrder>(s: Seq<T>) -> Seq<T>
    decreases s.len(),
{
    if s.len() <= 1 {
        s
    } else {
        merge_spec(
            sort_spec(s.subrange(0, s.len() as int / 2)),
            sort_spec(s.subrange(s.len() as int / 2, s.len() as int)),
        )
    }
}

/// The sort's output is sorted, for every input.
pub proof fn lemma_sort_spec_sorted<T: TotalOrder>(s: Seq<T>)
    ensures
        sorted(sort_spec(s)),
    decreases s.len(),
{
    if s.len() <= 1 {
    } else {
        let mid = s.len() as int / 2;
        let left = s.subrange(0, mid);
        let right = s.subrange(mid, s.len() as int);
        lemma_sort_spec_sorted(left);
        lemma_sort_spec_sorted(right);
        lemma_merge_spec_sorted(sort_spec(left), sort_spec(right));
    }
}

/// The sort's output holds exactly the elements of the input: sorting is a
/// permutation, never a filter.
pub proof fn lemma_sort_spec_multiset<T: TotalOrder>(s: Seq<T>)
    ensures
        sort_spec(s).to_multiset() == s.to_multiset(),
    decreases s.len(),
{
    if s.len() <= 1 {
    } else {
        let mid = s.len() as int / 2;
        let left = s.subrange(0, mid);
        let right = s.subrange(mid, s.len() as int);
        lemma_sort_spec_multiset(left);
        lemma_sort_spec_multiset(right);
        lemma_merge_spec_multiset(sort_spec(left), sort_spec(right));
        assert(s =~= left + right);
        lemma_multiset_commutative(left, right);
        assert(sort_spec(s).to_multiset() =~= s.to_multiset());
    }
}

/// The sort keeps the length of the input.
pub proof fn lemma_sort_spec_len<T: TotalOrder>(s: Seq<T>)
    ensures
        sort_spec(s).len() == s.len(),
{
    lemma_sort_spec_multiset(s);
    s.to_multiset_ensures();
    sort_spec(s).to_multiset_ensures();
}

/// The empty sequence and any one-element sequence come back unchanged.
pub proof fn lemma_sort_spec_empty_singleton<T: TotalOrder>(x: T)
    ensures
        sort_spec(Seq::<T>::empty()) == Seq::<T>::empty(),
        sort_spec(seq![x]) == seq![x],
{
}

/// Sorting an already sorted sequence changes nothing.
pub proof fn lemma_sort_spec_of_sorted<T: TotalOrder>(s: Seq<T>)
    requires
        sorted(s),
    ensures
        sort_spec(s) == s,
    decreases s.len(),
{
    if s.len() <= 1 {
    } else {
        let mid = s.len() as int / 2;
        let left = s.subrange(0, mid);
        let right = s.subrange(mid, s.len() as int);
        assert(sorted(left)) by {
            assert forall|i: int, j: int|
                0 <= i < j < left.len() implies #[trigger] left[i].le_spec(left[j]) by {
                assert(left[i] == s[i] && left[j] == s[j]);
            }
        }
        assert(sorted(right)) by {
            assert forall|i: int, j: int|
                0 <= i < j < right.len() implies #[trigger] right[i].le_spec(right[j]) by {
                assert(right[i] == s[mid + i] && right[j] == s[mid + j]);
            }
        }
        lemma_sort_spec_of_sorted(left);
        lemma_sort_spec_of_sorted(right);
        assert(left + right =~= s);
        lemma_merge_spec_of_sorted_concat(left, right);
    }
}

/// Stability: the elements that tie with any fixed pivot keep their relative
/// order — picking them out of the sorted output gives the same sequence as
/// picking them out of the input.
pub proof fn lemma_sort_spec_stable<T: TotalOrder>(s: Seq<T>, pivot: T)
    ensures
        ties_of(sort_spec(s), pivot) == ties_of(s, pivot),
    decreases s.len(),
{
    if s.len() <= 1 {
    } else {
        let mid = s.len() as int / 2;
        let left = s.subrange(0, mid);
        let right = s.subrange(mid, s.len() as int);
        lemma_sort_spec_stable(left, pivot);
        lemma_sort_spec_stable(right, pivot);
        lemma_sort_spec_sorted(left);
        lemma_sort_spec_sorted(right);
        lemma_merge_spec_stable(sort_spec(left), sort_spec(right), pivot);
        assert(left + right =~= s);
        lemma_ties_of_add(left, right, pivot);
    }
}

/// Idempotence: sorting a second time changes nothing.
pub proof fn lemma_sort_spec_idempotent<T: TotalOrder>(s: Seq<T>)
    ensures
        sort_spec(sort_spec(s)) == sort_spec(s),
{
    lemma_sort_spec_sorted(s);
    lemma_sort_spec_of_sorted(sort_spec(s));
}

/// A copy of the input, element by element; the base case of both sorts.
fn duplicate_all<T: TotalOrder>(collection: &[T]) -> (r: Vec<T>)
    ensures
        r@ == collection@,
{
    let mut r: Vec<T> = Vec::new();
    let mut i: usize = 0;
    proof {
        assert(r@ =~= collection@.subrange(0, 0));
    }
    while i < collection.len()
        invariant
            i <= collection@.len(),
            r@ == collection@.subrange(0, i as int),
        decreases collection@.len() - i,
    {
        r.push(collection[i].duplicate());
        proof {
            assert(r@ =~= collection@.subrange(0, i as int + 1));
        }
        i += 1;
    }
    proof {
        assert(r@ =~= collection@);
    }
    r
}

/// Sequential merge sort: a new vector holding the elements of `collection`
/// in non-decreasing order — exactly `sort_spec` of the input, so the output
/// is the same on every run. The input is only read, never changed.
pub fn merge_sort_sequential<T: TotalOrder>(collection: &[T]) -> (r: Vec<T>)
    ensures
        r@ == sort_spec(collection@),
        sorted(r@),
        r@.to_multiset() == collection@.to_multiset(),
        r@.len() == collection@.len(),
    decreases collection@.len(),
{
    proof {
        lemma_sort_spec_sorted(collection@);
        lemma_sort_spec_multiset(collection@);
        lemma_sort_spec_len(collection@);
    }
    if collection.len() > 1 {
        let mid = collection.len() / 2;
        let left = slice_subrange(collection, 0, mid);
        let right = slice_subrange(collection, mid, collection.len());
        let sorted_left = merge_sort_sequential(left);
        let sorted_right = merge_sort_sequential(right);
        sorted_merge(sorted_left, sorted_right)
    } else {
        duplicate_all(collection)
    }
}

/// Relies on rayon::join: it runs both closures to completion, possibly on
/// separate worker threads, returns the pair of their results, and
/// propagates a panic in either closure to the caller. Each closure here is
/// one call of the verified `merge_sort_parallel`, whose contract gives the
/// clauses below.
#[verifier::external_body]
fn sort_halves_parallel<T: TotalOrder + Send + Sync>(left: &[T], right: &[T]) -> (r: (
    Vec<T>,
    Vec<T>,
))
    ensures
        r.0@ == sort_spec(left@),
        r.1@ == sort_spec(right@),
{
    rayon::join(|| merge_sort_parallel(left), || merge_sort_parallel(right))
}

/// Parallel merge sort: the same input/output contract as
/// `merge_sort_sequential` — the result is exactly `sort_spec` of the input,
/// so the two variants always return the same vector, whatever the thread
/// scheduling. The two recursive half-sorts run as a fork-join pair and the
/// merge only starts once both have finished.
pub fn merge_sort_parallel<T: TotalOrder + Send + Sync>(collection: &[T]) -> (r: Vec<T>)
    ensures
        r@ == sort_spec(collection@),
        sorted(r@),
        r@.to_multiset() == collection@.to_multiset(),
        r@.len() == collection@.len(),
{
    proof {
        lemma_sort_spec_sorted(collection@);
        lemma_sort_spec_multiset(collection@);
        lemma_sort_spec_len(collection@);
    }
    if collection.len() > 1 {
        let mid = collection.len() / 2;
        let left = slice_subrange(collection, 0, mid);
        let right = slice_subrange(collection, mid, collection.len());
        let (sorted_left, sorted_right) = sort_halves_parallel(left, right);
        sorted_merge(sorted_left, sorted_right)
    } else {
        duplicate_all(collection)
    }
}

} // verus!
