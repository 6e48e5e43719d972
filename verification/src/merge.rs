//! The merge step: combining two sorted sequences into one sorted sequence
//! in a single linear pass. `merge_spec` is the mathematical description;
//! `sorted_merge` is the executable merge, proved to return exactly
//! `merge_spec` of its inputs.

use crate::order::ties;
use crate::order::TotalOrder;
use vstd::multiset::Multiset;
use vstd::prelude::*;
use vstd::seq_lib::lemma_multiset_commutative;

verus! {

/// A sequence is sorted: every element is `le_spec` every later element.
pub open spec fn sorted<T: TotalOrder>(s: Seq<T>) -> bool {
    forall|i: int, j: int| 0 <= i < j < s.len() ==> #[trigger] s[i].le_spec(s[j])
}

/// The stable merge of two sequences: repeatedly take the smaller head,
/// the left one on ties; once one side is empty, take the rest of the other.
pub open spec fn merge_spec<T: TotalOrder>(left: Seq<T>, right: Seq<T>) -> Seq<T>
    decreases left.len() + right.len(),
{
    if left.len() == 0 {
        right
    } else if right.len() == 0 {
        left
    } else if left[0].le_spec(right[0]) {
        seq![left[0]] + merge_spec(left.drop_first(), right)
    } else {
        seq![right[0]] + merge_spec(left, right.drop_first())
    }
}

/// The merge has the length of both inputs together.
pub proof fn lemma_merge_spec_len<T: TotalOrder>(left: Seq<T>, right: Seq<T>)
    ensures
        merge_spec(left, right).len() == left.len() + right.len(),
    decreases left.len() + right.len(),
{
    if left.len() == 0 {
    } else if right.len() == 0 {
    } else if left[0].le_spec(right[0]) {
        lemma_merge_spec_len(left.drop_first(), right);
    } else {
        lemma_merge_spec_len(left, right.drop_first());
    }
}

/// The merge holds exactly the elements of both inputs: its multiset is the
/// multiset union of theirs. This holds whether or not the inputs are sorted.
pub proof fn lemma_merge_spec_multiset<T: TotalOrder>(left: Seq<T>, right: Seq<T>)
    ensures
        merge_spec(left, right).to_multiset() == left.to_multiset().add(right.to_multiset()),
    decreases left.len() + right.len(),
{
    broadcast use vstd::seq_lib::group_to_multiset_ensures;

    if left.len() == 0 {
        assert(left.to_multiset() =~= Multiset::<T>::empty()) by {
            assert(forall|a: T| !left.contains(a));
        }
        assert(merge_spec(left, right).to_multiset() =~= left.to_multiset().add(
            right.to_multiset(),
        ));
    } else if right.len() == 0 {
        assert(right.to_multiset() =~= Multiset::<T>::empty()) by {
            assert(forall|a: T| !right.contains(a));
        }
        assert(merge_spec(left, right).to_multiset() =~= left.to_multiset().add(
            right.to_multiset(),
        ));
    } else if left[0].le_spec(right[0]) {
        lemma_merge_spec_multiset(left.drop_first(), right);
        lemma_multiset_commutative(seq![left[0]], merge_spec(left.drop_first(), right));
        assert(seq![left[0]] + left.drop_first() =~= left);
        lemma_multiset_commutative(seq![left[0]], left.drop_first());
        assert(merge_spec(left, right).to_multiset() =~= left.to_multiset().add(
            right.to_multiset(),
        ));
    } else {
        lemma_merge_spec_multiset(left, right.drop_first());
        lemma_multiset_commutative(seq![right[0]], merge_spec(left, right.drop_first()));
        assert(seq![right[0]] + right.drop_first() =~= right);
        lemma_multiset_commutative(seq![right[0]], right.drop_first());
        assert(merge_spec(left, right).to_multiset() =~= left.to_multiset().add(
            right.to_multiset(),
        ));
    }
}

/// Merging two sorted sequences gives a sorted sequence, whose head, when it
/// exists, is the head of one of the inputs.
pub proof fn lemma_merge_spec_sorted<T: TotalOrder>(left: Seq<T>, right: Seq<T>)
    requires
        sorted(left),
        sorted(right),
    ensures
        sorted(merge_spec(left, right)),
        merge_spec(left, right).len() > 0 ==> (left.len() > 0 && merge_spec(left, right)[0]
            == left[0]) || (right.len() > 0 && merge_spec(left, right)[0] == right[0]),
    decreases left.len() + right.len(),
{
    if left.len() == 0 {
    } else if right.len() == 0 {
    } else {
        if left[0].le_spec(right[0]) {
            let rest = merge_spec(left.drop_first(), right);
            lemma_merge_spec_sorted(left.drop_first(), right);
            lemma_merge_spec_len(left.drop_first(), right);
            let m = merge_spec(left, right);
            assert(m == seq![left[0]] + rest);
            if rest.len() > 0 {
                assert(left[0].le_spec(rest[0])) by {
                    if left.drop_first().len() > 0 && rest[0] == left.drop_first()[0] {
                        assert(left[0].le_spec(left[1]));
                    }
                }
                assert forall|k: int| 0 < k < m.len() implies #[trigger] m[0].le_spec(m[k]) by {
                    assert(m[k] == rest[k - 1]);
                    if k > 1 {
                        assert(rest[0].le_spec(rest[k - 1]));
                        T::lemma_transitive(left[0], rest[0], rest[k - 1]);
                    }
                }
            }
            assert forall|i: int, j: int| 0 <= i < j < m.len() implies #[trigger] m[i].le_spec(
                m[j],
            ) by {
                if i > 0 {
                    assert(m[i] == rest[i - 1] && m[j] == rest[j - 1]);
                }
            }
        } else {
            T::lemma_total(left[0], right[0]);
            let rest = merge_spec(left, right.drop_first());
            lemma_merge_spec_sorted(left, right.drop_first());
            lemma_merge_spec_len(left, right.drop_first());
            let m = merge_spec(left, right);
            assert(m == seq![right[0]] + rest);
            if rest.len() > 0 {
                assert(right[0].le_spec(rest[0])) by {
                    if right.drop_first().len() > 0 && rest[0] == right.drop_first()[0] {
                        assert(right[0].le_spec(right[1]));
                    }
                }
                assert forall|k: int| 0 < k < m.len() implies #[trigger] m[0].le_spec(m[k]) by {
                    assert(m[k] == rest[k - 1]);
                    if k > 1 {
                        assert(rest[0].le_spec(rest[k - 1]));
                        T::lemma_transitive(right[0], rest[0], rest[k - 1]);
                    }
                }
            }
            assert forall|i: int, j: int| 0 <= i < j < m.len() implies #[trigger] m[i].le_spec(
                m[j],
            ) by {
                if i > 0 {
                    assert(m[i] == rest[i - 1] && m[j] == rest[j - 1]);
                }
            }
        }
    }
}

/// The subsequence of elements that tie with `pivot`, in their original
/// order.
pub open spec fn ties_of<T: TotalOrder>(s: Seq<T>, pivot: T) -> Seq<T>
    decreases s.len(),
{
    if s.len() == 0 {
        Seq::empty()
    } else if ties(s[0], pivot) {
        seq![s[0]] + ties_of(s.drop_first(), pivot)
    } else {
        ties_of(s.drop_first(), pivot)
    }
}

/// `ties_of` distributes over concatenation.
pub proof fn lemma_ties_of_add<T: TotalOrder>(a: Seq<T>, b: Seq<T>, pivot: T)
    ensures
        ties_of(a + b, pivot) == ties_of(a, pivot) + ties_of(b, pivot),
    decreases a.len(),
{
    if a.len() == 0 {
        assert(a + b =~= b);
        assert(ties_of(a, pivot) + ties_of(b, pivot) =~= ties_of(b, pivot));
    } else {
        assert((a + b).drop_first() =~= a.drop_first() + b);
        assert((a + b)[0] == a[0]);
        lemma_ties_of_add(a.drop_first(), b, pivot);
        if ties(a[0], pivot) {
            assert(ties_of(a + b, pivot) =~= ties_of(a, pivot) + ties_of(b, pivot));
        }
    }
}

/// A sequence none of whose elements tie with `pivot` contributes nothing.
proof fn lemma_ties_of_none<T: TotalOrder>(s: Seq<T>, pivot: T)
    requires
        forall|i: int| 0 <= i < s.len() ==> !ties(#[trigger] s[i], pivot),
    ensures
        ties_of(s, pivot) == Seq::<T>::empty(),
    decreases s.len(),
{
    if s.len() == 0 {
    } else {
        assert forall|i: int| 0 <= i < s.drop_first().len() implies !ties(
            #[trigger] s.drop_first()[i],
            pivot,
        ) by {
            assert(s.drop_first()[i] == s[i + 1]);
        }
        lemma_ties_of_none(s.drop_first(), pivot);
    }
}

/// Dropping the first element keeps a sequence sorted.
proof fn lemma_sorted_drop_first<T: TotalOrder>(s: Seq<T>)
    requires
        s.len() > 0,
        sorted(s),
    ensures
        sorted(s.drop_first()),
{
    assert forall|i: int, j: int|
        0 <= i < j < s.drop_first().len() implies #[trigger] s.drop_first()[i].le_spec(
        s.drop_first()[j],
    ) by {
        assert(s.drop_first()[i] == s[i + 1]);
        assert(s.drop_first()[j] == s[j + 1]);
        assert(s[i + 1].le_spec(s[j + 1]));
    }
}

/// The merge is stable: the elements that tie with any fixed pivot appear in
/// the merge as those of the left input first, then those of the right, each
/// group in its original order.
pub proof fn lemma_merge_spec_stable<T: TotalOrder>(left: Seq<T>, right: Seq<T>, pivot: T)
    requires
        sorted(left),
        sorted(right),
    ensures
        ties_of(merge_spec(left, right), pivot) == ties_of(left, pivot) + ties_of(right, pivot),
    decreases left.len() + right.len(),
{
    if left.len() == 0 {
        assert(ties_of(left, pivot) + ties_of(right, pivot) =~= ties_of(right, pivot));
    } else if right.len() == 0 {
        assert(ties_of(left, pivot) + ties_of(right, pivot) =~= ties_of(left, pivot));
    } else if left[0].le_spec(right[0]) {
        let m = merge_spec(left, right);
        lemma_sorted_drop_first(left);
        lemma_merge_spec_stable(left.drop_first(), right, pivot);
        assert(m == seq![left[0]] + merge_spec(left.drop_first(), right));
        assert(m.drop_first() =~= merge_spec(left.drop_first(), right));
        assert(ties_of(m, pivot) =~= ties_of(left, pivot) + ties_of(right, pivot));
    } else {
        T::lemma_total(left[0], right[0]);
        let m = merge_spec(left, right);
        lemma_sorted_drop_first(right);
        lemma_merge_spec_stable(left, right.drop_first(), pivot);
        assert(m == seq![right[0]] + merge_spec(left, right.drop_first()));
        assert(m.drop_first() =~= merge_spec(left, right.drop_first()));
        if ties(right[0], pivot) {
            assert forall|i: int| 0 <= i < left.len() implies !ties(#[trigger] left[i], pivot) by {
                if ties(left[i], pivot) {
                    T::lemma_transitive(left[i], pivot, right[0]);
                    if i > 0 {
                        T::lemma_transitive(left[0], left[i], right[0]);
                    }
                    assert(false);
                }
            }
            lemma_ties_of_none(left, pivot);
            assert(ties_of(m, pivot) =~= ties_of(left, pivot) + ties_of(right, pivot));
        } else {
            assert(ties_of(m, pivot) =~= ties_of(left, pivot) + ties_of(right, pivot));
        }
    }
}

/// Splitting a sorted sequence anywhere and merging the two parts gives the
/// sequence back unchanged.
pub proof fn lemma_merge_spec_of_sorted_concat<T: TotalOrder>(left: Seq<T>, right: Seq<T>)
    requires
        sorted(left + right),
    ensures
        merge_spec(left, right) == left + right,
    decreases left.len() + right.len(),
{
    if left.len() == 0 {
        assert(left + right =~= right);
    } else if right.len() == 0 {
        assert(left + right =~= left);
    } else {
        let whole = left + right;
        assert(left[0] == whole[0]);
        assert(right[0] == whole[left.len() as int]);
        assert(left[0].le_spec(right[0]));
        let lrest = left.drop_first();
        assert(lrest + right =~= whole.drop_first());
        assert(sorted(lrest + right)) by {
            assert forall|i: int, j: int|
                0 <= i < j < (lrest + right).len() implies #[trigger] (lrest + right)[i].le_spec(
                (lrest + right)[j],
            ) by {
                assert((lrest + right)[i] == whole[i + 1]);
                assert((lrest + right)[j] == whole[j + 1]);
                assert(whole[i + 1].le_spec(whole[j + 1]));
            }
        }
        lemma_merge_spec_of_sorted_concat(lrest, right);
        assert(merge_spec(left, right) == seq![left[0]] + (lrest + right));
        assert(seq![left[0]] + (lrest + right) =~= left + right);
    }
}

/// Merge two individually sorted vectors into one sorted vector holding all
/// elements of both; on ties the left element comes first. The result is
/// exactly `merge_spec` of the inputs; if the inputs were not sorted it is
/// still a permutation of them (the multiset clause), just not sorted.
pub fn sorted_merge<T: TotalOrder>(sorted_left: Vec<T>, sorted_right: Vec<T>) -> (result: Vec<T>)
    ensures
        result@ == merge_spec(sorted_left@, sorted_right@),
        result@.len() == sorted_left@.len() + sorted_right@.len(),
        sorted(sorted_left@) && sorted(sorted_right@) ==> sorted(result@),
        result@.to_multiset() == sorted_left@.to_multiset().add(sorted_right@.to_multiset()),
{
    let ghost lv = sorted_left@;
    let ghost rv = sorted_right@;
    let mut result: Vec<T> = Vec::new();
    let mut i: usize = 0;
    let mut j: usize = 0;

    proof {
        assert(lv.skip(0) =~= lv);
        assert(rv.skip(0) =~= rv);
        assert(result@ + merge_spec(lv.skip(0), rv.skip(0)) =~= merge_spec(lv, rv));
    }

    while i < sorted_left.len() && j < sorted_right.len()
        invariant
            i <= lv.len(),
            j <= rv.len(),
            sorted_left@ == lv,
            sorted_right@ == rv,
            merge_spec(lv, rv) == result@ + merge_spec(lv.skip(i as int), rv.skip(j as int)),
        decreases lv.len() - i + rv.len() - j,
    {
        let ghost ls = lv.skip(i as int);
        let ghost rs = rv.skip(j as int);
        if sorted_left[i].le(&sorted_right[j]) {
            result.push(sorted_left[i].duplicate());
            proof {
                assert(ls[0] == lv[i as int] && rs[0] == rv[j as int]);
                assert(ls.drop_first() =~= lv.skip(i as int + 1));
                assert(merge_spec(ls, rs) == seq![ls[0]] + merge_spec(ls.drop_first(), rs));
                assert(result@ + merge_spec(lv.skip(i as int + 1), rv.skip(j as int))
                    =~= merge_spec(lv, rv));
            }
            i += 1;
        } else {
            result.push(sorted_right[j].duplicate());
            proof {
                assert(ls[0] == lv[i as int] && rs[0] == rv[j as int]);
                assert(rs.drop_first() =~= rv.skip(j as int + 1));
                assert(merge_spec(ls, rs) == seq![rs[0]] + merge_spec(ls, rs.drop_first()));
                assert(result@ + merge_spec(lv.skip(i as int), rv.skip(j as int + 1))
                    =~= merge_spec(lv, rv));
            }
            j += 1;
        }
    }

    while i < sorted_left.len()
        invariant
            i <= lv.len(),
            j <= rv.len(),
            sorted_left@ == lv,
            sorted_right@ == rv,
            i < lv.len() ==> j == rv.len(),
            merge_spec(lv, rv) == result@ + merge_spec(lv.skip(i as int), rv.skip(j as int)),
        decreases lv.len() - i,
    {
        let ghost ls = lv.skip(i as int);
        let ghost rs = rv.skip(j as int);
        result.push(sorted_left[i].duplicate());
        proof {
            assert(rs =~= Seq::<T>::empty());
            assert(merge_spec(ls, rs) == ls);
            assert(ls =~= seq![lv[i as int]] + lv.skip(i as int + 1));
            assert(merge_spec(lv.skip(i as int + 1), rs) == lv.skip(i as int + 1));
            assert(result@ + merge_spec(lv.skip(i as int + 1), rv.skip(j as int))
                =~= merge_spec(lv, rv));
        }
        i += 1;
    }

    while j < sorted_right.len()
        invariant
            i <= lv.len(),
            j <= rv.len(),
            sorted_left@ == lv,
            sorted_right@ == rv,
            j < rv.len() ==> i == lv.len(),
            merge_spec(lv, rv) == result@ + merge_spec(lv.skip(i as int), rv.skip(j as int)),
        decreases rv.len() - j,
    {
        let ghost ls = lv.skip(i as int);
        let ghost rs = rv.skip(j as int);
        result.push(sorted_right[j].duplicate());
        proof {
            assert(ls =~= Seq::<T>::empty());
            assert(merge_spec(ls, rs) == rs);
            assert(rs =~= seq![rv[j as int]] + rv.skip(j as int + 1));
            assert(merge_spec(ls, rv.skip(j as int + 1)) == rv.skip(j as int + 1));
            assert(result@ + merge_spec(lv.skip(i as int), rv.skip(j as int + 1))
                =~= merge_spec(lv, rv));
        }
        j += 1;
    }

    proof {
        assert(lv.skip(i as int) =~= Seq::<T>::empty());
        assert(rv.skip(j as int) =~= Seq::<T>::empty());
        assert(merge_spec(lv.skip(i as int), rv.skip(j as int)) == Seq::<T>::empty());
        assert(result@ =~= merge_spec(lv, rv));
        lemma_merge_spec_len(lv, rv);
        lemma_merge_spec_multiset(lv, rv);
        if sorted(lv) && sorted(rv) {
            lemma_merge_spec_sorted(lv, rv);
        }
    }
    result
}

} // verus!
