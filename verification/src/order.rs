//! Stable sorting, as a mathematical definition (insertion sort, each
//! element placed after every earlier one that is not greater, so equal
//! elements keep their input order) with its laws: the result is ordered
//! and holds the same elements.

use vstd::prelude::*;
use vstd::relations::{sorted_by, strongly_connected, transitive};

verus! {

broadcast use vstd::seq_lib::group_to_multiset_ensures;

/// `x` inserted into `s` after every element from the right end of `s`
/// that is not greater than it: the step of a stable insertion sort.
pub open spec fn insert_sorted<T>(s: Seq<T>, x: T, le: spec_fn(T, T) -> bool) -> Seq<T>
    decreases s.len(),
{
    if s.len() == 0 {
        seq![x]
    } else if le(s.last(), x) {
        s.push(x)
    } else {
        insert_sorted(s.drop_last(), x, le).push(s.last())
    }
}

/// `s` sorted by `le`, keeping elements that compare equal in their
/// input order (as `slice::sort_by` does).
pub open spec fn stable_sort<T>(s: Seq<T>, le: spec_fn(T, T) -> bool) -> Seq<T>
    decreases s.len(),
{
    if s.len() == 0 {
        seq![]
    } else {
        insert_sorted(stable_sort(s.drop_last(), le), s.last(), le)
    }
}

/// Where the insertion lands: after position `j - 1`, the last element not
/// greater than `x`, scanning from the right.
pub proof fn lemma_insert_sorted_at<T>(s: Seq<T>, x: T, le: spec_fn(T, T) -> bool, j: int)
    requires
        0 <= j <= s.len(),
        forall|k: int| j <= k < s.len() ==> !le(#[trigger] s[k], x),
        j > 0 ==> le(s[j - 1], x),
    ensures
        insert_sorted(s, x, le) =~= s.take(j).push(x) + s.skip(j),
    decreases s.len(),
{
    if s.len() == 0 {
    } else if j == s.len() {
        assert(s.take(j) =~= s);
    } else {
        assert(!le(s[s.len() - 1], x));
        lemma_insert_sorted_at(s.drop_last(), x, le, j);
        assert(s.drop_last().take(j) =~= s.take(j));
        assert(s.skip(j) =~= s.drop_last().skip(j).push(s.last()));
    }
}

/// Inserting keeps the length and the elements, plus `x`.
pub proof fn lemma_insert_sorted_multiset<T>(s: Seq<T>, x: T, le: spec_fn(T, T) -> bool)
    ensures
        insert_sorted(s, x, le).to_multiset() =~= s.to_multiset().insert(x),
        insert_sorted(s, x, le).len() == s.len() + 1,
    decreases s.len(),
{
    if s.len() == 0 {
        assert(seq![x] =~= Seq::<T>::empty().push(x));
    } else if le(s.last(), x) {
    } else {
        lemma_insert_sorted_multiset(s.drop_last(), x, le);
        assert(s =~= s.drop_last().push(s.last()));
        assert(s.to_multiset() =~= s.drop_last().to_multiset().insert(s.last()));
    }
}

/// Inserting into an ordered sequence gives an ordered sequence.
pub proof fn lemma_insert_sorted_sorted<T>(s: Seq<T>, x: T, le: spec_fn(T, T) -> bool)
    requires
        strongly_connected(le),
        transitive(le),
        sorted_by(s, le),
    ensures
        sorted_by(insert_sorted(s, x, le), le),
    decreases s.len(),
{
    if s.len() == 0 {
    } else if le(s.last(), x) {
        let r = s.push(x);
        assert forall|i: int, j: int| 0 <= i < j < r.len() implies #[trigger] le(r[i], r[j]) by {
            if j == s.len() {
                if i < s.len() - 1 {
                    assert(le(s[i], s[s.len() - 1]));
                }
            } else {
                assert(le(s[i], s[j]));
            }
        }
    } else {
        let t = s.drop_last();
        let last = s.last();
        assert(le(x, last));
        assert(sorted_by(t, le)) by {
            assert forall|i: int, j: int| 0 <= i < j < t.len() implies #[trigger] le(t[i], t[j]) by {
                assert(le(s[i], s[j]));
            }
        }
        lemma_insert_sorted_sorted(t, x, le);
        lemma_insert_sorted_multiset(t, x, le);
        let r0 = insert_sorted(t, x, le);
        let r = r0.push(last);
        assert forall|i: int, j: int| 0 <= i < j < r.len() implies #[trigger] le(r[i], r[j]) by {
            if j == r0.len() {
                let e = r0[i];
                assert(r0.contains(e));
                assert(r0.to_multiset().count(e) > 0);
                assert(t.to_multiset().insert(x).count(e) > 0);
                if e != x {
                    assert(t.to_multiset().count(e) > 0);
                    assert(t.contains(e));
                    let k = choose|k: int| 0 <= k < t.len() && t[k] == e;
                    assert(le(s[k], s[s.len() - 1]));
                }
            } else {
                assert(le(r0[i], r0[j]));
            }
        }
    }
}

/// The stable sort is ordered, and holds exactly the elements of its input.
pub proof fn lemma_stable_sort<T>(s: Seq<T>, le: spec_fn(T, T) -> bool)
    requires
        strongly_connected(le),
        transitive(le),
    ensures
        sorted_by(stable_sort(s, le), le),
        stable_sort(s, le).to_multiset() =~= s.to_multiset(),
        stable_sort(s, le).len() == s.len(),
    decreases s.len(),
{
    if s.len() > 0 {
        lemma_stable_sort(s.drop_last(), le);
        lemma_insert_sorted_sorted(stable_sort(s.drop_last(), le), s.last(), le);
        lemma_insert_sorted_multiset(stable_sort(s.drop_last(), le), s.last(), le);
        assert(s =~= s.drop_last().push(s.last()));
    }
}

} // verus!
