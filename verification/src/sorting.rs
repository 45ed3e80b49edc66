//! A stable sort by a comparison, stated as insertion sort, with what every
//! stable sort gives: the result is ordered, holds the same elements, and
//! keeps equal elements in their first order.

use vstd::prelude::*;

verus! {

/// `le` is a total preorder: any two elements compare, and it is transitive.
pub open spec fn is_total_preorder<T>(le: spec_fn(T, T) -> bool) -> bool {
    &&& forall|a: T, b: T| #[trigger] le(a, b) || #[trigger] le(b, a)
    &&& forall|a: T, b: T, c: T| #[trigger] le(a, b) && #[trigger] le(b, c) ==> le(a, c)
}

/// The position at which `x` goes into `s`: after every leading element that
/// is not greater than `x`.
pub open spec fn insert_pos<T>(s: Seq<T>, x: T, le: spec_fn(T, T) -> bool) -> int
    decreases s.len(),
{
    if s.len() == 0 {
        0
    } else if !le(s[0], x) {
        0
    } else {
        1 + insert_pos(s.drop_first(), x, le)
    }
}

/// `s` sorted by `le`, stably: each element in turn goes after every element
/// before it that is not greater.
pub open spec fn sort_by<T>(s: Seq<T>, le: spec_fn(T, T) -> bool) -> Seq<T>
    decreases s.len(),
{
    if s.len() == 0 {
        s
    } else {
        let r = sort_by(s.drop_last(), le);
        r.insert(insert_pos(r, s.last(), le), s.last())
    }
}

/// `s` is ordered by `le`.
pub open spec fn is_sorted_by<T>(s: Seq<T>, le: spec_fn(T, T) -> bool) -> bool {
    forall|i: int, j: int| 0 <= i < j < s.len() ==> le(#[trigger] s[i], #[trigger] s[j])
}

pub proof fn lemma_insert_pos<T>(s: Seq<T>, x: T, le: spec_fn(T, T) -> bool)
    ensures
        0 <= insert_pos(s, x, le) <= s.len(),
        forall|j: int| 0 <= j < insert_pos(s, x, le) ==> le(#[trigger] s[j], x),
        insert_pos(s, x, le) < s.len() ==> !le(s[insert_pos(s, x, le)], x),
    decreases s.len(),
{
    if s.len() > 0 && le(s[0], x) {
        lemma_insert_pos(s.drop_first(), x, le);
        assert forall|j: int| 0 <= j < insert_pos(s, x, le) implies le(#[trigger] s[j], x) by {
            if j > 0 {
                assert(s[j] == s.drop_first()[j - 1]);
            }
        }
    }
}

/// Sorting keeps the elements: the result is a permutation of the input.
pub proof fn lemma_sort_by_permutes<T>(s: Seq<T>, le: spec_fn(T, T) -> bool)
    ensures
        sort_by(s, le).len() == s.len(),
        sort_by(s, le).to_multiset() == s.to_multiset(),
    decreases s.len(),
{
    if s.len() > 0 {
        let r = sort_by(s.drop_last(), le);
        lemma_sort_by_permutes(s.drop_last(), le);
        lemma_insert_pos(r, s.last(), le);
        vstd::seq_lib::to_multiset_insert(r, insert_pos(r, s.last(), le), s.last());
        vstd::seq_lib::to_multiset_build(s.drop_last(), s.last());
        assert(s.drop_last().push(s.last()) =~= s);
    }
}

/// Sorting by a total preorder gives an ordered sequence.
pub proof fn lemma_sort_by_sorted<T>(s: Seq<T>, le: spec_fn(T, T) -> bool)
    requires
        is_total_preorder(le),
    ensures
        is_sorted_by(sort_by(s, le), le),
    decreases s.len(),
{
    if s.len() > 0 {
        let r = sort_by(s.drop_last(), le);
        let x = s.last();
        lemma_sort_by_sorted(s.drop_last(), le);
        lemma_insert_pos(r, x, le);
        let p = insert_pos(r, x, le);
        let out = r.insert(p, x);
        assert forall|i: int, j: int| 0 <= i < j < out.len() implies le(
            #[trigger] out[i],
            #[trigger] out[j],
        ) by {
            if j < p {
                assert(out[i] == r[i] && out[j] == r[j]);
            } else if j == p {
                assert(out[i] == r[i]);
            } else if i == p {
                assert(out[j] == r[j - 1]);
                assert(le(x, r[p]));
                if j - 1 > p {
                    assert(le(r[p], r[j - 1]));
                }
            } else if i < p {
                assert(out[i] == r[i] && out[j] == r[j - 1]);
            } else {
                assert(out[i] == r[i - 1] && out[j] == r[j - 1]);
            }
        }
    }
}

} // verus!

verus! {

/// `a` and `b` compare equal under `le`.
pub open spec fn equiv<T>(le: spec_fn(T, T) -> bool, a: T, b: T) -> bool {
    le(a, b) && le(b, a)
}

proof fn lemma_filter_none<T>(s: Seq<T>, pred: spec_fn(T) -> bool)
    requires
        forall|j: int| 0 <= j < s.len() ==> !pred(#[trigger] s[j]),
    ensures
        s.filter(pred) == Seq::<T>::empty(),
    decreases s.len(),
{
    reveal(Seq::filter);
    if s.len() > 0 {
        assert forall|j: int| 0 <= j < s.drop_last().len() implies !pred(#[trigger] s.drop_last()[j]) by {
            assert(s.drop_last()[j] == s[j]);
        }
        lemma_filter_none(s.drop_last(), pred);
    } else {
        assert(s =~= Seq::<T>::empty());
    }
}

proof fn lemma_filter_single<T>(x: T, pred: spec_fn(T) -> bool)
    ensures
        seq![x].filter(pred) == (if pred(x) {
            seq![x]
        } else {
            Seq::<T>::empty()
        }),
{
    reveal(Seq::filter);
    assert(seq![x].drop_last() =~= Seq::<T>::empty());
    assert(Seq::<T>::empty().filter(pred) == Seq::<T>::empty());
    assert(Seq::<T>::empty().push(x) =~= seq![x]);
}

/// Sorting is stable: the elements that compare equal to any given `k` come
/// out in the order in which they went in.
pub proof fn lemma_sort_by_stable<T>(s: Seq<T>, le: spec_fn(T, T) -> bool, k: T)
    requires
        is_total_preorder(le),
    ensures
        sort_by(s, le).filter(|e: T| equiv(le, e, k)) == s.filter(|e: T| equiv(le, e, k)),
    decreases s.len(),
{
    let pred = |e: T| equiv(le, e, k);
    if s.len() > 0 {
        let s0 = s.drop_last();
        let r = sort_by(s0, le);
        let x = s.last();
        lemma_sort_by_stable(s0, le, k);
        lemma_sort_by_sorted(s0, le);
        lemma_insert_pos(r, x, le);
        let p = insert_pos(r, x, le);
        let front = r.take(p);
        let back = r.skip(p);
        assert(r =~= front + back);
        assert(r.insert(p, x) =~= front + seq![x] + back);
        Seq::filter_distributes_over_add(front, back, pred);
        Seq::filter_distributes_over_add(front + seq![x], back, pred);
        Seq::filter_distributes_over_add(front, seq![x], pred);
        reveal(Seq::filter);
        assert(s0.push(x) =~= s);
        assert(s.filter(pred) == if pred(x) {
            s0.filter(pred).push(x)
        } else {
            s0.filter(pred)
        });
        lemma_filter_single(x, pred);
        if pred(x) {
            assert forall|j: int| 0 <= j < back.len() implies !pred(#[trigger] back[j]) by {
                assert(back[j] == r[p + j]);
                if pred(back[j]) {
                    assert(le(back[j], x));
                    if j > 0 {
                        assert(le(r[p], r[p + j]));
                    }
                    assert(le(r[p], x));
                }
            }
            lemma_filter_none(back, pred);
        }
    }
}

} // verus!

verus! {

/// Stability, pairwise: when the input's elements come with strictly rising
/// keys, any two output elements whose order `le` does not force (the later
/// one is not greater than the earlier) keep their input order.
pub proof fn lemma_sort_by_ties_in_order<T>(s: Seq<T>, le: spec_fn(T, T) -> bool, key: spec_fn(T) -> int)
    requires
        is_total_preorder(le),
        forall|i: int, j: int| 0 <= i < j < s.len() ==> key(#[trigger] s[i]) < key(#[trigger] s[j]),
    ensures
        ({
            let out = sort_by(s, le);
            forall|a: int, b: int|
                0 <= a < b < out.len() && le(#[trigger] out[b], #[trigger] out[a]) ==> key(out[a])
                    < key(out[b])
        }),
    decreases s.len(),
{
    if s.len() > 0 {
        let s0 = s.drop_last();
        let x = s.last();
        let r = sort_by(s0, le);
        lemma_sort_by_ties_in_order(s0, le, key);
        lemma_sort_by_sorted(s0, le);
        lemma_sort_by_permutes(s0, le);
        lemma_insert_pos(r, x, le);
        let p = insert_pos(r, x, le);
        let out = r.insert(p, x);
        assert forall|i: int| 0 <= i < r.len() implies key(#[trigger] r[i]) < key(x) by {
            vstd::seq_lib::to_multiset_contains(r, r[i]);
            assert(r.contains(r[i]));
            vstd::seq_lib::to_multiset_contains(s0, r[i]);
            let w = choose|w: int| 0 <= w < s0.len() && s0[w] == r[i];
            assert(s[w] == s0[w]);
            assert(s[s.len() - 1] == x);
        }
        assert forall|a: int, b: int|
            0 <= a < b < out.len() && le(#[trigger] out[b], #[trigger] out[a]) implies key(out[a])
            < key(out[b]) by {
            if b < p {
                assert(out[a] == r[a] && out[b] == r[b]);
            } else if b == p {
                assert(out[a] == r[a]);
            } else if a == p {
                assert(out[b] == r[b - 1]);
                if b - 1 > p {
                    assert(le(r[p], r[b - 1]));
                }
                assert(!le(r[p], x));
            } else if a < p {
                assert(out[a] == r[a] && out[b] == r[b - 1]);
            } else {
                assert(out[a] == r[a - 1] && out[b] == r[b - 1]);
            }
        }
    }
}

} // verus!
