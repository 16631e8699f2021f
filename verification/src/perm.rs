//! Facts about rearranged sequences.
//!
//! Building a tree rearranges the elements. Two sequences hold the same
//! elements, each as often, when their multisets are equal; the lemmas here
//! say what such sequences have in common.

use vstd::prelude::*;
use vstd::multiset::Multiset;
use vstd::seq_lib::{
    lemma_multiset_commutative, to_multiset_build, to_multiset_contains, to_multiset_insert,
    to_multiset_len, to_multiset_remove, to_multiset_update,
};
use crate::geom::{all_valid, rects_of, Axis, BBox, Rect};
use crate::node::{is_median, starts_before, starts_by};

verus! {

/// `s` with the items at `i` and `j` exchanged.
pub open spec fn swapped<A>(s: Seq<A>, i: int, j: int) -> Seq<A> {
    s.update(i, s[j]).update(j, s[i])
}

/// Exchanging two items rearranges a sequence.
pub proof fn lemma_swap_multiset<A>(s: Seq<A>, i: int, j: int)
    requires
        0 <= i < s.len(),
        0 <= j < s.len(),
    ensures
        swapped(s, i, j).to_multiset() == s.to_multiset(),
{
    broadcast use vstd::multiset::group_multiset_axioms;

    let t = s.update(i, s[j]);
    to_multiset_update(s, i, s[j]);
    to_multiset_update(t, j, s[i]);
    to_multiset_contains(s, s[i]);
    to_multiset_contains(s, s[j]);
    assert(s.contains(s[i]));
    assert(s.contains(s[j]));
    assert(t[j] == s[j]);
    assert(swapped(s, i, j).to_multiset() =~= s.to_multiset());
}

/// Rearranged sequences have the same length.
pub proof fn lemma_permuted_len<A>(a: Seq<A>, b: Seq<A>)
    requires
        a.to_multiset() == b.to_multiset(),
    ensures
        a.len() == b.len(),
{
    to_multiset_len(a);
    to_multiset_len(b);
}

/// Every item of a sequence occurs in each rearrangement of it.
pub proof fn lemma_permuted_item<A>(a: Seq<A>, b: Seq<A>, i: int) -> (j: int)
    requires
        a.to_multiset() == b.to_multiset(),
        0 <= i < a.len(),
    ensures
        0 <= j < b.len(),
        b[j] == a[i],
{
    to_multiset_contains(a, a[i]);
    to_multiset_contains(b, a[i]);
    assert(a.contains(a[i]));
    choose|j: int| 0 <= j < b.len() && b[j] == a[i]
}

/// The bounding boxes of rearranged elements are rearranged bounding boxes.
pub proof fn lemma_rects_permuted<T>(a: Seq<BBox<T>>, b: Seq<BBox<T>>)
    requires
        a.to_multiset() == b.to_multiset(),
    ensures
        rects_of(a).to_multiset() == rects_of(b).to_multiset(),
    decreases a.len(),
{
    lemma_permuted_len(a, b);
    if a.len() == 0 {
        assert(rects_of(a) =~= rects_of(b));
    } else {
        let last = a.len() - 1;
        let x = a[last];
        let j = lemma_permuted_item(a, b, last);
        let a1 = a.remove(last);
        let b1 = b.remove(j);
        to_multiset_remove(a, last);
        to_multiset_remove(b, j);
        lemma_rects_permuted(a1, b1);
        assert(rects_of(a) =~= rects_of(a1).push(x.rect));
        assert(rects_of(b) =~= rects_of(b1).insert(j, x.rect));
        to_multiset_build(rects_of(a1), x.rect);
        to_multiset_insert(rects_of(b1), j, x.rect);
    }
}

/// Rearranging valid rectangles leaves them valid.
pub proof fn lemma_valid_permuted(a: Seq<Rect>, b: Seq<Rect>)
    requires
        a.to_multiset() == b.to_multiset(),
        all_valid(a),
    ensures
        all_valid(b),
{
    assert forall|i: int| 0 <= i < b.len() implies (#[trigger] b[i]).valid() by {
        let j = lemma_permuted_item(b, a, i);
        assert(a[j].valid());
    }
}

/// What holds of every item of a sequence holds of every item of each
/// rearrangement of it.
pub proof fn lemma_all_permuted<A>(a: Seq<A>, b: Seq<A>, p: spec_fn(A) -> bool)
    requires
        a.to_multiset() == b.to_multiset(),
        forall|i: int| 0 <= i < a.len() ==> p(#[trigger] a[i]),
    ensures
        forall|i: int| 0 <= i < b.len() ==> p(#[trigger] b[i]),
{
    assert forall|i: int| 0 <= i < b.len() implies p(#[trigger] b[i]) by {
        let j = lemma_permuted_item(b, a, i);
        assert(p(a[j]));
    }
}

/// The multiset of a sequence in three parts.
pub proof fn lemma_three_parts<A>(a: Seq<A>, b: Seq<A>, c: Seq<A>)
    ensures
        (a + b + c).to_multiset() == a.to_multiset().add(b.to_multiset()).add(c.to_multiset()),
{
    lemma_multiset_commutative(a, b);
    lemma_multiset_commutative(a + b, c);
}

/// Filtering a multiset keeps no more than it has.
pub proof fn lemma_filter_len_le<A>(m: Multiset<A>, p: spec_fn(A) -> bool)
    ensures
        m.filter(p).len() <= m.len(),
{
    broadcast use vstd::multiset::group_multiset_axioms;

    let q = |a: A| !p(a);
    assert(m =~= m.filter(p).add(m.filter(q)));
}

/// Filtering a sequence of which every item passes keeps all of it.
pub proof fn lemma_filter_all<A>(s: Seq<A>, p: spec_fn(A) -> bool)
    requires
        forall|i: int| 0 <= i < s.len() ==> p(#[trigger] s[i]),
    ensures
        s.to_multiset().filter(p) == s.to_multiset(),
{
    broadcast use vstd::multiset::group_multiset_axioms;

    assert forall|a: A| s.to_multiset().filter(p).count(a) == s.to_multiset().count(a) by {
        if !p(a) {
            to_multiset_contains(s, a);
            if s.contains(a) {
                let i = choose|i: int| 0 <= i < s.len() && s[i] == a;
                assert(p(s[i]));
            }
        }
    }
    assert(s.to_multiset().filter(p) =~= s.to_multiset());
}

/// Filtering a sequence of which no item passes keeps nothing.
pub proof fn lemma_filter_none<A>(s: Seq<A>, p: spec_fn(A) -> bool)
    requires
        forall|i: int| 0 <= i < s.len() ==> !p(#[trigger] s[i]),
    ensures
        s.to_multiset().filter(p).len() == 0,
{
    broadcast use vstd::multiset::group_multiset_axioms;

    assert forall|a: A| s.to_multiset().filter(p).count(a) == 0 by {
        if p(a) {
            to_multiset_contains(s, a);
            if s.contains(a) {
                let i = choose|i: int| 0 <= i < s.len() && s[i] == a;
                assert(!p(s[i]));
            }
        }
    }
    assert(s.to_multiset().filter(p) =~= Multiset::empty());
}

/// Filtering a sum of multisets filters each.
pub proof fn lemma_filter_add<A>(m1: Multiset<A>, m2: Multiset<A>, p: spec_fn(A) -> bool)
    ensures
        m1.add(m2).filter(p) == m1.filter(p).add(m2.filter(p)),
{
    broadcast use vstd::multiset::group_multiset_axioms;

    assert(m1.add(m2).filter(p) =~= m1.filter(p).add(m2.filter(p)));
}

/// Once the rectangle whose start belongs at index `k` has been put there,
/// with nothing that starts later before it and nothing that starts earlier
/// after it, its start is the median start if `k` is half the length.
pub proof fn lemma_selected_is_median(s: Seq<Rect>, axis: Axis, k: int)
    requires
        0 <= k < s.len(),
        k == s.len() / 2,
        forall|i: int| 0 <= i < k ==> (#[trigger] s[i]).on(axis).start <= s[k].on(axis).start,
        forall|i: int| k < i < s.len() ==> (#[trigger] s[i]).on(axis).start >= s[k].on(axis).start,
    ensures
        is_median(s.to_multiset(), axis, s[k].on(axis).start as int),
{
    broadcast use vstd::multiset::group_multiset_axioms;

    let d = s[k].on(axis).start as int;
    let n = s.len() as int;
    let head = s.subrange(0, k + 1);
    let tail = s.subrange(k + 1, n);
    let front = s.subrange(0, k);
    let back = s.subrange(k, n);
    let before = |r: Rect| r.on(axis).start < d;
    let by = |r: Rect| r.on(axis).start <= d;
    to_multiset_len(s);
    to_multiset_len(head);
    to_multiset_len(front);

    assert(s =~= front + back);
    lemma_multiset_commutative(front, back);
    lemma_filter_add(front.to_multiset(), back.to_multiset(), before);
    assert forall|i: int| 0 <= i < back.len() implies !before(#[trigger] back[i]) by {
        assert(back[i] == s[k + i]);
    }
    lemma_filter_none(back, before);
    lemma_filter_len_le(front.to_multiset(), before);
    assert(starts_before(s.to_multiset(), axis, d) <= k);

    assert(s =~= head + tail);
    lemma_multiset_commutative(head, tail);
    lemma_filter_add(head.to_multiset(), tail.to_multiset(), by);
    assert forall|i: int| 0 <= i < head.len() implies by(#[trigger] head[i]) by {
        assert(head[i] == s[i]);
    }
    lemma_filter_all(head, by);
    assert(starts_by(s.to_multiset(), axis, d) >= k + 1);
}

} // verus!
