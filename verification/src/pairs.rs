//! How the result of a query is stated.
//!
//! A query appends pairs of element positions to a list. Its contract names
//! the set of pairs that it owes and says that the appended part lists that
//! set *exactly*: every pair of the set occurs, nothing else occurs, and
//! nothing occurs twice.

use vstd::prelude::*;
use crate::geom::{Axis, Rect};

verus! {

/// A pair of positions in the element storage.
pub type Pair = (usize, usize);

/// `list` holds every pair of `set`, nothing else, and nothing twice.
pub open spec fn exact(list: Seq<Pair>, set: Set<Pair>) -> bool {
    &&& list.no_duplicates()
    &&& forall|p: Pair| list.contains(p) <==> set.contains(p)
}

/// `after` is `before` followed by an exact list of `set`.
pub open spec fn extends_by(before: Seq<Pair>, after: Seq<Pair>, set: Set<Pair>) -> bool {
    &&& before.len() <= after.len()
    &&& after.subrange(0, before.len() as int) == before
    &&& exact(after.subrange(before.len() as int, after.len() as int), set)
}

/// The elements at `i` and `j` overlap along `axis` and, when `both` is set,
/// along the perpendicular axis too.
pub open spec fn hit(rects: Seq<Rect>, axis: Axis, both: bool, i: int, j: int) -> bool {
    &&& rects[i].on(axis).overlaps(rects[j].on(axis))
    &&& both ==> rects[i].on(axis.perp()).overlaps(rects[j].on(axis.perp()))
}

/// What a sweep over the elements at `lo..hi` reports: the pairs `(j, i)`
/// with `lo <= i < j < hi` that hit. A sweep pairs the element it has just
/// taken with the earlier ones, and names the one just taken first.
pub open spec fn swept_within(rects: Seq<Rect>, axis: Axis, both: bool, lo: int, hi: int) -> Set<Pair> {
    Set::new(|p: Pair| lo <= p.1 < p.0 < hi && hit(rects, axis, both, p.0 as int, p.1 as int))
}

/// The pair with its two positions exchanged.
pub open spec fn turned(p: Pair) -> Pair {
    (p.1, p.0)
}

/// The pairs of `set`, each with its two positions exchanged.
pub open spec fn turned_set(set: Set<Pair>) -> Set<Pair> {
    Set::new(|p: Pair| set.contains(turned(p)))
}

/// The pairs `(i, j)` with `i` in `lo1..hi1` and `j` in `lo2..hi2` that hit.
pub open spec fn hits_between(
    rects: Seq<Rect>,
    axis: Axis,
    both: bool,
    lo1: int,
    hi1: int,
    lo2: int,
    hi2: int,
) -> Set<Pair> {
    Set::new(
        |p: Pair| lo1 <= p.0 < hi1 && lo2 <= p.1 < hi2 && hit(rects, axis, both, p.0 as int, p.1 as int),
    )
}

/// The colliding pairs `(i, j)` with `i < j`, `i` in `lo1..hi1` and `j` in
/// `lo2..hi2`.
pub open spec fn colliding(rects: Seq<Rect>, lo1: int, hi1: int, lo2: int, hi2: int) -> Set<Pair> {
    Set::new(
        |p: Pair|
            lo1 <= p.0 < hi1 && lo2 <= p.1 < hi2 && p.0 < p.1 && rects[p.0 as int].collides(
                rects[p.1 as int],
            ),
    )
}

/// All colliding pairs `(i, j)` with `i < j` among the elements: what the
/// comparison of every element with every other finds.
pub open spec fn all_colliding(rects: Seq<Rect>) -> Set<Pair> {
    colliding(rects, 0, rects.len() as int, 0, rects.len() as int)
}

pub proof fn lemma_hit_both(rects: Seq<Rect>, axis: Axis, i: int, j: int)
    ensures
        hit(rects, axis, true, i, j) == rects[i].collides(rects[j]),
{
}

pub proof fn lemma_hits_between_colliding(
    rects: Seq<Rect>,
    axis: Axis,
    lo1: int,
    hi1: int,
    lo2: int,
    hi2: int,
)
    requires
        hi1 <= lo2,
    ensures
        hits_between(rects, axis, true, lo1, hi1, lo2, hi2) == colliding(rects, lo1, hi1, lo2, hi2),
{
    assert forall|p: Pair|
        hits_between(rects, axis, true, lo1, hi1, lo2, hi2).contains(p) == colliding(
            rects,
            lo1,
            hi1,
            lo2,
            hi2,
        ).contains(p) by {
        lemma_hit_both(rects, axis, p.0 as int, p.1 as int);
    }
    assert(hits_between(rects, axis, true, lo1, hi1, lo2, hi2) =~= colliding(rects, lo1, hi1, lo2, hi2));
}

/// What a sweep that checks both axes reports is, with each pair turned, the
/// colliding pairs.
pub proof fn lemma_swept_within_colliding(rects: Seq<Rect>, axis: Axis, lo: int, hi: int)
    ensures
        forall|p: Pair|
            turned_set(swept_within(rects, axis, true, lo, hi)).contains(p) <==> colliding(
                rects,
                lo,
                hi,
                lo,
                hi,
            ).contains(p),
{
    assert forall|p: Pair|
        turned_set(swept_within(rects, axis, true, lo, hi)).contains(p) <==> colliding(
            rects,
            lo,
            hi,
            lo,
            hi,
        ).contains(p) by {
        lemma_hit_both(rects, axis, p.1 as int, p.0 as int);
    }
}

/// Exchanges the two positions of each pair of the list from the index
/// `from` on.
pub fn turn_from(out: &mut Vec<Pair>, from: usize)
    requires
        from <= old(out)@.len(),
    ensures
        final(out)@.len() == old(out)@.len(),
        forall|k: int| 0 <= k < from ==> final(out)@[k] == old(out)@[k],
        forall|k: int| from <= k < final(out)@.len() ==> final(out)@[k] == turned(old(out)@[k]),
{
    let ghost given = out@;
    let mut k: usize = from;
    while k < out.len()
        invariant
            from <= k <= out@.len(),
            out@.len() == given.len(),
            forall|j: int| 0 <= j < from ==> out@[j] == given[j],
            forall|j: int| from <= j < k ==> out@[j] == turned(given[j]),
            forall|j: int| k <= j < out@.len() ==> out@[j] == given[j],
        decreases out@.len() - k,
    {
        let p: Pair = out[k];
        out.set(k, (p.1, p.0));
        k += 1;
    }
}

/// A list that was extended by an exact list of a set, and then had the
/// added pairs turned, is extended by an exact list of the turned set.
pub proof fn lemma_extends_turned(before: Seq<Pair>, mid: Seq<Pair>, after: Seq<Pair>, set: Set<Pair>)
    requires
        extends_by(before, mid, set),
        after.len() == mid.len(),
        forall|k: int| 0 <= k < before.len() ==> after[k] == mid[k],
        forall|k: int| before.len() <= k < after.len() ==> after[k] == turned(mid[k]),
    ensures
        extends_by(before, after, turned_set(set)),
{
    let n = before.len() as int;
    let m = mid.len() as int;
    let old_tail = mid.subrange(n, m);
    let new_tail = after.subrange(n, m);
    assert(after.subrange(0, n) =~= before) by {
        assert forall|k: int| 0 <= k < n implies after.subrange(0, n)[k] == before[k] by {
            assert(mid.subrange(0, n)[k] == before[k]);
        }
    }
    assert forall|k: int| 0 <= k < new_tail.len() implies new_tail[k] == turned(old_tail[k]) by {}
    assert forall|i: int, j: int| 0 <= i < new_tail.len() && 0 <= j < new_tail.len() && i != j implies new_tail[i]
        != new_tail[j] by {
        assert(old_tail[i] != old_tail[j]);
    }
    assert forall|p: Pair| new_tail.contains(p) <==> turned_set(set).contains(p) by {
        if new_tail.contains(p) {
            let k = choose|k: int| 0 <= k < new_tail.len() && new_tail[k] == p;
            assert(old_tail[k] == turned(p));
            assert(old_tail.contains(turned(p)));
        }
        if turned_set(set).contains(p) {
            assert(old_tail.contains(turned(p)));
            let k = choose|k: int| 0 <= k < old_tail.len() && old_tail[k] == turned(p);
            assert(new_tail[k] == p);
        }
    }
}

pub proof fn lemma_extends_none(list: Seq<Pair>)
    ensures
        extends_by(list, list, Set::empty()),
{
    assert(list.subrange(0, list.len() as int) =~= list);
    let tail = list.subrange(list.len() as int, list.len() as int);
    assert(tail.len() == 0);
}

pub proof fn lemma_extends_push(list: Seq<Pair>, p: Pair)
    ensures
        extends_by(list, list.push(p), set![p]),
{
    let after = list.push(p);
    assert(after.subrange(0, list.len() as int) =~= list);
    let tail = after.subrange(list.len() as int, after.len() as int);
    assert(tail =~= seq![p]);
    assert(tail[0] == p);
    assert forall|q: Pair| tail.contains(q) <==> set![p].contains(q) by {
        if tail.contains(q) {
            let k = choose|k: int| 0 <= k < tail.len() && tail[k] == q;
            assert(q == p);
        }
    }
}

/// Two extensions in a row, over disjoint sets, extend by the union.
pub proof fn lemma_extends_chain(
    s0: Seq<Pair>,
    s1: Seq<Pair>,
    s2: Seq<Pair>,
    a: Set<Pair>,
    b: Set<Pair>,
)
    requires
        extends_by(s0, s1, a),
        extends_by(s1, s2, b),
        a.disjoint(b),
    ensures
        extends_by(s0, s2, a.union(b)),
{
    let n0 = s0.len() as int;
    let n1 = s1.len() as int;
    let n2 = s2.len() as int;
    let ta = s1.subrange(n0, n1);
    let tb = s2.subrange(n1, n2);
    let t = s2.subrange(n0, n2);
    assert(s2.subrange(0, n1) == s1);
    assert(s2.subrange(0, n0) =~= s0) by {
        assert forall|i: int| 0 <= i < n0 implies s2[i] == s0[i] by {
            assert(s2.subrange(0, n1)[i] == s1[i]);
            assert(s1.subrange(0, n0)[i] == s0[i]);
        }
    }
    assert(t =~= ta + tb) by {
        assert forall|i: int| 0 <= i < n2 - n0 implies t[i] == (ta + tb)[i] by {
            if i < n1 - n0 {
                assert(s2.subrange(0, n1)[n0 + i] == s1[n0 + i]);
            }
        }
    }
    lemma_exact_concat(ta, tb, a, b);
}

pub proof fn lemma_exact_concat(ta: Seq<Pair>, tb: Seq<Pair>, a: Set<Pair>, b: Set<Pair>)
    requires
        exact(ta, a),
        exact(tb, b),
        a.disjoint(b),
    ensures
        exact(ta + tb, a.union(b)),
{
    let t = ta + tb;
    assert forall|i: int, j: int| 0 <= i < t.len() && 0 <= j < t.len() && i != j implies t[i] != t[j] by {
        if i < ta.len() && j >= ta.len() {
            assert(ta.contains(t[i]));
            assert(tb[j - ta.len()] == t[j]);
            assert(tb.contains(t[j]));
        } else if j < ta.len() && i >= ta.len() {
            assert(ta.contains(t[j]));
            assert(tb[i - ta.len()] == t[i]);
            assert(tb.contains(t[i]));
        } else if i >= ta.len() {
            assert(tb[i - ta.len()] == t[i]);
            assert(tb[j - ta.len()] == t[j]);
        }
    }
    assert forall|p: Pair| t.contains(p) <==> a.union(b).contains(p) by {
        if t.contains(p) {
            let k = choose|k: int| 0 <= k < t.len() && t[k] == p;
            if k < ta.len() {
                assert(ta[k] == p);
                assert(ta.contains(p));
            } else {
                assert(tb[k - ta.len()] == p);
                assert(tb.contains(p));
            }
        }
        if a.contains(p) {
            assert(ta.contains(p));
            let k = choose|k: int| 0 <= k < ta.len() && ta[k] == p;
            assert(t[k] == p);
        }
        if b.contains(p) {
            assert(tb.contains(p));
            let k = choose|k: int| 0 <= k < tb.len() && tb[k] == p;
            assert(t[ta.len() + k] == p);
        }
    }
}

/// The set that an extension is stated over may be replaced by an equal one.
pub proof fn lemma_extends_same(s0: Seq<Pair>, s1: Seq<Pair>, a: Set<Pair>, b: Set<Pair>)
    requires
        extends_by(s0, s1, a),
        forall|p: Pair| a.contains(p) <==> b.contains(p),
    ensures
        extends_by(s0, s1, b),
{
}

/// An exact list is an extension of the empty list.
pub proof fn lemma_exact_extends(list: Seq<Pair>, set: Set<Pair>)
    requires
        exact(list, set),
    ensures
        extends_by(Seq::empty(), list, set),
{
    assert(list.subrange(0, 0) =~= Seq::<Pair>::empty());
    assert(list.subrange(0, list.len() as int) =~= list);
}

/// An extension of the empty list is an exact list.
pub proof fn lemma_extends_from_empty(s0: Seq<Pair>, s1: Seq<Pair>, a: Set<Pair>)
    requires
        extends_by(s0, s1, a),
        s0.len() == 0,
    ensures
        exact(s1, a),
{
    assert(s1.subrange(0, s1.len() as int) =~= s1);
}

} // verus!
