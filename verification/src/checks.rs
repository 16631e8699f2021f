//! Checking at run time that a tree is well formed.

use vstd::prelude::*;
use vstd::multiset::Multiset;
use vstd::seq_lib::to_multiset_build;
use crate::geom::{all_valid, rects_of, sorted_on, Axis, BBox, Range, Rect};
use crate::laws::lemma_hull_unique;
use crate::node::{
    divided, is_hull, is_median, lemma_tree_size_monotone, lemma_tree_size_positive, starts_before,
    starts_by, subtree_wf, tree_size, tree_wf, Node,
};

verus! {

/// Tells whether every rectangle is valid.
pub fn check_valid<T>(elems: &[BBox<T>]) -> (ok: bool)
    ensures
        ok == all_valid(rects_of(elems@)),
{
    let ghost rects = rects_of(elems@);
    let mut k: usize = 0;
    while k < elems.len()
        invariant
            k <= elems@.len(),
            rects == rects_of(elems@),
            forall|i: int| 0 <= i < k ==> (#[trigger] rects[i]).valid(),
        decreases elems@.len() - k,
    {
        if !elems[k].rect.is_valid() {
            assert(!rects[k as int].valid());
            return false;
        }
        k += 1;
    }
    true
}

/// Tells whether the elements at `lo..hi` come in non-decreasing order of
/// their start along `axis`.
pub fn check_sorted<T>(elems: &[BBox<T>], axis: Axis, lo: usize, hi: usize) -> (ok: bool)
    requires
        lo <= hi <= elems@.len(),
    ensures
        ok == sorted_on(rects_of(elems@), axis, lo as int, hi as int),
{
    let ghost rects = rects_of(elems@);
    if hi - lo < 2 {
        return true;
    }
    let mut k: usize = lo + 1;
    while k < hi
        invariant
            lo < k <= hi <= elems@.len(),
            rects == rects_of(elems@),
            sorted_on(rects, axis, lo as int, k as int),
        decreases hi - k,
    {
        if elems[k].rect.get_range(axis).start < elems[k - 1].rect.get_range(axis).start {
            assert(!sorted_on(rects, axis, lo as int, hi as int)) by {
                assert(rects[k - 1].on(axis).start > rects[k as int].on(axis).start);
            }
            return false;
        }
        assert forall|i: int, j: int| lo <= i <= j < k + 1 implies (#[trigger] rects[i]).on(axis).start <= (
        #[trigger] rects[j]).on(axis).start by {
            if j == k && i < k {
                assert(rects[i].on(axis).start <= rects[k - 1].on(axis).start);
            }
        }
        k += 1;
    }
    true
}

/// Tells whether `cont` is the hull along `axis` of the elements at `lo..hi`.
pub fn check_hull<T>(elems: &[BBox<T>], axis: Axis, lo: usize, hi: usize, cont: Range) -> (ok: bool)
    requires
        lo <= hi <= elems@.len(),
    ensures
        ok == is_hull(rects_of(elems@), axis, lo as int, hi as int, cont),
{
    let ghost rects = rects_of(elems@);
    if lo == hi {
        return cont.start == 0 && cont.end == 0;
    }
    let first: Range = elems[lo].rect.on_axis(axis);
    let mut min: i64 = first.start;
    let mut max: i64 = first.end;
    let ghost mut at_min: int = lo as int;
    let ghost mut at_max: int = lo as int;
    let mut k: usize = lo + 1;
    while k < hi
        invariant
            lo < k <= hi <= elems@.len(),
            rects == rects_of(elems@),
            lo <= at_min < k,
            lo <= at_max < k,
            rects[at_min].on(axis).start == min,
            rects[at_max].on(axis).end == max,
            forall|i: int| lo <= i < k ==> min <= (#[trigger] rects[i]).on(axis).start && rects[i].on(axis).end <= max,
        decreases hi - k,
    {
        let r: Range = elems[k].rect.on_axis(axis);
        if r.start < min {
            min = r.start;
            proof {
                at_min = k as int;
            }
        }
        if r.end > max {
            max = r.end;
            proof {
                at_max = k as int;
            }
        }
        k += 1;
    }
    let found = Range { start: min, end: max };
    proof {
        assert(is_hull(rects, axis, lo as int, hi as int, found));
        if is_hull(rects, axis, lo as int, hi as int, cont) {
            lemma_hull_unique(rects, lo as int, hi as int, rects, lo as int, hi as int, axis, found, cont);
        }
    }
    cont.start == min && cont.end == max
}

/// Adding a rectangle to a multiset adds it to what a filter keeps of the
/// multiset, if the filter lets it pass.
proof fn lemma_filter_insert(m: Multiset<Rect>, x: Rect, p: spec_fn(Rect) -> bool)
    ensures
        m.insert(x).filter(p).len() == m.filter(p).len() + (if p(x) { 1nat } else { 0nat }),
{
    broadcast use vstd::multiset::group_multiset_axioms;

    if p(x) {
        assert(m.insert(x).filter(p) =~= m.filter(p).insert(x));
    } else {
        assert(m.insert(x).filter(p) =~= m.filter(p));
    }
}

/// Tells whether `d` is the median start along `axis` of the elements at
/// `lo..hi`.
pub fn check_median<T>(elems: &[BBox<T>], axis: Axis, lo: usize, hi: usize, d: i64) -> (ok: bool)
    requires
        lo <= hi <= elems@.len(),
    ensures
        ok == is_median(rects_of(elems@).subrange(lo as int, hi as int).to_multiset(), axis, d as int),
{
    broadcast use vstd::multiset::group_multiset_axioms;

    let ghost rects = rects_of(elems@);
    let mut before: usize = 0;
    let mut by: usize = 0;
    let mut k: usize = lo;
    proof {
        assert(rects.subrange(lo as int, lo as int).to_multiset() =~= Multiset::empty()) by {
            vstd::seq_lib::to_multiset_len(rects.subrange(lo as int, lo as int));
            vstd::multiset::lemma_multiset_empty_len(rects.subrange(lo as int, lo as int).to_multiset());
        }
        assert(Multiset::<Rect>::empty().filter(|r: Rect| r.on(axis).start < d as int) =~= Multiset::empty());
        assert(Multiset::<Rect>::empty().filter(|r: Rect| r.on(axis).start <= d as int) =~= Multiset::empty());
    }
    while k < hi
        invariant
            lo <= k <= hi <= elems@.len(),
            rects == rects_of(elems@),
            before <= k - lo,
            by <= k - lo,
            before == starts_before(rects.subrange(lo as int, k as int).to_multiset(), axis, d as int),
            by == starts_by(rects.subrange(lo as int, k as int).to_multiset(), axis, d as int),
        decreases hi - k,
    {
        let start: i64 = elems[k].rect.get_range(axis).start;
        proof {
            let done = rects.subrange(lo as int, k as int);
            assert(rects.subrange(lo as int, k + 1) =~= done.push(rects[k as int]));
            to_multiset_build(done, rects[k as int]);
            lemma_filter_insert(done.to_multiset(), rects[k as int], |r: Rect| r.on(axis).start < d as int);
            lemma_filter_insert(done.to_multiset(), rects[k as int], |r: Rect| r.on(axis).start <= d as int);
        }
        if start < d {
            before += 1;
        }
        if start <= d {
            by += 1;
        }
        k += 1;
    }
    proof {
        vstd::seq_lib::to_multiset_len(rects.subrange(lo as int, hi as int));
    }
    before <= (hi - lo) / 2 && (hi - lo) / 2 < by
}

/// Tells whether the elements at `lo..hi` are binned around the divider `d`
/// along `axis`: those at `lo..mid_end` hold it, those at `mid_end..split`
/// end before it, and those at `split..hi` start after it.
pub fn check_divided<T>(
    elems: &[BBox<T>],
    axis: Axis,
    lo: usize,
    mid_end: usize,
    split: usize,
    hi: usize,
    d: i64,
) -> (ok: bool)
    requires
        lo <= mid_end <= split <= hi <= elems@.len(),
    ensures
        ok == divided(rects_of(elems@), axis, lo as int, mid_end as int, split as int, hi as int, d),
{
    let ghost rects = rects_of(elems@);
    let mut k: usize = lo;
    while k < hi
        invariant
            lo <= mid_end <= split <= hi <= elems@.len(),
            lo <= k <= hi,
            rects == rects_of(elems@),
            forall|i: int| lo <= i < mid_end && i < k ==> (#[trigger] rects[i]).on(axis).holds(d),
            forall|i: int| mid_end <= i < split && i < k ==> (#[trigger] rects[i]).on(axis).end < d,
            forall|i: int| split <= i < k ==> (#[trigger] rects[i]).on(axis).start > d,
        decreases hi - k,
    {
        let r: Range = elems[k].rect.on_axis(axis);
        let fits = if k < mid_end {
            r.start <= d && d <= r.end
        } else if k < split {
            r.end < d
        } else {
            r.start > d
        };
        if !fits {
            assert(rects[k as int].on(axis) == r);
            return false;
        }
        k += 1;
    }
    true
}

/// Tells whether the subtree of height `height` whose root is the node at
/// `idx`, and which has `size` nodes, is a well formed subtree on `axis` over
/// the elements at `lo..hi`.
pub fn check_subtree<T>(
    elems: &[BBox<T>],
    nodes: &[Node],
    idx: usize,
    size: usize,
    height: usize,
    axis: Axis,
    lo: usize,
    hi: usize,
    sorted: bool,
) -> (ok: bool)
    requires
        height >= 1,
        size == tree_size(height as nat),
        idx + size <= nodes@.len(),
        lo <= hi <= elems@.len(),
    ensures
        ok == subtree_wf(
            rects_of(elems@),
            nodes@,
            idx as int,
            height as nat,
            axis,
            lo as int,
            hi as int,
            sorted,
        ),
    decreases height,
{
    proof {
        lemma_tree_size_positive(height as nat);
    }
    let n: Node = nodes[idx];
    if n.start != lo || n.end < lo || n.end > hi {
        return false;
    }
    if !check_hull(elems, axis, lo, n.end, n.cont) {
        return false;
    }
    if sorted && !check_sorted(elems, axis.next(), lo, n.end) {
        return false;
    }
    if height == 1 {
        return n.end == hi && n.div.is_none() && n.num_elem == 0;
    }
    proof {
        lemma_tree_size_positive((height - 1) as nat);
    }
    let half: usize = (size - 1) / 2;
    let right: usize = idx + 1 + half;
    let split: usize = nodes[right].start;
    if n.num_elem != hi - n.end || split < n.end || split > hi {
        return false;
    }
    match n.div {
        None => {
            if lo != hi {
                return false;
            }
        },
        Some(d) => {
            if lo == hi {
                return false;
            }
            if !check_median(elems, axis, lo, hi, d) {
                return false;
            }
            if !check_divided(elems, axis, lo, n.end, split, hi, d) {
                return false;
            }
        },
    }
    if !check_subtree(elems, nodes, idx + 1, half, height - 1, axis.next(), n.end, split, sorted) {
        return false;
    }
    check_subtree(elems, nodes, right, half, height - 1, axis.next(), split, hi, sorted)
}

/// Computes the number of nodes of a tree of the given height, if it is at
/// most `limit`.
pub fn size_within(height: usize, limit: usize) -> (r: Option<usize>)
    ensures
        r matches Some(size) ==> size == tree_size(height as nat) && size <= limit,
        r is None ==> tree_size(height as nat) > limit,
{
    let mut size: usize = 0;
    let mut k: usize = 0;
    while k < height
        invariant
            k <= height,
            size == tree_size(k as nat),
            size <= limit,
        decreases height - k,
    {
        if limit == 0 || size > (limit - 1) / 2 {
            proof {
                lemma_tree_size_monotone((k + 1) as nat, height as nat);
            }
            return None;
        }
        size = 2 * size + 1;
        k += 1;
    }
    Some(size)
}

/// Tells whether the elements and the nodes make a well formed tree of valid
/// rectangles of the given height, with each node's elements sorted if
/// `sorted` is set.
pub fn tree_invariants_hold<T>(elems: &[BBox<T>], nodes: &[Node], height: usize, sorted: bool) -> (ok: bool)
    ensures
        ok == (all_valid(rects_of(elems@)) && height >= 1 && tree_wf(
            rects_of(elems@),
            nodes@,
            height as nat,
            sorted,
        )),
{
    if height < 1 || !check_valid(elems) {
        return false;
    }
    match size_within(height, nodes.len()) {
        None => false,
        Some(size) => {
            if size != nodes.len() {
                return false;
            }
            check_subtree(elems, nodes, 0, size, height, Axis::X, 0, elems.len(), sorted)
        },
    }
}

} // verus!
