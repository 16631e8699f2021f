//! The nodes of a tree and what makes a tree well formed.
//!
//! A tree of height `h` has `2^h - 1` nodes, laid out in depth-first
//! preorder: a node is followed by its left subtree and then by its right
//! subtree, which have the same number of nodes. The elements are laid out the
//! same way: the elements that a node keeps are followed by those of its left
//! subtree and then by those of its right subtree.

use vstd::prelude::*;
use vstd::multiset::Multiset;
use crate::geom::{sorted_on, Axis, Range, Rect};

verus! {

/// One node of a tree.
#[derive(Clone, Copy, Debug, PartialEq, Eq, Structural)]
pub struct Node {
    /// The position of the first element that the node keeps.
    pub start: usize,
    /// The position after the last element that the node keeps.
    pub end: usize,
    /// The hull, along the node's axis, of the elements that the node keeps;
    /// from zero to zero if it keeps none.
    pub cont: Range,
    /// The divider along the node's axis; `None` for a leaf, and for a node
    /// that was given no elements.
    pub div: Option<i64>,
    /// How many elements the two subtrees of the node hold together.
    pub num_elem: usize,
}

/// The number of nodes of a tree of the given height: `2^height - 1`.
pub open spec fn tree_size(height: nat) -> nat
    decreases height,
{
    if height == 0 {
        0
    } else {
        2 * tree_size((height - 1) as nat) + 1
    }
}

/// `cont` is the hull along `axis` of the elements at `lo..hi`: it starts at
/// the least start and ends at the greatest end. The hull of no elements runs
/// from zero to zero.
pub open spec fn is_hull(rects: Seq<Rect>, axis: Axis, lo: int, hi: int, cont: Range) -> bool {
    if lo >= hi {
        cont == (Range { start: 0, end: 0 })
    } else {
        &&& forall|i: int|
            lo <= i < hi ==> cont.start <= (#[trigger] rects[i]).on(axis).start && rects[i].on(axis).end
                <= cont.end
        &&& exists|i: int| lo <= i < hi && (#[trigger] rects[i]).on(axis).start == cont.start
        &&& exists|i: int| lo <= i < hi && (#[trigger] rects[i]).on(axis).end == cont.end
    }
}

/// How many of the rectangles start before `d` along `axis`.
pub open spec fn starts_before(rects: Multiset<Rect>, axis: Axis, d: int) -> nat {
    rects.filter(|r: Rect| r.on(axis).start < d).len()
}

/// How many of the rectangles start at `d` or before it along `axis`.
pub open spec fn starts_by(rects: Multiset<Rect>, axis: Axis, d: int) -> nat {
    rects.filter(|r: Rect| r.on(axis).start <= d).len()
}

/// `d` is the median start along `axis`: the start that comes at index
/// `len / 2` when the rectangles are put in the order of their starts.
pub open spec fn is_median(rects: Multiset<Rect>, axis: Axis, d: int) -> bool {
    starts_before(rects, axis, d) <= rects.len() / 2 < starts_by(rects, axis, d)
}

/// The elements at `lo..hi` are binned around the divider `d`: first those
/// that hold `d`, then those that end before it, then those that start after
/// it.
pub open spec fn divided(rects: Seq<Rect>, axis: Axis, lo: int, mid_end: int, split: int, hi: int, d: i64) -> bool {
    &&& forall|i: int| lo <= i < mid_end ==> (#[trigger] rects[i]).on(axis).holds(d)
    &&& forall|i: int| mid_end <= i < split ==> (#[trigger] rects[i]).on(axis).end < d
    &&& forall|i: int| split <= i < hi ==> (#[trigger] rects[i]).on(axis).start > d
}

/// The subtree of height `height` whose root is the node at `idx` is a well
/// formed tree on `axis` over the elements at `lo..hi`.
///
/// Its root keeps the elements at `lo..root.end`, whose hull is `root.cont`,
/// sorted by their start along the perpendicular axis if `sorted` is set. A
/// leaf keeps everything. Another node that was given elements has their
/// median start as its divider, keeps the elements that hold the divider, and
/// leaves those that end before it to its left subtree and those that start
/// after it to its right subtree, which divide along the perpendicular axis.
pub open spec fn subtree_wf(
    rects: Seq<Rect>,
    nodes: Seq<Node>,
    idx: int,
    height: nat,
    axis: Axis,
    lo: int,
    hi: int,
    sorted: bool,
) -> bool
    decreases height,
{
    &&& height >= 1
    &&& 0 <= idx
    &&& idx + tree_size(height) <= nodes.len()
    &&& 0 <= lo <= hi <= rects.len()
    &&& nodes[idx].start == lo
    &&& lo <= nodes[idx].end <= hi
    &&& is_hull(rects, axis, lo, nodes[idx].end as int, nodes[idx].cont)
    &&& sorted ==> sorted_on(rects, axis.perp(), lo, nodes[idx].end as int)
    &&& if height == 1 {
        &&& nodes[idx].end == hi
        &&& nodes[idx].div is None
        &&& nodes[idx].num_elem == 0
    } else {
        let right = idx + 1 + tree_size((height - 1) as nat);
        let split = nodes[right].start as int;
        &&& nodes[idx].num_elem == hi - nodes[idx].end
        &&& nodes[idx].end <= split <= hi
        &&& match nodes[idx].div {
            None => lo == hi,
            Some(d) => {
                &&& lo < hi
                &&& is_median(rects.subrange(lo, hi).to_multiset(), axis, d as int)
                &&& divided(rects, axis, lo, nodes[idx].end as int, split, hi, d)
            },
        }
        &&& subtree_wf(rects, nodes, idx + 1, (height - 1) as nat, axis.perp(), nodes[idx].end as int, split, sorted)
        &&& subtree_wf(rects, nodes, right, (height - 1) as nat, axis.perp(), split, hi, sorted)
    }
}

/// A well formed tree of the given height over all the elements: its root is
/// the first node and divides along the x axis.
pub open spec fn tree_wf(rects: Seq<Rect>, nodes: Seq<Node>, height: nat, sorted: bool) -> bool {
    &&& nodes.len() == tree_size(height)
    &&& subtree_wf(rects, nodes, 0, height, Axis::X, 0, rects.len() as int, sorted)
}

pub proof fn lemma_tree_size_positive(height: nat)
    ensures
        height >= 1 ==> tree_size(height) >= 1,
        tree_size(height) >= height,
    decreases height,
{
    if height > 0 {
        lemma_tree_size_positive((height - 1) as nat);
    }
}

pub proof fn lemma_tree_size_monotone(a: nat, b: nat)
    requires
        a <= b,
    ensures
        tree_size(a) <= tree_size(b),
    decreases b,
{
    if a < b {
        lemma_tree_size_monotone(a, (b - 1) as nat);
    }
}

/// Whether a subtree is well formed depends only on the elements it is over
/// and on its own nodes: it stays well formed when they are found, unchanged,
/// in other sequences, the elements at the same positions.
pub proof fn lemma_relocate(
    r1: Seq<Rect>,
    n1: Seq<Node>,
    idx1: int,
    r2: Seq<Rect>,
    n2: Seq<Node>,
    idx2: int,
    height: nat,
    axis: Axis,
    lo: int,
    hi: int,
    sorted: bool,
)
    requires
        subtree_wf(r1, n1, idx1, height, axis, lo, hi, sorted),
        0 <= idx2,
        idx2 + tree_size(height) <= n2.len(),
        hi <= r2.len(),
        r1.subrange(lo, hi) == r2.subrange(lo, hi),
        n1.subrange(idx1, idx1 + tree_size(height)) == n2.subrange(idx2, idx2 + tree_size(height)),
    ensures
        subtree_wf(r2, n2, idx2, height, axis, lo, hi, sorted),
    decreases height,
{
    let size = tree_size(height) as int;
    let w1 = n1.subrange(idx1, idx1 + size);
    let w2 = n2.subrange(idx2, idx2 + size);
    let e1 = r1.subrange(lo, hi);
    let e2 = r2.subrange(lo, hi);
    lemma_tree_size_positive(height);
    assert forall|p: int| lo <= p < hi implies r1[p] == r2[p] by {
        assert(e1[p - lo] == e2[p - lo]);
    }
    assert(w1[0] == w2[0]);
    let n = n1[idx1];
    let e = n.end as int;
    if lo < e {
        let i = choose|i: int| lo <= i < e && (#[trigger] r1[i]).on(axis).start == n.cont.start;
        assert(r2[i].on(axis).start == n.cont.start);
        let j = choose|j: int| lo <= j < e && (#[trigger] r1[j]).on(axis).end == n.cont.end;
        assert(r2[j].on(axis).end == n.cont.end);
        assert forall|i: int| lo <= i < e implies n.cont.start <= (#[trigger] r2[i]).on(axis).start && r2[i].on(
            axis,
        ).end <= n.cont.end by {
            assert(r1[i] == r2[i]);
        }
    }
    assert(is_hull(r2, axis, lo, e, n.cont));
    if sorted {
        assert forall|i: int, j: int| lo <= i <= j < e implies (#[trigger] r2[i]).on(axis.perp()).start <= (
        #[trigger] r2[j]).on(axis.perp()).start by {
            assert(r1[i] == r2[i]);
            assert(r1[j] == r2[j]);
        }
    }
    if height > 1 {
        let below = (height - 1) as nat;
        let s = tree_size(below) as int;
        lemma_tree_size_positive(below);
        assert(w1[1 + s] == w2[1 + s]);
        let split = n1[idx1 + 1 + s].start as int;
        match n.div {
            None => {},
            Some(d) => {
                assert forall|i: int| lo <= i < e implies (#[trigger] r2[i]).on(axis).holds(d) by {
                    assert(r1[i] == r2[i]);
                }
                assert forall|i: int| e <= i < split implies (#[trigger] r2[i]).on(axis).end < d by {
                    assert(r1[i] == r2[i]);
                }
                assert forall|i: int| split <= i < hi implies (#[trigger] r2[i]).on(axis).start > d by {
                    assert(r1[i] == r2[i]);
                }
            },
        }
        assert(n1.subrange(idx1 + 1, idx1 + 1 + s) =~= n2.subrange(idx2 + 1, idx2 + 1 + s)) by {
            assert forall|k: int| 0 <= k < s implies #[trigger] n1.subrange(idx1 + 1, idx1 + 1 + s)[k]
                == n2.subrange(idx2 + 1, idx2 + 1 + s)[k] by {
                assert(w1[1 + k] == w2[1 + k]);
            }
        }
        assert(r1.subrange(e, split) =~= r2.subrange(e, split));
        lemma_relocate(r1, n1, idx1 + 1, r2, n2, idx2 + 1, below, axis.perp(), e, split, sorted);
        assert(n1.subrange(idx1 + 1 + s, idx1 + 1 + s + s) =~= n2.subrange(idx2 + 1 + s, idx2 + 1 + s + s)) by {
            assert forall|k: int| 0 <= k < s implies #[trigger] n1.subrange(idx1 + 1 + s, idx1 + 1 + s + s)[k]
                == n2.subrange(idx2 + 1 + s, idx2 + 1 + s + s)[k] by {
                assert(w1[1 + s + k] == w2[1 + s + k]);
            }
        }
        assert(r1.subrange(split, hi) =~= r2.subrange(split, hi));
        lemma_relocate(r1, n1, idx1 + 1 + s, r2, n2, idx2 + 1 + s, below, axis.perp(), split, hi, sorted);
    }
}

} // verus!
