//! What holds of every well formed tree and of every search.

use vstd::prelude::*;
use vstd::multiset::Multiset;
use crate::geom::{all_valid, sorted_on, Axis, Rect};
use crate::node::{
    divided, is_hull, is_median, lemma_tree_size_positive, starts_before, starts_by, subtree_wf, tree_size,
    tree_wf, Node,
};
use crate::pairs::{exact, Pair};
use crate::perm::{
    lemma_filter_add, lemma_filter_all, lemma_filter_none, lemma_permuted_item, lemma_permuted_len,
    lemma_three_parts,
};

verus! {

/// The axis of the node at index `k` of a subtree of the given height whose
/// root is on `axis`: the axes alternate from each level to the next.
pub open spec fn axis_in(height: nat, k: int, axis: Axis) -> Axis
    decreases height,
{
    if height <= 1 || k <= 0 {
        axis
    } else if k <= tree_size((height - 1) as nat) {
        axis_in((height - 1) as nat, k - 1, axis.perp())
    } else {
        axis_in((height - 1) as nat, k - 1 - tree_size((height - 1) as nat), axis.perp())
    }
}

/// The axis of the node at index `k` of a tree of the given height: the root
/// is on the x axis.
pub open spec fn node_axis(height: nat, k: int) -> Axis {
    axis_in(height, k, Axis::X)
}

/// Whether the node at index `k` of a subtree of the given height is a leaf.
pub open spec fn leaf_in(height: nat, k: int) -> bool
    decreases height,
{
    if height <= 1 {
        true
    } else if k <= 0 {
        false
    } else if k <= tree_size((height - 1) as nat) {
        leaf_in((height - 1) as nat, k - 1)
    } else {
        leaf_in((height - 1) as nat, k - 1 - tree_size((height - 1) as nat))
    }
}

/// The node `node` on `axis` is as it should be: it keeps a run of elements
/// whose hull is its `cont`, sorted along the perpendicular axis if `sorted`
/// is set, all of which hold its divider if it has one.
pub open spec fn node_ok(rects: Seq<Rect>, node: Node, axis: Axis, sorted: bool) -> bool {
    &&& 0 <= node.start <= node.end <= rects.len()
    &&& is_hull(rects, axis, node.start as int, node.end as int, node.cont)
    &&& sorted ==> sorted_on(rects, axis.perp(), node.start as int, node.end as int)
    &&& node.div matches Some(d) ==> forall|e: int|
        node.start <= e < node.end ==> (#[trigger] rects[e]).on(axis).holds(d)
}

/// Every node of a well formed subtree is as it should be, and keeps
/// elements of the subtree only.
pub proof fn lemma_subtree_node(
    rects: Seq<Rect>,
    nodes: Seq<Node>,
    idx: int,
    height: nat,
    axis: Axis,
    lo: int,
    hi: int,
    sorted: bool,
    k: int,
)
    requires
        subtree_wf(rects, nodes, idx, height, axis, lo, hi, sorted),
        0 <= k < tree_size(height),
    ensures
        node_ok(rects, nodes[idx + k], axis_in(height, k, axis), sorted),
        lo <= nodes[idx + k].start <= nodes[idx + k].end <= hi,
        leaf_in(height, k) ==> nodes[idx + k].div is None,
    decreases height,
{
    if height > 1 && k > 0 {
        let below = (height - 1) as nat;
        let s = tree_size(below) as int;
        let e = nodes[idx].end as int;
        let split = nodes[idx + 1 + s].start as int;
        if k <= s {
            lemma_subtree_node(rects, nodes, idx + 1, below, axis.perp(), e, split, sorted, k - 1);
            assert(idx + 1 + (k - 1) == idx + k);
        } else {
            lemma_subtree_node(rects, nodes, idx + 1 + s, below, axis.perp(), split, hi, sorted, k - 1 - s);
            assert(idx + 1 + s + (k - 1 - s) == idx + k);
        }
    }
}

/// The index, within a well formed subtree over the elements at `lo..hi`, of
/// the node that keeps the element at `e`.
pub open spec fn keeper(nodes: Seq<Node>, idx: int, height: nat, e: int) -> int
    decreases height,
{
    if height <= 1 || e < nodes[idx].end {
        0
    } else {
        let s = tree_size((height - 1) as nat) as int;
        if e < nodes[idx + 1 + s].start {
            1 + keeper(nodes, idx + 1, (height - 1) as nat, e)
        } else {
            1 + s + keeper(nodes, idx + 1 + s, (height - 1) as nat, e)
        }
    }
}

/// In a well formed subtree, the element at `e` is kept by the node that
/// [`keeper`] names and by no other.
pub proof fn lemma_subtree_keeper(
    rects: Seq<Rect>,
    nodes: Seq<Node>,
    idx: int,
    height: nat,
    axis: Axis,
    lo: int,
    hi: int,
    sorted: bool,
    e: int,
)
    requires
        subtree_wf(rects, nodes, idx, height, axis, lo, hi, sorted),
        lo <= e < hi,
    ensures
        0 <= keeper(nodes, idx, height, e) < tree_size(height),
        nodes[idx + keeper(nodes, idx, height, e)].start <= e < nodes[idx + keeper(nodes, idx, height, e)].end,
        forall|k: int|
            0 <= k < tree_size(height) && (#[trigger] nodes[idx + k]).start <= e < nodes[idx + k].end ==> k
                == keeper(nodes, idx, height, e),
    decreases height,
{
    let own = keeper(nodes, idx, height, e);
    lemma_tree_size_positive(height);
    if height <= 1 {
        assert(tree_size(1) == 1) by {
            assert(tree_size(0) == 0);
        }
    } else {
        let below = (height - 1) as nat;
        let s = tree_size(below) as int;
        let end = nodes[idx].end as int;
        let split = nodes[idx + 1 + s].start as int;
        if e < end {
        } else if e < split {
            lemma_subtree_keeper(rects, nodes, idx + 1, below, axis.perp(), end, split, sorted, e);
            assert(idx + 1 + keeper(nodes, idx + 1, below, e) == idx + own);
        } else {
            lemma_subtree_keeper(rects, nodes, idx + 1 + s, below, axis.perp(), split, hi, sorted, e);
            assert(idx + 1 + s + keeper(nodes, idx + 1 + s, below, e) == idx + own);
        }
        assert forall|k: int|
            0 <= k < tree_size(height) && (#[trigger] nodes[idx + k]).start <= e < nodes[idx + k].end implies k
            == own by {
            if k == 0 {
            } else if k <= s {
                lemma_subtree_node(rects, nodes, idx + 1, below, axis.perp(), end, split, sorted, k - 1);
                assert(idx + 1 + (k - 1) == idx + k);
                assert(nodes[idx + 1 + (k - 1)].start <= e < nodes[idx + 1 + (k - 1)].end);
            } else {
                lemma_subtree_node(rects, nodes, idx + 1 + s, below, axis.perp(), split, hi, sorted, k - 1 - s);
                assert(idx + 1 + s + (k - 1 - s) == idx + k);
                assert(nodes[idx + 1 + s + (k - 1 - s)].start <= e < nodes[idx + 1 + s + (k - 1 - s)].end);
            }
        }
    }
}

/// Partition: every element of a well formed tree is kept by exactly one
/// node.
pub proof fn lemma_partition(rects: Seq<Rect>, nodes: Seq<Node>, height: nat, sorted: bool, e: int) -> (k: int)
    requires
        tree_wf(rects, nodes, height, sorted),
        0 <= e < rects.len(),
    ensures
        0 <= k < nodes.len(),
        nodes[k].start <= e < nodes[k].end,
        forall|j: int| 0 <= j < nodes.len() && (#[trigger] nodes[j]).start <= e < nodes[j].end ==> j == k,
{
    lemma_subtree_keeper(rects, nodes, 0, height, Axis::X, 0, rects.len() as int, sorted, e);
    let k = keeper(nodes, 0, height, e);
    assert forall|j: int| 0 <= j < nodes.len() && (#[trigger] nodes[j]).start <= e < nodes[j].end implies j
        == k by {
        assert(nodes[0 + j] == nodes[j]);
    }
    k
}

/// Divider dominance: in a well formed tree, every element that a node with
/// a divider keeps holds the divider along the node's axis: it starts at the
/// divider or before it and ends at it or after it.
pub proof fn lemma_divider_dominance(
    rects: Seq<Rect>,
    nodes: Seq<Node>,
    height: nat,
    sorted: bool,
    k: int,
    e: int,
)
    requires
        tree_wf(rects, nodes, height, sorted),
        0 <= k < nodes.len(),
        nodes[k].div is Some,
        nodes[k].start <= e < nodes[k].end,
    ensures
        rects[e].on(node_axis(height, k)).start <= nodes[k].div->0 <= rects[e].on(node_axis(height, k)).end,
{
    lemma_subtree_node(rects, nodes, 0, height, Axis::X, 0, rects.len() as int, sorted, k);
    assert(nodes[0 + k] == nodes[k]);
}

/// Sorted ranges: in a well formed tree whose nodes sort, the elements that
/// a node keeps come in non-decreasing order of their start along the axis
/// perpendicular to the node's.
pub proof fn lemma_sorted_ranges(rects: Seq<Rect>, nodes: Seq<Node>, height: nat, k: int)
    requires
        tree_wf(rects, nodes, height, true),
        0 <= k < nodes.len(),
    ensures
        sorted_on(rects, node_axis(height, k).perp(), nodes[k].start as int, nodes[k].end as int),
{
    lemma_subtree_node(rects, nodes, 0, height, Axis::X, 0, rects.len() as int, true, k);
    assert(nodes[0 + k] == nodes[k]);
}

/// Hull exactness: in a well formed tree, the `cont` of a node that keeps
/// elements starts at the least of their starts along the node's axis and
/// ends at the greatest of their ends; the `cont` of a node that keeps none
/// runs from zero to zero.
pub proof fn lemma_hull_exact(rects: Seq<Rect>, nodes: Seq<Node>, height: nat, sorted: bool, k: int)
    requires
        tree_wf(rects, nodes, height, sorted),
        0 <= k < nodes.len(),
    ensures
        is_hull(rects, node_axis(height, k), nodes[k].start as int, nodes[k].end as int, nodes[k].cont),
        nodes[k].start == nodes[k].end ==> nodes[k].cont.start == 0 && nodes[k].cont.end == 0,
        forall|e: int|
            nodes[k].start <= e < nodes[k].end ==> nodes[k].cont.start <= (#[trigger] rects[e]).on(
                node_axis(height, k),
            ).start && rects[e].on(node_axis(height, k)).end <= nodes[k].cont.end,
        nodes[k].start < nodes[k].end ==> exists|e: int|
            nodes[k].start <= e < nodes[k].end && (#[trigger] rects[e]).on(node_axis(height, k)).start
                == nodes[k].cont.start,
        nodes[k].start < nodes[k].end ==> exists|e: int|
            nodes[k].start <= e < nodes[k].end && (#[trigger] rects[e]).on(node_axis(height, k)).end
                == nodes[k].cont.end,
{
    lemma_subtree_node(rects, nodes, 0, height, Axis::X, 0, rects.len() as int, sorted, k);
    assert(nodes[0 + k] == nodes[k]);
}

/// Completeness and order insensitivity: two searches that each return an
/// exact list of the same set (as the search of a tree, on one thread or on
/// several, and the comparison of every element with every other do, of the
/// colliding pairs of the same elements) return the same pairs, each as
/// often, whatever the order.
pub proof fn lemma_same_pairs(a: Seq<Pair>, b: Seq<Pair>, set: Set<Pair>)
    requires
        exact(a, set),
        exact(b, set),
    ensures
        a.to_set() == b.to_set(),
        a.to_multiset() == b.to_multiset(),
        a.len() == b.len(),
{
    broadcast use vstd::multiset::group_multiset_axioms;

    assert(a.to_set() =~= b.to_set());
    a.lemma_multiset_has_no_duplicates();
    b.lemma_multiset_has_no_duplicates();
    assert forall|p: Pair| a.to_multiset().count(p) == b.to_multiset().count(p) by {
        vstd::seq_lib::to_multiset_contains(a, p);
        vstd::seq_lib::to_multiset_contains(b, p);
    }
    assert(a.to_multiset() =~= b.to_multiset());
    vstd::seq_lib::to_multiset_len(a);
    vstd::seq_lib::to_multiset_len(b);
}

/// No duplicates: a list that is exact for a set of pairs `(i, j)` with
/// `i < j` names no two elements twice, neither in the same order nor in the
/// opposite one.
pub proof fn lemma_no_pair_twice(list: Seq<Pair>, set: Set<Pair>, k1: int, k2: int)
    requires
        exact(list, set),
        forall|p: Pair| set.contains(p) ==> p.0 < p.1,
        0 <= k1 < list.len(),
        0 <= k2 < list.len(),
        k1 != k2,
    ensures
        list[k1] != list[k2],
        list[k1] != (list[k2].1, list[k2].0),
{
    assert(list.contains(list[k1]));
    assert(list.contains(list[k2]));
}

/// The rectangles that hold `d` along `axis`.
pub open spec fn holding(axis: Axis, d: i64) -> spec_fn(Rect) -> bool {
    |r: Rect| r.on(axis).holds(d)
}

/// The rectangles that end before `d` along `axis`.
pub open spec fn ending_before(axis: Axis, d: i64) -> spec_fn(Rect) -> bool {
    |r: Rect| r.on(axis).end < d
}

/// The rectangles that start after `d` along `axis`.
pub open spec fn starting_after(axis: Axis, d: i64) -> spec_fn(Rect) -> bool {
    |r: Rect| r.on(axis).start > d
}

/// A multiset of rectangles has one median start at most.
pub proof fn lemma_median_unique(m: Multiset<Rect>, axis: Axis, d1: int, d2: int)
    requires
        is_median(m, axis, d1),
        is_median(m, axis, d2),
    ensures
        d1 == d2,
{
    broadcast use vstd::multiset::group_multiset_axioms;

    if d1 < d2 {
        let by1 = |r: Rect| r.on(axis).start <= d1;
        let before2 = |r: Rect| r.on(axis).start < d2;
        let between = |r: Rect| d1 < r.on(axis).start < d2;
        assert(m.filter(before2) =~= m.filter(by1).add(m.filter(between)));
        assert(starts_by(m, axis, d1) <= starts_before(m, axis, d2));
    } else if d2 < d1 {
        let by2 = |r: Rect| r.on(axis).start <= d2;
        let before1 = |r: Rect| r.on(axis).start < d1;
        let between = |r: Rect| d2 < r.on(axis).start < d1;
        assert(m.filter(before1) =~= m.filter(by2).add(m.filter(between)));
        assert(starts_by(m, axis, d2) <= starts_before(m, axis, d1));
    }
}

/// Two runs of the same rectangles, in whatever order, have the same hull.
pub proof fn lemma_hull_unique(
    r1: Seq<Rect>,
    lo1: int,
    hi1: int,
    r2: Seq<Rect>,
    lo2: int,
    hi2: int,
    axis: Axis,
    c1: crate::geom::Range,
    c2: crate::geom::Range,
)
    requires
        0 <= lo1 <= hi1 <= r1.len(),
        0 <= lo2 <= hi2 <= r2.len(),
        r1.subrange(lo1, hi1).to_multiset() == r2.subrange(lo2, hi2).to_multiset(),
        is_hull(r1, axis, lo1, hi1, c1),
        is_hull(r2, axis, lo2, hi2, c2),
    ensures
        c1 == c2,
{
    let s1 = r1.subrange(lo1, hi1);
    let s2 = r2.subrange(lo2, hi2);
    lemma_permuted_len(s1, s2);
    if lo1 < hi1 {
        let i1 = choose|i: int| lo1 <= i < hi1 && (#[trigger] r1[i]).on(axis).start == c1.start;
        let j1 = lemma_permuted_item(s1, s2, i1 - lo1);
        assert(r2[lo2 + j1] == s2[j1]);
        let i2 = choose|i: int| lo2 <= i < hi2 && (#[trigger] r2[i]).on(axis).start == c2.start;
        let j2 = lemma_permuted_item(s2, s1, i2 - lo2);
        assert(r1[lo1 + j2] == s1[j2]);
        let k1 = choose|i: int| lo1 <= i < hi1 && (#[trigger] r1[i]).on(axis).end == c1.end;
        let l1 = lemma_permuted_item(s1, s2, k1 - lo1);
        assert(r2[lo2 + l1] == s2[l1]);
        let k2 = choose|i: int| lo2 <= i < hi2 && (#[trigger] r2[i]).on(axis).end == c2.end;
        let l2 = lemma_permuted_item(s2, s1, k2 - lo2);
        assert(r1[lo1 + l2] == s1[l2]);
    }
}

/// What the three bins of a divided run hold: of the rectangles of the run,
/// those that hold the divider, those that end before it, and those that
/// start after it.
pub proof fn lemma_bins(r: Seq<Rect>, axis: Axis, lo: int, e: int, split: int, hi: int, d: i64)
    requires
        0 <= lo <= e <= split <= hi <= r.len(),
        all_valid(r),
        divided(r, axis, lo, e, split, hi, d),
    ensures
        r.subrange(lo, e).to_multiset() == r.subrange(lo, hi).to_multiset().filter(holding(axis, d)),
        r.subrange(e, split).to_multiset() == r.subrange(lo, hi).to_multiset().filter(ending_before(axis, d)),
        r.subrange(split, hi).to_multiset() == r.subrange(lo, hi).to_multiset().filter(
            starting_after(axis, d),
        ),
{
    broadcast use vstd::multiset::group_multiset_axioms;
    broadcast use vstd::multiset::lemma_multiset_empty_len;

    let mid = r.subrange(lo, e);
    let left = r.subrange(e, split);
    let right = r.subrange(split, hi);
    let all = r.subrange(lo, hi);
    assert(all =~= mid + left + right);
    lemma_three_parts(mid, left, right);
    let h = holding(axis, d);
    let b = ending_before(axis, d);
    let a = starting_after(axis, d);
    assert forall|i: int| 0 <= i < mid.len() implies h(#[trigger] mid[i]) && !b(mid[i]) && !a(mid[i]) by {
        assert(mid[i] == r[lo + i]);
    }
    assert forall|i: int| 0 <= i < left.len() implies !h(#[trigger] left[i]) && b(left[i]) && !a(left[i]) by {
        assert(left[i] == r[e + i]);
        assert(r[e + i].valid());
    }
    assert forall|i: int| 0 <= i < right.len() implies !h(#[trigger] right[i]) && !b(right[i]) && a(
        right[i],
    ) by {
        assert(right[i] == r[split + i]);
        assert(r[split + i].valid());
    }
    lemma_filter_add(mid.to_multiset().add(left.to_multiset()), right.to_multiset(), h);
    lemma_filter_add(mid.to_multiset(), left.to_multiset(), h);
    lemma_filter_all(mid, h);
    lemma_filter_none(left, h);
    lemma_filter_none(right, h);
    assert(all.to_multiset().filter(h) =~= mid.to_multiset());

    lemma_filter_add(mid.to_multiset().add(left.to_multiset()), right.to_multiset(), b);
    lemma_filter_add(mid.to_multiset(), left.to_multiset(), b);
    lemma_filter_none(mid, b);
    lemma_filter_all(left, b);
    lemma_filter_none(right, b);
    assert(all.to_multiset().filter(b) =~= left.to_multiset());

    lemma_filter_add(mid.to_multiset().add(left.to_multiset()), right.to_multiset(), a);
    lemma_filter_add(mid.to_multiset(), left.to_multiset(), a);
    lemma_filter_none(mid, a);
    lemma_filter_none(left, a);
    lemma_filter_all(right, a);
    assert(all.to_multiset().filter(a) =~= right.to_multiset());
}

/// Two well formed subtrees of the same height, on the same axis and from
/// the same position on, over the same rectangles in whatever order, have
/// the same nodes.
pub proof fn lemma_same_nodes(
    r1: Seq<Rect>,
    n1: Seq<Node>,
    idx1: int,
    r2: Seq<Rect>,
    n2: Seq<Node>,
    idx2: int,
    height: nat,
    axis: Axis,
    lo: int,
    hi: int,
    sorted: bool,
)
    requires
        all_valid(r1),
        all_valid(r2),
        subtree_wf(r1, n1, idx1, height, axis, lo, hi, sorted),
        subtree_wf(r2, n2, idx2, height, axis, lo, hi, sorted),
        r1.subrange(lo, hi).to_multiset() == r2.subrange(lo, hi).to_multiset(),
    ensures
        n1.subrange(idx1, idx1 + tree_size(height)) == n2.subrange(idx2, idx2 + tree_size(height)),
    decreases height,
{
    let size = tree_size(height) as int;
    let w1 = n1.subrange(idx1, idx1 + size);
    let w2 = n2.subrange(idx2, idx2 + size);
    let a = n1[idx1];
    let b = n2[idx2];
    lemma_tree_size_positive(height);
    if height == 1 {
        assert(tree_size(1) == 1) by {
            assert(tree_size(0) == 0);
        }
        lemma_hull_unique(r1, lo, hi, r2, lo, hi, axis, a.cont, b.cont);
        assert(a == b);
        assert(w1 =~= w2);
    } else {
        let below = (height - 1) as nat;
        let s = tree_size(below) as int;
        lemma_tree_size_positive(below);
        let e1 = a.end as int;
        let e2 = b.end as int;
        let split1 = n1[idx1 + 1 + s].start as int;
        let split2 = n2[idx2 + 1 + s].start as int;
        let m = r1.subrange(lo, hi).to_multiset();
        if lo == hi {
            assert(e1 == e2 && split1 == split2);
            assert(a.div is None && b.div is None);
        } else {
            let d1 = a.div->0;
            let d2 = b.div->0;
            lemma_median_unique(m, axis, d1 as int, d2 as int);
            lemma_bins(r1, axis, lo, e1, split1, hi, d1);
            lemma_bins(r2, axis, lo, e2, split2, hi, d2);
            lemma_permuted_len(r1.subrange(lo, e1), r2.subrange(lo, e2));
            lemma_permuted_len(r1.subrange(e1, split1), r2.subrange(e2, split2));
        }
        assert(r1.subrange(lo, e1).to_multiset() == r2.subrange(lo, e2).to_multiset()) by {
            if lo == hi {
                assert(r1.subrange(lo, e1) =~= r2.subrange(lo, e2));
            }
        }
        assert(r1.subrange(e1, split1).to_multiset() == r2.subrange(e2, split2).to_multiset()) by {
            if lo == hi {
                assert(r1.subrange(e1, split1) =~= r2.subrange(e2, split2));
            }
        }
        assert(r1.subrange(split1, hi).to_multiset() == r2.subrange(split2, hi).to_multiset()) by {
            if lo == hi {
                assert(r1.subrange(split1, hi) =~= r2.subrange(split2, hi));
            }
        }
        lemma_hull_unique(r1, lo, e1, r2, lo, e2, axis, a.cont, b.cont);
        assert(a == b);
        lemma_same_nodes(r1, n1, idx1 + 1, r2, n2, idx2 + 1, below, axis.perp(), e1, split1, sorted);
        lemma_same_nodes(r1, n1, idx1 + 1 + s, r2, n2, idx2 + 1 + s, below, axis.perp(), split1, hi, sorted);
        let l1 = n1.subrange(idx1 + 1, idx1 + 1 + s);
        let l2 = n2.subrange(idx2 + 1, idx2 + 1 + s);
        let g1 = n1.subrange(idx1 + 1 + s, idx1 + 1 + s + s);
        let g2 = n2.subrange(idx2 + 1 + s, idx2 + 1 + s + s);
        assert forall|k: int| 0 <= k < size implies #[trigger] w1[k] == w2[k] by {
            if k == 0 {
            } else if k <= s {
                assert(w1[k] == l1[k - 1]);
                assert(w2[k] == l2[k - 1]);
            } else {
                assert(w1[k] == g1[k - 1 - s]);
                assert(w2[k] == g2[k - 1 - s]);
            }
        }
        assert(w1 =~= w2);
    }
}

/// Idempotence on rebuild: two well formed trees of the same height over the
/// same rectangles, in whatever order, have the same nodes. So a tree that is
/// built again, over the elements in the order in which the first build left
/// them, has the nodes it had.
pub proof fn lemma_rebuild(r1: Seq<Rect>, n1: Seq<Node>, r2: Seq<Rect>, n2: Seq<Node>, height: nat, sorted: bool)
    requires
        all_valid(r1),
        all_valid(r2),
        tree_wf(r1, n1, height, sorted),
        tree_wf(r2, n2, height, sorted),
        r1.to_multiset() == r2.to_multiset(),
    ensures
        n1 == n2,
{
    lemma_permuted_len(r1, r2);
    let n = r1.len() as int;
    assert(r1.subrange(0, n) =~= r1);
    assert(r2.subrange(0, n) =~= r2);
    lemma_same_nodes(r1, n1, 0, r2, n2, 0, height, Axis::X, 0, n, sorted);
    assert(n1.subrange(0, 0 + tree_size(height) as int) =~= n1);
    assert(n2.subrange(0, 0 + tree_size(height) as int) =~= n2);
}

} // verus!
