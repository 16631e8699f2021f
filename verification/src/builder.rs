//! Building a tree.

use vstd::prelude::*;
use rayon::join;
use crate::colfind::runs_on_one_thread;
use crate::geom::{all_valid, rects_of, sorted_on, Axis, BBox, Range, Rect};
use crate::node::{
    divided, is_hull, is_median, lemma_relocate, lemma_tree_size_positive, subtree_wf, tree_size, Node,
};
use crate::perm::{
    lemma_all_permuted, lemma_permuted_item, lemma_permuted_len, lemma_rects_permuted,
    lemma_selected_is_median, lemma_swap_multiset, lemma_three_parts, lemma_valid_permuted,
};
use crate::util::{select_by_start, sorted_all, swap_elems, sweeper_update};

verus! {

/// How the elements that a node keeps are ordered.
pub trait Sorter: Copy {
    /// Whether `sort` puts the elements in the order of their starts.
    spec fn sorts(&self) -> bool;

    /// Rearranges the elements, into non-decreasing order of their start
    /// along `axis` if `sorts` says so.
    fn sort<T>(&self, axis: Axis, bots: &mut Vec<BBox<T>>)
        ensures
            final(bots)@.to_multiset() == old(bots)@.to_multiset(),
            self.sorts() ==> sorted_all(rects_of(final(bots)@), axis),
    ;
}

/// Sorts what a node keeps, so that sweeps can be run over it.
#[derive(Clone, Copy, Debug)]
pub struct DefaultSorter;

impl Sorter for DefaultSorter {
    open spec fn sorts(&self) -> bool {
        true
    }

    fn sort<T>(&self, axis: Axis, bots: &mut Vec<BBox<T>>) {
        sweeper_update(axis, bots);
    }
}

/// Leaves what a node keeps as it is.
#[derive(Clone, Copy, Debug)]
pub struct NoSorter;

impl Sorter for NoSorter {
    open spec fn sorts(&self) -> bool {
        false
    }

    fn sort<T>(&self, axis: Axis, bots: &mut Vec<BBox<T>>) {
    }
}

/// The rectangles of a subtree that starts at position `base`, seen as part
/// of the whole storage: the rectangle at position `p` is `rects[p - base]`.
pub open spec fn placed(base: int, rects: Seq<Rect>) -> Seq<Rect> {
    Seq::new((base + rects.len()) as nat, |p: int| rects[p - base])
}

/// Computes the hull along `axis` of the elements; from zero to zero if
/// there are none.
pub fn create_cont<T>(axis: Axis, middle: &Vec<BBox<T>>) -> (cont: Range)
    ensures
        is_hull(rects_of(middle@), axis, 0, middle@.len() as int, cont),
{
    let ghost rects = rects_of(middle@);
    if middle.len() == 0 {
        return Range { start: 0, end: 0 };
    }
    let first: Range = middle[0].rect.on_axis(axis);
    let mut min: i64 = first.start;
    let mut max: i64 = first.end;
    let ghost mut at_min: int = 0;
    let ghost mut at_max: int = 0;
    let mut k: usize = 1;
    while k < middle.len()
        invariant
            1 <= k <= middle@.len(),
            rects == rects_of(middle@),
            0 <= at_min < k,
            0 <= at_max < k,
            rects[at_min].on(axis).start == min,
            rects[at_max].on(axis).end == max,
            forall|i: int| 0 <= i < k ==> min <= (#[trigger] rects[i]).on(axis).start && rects[i].on(axis).end <= max,
        decreases middle@.len() - k,
    {
        let r: Range = middle[k].rect.on_axis(axis);
        if r.start < min {
            min = r.start;
            proof {
                at_min = k as int;
            }
        }
        if r.end > max {
            max = r.end;
            proof {
                at_max = k as int;
            }
        }
        k += 1;
    }
    Range { start: min, end: max }
}

/// Bins the elements around the divider `d`: rearranges them so that those
/// that hold `d` along `axis` come first, then those that end before it, then
/// those that start after it. Returns how many hold `d` and how many end
/// before it.
pub fn bin_middle_left_right<T>(axis: Axis, d: i64, elems: &mut Vec<BBox<T>>) -> (r: (usize, usize))
    ensures
        final(elems)@.to_multiset() == old(elems)@.to_multiset(),
        r.0 + r.1 <= final(elems)@.len(),
        divided(
            rects_of(final(elems)@),
            axis,
            0,
            r.0 as int,
            r.0 + r.1,
            final(elems)@.len() as int,
            d,
        ),
{
    let n: usize = elems.len();
    let mut a: usize = 0;
    let mut b: usize = 0;
    let mut c: usize = n;
    while b < c
        invariant
            a <= b <= c <= n,
            elems@.len() == n,
            elems@.to_multiset() == old(elems)@.to_multiset(),
            forall|i: int| 0 <= i < a ==> (#[trigger] elems@[i]).rect.on(axis).holds(d),
            forall|i: int| a <= i < b ==> (#[trigger] elems@[i]).rect.on(axis).end < d,
            forall|i: int| c <= i < n ==> (#[trigger] elems@[i]).rect.on(axis).start > d,
        decreases c - b,
    {
        let r: Range = elems[b].rect.on_axis(axis);
        let ghost before = elems@;
        if r.end < d {
            b += 1;
        } else if r.start > d {
            c -= 1;
            swap_elems(elems, b, c);
            proof {
                lemma_swap_multiset(before, b as int, c as int);
                assert(elems@[c as int] == before[b as int]);
            }
        } else {
            swap_elems(elems, a, b);
            proof {
                lemma_swap_multiset(before, a as int, b as int);
                assert(elems@[a as int] == before[b as int]);
                assert(elems@[b as int] == before[a as int]);
                assert forall|i: int| a + 1 <= i < b + 1 implies (#[trigger] elems@[i]).rect.on(axis).end < d by {
                    if i < b {
                        assert(elems@[i] == before[i]);
                    }
                }
            }
            a += 1;
            b += 1;
        }
    }
    proof {
        let rects = rects_of(elems@);
        assert forall|i: int| 0 <= i < a implies (#[trigger] rects[i]).on(axis).holds(d) by {
            assert(elems@[i].rect.on(axis).holds(d));
        }
        assert forall|i: int| a <= i < b implies (#[trigger] rects[i]).on(axis).end < d by {
            assert(elems@[i].rect.on(axis).end < d);
        }
        assert forall|i: int| b <= i < n implies (#[trigger] rects[i]).on(axis).start > d by {
            assert(elems@[i].rect.on(axis).start > d);
        }
    }
    (a, b - a)
}

/// What one step of the construction makes of the elements it is given.
pub struct ConstructResult<T> {
    /// The divider: the median start of the elements, or `None` if there are
    /// none.
    pub div: Option<i64>,
    /// The elements that hold the divider.
    pub mid: Vec<BBox<T>>,
    /// The elements that start after the divider.
    pub right: Vec<BBox<T>>,
    /// The elements that end before the divider.
    pub left: Vec<BBox<T>>,
}

/// Every rectangle holds `d` along `axis`.
pub open spec fn all_hold(rects: Seq<Rect>, axis: Axis, d: i64) -> bool {
    forall|i: int| 0 <= i < rects.len() ==> (#[trigger] rects[i]).on(axis).holds(d)
}

/// Every rectangle ends before `d` along `axis`.
pub open spec fn all_end_before(rects: Seq<Rect>, axis: Axis, d: i64) -> bool {
    forall|i: int| 0 <= i < rects.len() ==> (#[trigger] rects[i]).on(axis).end < d
}

/// Every rectangle starts after `d` along `axis`.
pub open spec fn all_start_after(rects: Seq<Rect>, axis: Axis, d: i64) -> bool {
    forall|i: int| 0 <= i < rects.len() ==> (#[trigger] rects[i]).on(axis).start > d
}

/// Divides the elements of a node that is no leaf.
///
/// With no elements there is no divider and nothing in any bin. Otherwise
/// the divider is the median start along `div_axis`, and the elements go
/// three ways: those that hold the divider, those that end before it, those
/// that start after it. The first bin is never empty.
pub fn construct_non_leaf<T>(div_axis: Axis, bots: Vec<BBox<T>>) -> (r: ConstructResult<T>)
    requires
        all_valid(rects_of(bots@)),
    ensures
        (r.mid@ + r.left@ + r.right@).to_multiset() == bots@.to_multiset(),
        r.div is None <==> bots@.len() == 0,
        r.div matches Some(d) ==> {
            &&& is_median(rects_of(bots@).to_multiset(), div_axis, d as int)
            &&& all_hold(rects_of(r.mid@), div_axis, d)
            &&& all_end_before(rects_of(r.left@), div_axis, d)
            &&& all_start_after(rects_of(r.right@), div_axis, d)
            &&& r.mid@.len() > 0
        },
{
    let mut bots = bots;
    let ghost given = bots@;
    if bots.len() == 0 {
        let left: Vec<BBox<T>> = Vec::new();
        let right: Vec<BBox<T>> = Vec::new();
        assert(bots@ + left@ + right@ =~= given);
        return ConstructResult { mid: bots, div: None, left, right };
    }
    let med_index: usize = bots.len() / 2;
    select_by_start(&mut bots, med_index, div_axis);
    let ghost picked = bots@;
    proof {
        lemma_permuted_len(given, picked);
    }
    let med_val: i64 = bots[med_index].rect.get_range(div_axis).start;
    proof {
        lemma_selected_is_median(rects_of(picked), div_axis, med_index as int);
        lemma_rects_permuted(given, picked);
        lemma_valid_permuted(rects_of(given), rects_of(picked));
    }
    let (m, l) = bin_middle_left_right(div_axis, med_val, &mut bots);
    let ghost binned = bots@;
    proof {
        lemma_permuted_len(picked, binned);
    }
    let right = bots.split_off(m + l);
    let left = bots.split_off(m);
    proof {
        let rects = rects_of(binned);
        assert(bots@ + left@ + right@ =~= binned);
        assert forall|i: int| 0 <= i < bots@.len() implies (#[trigger] rects_of(bots@)[i]).on(div_axis).holds(
            med_val,
        ) by {
            assert(rects_of(bots@)[i] == rects[i]);
        }
        assert forall|i: int| 0 <= i < left@.len() implies (#[trigger] rects_of(left@)[i]).on(div_axis).end
            < med_val by {
            assert(rects_of(left@)[i] == rects[m + i]);
        }
        assert forall|i: int| 0 <= i < right@.len() implies (#[trigger] rects_of(right@)[i]).on(div_axis).start
            > med_val by {
            assert(rects_of(right@)[i] == rects[m + l + i]);
        }
        // The element that gave the divider holds it, so the first bin is
        // not empty.
        let j = lemma_permuted_item(picked, binned, med_index as int);
        assert(rects[j] == rects_of(picked)[med_index as int]);
        assert(rects[j].valid());
        assert(j < m);
    }
    ConstructResult { mid: bots, div: Some(med_val), left, right }
}

/// Sorts the elements that a node keeps and makes the node: it keeps the
/// positions from `base` on, and its hull is that of the elements along
/// `axis`.
pub fn finish_node<T, S: Sorter>(
    axis: Axis,
    mid: &mut Vec<BBox<T>>,
    sorter: S,
    base: usize,
    div: Option<i64>,
    num_elem: usize,
) -> (node: Node)
    requires
        base + old(mid)@.len() <= usize::MAX,
    ensures
        final(mid)@.to_multiset() == old(mid)@.to_multiset(),
        sorter.sorts() ==> sorted_all(rects_of(final(mid)@), axis.perp()),
        node.start == base,
        node.end == base + old(mid)@.len(),
        node.div == div,
        node.num_elem == num_elem,
        is_hull(rects_of(final(mid)@), axis, 0, final(mid)@.len() as int, node.cont),
{
    let ghost given = mid@;
    sorter.sort(axis.next(), mid);
    proof {
        lemma_permuted_len(given, mid@);
    }
    let cont = create_cont(axis, mid);
    Node { start: base, end: base + mid.len(), cont, div, num_elem }
}

/// A leaf over the sorted elements `rects`, placed at `base`, is a well
/// formed subtree of height one.
proof fn lemma_leaf(rects: Seq<Rect>, node: Node, axis: Axis, base: int, sorted: bool)
    requires
        0 <= base,
        node.start == base,
        node.end == base + rects.len(),
        node.div is None,
        node.num_elem == 0,
        is_hull(rects, axis, 0, rects.len() as int, node.cont),
        sorted ==> sorted_all(rects, axis.perp()),
    ensures
        subtree_wf(placed(base, rects), seq![node], 0, 1, axis, base, base + rects.len(), sorted),
{
    let all = placed(base, rects);
    let n = rects.len() as int;
    assert(tree_size(1) == 1) by {
        assert(tree_size(0) == 0);
    }
    lemma_hull_placed(rects, axis, n, node.cont, all, base);
    if sorted {
        lemma_sorted_placed(rects, axis.perp(), n, all, base);
    }
}

/// A hull of the first `m` rectangles of `part` is a hull of the `m`
/// rectangles from `base` on of a sequence that holds `part` from `base` on.
proof fn lemma_hull_placed(part: Seq<Rect>, axis: Axis, m: int, cont: Range, all: Seq<Rect>, base: int)
    requires
        0 <= base,
        0 <= m <= part.len(),
        base + m <= all.len(),
        forall|i: int| 0 <= i < m ==> part[i] == #[trigger] all[base + i],
        is_hull(part, axis, 0, m, cont),
    ensures
        is_hull(all, axis, base, base + m, cont),
{
    if m > 0 {
        let i = choose|i: int| 0 <= i < m && (#[trigger] part[i]).on(axis).start == cont.start;
        assert(all[base + i].on(axis).start == cont.start);
        let j = choose|j: int| 0 <= j < m && (#[trigger] part[j]).on(axis).end == cont.end;
        assert(all[base + j].on(axis).end == cont.end);
        assert forall|p: int| base <= p < base + m implies cont.start <= (#[trigger] all[p]).on(axis).start
            && all[p].on(axis).end <= cont.end by {
            assert(part[p - base] == all[base + (p - base)]);
        }
    }
}

/// The same of being sorted.
proof fn lemma_sorted_placed(part: Seq<Rect>, axis: Axis, m: int, all: Seq<Rect>, base: int)
    requires
        0 <= base,
        0 <= m <= part.len(),
        base + m <= all.len(),
        forall|i: int| 0 <= i < m ==> part[i] == #[trigger] all[base + i],
        sorted_on(part, axis, 0, m),
    ensures
        sorted_on(all, axis, base, base + m),
{
    assert forall|p: int, q: int| base <= p <= q < base + m implies (#[trigger] all[p]).on(axis).start <= (
    #[trigger] all[q]).on(axis).start by {
        assert(part[p - base] == all[base + (p - base)]);
        assert(part[q - base] == all[base + (q - base)]);
    }
}

/// The part of [`lemma_assemble`] that is about one of the two subtrees.
proof fn lemma_attach(
    part: Seq<Rect>,
    sub: Seq<Rect>,
    nodes: Seq<Node>,
    sub_nodes: Seq<Node>,
    idx: int,
    height: nat,
    axis: Axis,
    base: int,
    lo: int,
    sorted: bool,
)
    requires
        height >= 1,
        0 <= base <= lo,
        lo + sub.len() <= base + part.len(),
        forall|i: int| 0 <= i < sub.len() ==> #[trigger] sub[i] == part[lo - base + i],
        0 <= idx,
        sub_nodes.len() == tree_size(height),
        idx + sub_nodes.len() <= nodes.len(),
        forall|k: int| 0 <= k < sub_nodes.len() ==> #[trigger] sub_nodes[k] == nodes[idx + k],
        subtree_wf(placed(lo, sub), sub_nodes, 0, height, axis, lo, lo + sub.len(), sorted),
    ensures
        subtree_wf(placed(base, part), nodes, idx, height, axis, lo, lo + sub.len(), sorted),
{
    let hi = lo + sub.len();
    let all = placed(base, part);
    let s = tree_size(height) as int;
    assert(placed(lo, sub).subrange(lo, hi) =~= all.subrange(lo, hi)) by {
        assert forall|i: int| 0 <= i < hi - lo implies #[trigger] placed(lo, sub).subrange(lo, hi)[i]
            == all.subrange(lo, hi)[i] by {
            assert(sub[i] == part[lo - base + i]);
        }
    }
    assert(sub_nodes.subrange(0, 0 + s) =~= nodes.subrange(idx, idx + s)) by {
        assert forall|k: int| 0 <= k < s implies #[trigger] sub_nodes.subrange(0, 0 + s)[k] == nodes.subrange(
            idx,
            idx + s,
        )[k] by {
            assert(sub_nodes[k] == nodes[idx + k]);
        }
    }
    lemma_relocate(placed(lo, sub), sub_nodes, 0, all, nodes, idx, height, axis, lo, hi, sorted);
}

/// A node over what it keeps, followed by two well formed subtrees over what
/// it leaves to them, is a well formed subtree.
#[verifier::rlimit(40)]
proof fn lemma_assemble(
    mid: Seq<Rect>,
    left: Seq<Rect>,
    right: Seq<Rect>,
    node: Node,
    left_nodes: Seq<Node>,
    right_nodes: Seq<Node>,
    height: nat,
    axis: Axis,
    base: int,
    sorted: bool,
)
    requires
        height >= 2,
        0 <= base,
        left_nodes.len() == tree_size((height - 1) as nat),
        right_nodes.len() == tree_size((height - 1) as nat),
        subtree_wf(
            placed(base + mid.len(), left),
            left_nodes,
            0,
            (height - 1) as nat,
            axis.perp(),
            base + mid.len(),
            base + mid.len() + left.len(),
            sorted,
        ),
        subtree_wf(
            placed(base + mid.len() + left.len(), right),
            right_nodes,
            0,
            (height - 1) as nat,
            axis.perp(),
            base + mid.len() + left.len(),
            base + mid.len() + left.len() + right.len(),
            sorted,
        ),
        node.start == base,
        node.end == base + mid.len(),
        node.num_elem == left.len() + right.len(),
        is_hull(mid, axis, 0, mid.len() as int, node.cont),
        sorted ==> sorted_all(mid, axis.perp()),
        node.div is None <==> (mid + left + right).len() == 0,
        node.div matches Some(d) ==> {
            &&& is_median((mid + left + right).to_multiset(), axis, d as int)
            &&& all_hold(mid, axis, d)
            &&& all_end_before(left, axis, d)
            &&& all_start_after(right, axis, d)
        },
    ensures
        subtree_wf(
            placed(base, mid + left + right),
            seq![node] + left_nodes + right_nodes,
            0,
            height,
            axis,
            base,
            base + (mid + left + right).len(),
            sorted,
        ),
{
    let part = mid + left + right;
    let all = placed(base, part);
    let nodes = seq![node] + left_nodes + right_nodes;
    let below = (height - 1) as nat;
    let s = tree_size(below) as int;
    let m = mid.len() as int;
    let l = left.len() as int;
    let r = right.len() as int;
    let e = base + m;
    let split = base + m + l;
    let hi = base + m + l + r;
    lemma_tree_size_positive(below);
    assert(nodes[0] == node);
    assert(nodes[1 + s] == right_nodes[0]);
    assert(right_nodes[0].start == split);
    assert(is_hull(all, axis, base, e, node.cont)) by {
        assert forall|i: int| 0 <= i < m implies part[i] == #[trigger] all[base + i] by {}
        assert(is_hull(part, axis, 0, m, node.cont)) by {
            if m > 0 {
                let i = choose|i: int| 0 <= i < m && (#[trigger] mid[i]).on(axis).start == node.cont.start;
                assert(part[i] == mid[i]);
                let j = choose|j: int| 0 <= j < m && (#[trigger] mid[j]).on(axis).end == node.cont.end;
                assert(part[j] == mid[j]);
                assert forall|i: int| 0 <= i < m implies node.cont.start <= (#[trigger] part[i]).on(axis).start
                    && part[i].on(axis).end <= node.cont.end by {
                    assert(part[i] == mid[i]);
                }
            }
        }
        lemma_hull_placed(part, axis, m, node.cont, all, base);
    }
    assert(sorted ==> sorted_on(all, axis.perp(), base, e)) by {
        if sorted {
            assert forall|i: int| 0 <= i < m implies part[i] == #[trigger] all[base + i] by {}
            assert(sorted_on(part, axis.perp(), 0, m)) by {
                assert forall|i: int, j: int| 0 <= i <= j < m implies (#[trigger] part[i]).on(axis.perp()).start
                    <= (#[trigger] part[j]).on(axis.perp()).start by {
                    assert(part[i] == mid[i]);
                    assert(part[j] == mid[j]);
                }
            }
            lemma_sorted_placed(part, axis.perp(), m, all, base);
        }
    }
    assert(node.div matches Some(d) ==> is_median(all.subrange(base, hi).to_multiset(), axis, d as int)
        && divided(all, axis, base, e, split, hi, d)) by {
        match node.div {
            None => {},
            Some(d) => {
                assert(all.subrange(base, hi) =~= part);
                assert forall|i: int| base <= i < e implies (#[trigger] all[i]).on(axis).holds(d) by {
                    assert(all[i] == mid[i - base]);
                }
                assert forall|i: int| e <= i < split implies (#[trigger] all[i]).on(axis).end < d by {
                    assert(all[i] == left[i - e]);
                }
                assert forall|i: int| split <= i < hi implies (#[trigger] all[i]).on(axis).start > d by {
                    assert(all[i] == right[i - split]);
                }
            },
        }
    }
    assert(subtree_wf(all, nodes, 1, below, axis.perp(), e, split, sorted)) by {
        assert forall|i: int| 0 <= i < left.len() implies #[trigger] left[i] == part[e - base + i] by {}
        assert forall|k: int| 0 <= k < left_nodes.len() implies #[trigger] left_nodes[k] == nodes[1 + k] by {}
        lemma_attach(part, left, nodes, left_nodes, 1, below, axis.perp(), base, e, sorted);
    }
    assert(subtree_wf(all, nodes, 1 + s, below, axis.perp(), split, hi, sorted)) by {
        assert forall|i: int| 0 <= i < right.len() implies #[trigger] right[i] == part[split - base + i] by {}
        assert forall|k: int| 0 <= k < right_nodes.len() implies #[trigger] right_nodes[k] == nodes[1 + s + k] by {}
        lemma_attach(part, right, nodes, right_nodes, 1 + s, below, axis.perp(), base, split, sorted);
    }
}

/// What [`split_node`] makes of the elements `given`.
pub open spec fn stepped<T>(
    given: Seq<BBox<T>>,
    node: Node,
    mid: Seq<BBox<T>>,
    left: Seq<BBox<T>>,
    right: Seq<BBox<T>>,
    axis: Axis,
    base: int,
    sorted: bool,
) -> bool {
    &&& (mid + left + right).to_multiset() == given.to_multiset()
    &&& all_valid(rects_of(left))
    &&& all_valid(rects_of(right))
    &&& node.start == base
    &&& node.end == base + mid.len()
    &&& node.num_elem == left.len() + right.len()
    &&& is_hull(rects_of(mid), axis, 0, mid.len() as int, node.cont)
    &&& sorted ==> sorted_all(rects_of(mid), axis.perp())
    &&& node.div is None <==> given.len() == 0
    &&& node.div matches Some(d) ==> {
        &&& is_median(rects_of(given).to_multiset(), axis, d as int)
        &&& all_hold(rects_of(mid), axis, d)
        &&& all_end_before(rects_of(left), axis, d)
        &&& all_start_after(rects_of(right), axis, d)
    }
}

/// What building a subtree makes of the elements `given`: the elements
/// rearranged, and the nodes of a well formed subtree over them.
pub open spec fn built<T>(
    given: Seq<BBox<T>>,
    out: Seq<BBox<T>>,
    nodes: Seq<Node>,
    height: nat,
    axis: Axis,
    base: int,
    sorted: bool,
) -> bool {
    &&& out.to_multiset() == given.to_multiset()
    &&& nodes.len() == tree_size(height)
    &&& subtree_wf(placed(base, rects_of(out)), nodes, 0, height, axis, base, base + given.len(), sorted)
}

/// Makes a node that is no leaf: divides the elements, sorts those that the
/// node keeps, and returns the node, what it keeps, what goes to its left and
/// what goes to its right.
pub fn split_node<T, S: Sorter>(bots: Vec<BBox<T>>, axis: Axis, base: usize, sorter: S) -> (r: (
    Node,
    Vec<BBox<T>>,
    Vec<BBox<T>>,
    Vec<BBox<T>>,
))
    requires
        all_valid(rects_of(bots@)),
        base + bots@.len() <= usize::MAX,
    ensures
        stepped(bots@, r.0, r.1@, r.2@, r.3@, axis, base as int, sorter.sorts()),
{
    let ghost given = bots@;
    let rr = construct_non_leaf(axis, bots);
    let ConstructResult { div, mid, right, left } = rr;
    let mut mid = mid;
    let ghost binned = mid@;
    proof {
        lemma_permuted_len(mid@ + left@ + right@, given);
        let whole = mid@ + left@ + right@;
        assert forall|i: int| 0 <= i < left@.len() implies (#[trigger] rects_of(left@)[i]).valid() by {
            assert(whole[binned.len() + i] == left@[i]);
            let j = lemma_permuted_item(whole, given, binned.len() + i);
            assert(rects_of(given)[j].valid());
        }
        assert forall|i: int| 0 <= i < right@.len() implies (#[trigger] rects_of(right@)[i]).valid() by {
            assert(whole[binned.len() + left@.len() + i] == right@[i]);
            let j = lemma_permuted_item(whole, given, binned.len() + left@.len() + i);
            assert(rects_of(given)[j].valid());
        }
    }
    let num_elem: usize = left.len() + right.len();
    let node = finish_node(axis, &mut mid, sorter, base, div, num_elem);
    proof {
        lemma_permuted_len(binned, mid@);
        lemma_three_parts(binned, left@, right@);
        lemma_three_parts(mid@, left@, right@);
        match div {
            None => {},
            Some(d) => {
                lemma_rects_permuted(binned, mid@);
                lemma_all_permuted(rects_of(binned), rects_of(mid@), |r: Rect| r.on(axis).holds(d));
            },
        }
    }
    (node, mid, left, right)
}

/// A node made by [`split_node`], followed by what building made of what it
/// left to its two sides, is what building makes of the elements it was given.
proof fn lemma_combine<T>(
    given: Seq<BBox<T>>,
    node: Node,
    mid: Seq<BBox<T>>,
    left: Seq<BBox<T>>,
    right: Seq<BBox<T>>,
    left_out: Seq<BBox<T>>,
    left_nodes: Seq<Node>,
    right_out: Seq<BBox<T>>,
    right_nodes: Seq<Node>,
    height: nat,
    axis: Axis,
    base: int,
    sorted: bool,
)
    requires
        height >= 2,
        0 <= base,
        stepped(given, node, mid, left, right, axis, base, sorted),
        built(left, left_out, left_nodes, (height - 1) as nat, axis.perp(), base + mid.len(), sorted),
        built(
            right,
            right_out,
            right_nodes,
            (height - 1) as nat,
            axis.perp(),
            base + mid.len() + left.len(),
            sorted,
        ),
    ensures
        built(
            given,
            mid + left_out + right_out,
            seq![node] + left_nodes + right_nodes,
            height,
            axis,
            base,
            sorted,
        ),
{
    let out = mid + left_out + right_out;
    lemma_three_parts(mid, left, right);
    lemma_three_parts(mid, left_out, right_out);
    lemma_permuted_len(left, left_out);
    lemma_permuted_len(right, right_out);
    lemma_permuted_len(out, given);
    lemma_rects_permuted(given, out);
    lemma_rects_permuted(left, left_out);
    lemma_rects_permuted(right, right_out);
    assert(rects_of(out) =~= rects_of(mid) + rects_of(left_out) + rects_of(right_out));
    match node.div {
        None => {},
        Some(d) => {
            lemma_all_permuted(rects_of(left), rects_of(left_out), |r: Rect| r.on(axis).end < d);
            lemma_all_permuted(rects_of(right), rects_of(right_out), |r: Rect| r.on(axis).start > d);
        },
    }
    lemma_tree_size_positive((height - 1) as nat);
    lemma_assemble(
        rects_of(mid),
        rects_of(left_out),
        rects_of(right_out),
        node,
        left_nodes,
        right_nodes,
        height,
        axis,
        base,
        sorted,
    );
}

/// Builds the subtree of the given height over the elements, on one thread.
///
/// Returns the elements, rearranged so that each node keeps a run of them,
/// and the nodes in preorder. The positions in the nodes count from `base`.
pub fn build_subtree<T, S: Sorter>(bots: Vec<BBox<T>>, height: usize, axis: Axis, base: usize, sorter: S) -> (r: (
    Vec<BBox<T>>,
    Vec<Node>,
))
    requires
        height >= 1,
        all_valid(rects_of(bots@)),
        base + bots@.len() <= usize::MAX,
    ensures
        built(bots@, r.0@, r.1@, height as nat, axis, base as int, sorter.sorts()),
    decreases height,
{
    let ghost given = bots@;
    let mut nodes: Vec<Node> = Vec::new();
    if height == 1 {
        let mut mid = bots;
        let node = finish_node(axis, &mut mid, sorter, base, None, 0);
        nodes.push(node);
        proof {
            lemma_permuted_len(given, mid@);
            lemma_leaf(rects_of(mid@), node, axis, base as int, sorter.sorts());
            assert(nodes@ =~= seq![node]);
        }
        (mid, nodes)
    } else {
        let (node, mid, left, right) = split_node(bots, axis, base, sorter);
        let mut mid = mid;
        let ghost kept = mid@;
        let ghost left_given = left@;
        let ghost right_given = right@;
        proof {
            lemma_permuted_len(mid@ + left@ + right@, given);
        }
        let left_base: usize = base + mid.len();
        let right_base: usize = left_base + left.len();
        let (left_out, left_nodes) = build_subtree(left, height - 1, axis.next(), left_base, sorter);
        let (right_out, right_nodes) = build_subtree(right, height - 1, axis.next(), right_base, sorter);
        let mut left_out = left_out;
        let mut left_nodes = left_nodes;
        let mut right_out = right_out;
        let mut right_nodes = right_nodes;
        proof {
            lemma_combine(
                given,
                node,
                kept,
                left_given,
                right_given,
                left_out@,
                left_nodes@,
                right_out@,
                right_nodes@,
                height as nat,
                axis,
                base as int,
                sorter.sorts(),
            );
        }
        nodes.push(node);
        nodes.append(&mut left_nodes);
        nodes.append(&mut right_nodes);
        mid.append(&mut left_out);
        mid.append(&mut right_out);
        (mid, nodes)
    }
}

/// Builds the subtree of the given height over the elements, on several
/// threads.
///
/// Returns what [`build_subtree`] returns. A subtree over more than
/// `num_seq_fallback` elements has its two sides built side by side; one over
/// fewer is built on one thread.
pub fn build_subtree_par<T: Send, S: Sorter + Send>(
    bots: Vec<BBox<T>>,
    height: usize,
    axis: Axis,
    base: usize,
    sorter: S,
    num_seq_fallback: usize,
) -> (r: (Vec<BBox<T>>, Vec<Node>))
    requires
        height >= 1,
        all_valid(rects_of(bots@)),
        base + bots@.len() <= usize::MAX,
    ensures
        built(bots@, r.0@, r.1@, height as nat, axis, base as int, sorter.sorts()),
    decreases height,
{
    let ghost given = bots@;
    if height == 1 || runs_on_one_thread(bots.len(), num_seq_fallback) {
        return build_subtree(bots, height, axis, base, sorter);
    }
    let (node, mid, left, right) = split_node(bots, axis, base, sorter);
    let mut mid = mid;
    let ghost kept = mid@;
    let ghost left_given = left@;
    let ghost right_given = right@;
    proof {
        lemma_permuted_len(mid@ + left@ + right@, given);
    }
    let left_base: usize = base + mid.len();
    let right_base: usize = left_base + left.len();
    let below: usize = height - 1;
    let perp = axis.next();
    let build_left = move || -> (r: (Vec<BBox<T>>, Vec<Node>))
        requires
            below >= 1,
            all_valid(rects_of(left@)),
            left_base + left@.len() <= usize::MAX,
        ensures
            built(left@, r.0@, r.1@, below as nat, perp, left_base as int, sorter.sorts()),
        { build_subtree_par(left, below, perp, left_base, sorter, num_seq_fallback) };
    let build_right = move || -> (r: (Vec<BBox<T>>, Vec<Node>))
        requires
            below >= 1,
            all_valid(rects_of(right@)),
            right_base + right@.len() <= usize::MAX,
        ensures
            built(right@, r.0@, r.1@, below as nat, perp, right_base as int, sorter.sorts()),
        { build_subtree_par(right, below, perp, right_base, sorter, num_seq_fallback) };
    let (left_built, right_built) = join(build_left, build_right);
    let (left_out, left_nodes) = left_built;
    let (right_out, right_nodes) = right_built;
    let mut left_out = left_out;
    let mut left_nodes = left_nodes;
    let mut right_out = right_out;
    let mut right_nodes = right_nodes;
    proof {
        lemma_combine(
            given,
            node,
            kept,
            left_given,
            right_given,
            left_out@,
            left_nodes@,
            right_out@,
            right_nodes@,
            height as nat,
            axis,
            base as int,
            sorter.sorts(),
        );
    }
    let mut nodes: Vec<Node> = Vec::new();
    nodes.push(node);
    nodes.append(&mut left_nodes);
    nodes.append(&mut right_nodes);
    mid.append(&mut left_out);
    mid.append(&mut right_out);
    (mid, nodes)
}

} // verus!
