//! Finding the colliding pairs of a tree.
//!
//! The search walks the tree once. At a node it finds the pairs among the
//! elements that the node keeps; then the node is the anchor of a second walk
//! over everything below it, which finds the pairs of one of its elements with
//! an element kept further down; then the search goes on in the two subtrees.
//!
//! Every pair is reported as `(i, j)` with `i < j`: the positions of the two
//! elements in the tree's storage.

use vstd::prelude::*;
use rayon::join;
use crate::geom::{all_valid, rects_of, sorted_on, Axis, BBox, Range, Rect, Side};
use crate::handler::NodeHandler;
use crate::node::{divided, is_hull, lemma_tree_size_positive, subtree_wf, tree_size, Node};
use crate::pairs::{
    colliding, exact, extends_by, lemma_exact_concat, lemma_extends_chain, lemma_extends_from_empty,
    lemma_extends_none, lemma_extends_same, Pair,
};

verus! {

/// The number of elements in the two subtrees of a node at or below which the
/// parallel search goes on on one thread.
pub const SEQ_FALLBACK_DEFAULT: usize = 2_400;

/// Tells whether a subtree goes on on one thread: it does if the two
/// subtrees of its root hold no more than `num_seq_fallback` elements
/// together. The building of a tree asks the same of the elements that a
/// subtree is built over.
pub fn runs_on_one_thread(num_elem: usize, num_seq_fallback: usize) -> (r: bool)
    ensures
        r == (num_elem <= num_seq_fallback),
{
    num_elem <= num_seq_fallback
}

/// A value that travels along when the work is split in two, is divided
/// before the split and is put together again after it.
pub trait Splitter: Sized {
    /// Called before the two subtrees of a node are entered. What is
    /// returned goes along into the right subtree; `self` goes into the left
    /// one.
    fn div(&mut self) -> Self;

    /// Called when both subtrees are done, with what came back from the
    /// right one.
    fn add(&mut self, b: Self);
}

/// A splitter that does nothing.
#[derive(Clone, Copy, Debug)]
pub struct SplitterEmpty;

impl Splitter for SplitterEmpty {
    fn div(&mut self) -> Self {
        SplitterEmpty
    }

    fn add(&mut self, b: Self) {
    }
}

/// A subtree of a tree, on the way through it: the node at `idx` with the
/// `size` nodes from it on, over the elements at `lo..hi`.
pub struct Vistr<'a, T> {
    pub elems: &'a [BBox<T>],
    pub nodes: &'a [Node],
    pub idx: usize,
    pub size: usize,
    pub height: usize,
    pub axis: Axis,
    pub lo: usize,
    pub hi: usize,
    pub sorted: bool,
}

impl<'a, T> Vistr<'a, T> {
    /// The subtree is a well formed subtree of valid rectangles.
    pub open spec fn wf(&self) -> bool {
        &&& all_valid(rects_of(self.elems@))
        &&& self.size == tree_size(self.height as nat)
        &&& subtree_wf(
            rects_of(self.elems@),
            self.nodes@,
            self.idx as int,
            self.height as nat,
            self.axis,
            self.lo as int,
            self.hi as int,
            self.sorted,
        )
    }

    /// The subtree of the same tree below `self` that starts at the node
    /// `idx` and is over the elements at `lo..hi`.
    pub open spec fn below(&self, idx: int, lo: int, hi: int) -> Vistr<'a, T> {
        Vistr {
            elems: self.elems,
            nodes: self.nodes,
            idx: idx as usize,
            size: ((self.size - 1) / 2) as usize,
            height: (self.height - 1) as usize,
            axis: self.axis.perp(),
            lo: lo as usize,
            hi: hi as usize,
            sorted: self.sorted,
        }
    }

    /// The root of the subtree.
    pub open spec fn root(&self) -> Node {
        self.nodes@[self.idx as int]
    }

    /// Where the elements of the right subtree start.
    pub open spec fn split(&self) -> int {
        self.nodes@[self.idx + 1 + (self.size - 1) / 2].start as int
    }

    /// A second visitor of the same subtree.
    pub fn create_wrap(&self) -> (r: Vistr<'a, T>)
        ensures
            r == *self,
    {
        Vistr {
            elems: self.elems,
            nodes: self.nodes,
            idx: self.idx,
            size: self.size,
            height: self.height,
            axis: self.axis,
            lo: self.lo,
            hi: self.hi,
            sorted: self.sorted,
        }
    }

    /// The number of elements in the two subtrees of the root.
    pub fn num_elem(&self) -> (r: usize)
        requires
            self.wf(),
        ensures
            r == self.root().num_elem,
    {
        self.nodes[self.idx].num_elem
    }

    /// Steps down: returns the root and, unless it is a leaf, its two
    /// subtrees.
    pub fn next(self) -> (r: (Node, Option<(Vistr<'a, T>, Vistr<'a, T>)>))
        requires
            self.wf(),
        ensures
            r.0 == self.root(),
            r.1 is None <==> self.height == 1,
            r.1 matches Some(sub) ==> {
                &&& sub.0 == self.below(self.idx + 1, self.root().end as int, self.split())
                &&& sub.1 == self.below(self.idx + 1 + (self.size - 1) / 2, self.split(), self.hi as int)
                &&& sub.0.wf()
                &&& sub.1.wf()
            },
    {
        let node: Node = self.nodes[self.idx];
        if self.height == 1 {
            (node, None)
        } else {
            proof {
                lemma_tree_size_positive((self.height - 1) as nat);
            }
            let half: usize = (self.size - 1) / 2;
            let right_idx: usize = self.idx + 1 + half;
            let split: usize = self.nodes[right_idx].start;
            let left = Vistr {
                elems: self.elems,
                nodes: self.nodes,
                idx: self.idx + 1,
                size: half,
                height: self.height - 1,
                axis: self.axis.next(),
                lo: node.end,
                hi: split,
                sorted: self.sorted,
            };
            let right = Vistr {
                elems: self.elems,
                nodes: self.nodes,
                idx: right_idx,
                size: half,
                height: self.height - 1,
                axis: self.axis.next(),
                lo: split,
                hi: self.hi,
                sorted: self.sorted,
            };
            (node, Some((left, right)))
        }
    }
}

/// The elements that a node keeps, seen from the nodes below it.
#[derive(Clone, Copy, Debug)]
pub struct Anchor {
    /// The axis of the node.
    pub axis: Axis,
    /// The position of the first element that the node keeps.
    pub lo: usize,
    /// The position after the last element that the node keeps.
    pub hi: usize,
    /// The hull of these elements along the node's axis.
    pub cont: Range,
}

impl Anchor {
    /// The anchor is the run `lo..hi` of elements, sorted if the search needs
    /// it, with its hull, and comes before the subtree `below`.
    pub open spec fn wf<T>(&self, below: &Vistr<'_, T>, needs_sorted: bool) -> bool {
        &&& self.lo <= self.hi <= below.lo
        &&& is_hull(rects_of(below.elems@), self.axis, self.lo as int, self.hi as int, self.cont)
        &&& needs_sorted ==> sorted_on(rects_of(below.elems@), self.axis.perp(), self.lo as int, self.hi as int)
    }
}

/// Nothing that ends before the divider collides with anything that starts
/// after it.
proof fn lemma_sides_apart(rects: Seq<Rect>, axis: Axis, lo1: int, hi1: int, lo2: int, hi2: int, d: i64)
    requires
        forall|i: int| lo1 <= i < hi1 ==> (#[trigger] rects[i]).on(axis).end < d,
        forall|i: int| lo2 <= i < hi2 ==> (#[trigger] rects[i]).on(axis).start > d,
    ensures
        forall|p: Pair| !colliding(rects, lo1, hi1, lo2, hi2).contains(p),
        forall|p: Pair| !colliding(rects, lo2, hi2, lo1, hi1).contains(p),
{
    assert forall|p: Pair| !colliding(rects, lo1, hi1, lo2, hi2).contains(p) by {
        if lo1 <= p.0 < hi1 && lo2 <= p.1 < hi2 {
            assert(rects[p.0 as int].on(axis).end < d);
            assert(rects[p.1 as int].on(axis).start > d);
        }
    }
    assert forall|p: Pair| !colliding(rects, lo2, hi2, lo1, hi1).contains(p) by {
        if lo2 <= p.0 < hi2 && lo1 <= p.1 < hi1 {
            assert(rects[p.1 as int].on(axis).end < d);
            assert(rects[p.0 as int].on(axis).start > d);
        }
    }
}

/// The walk below an anchor.
pub struct InnerRecurser {
    pub anchor: Anchor,
}

impl InnerRecurser {
    pub fn new(anchor: Anchor) -> (r: InnerRecurser)
        ensures
            r.anchor == anchor,
    {
        InnerRecurser { anchor }
    }

    /// Appends to `out` the colliding pairs of an element of the anchor with
    /// an element of the subtree `m`, each pair once.
    ///
    /// Where a node has the anchor's axis and its divider lies outside the
    /// anchor's hull, only the subtree on the anchor's side of the divider is
    /// entered.
    pub fn recurse<T, NN: NodeHandler>(&self, m: Vistr<'_, T>, sweeper: &mut NN, out: &mut Vec<Pair>)
        requires
            m.wf(),
            self.anchor.wf(&m, old(sweeper).needs_sorted()),
            old(sweeper).needs_sorted() ==> m.sorted,
        ensures
            final(sweeper).needs_sorted() == old(sweeper).needs_sorted(),
            extends_by(
                old(out)@,
                final(out)@,
                colliding(
                    rects_of(m.elems@),
                    self.anchor.lo as int,
                    self.anchor.hi as int,
                    m.lo as int,
                    m.hi as int,
                ),
            ),
        decreases m.height,
    {
        let ghost rects = rects_of(m.elems@);
        let ghost before = out@;
        let anchor = self.anchor;
        let this_axis = m.axis;
        let elems = m.elems;
        let ghost a_lo = anchor.lo as int;
        let ghost a_hi = anchor.hi as int;
        let ghost lo = m.lo as int;
        let ghost hi = m.hi as int;
        let ghost split = m.split();
        let (nn, rest) = m.next();
        let ghost e = nn.end as int;
        sweeper.handle_children(anchor.axis, (anchor.lo, anchor.hi), this_axis, (nn.start, nn.end), elems, out);
        let ghost kept = colliding(rects, a_lo, a_hi, lo, e);
        let ghost all = colliding(rects, a_lo, a_hi, lo, hi);
        match rest {
            None => {},
            Some((left, right)) => {
                let ghost in_left = colliding(rects, a_lo, a_hi, e, split);
                let ghost in_right = colliding(rects, a_lo, a_hi, split, hi);
                let mut go_left = true;
                let mut go_right = true;
                match nn.div {
                    None => {},
                    Some(div) => {
                        if anchor.axis.is_equal_to(this_axis) {
                            match anchor.cont.contains_ext(div) {
                                Side::Below => {
                                    go_left = false;
                                    proof {
                                        assert forall|p: Pair| !in_left.contains(p) by {
                                            if in_left.contains(p) {
                                                assert(rects[p.1 as int].on(this_axis).end < div);
                                                assert(anchor.cont.start <= rects[p.0 as int].on(this_axis).start);
                                            }
                                        }
                                    }
                                },
                                Side::Above => {
                                    go_right = false;
                                    proof {
                                        assert forall|p: Pair| !in_right.contains(p) by {
                                            if in_right.contains(p) {
                                                assert(rects[p.1 as int].on(this_axis).start > div);
                                                assert(rects[p.0 as int].on(this_axis).end <= anchor.cont.end);
                                            }
                                        }
                                    }
                                },
                                Side::Inside => {},
                            }
                        }
                    },
                }
                let ghost after_node = out@;
                if go_left {
                    self.recurse(left, sweeper, out);
                } else {
                    proof {
                        lemma_extends_none(after_node);
                        lemma_extends_same(after_node, out@, Set::empty(), in_left);
                    }
                }
                let ghost after_left = out@;
                if go_right {
                    self.recurse(right, sweeper, out);
                } else {
                    proof {
                        lemma_extends_none(after_left);
                        lemma_extends_same(after_left, out@, Set::empty(), in_right);
                    }
                }
                proof {
                    assert(kept.disjoint(in_left));
                    lemma_extends_chain(before, after_node, after_left, kept, in_left);
                    assert(kept.union(in_left).disjoint(in_right));
                    lemma_extends_chain(before, after_left, out@, kept.union(in_left), in_right);
                    lemma_extends_same(before, out@, kept.union(in_left).union(in_right), all);
                }
            },
        }
    }
}

/// What the search in a subtree over the elements at `lo..hi` owes: the
/// colliding pairs among them.
pub open spec fn owed_within(rects: Seq<Rect>, lo: int, hi: int) -> Set<Pair> {
    colliding(rects, lo, hi, lo, hi)
}

/// The colliding pairs of a subtree are those among the elements that its
/// root keeps, those of such an element with one of either subtree, and those
/// within either subtree: no element of the left subtree collides with one of
/// the right subtree.
proof fn lemma_subtree_pairs(rects: Seq<Rect>, axis: Axis, lo: int, e: int, split: int, hi: int, div: Option<i64>)
    requires
        lo <= e <= split <= hi,
        div is None ==> lo == hi,
        div matches Some(d) ==> divided(rects, axis, lo, e, split, hi, d),
    ensures
        ({
            let kept = owed_within(rects, lo, e);
            let with_left = colliding(rects, lo, e, e, split);
            let with_right = colliding(rects, lo, e, split, hi);
            let left = owed_within(rects, e, split);
            let right = owed_within(rects, split, hi);
            &&& kept.disjoint(with_left)
            &&& kept.union(with_left).disjoint(with_right)
            &&& kept.union(with_left).union(with_right).disjoint(left)
            &&& kept.union(with_left).union(with_right).union(left).disjoint(right)
            &&& forall|p: Pair|
                kept.union(with_left).union(with_right).union(left).union(right).contains(p) <==> owed_within(
                    rects,
                    lo,
                    hi,
                ).contains(p)
        }),
{
    match div {
        None => {},
        Some(d) => {
            lemma_sides_apart(rects, axis, e, split, split, hi, d);
        },
    }
}

/// The search for colliding pairs.
pub struct ColFindRecurser;

impl ColFindRecurser {
    pub fn new() -> (r: ColFindRecurser) {
        ColFindRecurser
    }

    /// Appends to `out` the colliding pairs among the elements of the
    /// subtree `m`, each pair once, on one thread.
    pub fn recurse_seq<T, K: Splitter, S: NodeHandler>(
        &self,
        sweeper: &mut S,
        m: Vistr<'_, T>,
        splitter: &mut K,
        out: &mut Vec<Pair>,
    )
        requires
            m.wf(),
            old(sweeper).needs_sorted() ==> m.sorted,
        ensures
            final(sweeper).needs_sorted() == old(sweeper).needs_sorted(),
            extends_by(old(out)@, final(out)@, owed_within(rects_of(m.elems@), m.lo as int, m.hi as int)),
        decreases m.height,
    {
        let ghost rects = rects_of(m.elems@);
        let ghost before = out@;
        let this_axis = m.axis;
        let elems = m.elems;
        let ghost lo = m.lo as int;
        let ghost hi = m.hi as int;
        let ghost split = m.split();
        let (nn, rest) = m.next();
        let ghost e = nn.end as int;
        sweeper.handle_node(this_axis.next(), elems, nn.start, nn.end, out);
        match rest {
            None => {},
            Some((left, right)) => {
                let mut splitter2 = splitter.div();
                let ghost after_node = out@;
                let g = InnerRecurser::new(Anchor { axis: this_axis, lo: nn.start, hi: nn.end, cont: nn.cont });
                g.recurse(left.create_wrap(), sweeper, out);
                let ghost after_left = out@;
                g.recurse(right.create_wrap(), sweeper, out);
                let ghost after_right = out@;
                self.recurse_seq(sweeper, left, splitter, out);
                let ghost in_left = out@;
                self.recurse_seq(sweeper, right, &mut splitter2, out);
                splitter.add(splitter2);
                proof {
                    let kept = owed_within(rects, lo, e);
                    let with_left = colliding(rects, lo, e, e, split);
                    let with_right = colliding(rects, lo, e, split, hi);
                    let left_all = owed_within(rects, e, split);
                    let right_all = owed_within(rects, split, hi);
                    lemma_subtree_pairs(rects, this_axis, lo, e, split, hi, nn.div);
                    lemma_extends_chain(before, after_node, after_left, kept, with_left);
                    lemma_extends_chain(before, after_left, after_right, kept.union(with_left), with_right);
                    lemma_extends_chain(
                        before,
                        after_right,
                        in_left,
                        kept.union(with_left).union(with_right),
                        left_all,
                    );
                    lemma_extends_chain(
                        before,
                        in_left,
                        out@,
                        kept.union(with_left).union(with_right).union(left_all),
                        right_all,
                    );
                    lemma_extends_same(
                        before,
                        out@,
                        kept.union(with_left).union(with_right).union(left_all).union(right_all),
                        owed_within(rects, lo, hi),
                    );
                }
            },
        }
    }
}

impl ColFindRecurser {
    /// Returns the handler and the colliding pairs among the elements of the
    /// subtree `m`, each pair once, found on several threads.
    ///
    /// At a node whose subtrees hold more than `num_seq_fallback` elements
    /// together, the node's own work is done on the current thread and the
    /// two subtrees are then searched side by side, the right one with a
    /// handler of its own. Below such a node the search is that of
    /// [`ColFindRecurser::recurse_seq`].
    pub fn recurse_par<T: Send + Sync, S: NodeHandler + Send>(
        &self,
        sweeper: S,
        m: Vistr<'_, T>,
        num_seq_fallback: usize,
    ) -> (r: (S, Vec<Pair>))
        requires
            m.wf(),
            sweeper.needs_sorted() ==> m.sorted,
        ensures
            r.0.needs_sorted() == sweeper.needs_sorted(),
            exact(r.1@, owed_within(rects_of(m.elems@), m.lo as int, m.hi as int)),
        decreases m.height,
    {
        let ghost rects = rects_of(m.elems@);
        let ghost lo = m.lo as int;
        let ghost hi = m.hi as int;
        let mut sweeper = sweeper;
        let mut out: Vec<Pair> = Vec::new();
        if runs_on_one_thread(m.num_elem(), num_seq_fallback) {
            let mut splitter = SplitterEmpty;
            self.recurse_seq(&mut sweeper, m, &mut splitter, &mut out);
            proof {
                lemma_extends_from_empty(Seq::empty(), out@, owed_within(rects, lo, hi));
            }
            return (sweeper, out);
        }
        let this_axis = m.axis;
        let elems = m.elems;
        let ghost split = m.split();
        let (nn, rest) = m.next();
        let ghost e = nn.end as int;
        sweeper.handle_node(this_axis.next(), elems, nn.start, nn.end, &mut out);
        match rest {
            None => {
                proof {
                    lemma_extends_from_empty(Seq::empty(), out@, owed_within(rects, lo, hi));
                }
                (sweeper, out)
            },
            Some((left, right)) => {
                let ghost after_node = out@;
                let g = InnerRecurser::new(Anchor { axis: this_axis, lo: nn.start, hi: nn.end, cont: nn.cont });
                g.recurse(left.create_wrap(), &mut sweeper, &mut out);
                let ghost after_left = out@;
                g.recurse(right.create_wrap(), &mut sweeper, &mut out);
                let ghost after_right = out@;
                let sweeper2 = sweeper.div();
                let ghost needs = sweeper.needs_sorted();
                let search_left = move || -> (r: (S, Vec<Pair>))
                    requires
                        left.wf(),
                        sweeper.needs_sorted() ==> left.sorted,
                    ensures
                        r.0.needs_sorted() == sweeper.needs_sorted(),
                        exact(r.1@, owed_within(rects_of(left.elems@), left.lo as int, left.hi as int)),
                    { ColFindRecurser.recurse_par(sweeper, left, num_seq_fallback) };
                let search_right = move || -> (r: (S, Vec<Pair>))
                    requires
                        right.wf(),
                        sweeper2.needs_sorted() ==> right.sorted,
                    ensures
                        r.0.needs_sorted() == sweeper2.needs_sorted(),
                        exact(r.1@, owed_within(rects_of(right.elems@), right.lo as int, right.hi as int)),
                    { ColFindRecurser.recurse_par(sweeper2, right, num_seq_fallback) };
                let (found_left, found_right) = join(search_left, search_right);
                let (sweeper, out_left) = found_left;
                let (sweeper2, out_right) = found_right;
                let mut sweeper = sweeper;
                let mut out_left = out_left;
                let mut out_right = out_right;
                let ghost in_left = out_left@;
                let ghost in_right = out_right@;
                sweeper.add(sweeper2);
                out.append(&mut out_left);
                let ghost with_left = out@;
                out.append(&mut out_right);
                proof {
                    let kept = owed_within(rects, lo, e);
                    let cross_left = colliding(rects, lo, e, e, split);
                    let cross_right = colliding(rects, lo, e, split, hi);
                    let left_all = owed_within(rects, e, split);
                    let right_all = owed_within(rects, split, hi);
                    let none: Seq<Pair> = Seq::empty();
                    lemma_subtree_pairs(rects, this_axis, lo, e, split, hi, nn.div);
                    lemma_extends_chain(none, after_node, after_left, kept, cross_left);
                    lemma_extends_chain(none, after_left, after_right, kept.union(cross_left), cross_right);
                    lemma_extends_from_empty(none, after_right, kept.union(cross_left).union(cross_right));
                    lemma_exact_concat(after_right, in_left, kept.union(cross_left).union(cross_right), left_all);
                    lemma_exact_concat(
                        with_left,
                        in_right,
                        kept.union(cross_left).union(cross_right).union(left_all),
                        right_all,
                    );
                }
                (sweeper, out)
            },
        }
    }
}

/// A search for colliding pairs that is ready to run.
pub struct CollidingPairsBuilder<'a, T, SO: NodeHandler> {
    /// The subtree that is searched.
    pub vis: Vistr<'a, T>,
    /// The number of elements in the two subtrees of a node at or below
    /// which the parallel search goes on on one thread.
    pub num_seq_fallback: usize,
    /// What is done at each node.
    pub handler: SO,
}

impl<'a, T, SO: NodeHandler> CollidingPairsBuilder<'a, T, SO> {
    /// The search is over a well formed subtree that the handler can work
    /// on.
    pub open spec fn wf(&self) -> bool {
        &&& self.vis.wf()
        &&& self.handler.needs_sorted() ==> self.vis.sorted
    }

    /// The pairs that the search owes: the colliding pairs among the
    /// elements of the subtree.
    pub open spec fn owed(&self) -> Set<Pair> {
        owed_within(rects_of(self.vis.elems@), self.vis.lo as int, self.vis.hi as int)
    }

    pub fn new(v: Vistr<'a, T>, handler: SO) -> (r: Self)
        ensures
            r.vis == v,
            r.handler == handler,
            r.num_seq_fallback == SEQ_FALLBACK_DEFAULT,
    {
        CollidingPairsBuilder { vis: v, num_seq_fallback: SEQ_FALLBACK_DEFAULT, handler }
    }

    /// Runs the search on one thread. Returns the colliding pairs, each
    /// once.
    pub fn build(self) -> (r: Vec<Pair>)
        requires
            self.wf(),
        ensures
            exact(r@, self.owed()),
    {
        let mut splitter = SplitterEmpty;
        self.build_with_splitter(&mut splitter)
    }

    /// Runs the search on one thread, with a splitter that is divided at
    /// every node that has subtrees. Returns the colliding pairs, each once.
    pub fn build_with_splitter<SS: Splitter>(self, splitter: &mut SS) -> (r: Vec<Pair>)
        requires
            self.wf(),
        ensures
            exact(r@, self.owed()),
    {
        let mut handler = self.handler;
        let mut out: Vec<Pair> = Vec::new();
        ColFindRecurser::new().recurse_seq(&mut handler, self.vis, splitter, &mut out);
        proof {
            lemma_extends_from_empty(Seq::empty(), out@, self.owed());
        }
        out
    }
}

impl<'a, T: Send + Sync, SO: NodeHandler + Send> CollidingPairsBuilder<'a, T, SO> {
    /// Runs the search on several threads. Returns the colliding pairs, each
    /// once.
    pub fn build_par(self) -> (r: Vec<Pair>)
        requires
            self.wf(),
        ensures
            exact(r@, self.owed()),
    {
        let (_, out) = ColFindRecurser::new().recurse_par(self.handler, self.vis, self.num_seq_fallback);
        out
    }
}

} // verus!
