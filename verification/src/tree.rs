//! The trees and the searches that need none.

use vstd::prelude::*;
use crate::builder::{build_subtree, build_subtree_par, placed, DefaultSorter, NoSorter, Sorter};
use crate::checks::tree_invariants_hold;
use crate::laws::lemma_rebuild;
use crate::colfind::{CollidingPairsBuilder, Vistr, SEQ_FALLBACK_DEFAULT};
use crate::geom::{all_valid, rects_of, Axis, BBox, Rect};
use crate::handler::{collide_all, DefaultNodeHandler, NoSortNodeHandler, NodeHandler};
use crate::node::{tree_wf, Node};
use crate::num_level::{height_for, DEFAULT_NUMBER_ELEM_PER_NODE};
use crate::oned::{find_2d, find_par};
use crate::pairs::{
    all_colliding, colliding, exact, lemma_exact_extends, lemma_extends_from_empty, lemma_extends_same,
    lemma_extends_turned, lemma_swept_within_colliding, swept_within, turn_from, turned_set, Pair,
};
use crate::perm::{lemma_permuted_len, lemma_rects_permuted, lemma_valid_permuted};
use crate::pmut::PMut;
use crate::util::{sorted_all, sweeper_update, PreVec};

verus! {

/// What building a tree makes of the elements `given`: the elements
/// rearranged, and the nodes of a well formed tree over them.
pub open spec fn tree_of<T>(
    given: Seq<BBox<T>>,
    elems: Seq<BBox<T>>,
    nodes: Seq<Node>,
    height: nat,
    sorted: bool,
) -> bool {
    &&& elems.to_multiset() == given.to_multiset()
    &&& all_valid(rects_of(elems))
    &&& height >= 1
    &&& tree_wf(rects_of(elems), nodes, height, sorted)
}

/// Builds a tree of the given height on one thread.
pub fn build_tree<T, S: Sorter>(bots: Vec<BBox<T>>, height: usize, sorter: S) -> (r: (Vec<BBox<T>>, Vec<Node>))
    requires
        height >= 1,
        all_valid(rects_of(bots@)),
    ensures
        tree_of(bots@, r.0@, r.1@, height as nat, sorter.sorts()),
{
    let ghost given = bots@;
    let n: usize = bots.len();
    let (elems, nodes) = build_subtree(bots, height, Axis::X, 0, sorter);
    proof {
        lemma_permuted_len(elems@, given);
        lemma_rects_permuted(given, elems@);
        lemma_valid_permuted(rects_of(given), rects_of(elems@));
        assert(placed(0, rects_of(elems@)) =~= rects_of(elems@));
    }
    (elems, nodes)
}

/// Builds a tree of the given height on several threads.
pub fn build_tree_par<T: Send, S: Sorter + Send>(bots: Vec<BBox<T>>, height: usize, sorter: S) -> (r: (
    Vec<BBox<T>>,
    Vec<Node>,
))
    requires
        height >= 1,
        all_valid(rects_of(bots@)),
    ensures
        tree_of(bots@, r.0@, r.1@, height as nat, sorter.sorts()),
{
    let ghost given = bots@;
    let n: usize = bots.len();
    let (elems, nodes) = build_subtree_par(bots, height, Axis::X, 0, sorter, SEQ_FALLBACK_DEFAULT);
    proof {
        lemma_permuted_len(elems@, given);
        lemma_rects_permuted(given, elems@);
        lemma_valid_permuted(rects_of(given), rects_of(elems@));
        assert(placed(0, rects_of(elems@)) =~= rects_of(elems@));
    }
    (elems, nodes)
}

/// A tree whose nodes keep their elements sorted.
pub struct Tree<T> {
    elems: Vec<BBox<T>>,
    nodes: Vec<Node>,
    height: usize,
}

impl<T> Tree<T> {
    /// The elements, in the order in which the tree stores them.
    pub closed spec fn view(&self) -> Seq<BBox<T>> {
        self.elems@
    }

    /// The nodes, in preorder.
    pub closed spec fn nodes(&self) -> Seq<Node> {
        self.nodes@
    }

    /// The height: the number of levels.
    pub closed spec fn height(&self) -> nat {
        self.height as nat
    }

    /// The bounding boxes of the elements, in the order in which the tree
    /// stores them.
    pub open spec fn rects(&self) -> Seq<Rect> {
        rects_of(self@)
    }

    /// The tree is a well formed tree of valid rectangles, each node's
    /// elements sorted.
    pub open spec fn wf(&self) -> bool {
        &&& all_valid(self.rects())
        &&& self.height() >= 1
        &&& tree_wf(self.rects(), self.nodes(), self.height(), true)
    }

    /// Builds the tree over the elements, on one thread, as high as the
    /// number of elements asks for.
    pub fn new(bots: Vec<BBox<T>>) -> (t: Tree<T>)
        requires
            all_valid(rects_of(bots@)),
        ensures
            t.wf(),
            t@.to_multiset() == bots@.to_multiset(),
            t.height() == height_for(bots@.len(), DEFAULT_NUMBER_ELEM_PER_NODE as nat),
    {
        let height = crate::num_level::default(bots.len());
        Tree::with_height(bots, height)
    }

    /// Builds the tree of the given height over the elements, on one thread.
    pub fn with_height(bots: Vec<BBox<T>>, height: usize) -> (t: Tree<T>)
        requires
            height >= 1,
            all_valid(rects_of(bots@)),
        ensures
            t.wf(),
            t@.to_multiset() == bots@.to_multiset(),
            t.height() == height,
    {
        let (elems, nodes) = build_tree(bots, height, DefaultSorter);
        Tree { elems, nodes, height }
    }

    pub fn get_height(&self) -> (r: usize)
        ensures
            r == self.height(),
    {
        self.height
    }

    pub fn num_nodes(&self) -> (r: usize)
        ensures
            r == self.nodes().len(),
    {
        self.nodes.len()
    }

    pub fn get_nodes(&self) -> (r: &[Node])
        ensures
            r@ == self.nodes(),
    {
        self.nodes.as_slice()
    }

    pub fn get_elements(&self) -> (r: &[BBox<T>])
        ensures
            r@ == self@,
    {
        self.elems.as_slice()
    }

    /// Gives the elements back, in the order in which the tree stored them.
    pub fn into_inner(self) -> (r: Vec<BBox<T>>)
        ensures
            r@ == self@,
    {
        self.elems
    }

    /// A protected reference to the element at `index`: its payload may be
    /// changed, and the tree stays well formed.
    pub fn get_mut(&mut self, index: usize) -> (r: PMut<'_, T>)
        requires
            index < old(self)@.len(),
        ensures
            *r.rect == old(self)@[index as int].rect,
            *r.inner == old(self)@[index as int].inner,
            final(self)@ == old(self)@.update(
                index as int,
                BBox { rect: old(self)@[index as int].rect, inner: *final(r.inner) },
            ),
            final(self).rects() == old(self).rects(),
            final(self).nodes() == old(self).nodes(),
            final(self).height() == old(self).height(),
            old(self).wf() ==> final(self).wf(),
    {
        PMut::new(&mut self.elems[index])
    }

    /// Protected references to the elements at `i` and at `j`, at once, as
    /// a handler of pairs wants them.
    pub fn get_pair_mut(&mut self, i: usize, j: usize) -> (r: (PMut<'_, T>, PMut<'_, T>))
        requires
            i < j < old(self)@.len(),
        ensures
            *r.0.rect == old(self)@[i as int].rect,
            *r.0.inner == old(self)@[i as int].inner,
            *r.1.rect == old(self)@[j as int].rect,
            *r.1.inner == old(self)@[j as int].inner,
            final(self)@ == old(self)@.update(
                i as int,
                BBox { rect: old(self)@[i as int].rect, inner: *final(r.0.inner) },
            ).update(j as int, BBox { rect: old(self)@[j as int].rect, inner: *final(r.1.inner) }),
            final(self).rects() == old(self).rects(),
            final(self).nodes() == old(self).nodes(),
            final(self).height() == old(self).height(),
            old(self).wf() ==> final(self).wf(),
    {
        let (head, tail) = self.elems.as_mut_slice().split_at_mut(j);
        (PMut::new(&mut head[i]), PMut::new(&mut tail[0]))
    }

    /// A visitor of the whole tree.
    pub fn vistr(&self) -> (r: Vistr<'_, T>)
        requires
            self.wf(),
        ensures
            r.wf(),
            r.elems@ == self@,
            r.nodes@ == self.nodes(),
            r.sorted,
            r.lo == 0,
            r.hi == self@.len(),
            r.idx == 0,
            r.axis == Axis::X,
            r.height == self.height(),
    {
        Vistr {
            elems: self.elems.as_slice(),
            nodes: self.nodes.as_slice(),
            idx: 0,
            size: self.nodes.len(),
            height: self.height,
            axis: Axis::X,
            lo: 0,
            hi: self.elems.len(),
            sorted: true,
        }
    }

    /// A search for the colliding pairs of the tree, with the given handler.
    pub fn colliding_pairs_builder<SO: NodeHandler>(&self, handler: SO) -> (r: CollidingPairsBuilder<'_, T, SO>)
        requires
            self.wf(),
        ensures
            r.wf(),
            r.owed() == all_colliding(self.rects()),
            r.handler == handler,
            r.num_seq_fallback == SEQ_FALLBACK_DEFAULT,
            r.vis.elems@ == self@,
            r.vis.nodes@ == self.nodes(),
            r.vis.idx == 0,
            r.vis.axis == Axis::X,
            r.vis.lo == 0,
            r.vis.hi == self@.len(),
    {
        CollidingPairsBuilder::new(self.vistr(), handler)
    }

    /// Finds the colliding pairs on one thread.
    ///
    /// Returns every pair `(i, j)` of positions, `i < j`, of two elements
    /// whose bounding boxes collide, once.
    pub fn find_colliding_pairs(&self) -> (r: Vec<Pair>)
        requires
            self.wf(),
        ensures
            exact(r@, all_colliding(self.rects())),
    {
        self.colliding_pairs_builder(DefaultNodeHandler::new()).build()
    }
}

impl<T: Send + Sync> Tree<T> {
    /// Builds the tree over the elements, on several threads.
    pub fn par_new(bots: Vec<BBox<T>>) -> (t: Tree<T>)
        requires
            all_valid(rects_of(bots@)),
        ensures
            t.wf(),
            t@.to_multiset() == bots@.to_multiset(),
            t.height() == height_for(bots@.len(), DEFAULT_NUMBER_ELEM_PER_NODE as nat),
    {
        let height = crate::num_level::default(bots.len());
        let (elems, nodes) = build_tree_par(bots, height, DefaultSorter);
        Tree { elems, nodes, height }
    }

    /// Finds the colliding pairs on several threads.
    ///
    /// Returns what [`Tree::find_colliding_pairs`] returns, in some order.
    pub fn par_find_colliding_pairs(&self) -> (r: Vec<Pair>)
        requires
            self.wf(),
        ensures
            exact(r@, all_colliding(self.rects())),
    {
        self.colliding_pairs_builder(DefaultNodeHandler::new()).build_par()
    }
}

/// A tree whose nodes keep their elements in any order. It is quicker to
/// build than a [`Tree`] and slower to search.
pub struct NotSortedTree<T> {
    elems: Vec<BBox<T>>,
    nodes: Vec<Node>,
    height: usize,
}

impl<T> NotSortedTree<T> {
    /// The elements, in the order in which the tree stores them.
    pub closed spec fn view(&self) -> Seq<BBox<T>> {
        self.elems@
    }

    /// The nodes, in preorder.
    pub closed spec fn nodes(&self) -> Seq<Node> {
        self.nodes@
    }

    /// The height: the number of levels.
    pub closed spec fn height(&self) -> nat {
        self.height as nat
    }

    /// The bounding boxes of the elements, in the order in which the tree
    /// stores them.
    pub open spec fn rects(&self) -> Seq<Rect> {
        rects_of(self@)
    }

    /// The tree is a well formed tree of valid rectangles.
    pub open spec fn wf(&self) -> bool {
        &&& all_valid(self.rects())
        &&& self.height() >= 1
        &&& tree_wf(self.rects(), self.nodes(), self.height(), false)
    }

    /// Builds the tree over the elements, on one thread, as high as the
    /// number of elements asks for.
    pub fn new(bots: Vec<BBox<T>>) -> (t: NotSortedTree<T>)
        requires
            all_valid(rects_of(bots@)),
        ensures
            t.wf(),
            t@.to_multiset() == bots@.to_multiset(),
            t.height() == height_for(bots@.len(), DEFAULT_NUMBER_ELEM_PER_NODE as nat),
    {
        let height = crate::num_level::default(bots.len());
        NotSortedTree::with_height(bots, height)
    }

    /// Builds the tree of the given height over the elements, on one thread.
    pub fn with_height(bots: Vec<BBox<T>>, height: usize) -> (t: NotSortedTree<T>)
        requires
            height >= 1,
            all_valid(rects_of(bots@)),
        ensures
            t.wf(),
            t@.to_multiset() == bots@.to_multiset(),
            t.height() == height,
    {
        let (elems, nodes) = build_tree(bots, height, NoSorter);
        NotSortedTree { elems, nodes, height }
    }

    pub fn get_height(&self) -> (r: usize)
        ensures
            r == self.height(),
    {
        self.height
    }

    pub fn num_nodes(&self) -> (r: usize)
        ensures
            r == self.nodes().len(),
    {
        self.nodes.len()
    }

    pub fn get_nodes(&self) -> (r: &[Node])
        ensures
            r@ == self.nodes(),
    {
        self.nodes.as_slice()
    }

    pub fn get_elements(&self) -> (r: &[BBox<T>])
        ensures
            r@ == self@,
    {
        self.elems.as_slice()
    }

    /// Gives the elements back, in the order in which the tree stored them.
    pub fn into_inner(self) -> (r: Vec<BBox<T>>)
        ensures
            r@ == self@,
    {
        self.elems
    }

    /// A protected reference to the element at `index`: its payload may be
    /// changed, and the tree stays well formed.
    pub fn get_mut(&mut self, index: usize) -> (r: PMut<'_, T>)
        requires
            index < old(self)@.len(),
        ensures
            *r.rect == old(self)@[index as int].rect,
            *r.inner == old(self)@[index as int].inner,
            final(self)@ == old(self)@.update(
                index as int,
                BBox { rect: old(self)@[index as int].rect, inner: *final(r.inner) },
            ),
            final(self).rects() == old(self).rects(),
            final(self).nodes() == old(self).nodes(),
            final(self).height() == old(self).height(),
            old(self).wf() ==> final(self).wf(),
    {
        PMut::new(&mut self.elems[index])
    }

    /// Protected references to the elements at `i` and at `j`, at once, as
    /// a handler of pairs wants them.
    pub fn get_pair_mut(&mut self, i: usize, j: usize) -> (r: (PMut<'_, T>, PMut<'_, T>))
        requires
            i < j < old(self)@.len(),
        ensures
            *r.0.rect == old(self)@[i as int].rect,
            *r.0.inner == old(self)@[i as int].inner,
            *r.1.rect == old(self)@[j as int].rect,
            *r.1.inner == old(self)@[j as int].inner,
            final(self)@ == old(self)@.update(
                i as int,
                BBox { rect: old(self)@[i as int].rect, inner: *final(r.0.inner) },
            ).update(j as int, BBox { rect: old(self)@[j as int].rect, inner: *final(r.1.inner) }),
            final(self).rects() == old(self).rects(),
            final(self).nodes() == old(self).nodes(),
            final(self).height() == old(self).height(),
            old(self).wf() ==> final(self).wf(),
    {
        let (head, tail) = self.elems.as_mut_slice().split_at_mut(j);
        (PMut::new(&mut head[i]), PMut::new(&mut tail[0]))
    }

    /// A visitor of the whole tree.
    pub fn vistr(&self) -> (r: Vistr<'_, T>)
        requires
            self.wf(),
        ensures
            r.wf(),
            r.elems@ == self@,
            r.nodes@ == self.nodes(),
            !r.sorted,
            r.lo == 0,
            r.hi == self@.len(),
            r.idx == 0,
            r.axis == Axis::X,
            r.height == self.height(),
    {
        Vistr {
            elems: self.elems.as_slice(),
            nodes: self.nodes.as_slice(),
            idx: 0,
            size: self.nodes.len(),
            height: self.height,
            axis: Axis::X,
            lo: 0,
            hi: self.elems.len(),
            sorted: false,
        }
    }

    /// A search for the colliding pairs of the tree, with the given handler.
    pub fn colliding_pairs_builder<SO: NodeHandler>(&self, handler: SO) -> (r: CollidingPairsBuilder<'_, T, SO>)
        requires
            self.wf(),
            !handler.needs_sorted(),
        ensures
            r.wf(),
            r.owed() == all_colliding(self.rects()),
            r.handler == handler,
            r.num_seq_fallback == SEQ_FALLBACK_DEFAULT,
            r.vis.elems@ == self@,
            r.vis.nodes@ == self.nodes(),
            r.vis.idx == 0,
            r.vis.axis == Axis::X,
            r.vis.lo == 0,
            r.vis.hi == self@.len(),
    {
        CollidingPairsBuilder::new(self.vistr(), handler)
    }

    /// Finds the colliding pairs on one thread.
    ///
    /// Returns every pair `(i, j)` of positions, `i < j`, of two elements
    /// whose bounding boxes collide, once.
    pub fn find_colliding_pairs(&self) -> (r: Vec<Pair>)
        requires
            self.wf(),
        ensures
            exact(r@, all_colliding(self.rects())),
    {
        self.colliding_pairs_builder(NoSortNodeHandler::new()).build()
    }
}

impl<T: Send + Sync> NotSortedTree<T> {
    /// Builds the tree over the elements, on several threads.
    pub fn par_new(bots: Vec<BBox<T>>) -> (t: NotSortedTree<T>)
        requires
            all_valid(rects_of(bots@)),
        ensures
            t.wf(),
            t@.to_multiset() == bots@.to_multiset(),
            t.height() == height_for(bots@.len(), DEFAULT_NUMBER_ELEM_PER_NODE as nat),
    {
        let height = crate::num_level::default(bots.len());
        let (elems, nodes) = build_tree_par(bots, height, NoSorter);
        NotSortedTree { elems, nodes, height }
    }

    /// Finds the colliding pairs on several threads.
    ///
    /// Returns what [`NotSortedTree::find_colliding_pairs`] returns, in some order.
    pub fn par_find_colliding_pairs(&self) -> (r: Vec<Pair>)
        requires
            self.wf(),
        ensures
            exact(r@, all_colliding(self.rects())),
    {
        self.colliding_pairs_builder(NoSortNodeHandler::new()).build_par()
    }
}

/// Goes through the tree and checks what makes it well formed: the layout of
/// its nodes, the hull, the order and the divider of each, and the side of
/// the divider that each subtree lies on.
///
/// It is for trees that are well formed, and says so: the answer is `true`.
/// Elements and nodes of which that is not known are decided by
/// [`tree_invariants_hold`] and by [`Tree::from_raw_parts`].
pub fn assert_tree_invariants<T>(tree: &Tree<T>) -> (ok: bool)
    requires
        tree.wf(),
    ensures
        ok,
        ok == tree.wf(),
{
    tree_invariants_hold(tree.elems.as_slice(), tree.nodes.as_slice(), tree.height, true)
}

impl<T> Tree<T> {
    /// Makes a tree of elements and nodes that are those of a well formed
    /// tree of the given height, and gives them back if they are not.
    pub fn from_raw_parts(elems: Vec<BBox<T>>, nodes: Vec<Node>, height: usize) -> (r: Result<
        Tree<T>,
        (Vec<BBox<T>>, Vec<Node>),
    >)
        ensures
            r is Ok <==> (all_valid(rects_of(elems@)) && height >= 1 && tree_wf(
                rects_of(elems@),
                nodes@,
                height as nat,
                true,
            )),
            r matches Ok(t) ==> t.wf() && t@ == elems@ && t.nodes() == nodes@ && t.height() == height,
            r matches Err(parts) ==> parts.0@ == elems@ && parts.1@ == nodes@,
    {
        if tree_invariants_hold(elems.as_slice(), nodes.as_slice(), height, true) {
            Ok(Tree { elems, nodes, height })
        } else {
            Err((elems, nodes))
        }
    }

    /// Idempotence on rebuild: a tree of the same height over the same
    /// elements, in whatever order they were given, has the same nodes.
    pub proof fn lemma_rebuilt(&self, other: &Tree<T>)
        requires
            self.wf(),
            other.wf(),
            self.height() == other.height(),
            self@.to_multiset() == other@.to_multiset(),
        ensures
            self.nodes() == other.nodes(),
    {
        lemma_rects_permuted(self@, other@);
        lemma_rebuild(self.rects(), self.nodes(), other.rects(), other.nodes(), self.height(), true);
    }
}

/// The comparison of every element with every other.
pub struct Naive<T> {
    elems: Vec<BBox<T>>,
}

impl<T> Naive<T> {
    /// The elements, in the order in which they were given.
    pub closed spec fn view(&self) -> Seq<BBox<T>> {
        self.elems@
    }

    pub fn new(bots: Vec<BBox<T>>) -> (r: Naive<T>)
        ensures
            r@ == bots@,
    {
        Naive { elems: bots }
    }

    pub fn get_elements(&self) -> (r: &[BBox<T>])
        ensures
            r@ == self@,
    {
        self.elems.as_slice()
    }

    pub fn into_inner(self) -> (r: Vec<BBox<T>>)
        ensures
            r@ == self@,
    {
        self.elems
    }

    /// A protected reference to the element at `index`.
    pub fn get_mut(&mut self, index: usize) -> (r: PMut<'_, T>)
        requires
            index < old(self)@.len(),
        ensures
            *r.rect == old(self)@[index as int].rect,
            *r.inner == old(self)@[index as int].inner,
            final(self)@ == old(self)@.update(
                index as int,
                BBox { rect: old(self)@[index as int].rect, inner: *final(r.inner) },
            ),
            rects_of(final(self)@) == rects_of(old(self)@),
    {
        PMut::new(&mut self.elems[index])
    }

    /// Protected references to the elements at `i` and at `j`, at once, as
    /// a handler of pairs wants them.
    pub fn get_pair_mut(&mut self, i: usize, j: usize) -> (r: (PMut<'_, T>, PMut<'_, T>))
        requires
            i < j < old(self)@.len(),
        ensures
            *r.0.rect == old(self)@[i as int].rect,
            *r.0.inner == old(self)@[i as int].inner,
            *r.1.rect == old(self)@[j as int].rect,
            *r.1.inner == old(self)@[j as int].inner,
            final(self)@ == old(self)@.update(
                i as int,
                BBox { rect: old(self)@[i as int].rect, inner: *final(r.0.inner) },
            ).update(j as int, BBox { rect: old(self)@[j as int].rect, inner: *final(r.1.inner) }),
            rects_of(final(self)@) == rects_of(old(self)@),
    {
        let (head, tail) = self.elems.as_mut_slice().split_at_mut(j);
        (PMut::new(&mut head[i]), PMut::new(&mut tail[0]))
    }

    /// Finds the colliding pairs.
    ///
    /// Returns every pair `(i, j)` of positions, `i < j`, of two elements
    /// whose bounding boxes collide, once.
    pub fn find_colliding_pairs(&self) -> (r: Vec<Pair>)
        ensures
            exact(r@, all_colliding(rects_of(self@))),
    {
        let mut out: Vec<Pair> = Vec::new();
        let n: usize = self.elems.len();
        collide_all(self.elems.as_slice(), (0, n), (0, n), &mut out);
        proof {
            lemma_extends_from_empty(Seq::empty(), out@, all_colliding(rects_of(self@)));
        }
        out
    }
}

/// The sweep over all elements, sorted by their start along the x axis.
pub struct SweepAndPrune<T> {
    elems: Vec<BBox<T>>,
}

impl<T> SweepAndPrune<T> {
    /// The elements, in the order in which they are stored.
    pub closed spec fn view(&self) -> Seq<BBox<T>> {
        self.elems@
    }

    /// The rectangles are valid and sorted by their start along the x axis.
    pub open spec fn wf(&self) -> bool {
        &&& all_valid(rects_of(self@))
        &&& sorted_all(rects_of(self@), Axis::X)
    }

    /// Sorts the elements.
    pub fn new(bots: Vec<BBox<T>>) -> (r: SweepAndPrune<T>)
        requires
            all_valid(rects_of(bots@)),
        ensures
            r.wf(),
            r@.to_multiset() == bots@.to_multiset(),
    {
        let mut bots = bots;
        let ghost given = bots@;
        sweeper_update(Axis::X, &mut bots);
        proof {
            lemma_rects_permuted(given, bots@);
            lemma_valid_permuted(rects_of(given), rects_of(bots@));
        }
        SweepAndPrune { elems: bots }
    }

    pub fn get_elements(&self) -> (r: &[BBox<T>])
        ensures
            r@ == self@,
    {
        self.elems.as_slice()
    }

    pub fn into_inner(self) -> (r: Vec<BBox<T>>)
        ensures
            r@ == self@,
    {
        self.elems
    }

    /// A protected reference to the element at `index`.
    pub fn get_mut(&mut self, index: usize) -> (r: PMut<'_, T>)
        requires
            index < old(self)@.len(),
        ensures
            *r.rect == old(self)@[index as int].rect,
            *r.inner == old(self)@[index as int].inner,
            final(self)@ == old(self)@.update(
                index as int,
                BBox { rect: old(self)@[index as int].rect, inner: *final(r.inner) },
            ),
            rects_of(final(self)@) == rects_of(old(self)@),
    {
        PMut::new(&mut self.elems[index])
    }

    /// Protected references to the elements at `i` and at `j`, at once, as
    /// a handler of pairs wants them.
    pub fn get_pair_mut(&mut self, i: usize, j: usize) -> (r: (PMut<'_, T>, PMut<'_, T>))
        requires
            i < j < old(self)@.len(),
        ensures
            *r.0.rect == old(self)@[i as int].rect,
            *r.0.inner == old(self)@[i as int].inner,
            *r.1.rect == old(self)@[j as int].rect,
            *r.1.inner == old(self)@[j as int].inner,
            final(self)@ == old(self)@.update(
                i as int,
                BBox { rect: old(self)@[i as int].rect, inner: *final(r.0.inner) },
            ).update(j as int, BBox { rect: old(self)@[j as int].rect, inner: *final(r.1.inner) }),
            rects_of(final(self)@) == rects_of(old(self)@),
    {
        let (head, tail) = self.elems.as_mut_slice().split_at_mut(j);
        (PMut::new(&mut head[i]), PMut::new(&mut tail[0]))
    }

    /// Finds the colliding pairs on one thread.
    ///
    /// Returns every pair `(i, j)` of positions, `i < j`, of two elements
    /// whose bounding boxes collide, once. The sweep finds each pair when it
    /// takes the later element, the one at `j`.
    pub fn find_colliding_pairs(&self) -> (r: Vec<Pair>)
        requires
            self.wf(),
        ensures
            exact(r@, all_colliding(rects_of(self@))),
    {
        let mut prevec = PreVec::with_capacity(2048);
        let mut out: Vec<Pair> = Vec::new();
        let n: usize = self.elems.len();
        find_2d(&mut prevec, Axis::X, self.elems.as_slice(), 0, n, true, &mut out);
        let ghost found = out@;
        turn_from(&mut out, 0);
        proof {
            let rects = rects_of(self@);
            let swept = swept_within(rects, Axis::X, true, 0, n as int);
            lemma_extends_turned(Seq::empty(), found, out@, swept);
            lemma_swept_within_colliding(rects, Axis::X, 0, n as int);
            lemma_extends_same(Seq::empty(), out@, turned_set(swept), all_colliding(rects));
            lemma_extends_from_empty(Seq::empty(), out@, all_colliding(rects));
        }
        out
    }
}

impl<T: Send + Sync> SweepAndPrune<T> {
    /// Finds the colliding pairs on several threads.
    ///
    /// Returns what [`SweepAndPrune::find_colliding_pairs`] returns, in some
    /// order.
    pub fn par_find_colliding_pairs(&self) -> (r: Vec<Pair>)
        requires
            self.wf(),
        ensures
            exact(r@, all_colliding(rects_of(self@))),
    {
        let n: usize = self.elems.len();
        let (_, out) = find_par(Axis::X, self.elems.as_slice(), 0, n, true);
        let mut out = out;
        let ghost found = out@;
        turn_from(&mut out, 0);
        proof {
            let rects = rects_of(self@);
            let swept = swept_within(rects, Axis::X, true, 0, n as int);
            lemma_exact_extends(found, swept);
            lemma_extends_turned(Seq::empty(), found, out@, swept);
            lemma_swept_within_colliding(rects, Axis::X, 0, n as int);
            lemma_extends_same(Seq::empty(), out@, turned_set(swept), all_colliding(rects));
            lemma_extends_from_empty(Seq::empty(), out@, all_colliding(rects));
        }
        out
    }
}

} // verus!
