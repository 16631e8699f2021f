//! What is done at one node of a tree while colliding pairs are looked for.

use vstd::prelude::*;
use twounordered::TwoUnorderedVecs;
use crate::active::{first_items, lists_new, second_items};
use crate::geom::{all_valid, rects_of, sorted_on, Axis, BBox};
use crate::oned::{find_2d, find_other_parallel3, find_perp_2d1_once};
use crate::pairs::{
    colliding, extends_by, lemma_extends_chain, lemma_extends_none, lemma_extends_push,
    lemma_extends_same, lemma_extends_turned, lemma_hits_between_colliding, lemma_swept_within_colliding,
    swept_within, turn_from, turned_set, Pair,
};
use crate::util::PreVec;

verus! {

/// Finds the colliding pairs among the elements that one node keeps, and
/// between those of a node and those of a node below it.
pub trait NodeHandler: Sized {
    /// Whether the handler works only on nodes whose elements are sorted.
    spec fn needs_sorted(&self) -> bool;

    /// Makes a second handler of the same kind, for work that goes on on
    /// another thread.
    fn div(&mut self) -> (r: Self)
        ensures
            final(self).needs_sorted() == old(self).needs_sorted(),
            r.needs_sorted() == old(self).needs_sorted(),
    ;

    /// Takes back a handler that `div` made.
    fn add(&mut self, b: Self)
        ensures
            final(self).needs_sorted() == old(self).needs_sorted(),
    ;

    /// Appends to `out` the colliding pairs among the elements at `lo..hi`,
    /// the elements that a node keeps, each pair once. `axis` is the axis
    /// that the node sorts by: the one perpendicular to its own.
    fn handle_node<T>(&mut self, axis: Axis, elems: &[BBox<T>], lo: usize, hi: usize, out: &mut Vec<Pair>)
        requires
            lo <= hi <= elems@.len(),
            all_valid(rects_of(elems@)),
            old(self).needs_sorted() ==> sorted_on(rects_of(elems@), axis, lo as int, hi as int),
        ensures
            final(self).needs_sorted() == old(self).needs_sorted(),
            extends_by(
                old(out)@,
                final(out)@,
                colliding(rects_of(elems@), lo as int, hi as int, lo as int, hi as int),
            ),
    ;

    /// Appends to `out` the colliding pairs of an element that the anchor
    /// keeps with an element that a node below it keeps, each pair once.
    /// `anchor` and `current` are the runs of positions that the two nodes
    /// keep, `anchor_axis` and `this_axis` the axes of the two nodes.
    fn handle_children<T>(
        &mut self,
        anchor_axis: Axis,
        anchor: (usize, usize),
        this_axis: Axis,
        current: (usize, usize),
        elems: &[BBox<T>],
        out: &mut Vec<Pair>,
    )
        requires
            anchor.0 <= anchor.1 <= current.0 <= current.1 <= elems@.len(),
            all_valid(rects_of(elems@)),
            old(self).needs_sorted() ==> sorted_on(
                rects_of(elems@),
                anchor_axis.perp(),
                anchor.0 as int,
                anchor.1 as int,
            ),
            old(self).needs_sorted() ==> sorted_on(
                rects_of(elems@),
                this_axis.perp(),
                current.0 as int,
                current.1 as int,
            ),
        ensures
            final(self).needs_sorted() == old(self).needs_sorted(),
            extends_by(
                old(out)@,
                final(out)@,
                colliding(rects_of(elems@), anchor.0 as int, anchor.1 as int, current.0 as int, current.1 as int),
            ),
    ;
}

/// The handler for trees whose nodes keep their elements sorted: it sweeps.
pub struct DefaultNodeHandler {
    prevec: PreVec,
    lists: TwoUnorderedVecs<Vec<usize>>,
}

impl DefaultNodeHandler {
    /// What the buffers of the handler hold: the active list of the sweep
    /// over one run, and the two active lists of the sweep over two runs.
    pub closed spec fn buffers(&self) -> (Seq<usize>, Seq<usize>, Seq<usize>) {
        (self.prevec@, first_items(self.lists), second_items(self.lists))
    }

    /// The handler holds nothing in its buffers.
    pub open spec fn is_fresh(&self) -> bool {
        &&& self.buffers().0.len() == 0
        &&& self.buffers().1.len() == 0
        &&& self.buffers().2.len() == 0
    }

    /// A handler with buffers of its own, all empty.
    pub fn new() -> (r: DefaultNodeHandler)
        ensures
            r.needs_sorted(),
            r.is_fresh(),
    {
        DefaultNodeHandler { prevec: PreVec::with_capacity(2048), lists: lists_new() }
    }
}

impl NodeHandler for DefaultNodeHandler {
    open spec fn needs_sorted(&self) -> bool {
        true
    }

    /// The second handler has buffers of its own, all empty; this one keeps
    /// what it has.
    fn div(&mut self) -> (r: Self)
        ensures
            r.is_fresh(),
            *final(self) == *old(self),
    {
        DefaultNodeHandler::new()
    }

    fn add(&mut self, b: Self) {
    }

    /// One sweep over the node's elements. The sweep names the later of two
    /// elements first; the pairs are turned, so that the earlier comes first.
    fn handle_node<T>(&mut self, axis: Axis, elems: &[BBox<T>], lo: usize, hi: usize, out: &mut Vec<Pair>) {
        let ghost rects = rects_of(elems@);
        let ghost before = out@;
        let from: usize = out.len();
        find_2d(&mut self.prevec, axis, elems, lo, hi, true, out);
        let ghost found = out@;
        turn_from(out, from);
        proof {
            let swept = swept_within(rects, axis, true, lo as int, hi as int);
            lemma_extends_turned(before, found, out@, swept);
            lemma_swept_within_colliding(rects, axis, lo as int, hi as int);
            lemma_extends_same(
                before,
                out@,
                turned_set(swept),
                colliding(rects, lo as int, hi as int, lo as int, hi as int),
            );
        }
    }

    /// If the two nodes have the same axis, their elements are sorted along
    /// the same axis, and one sweep over the two runs finds the pairs. If
    /// not, the elements of the node below are sorted along the anchor's
    /// axis, and each element of the anchor sweeps over them.
    fn handle_children<T>(
        &mut self,
        anchor_axis: Axis,
        anchor: (usize, usize),
        this_axis: Axis,
        current: (usize, usize),
        elems: &[BBox<T>],
        out: &mut Vec<Pair>,
    ) {
        let ghost rects = rects_of(elems@);
        let ghost before = out@;
        let (a_lo, a_hi) = anchor;
        let (c_lo, c_hi) = current;
        if this_axis.is_equal_to(anchor_axis) {
            proof {
                lemma_hits_between_colliding(
                    rects,
                    anchor_axis.perp(),
                    a_lo as int,
                    a_hi as int,
                    c_lo as int,
                    c_hi as int,
                );
            }
            find_other_parallel3(&mut self.lists, anchor_axis.next(), elems, anchor, current, true, out);
        } else {
            let mut y: usize = a_lo;
            proof {
                lemma_extends_none(before);
                lemma_extends_same(
                    before,
                    out@,
                    Set::empty(),
                    colliding(rects, a_lo as int, a_lo as int, c_lo as int, c_hi as int),
                );
            }
            while y < a_hi
                invariant
                    a_lo <= y <= a_hi <= c_lo <= c_hi <= elems@.len(),
                    rects == rects_of(elems@),
                    this_axis.perp() == anchor_axis,
                    sorted_on(rects, this_axis.perp(), c_lo as int, c_hi as int),
                    extends_by(before, out@, colliding(rects, a_lo as int, y as int, c_lo as int, c_hi as int)),
                decreases a_hi - y,
            {
                let ghost mid = out@;
                let ghost done = colliding(rects, a_lo as int, y as int, c_lo as int, c_hi as int);
                let ghost new = colliding(rects, y as int, y + 1, c_lo as int, c_hi as int);
                proof {
                    lemma_hits_between_colliding(rects, anchor_axis, y as int, y + 1, c_lo as int, c_hi as int);
                }
                find_perp_2d1_once(anchor_axis, y, elems, c_lo, c_hi, true, out);
                proof {
                    assert(done.disjoint(new));
                    lemma_extends_chain(before, mid, out@, done, new);
                    lemma_extends_same(
                        before,
                        out@,
                        done.union(new),
                        colliding(rects, a_lo as int, y + 1, c_lo as int, c_hi as int),
                    );
                }
                y += 1;
            }
        }
    }
}

/// The handler for trees whose nodes keep their elements in any order: it
/// compares every element with every other.
pub struct NoSortNodeHandler;

impl NoSortNodeHandler {
    pub fn new() -> (r: NoSortNodeHandler)
        ensures
            !r.needs_sorted(),
    {
        NoSortNodeHandler
    }
}

/// Appends to `out` the colliding pairs of the element at `y` with the
/// elements at `lo..hi`, each once.
pub fn collide_one<T>(y: usize, elems: &[BBox<T>], lo: usize, hi: usize, out: &mut Vec<Pair>)
    requires
        y < lo <= hi <= elems@.len(),
    ensures
        extends_by(old(out)@, final(out)@, colliding(rects_of(elems@), y as int, y + 1, lo as int, hi as int)),
{
    let ghost rects = rects_of(elems@);
    let ghost before = out@;
    let mut c: usize = lo;
    proof {
        lemma_extends_none(before);
        lemma_extends_same(before, out@, Set::empty(), colliding(rects, y as int, y + 1, lo as int, lo as int));
    }
    while c < hi
        invariant
            y < lo <= c <= hi <= elems@.len(),
            rects == rects_of(elems@),
            extends_by(before, out@, colliding(rects, y as int, y + 1, lo as int, c as int)),
        decreases hi - c,
    {
        let ghost done = colliding(rects, y as int, y + 1, lo as int, c as int);
        let ghost next = colliding(rects, y as int, y + 1, lo as int, c + 1);
        if elems[y].rect.intersects_rect(&elems[c].rect) {
            let ghost mid = out@;
            out.push((y, c));
            proof {
                lemma_extends_push(mid, (y, c));
                assert(done.disjoint(set![(y, c)]));
                lemma_extends_chain(before, mid, out@, done, set![(y, c)]);
                lemma_extends_same(before, out@, done.union(set![(y, c)]), next);
            }
        } else {
            proof {
                lemma_extends_same(before, out@, done, next);
            }
        }
        c += 1;
    }
}

/// Appends to `out` the colliding pairs `(i, j)` with `i` in `first`, `j` in
/// `second` and `i < j`, each once, by comparing every element of `first`
/// with every later element of `second`. The two runs are the same run, or
/// `first` comes before `second`.
pub fn collide_all<T>(elems: &[BBox<T>], first: (usize, usize), second: (usize, usize), out: &mut Vec<Pair>)
    requires
        first.0 <= first.1 <= elems@.len(),
        second.0 <= second.1 <= elems@.len(),
        first == second || first.1 <= second.0,
    ensures
        extends_by(
            old(out)@,
            final(out)@,
            colliding(rects_of(elems@), first.0 as int, first.1 as int, second.0 as int, second.1 as int),
        ),
{
    let ghost rects = rects_of(elems@);
    let ghost before = out@;
    let (lo1, hi1) = first;
    let (lo2, hi2) = second;
    let mut y: usize = lo1;
    proof {
        lemma_extends_none(before);
        lemma_extends_same(
            before,
            out@,
            Set::empty(),
            colliding(rects, lo1 as int, lo1 as int, lo2 as int, hi2 as int),
        );
    }
    while y < hi1
        invariant
            lo1 <= y <= hi1 <= elems@.len(),
            lo2 <= hi2 <= elems@.len(),
            (lo1 == lo2 && hi1 == hi2) || hi1 <= lo2,
            rects == rects_of(elems@),
            extends_by(before, out@, colliding(rects, lo1 as int, y as int, lo2 as int, hi2 as int)),
        decreases hi1 - y,
    {
        let ghost mid = out@;
        let ghost done = colliding(rects, lo1 as int, y as int, lo2 as int, hi2 as int);
        let from: usize = if lo2 > y {
            lo2
        } else {
            y + 1
        };
        let ghost new = colliding(rects, y as int, y + 1, from as int, hi2 as int);
        collide_one(y, elems, from, hi2, out);
        proof {
            assert(done.disjoint(new));
            lemma_extends_chain(before, mid, out@, done, new);
            lemma_extends_same(
                before,
                out@,
                done.union(new),
                colliding(rects, lo1 as int, y + 1, lo2 as int, hi2 as int),
            );
        }
        y += 1;
    }
}

impl NodeHandler for NoSortNodeHandler {
    open spec fn needs_sorted(&self) -> bool {
        false
    }

    fn div(&mut self) -> (r: Self) {
        NoSortNodeHandler
    }

    fn add(&mut self, b: Self) {
    }

    fn handle_node<T>(&mut self, axis: Axis, elems: &[BBox<T>], lo: usize, hi: usize, out: &mut Vec<Pair>) {
        collide_all(elems, (lo, hi), (lo, hi), out);
    }

    fn handle_children<T>(
        &mut self,
        anchor_axis: Axis,
        anchor: (usize, usize),
        this_axis: Axis,
        current: (usize, usize),
        elems: &[BBox<T>],
        out: &mut Vec<Pair>,
    ) {
        collide_all(elems, anchor, current, out);
    }
}

} // verus!
