//! Holding the searches against one another.
//!
//! The comparison of every element with every other, the sweep over all
//! elements and the searches of the two kinds of tree must find the same
//! colliding pairs. Each keeps the elements in an order of its own, so the
//! elements are numbered first, and the pairs are compared by the numbers.

use vstd::prelude::*;
use vstd::relations::{sorted_by, total_ordering};
use vstd::seq_lib::{lemma_sorted_unique, to_multiset_contains};
use crate::geom::{all_valid, rects_of, BBox, Rect};
use crate::laws::lemma_same_pairs;
use crate::pairs::{all_colliding, exact, Pair};
use crate::perm::{lemma_permuted_item, lemma_permuted_len};
use crate::tree::{Naive, NotSortedTree, SweepAndPrune, Tree};

verus! {

/// The two numbers, the lesser first.
pub open spec fn ordered(a: usize, b: usize) -> Pair {
    if a < b {
        (a, b)
    } else {
        (b, a)
    }
}

/// The order of pairs: by the first number, and by the second among pairs
/// with the same first number.
pub open spec fn pair_le() -> spec_fn(Pair, Pair) -> bool {
    |a: Pair, b: Pair| a.0 < b.0 || (a.0 == b.0 && a.1 <= b.1)
}

/// `<[T]>::sort_unstable` on pairs of numbers: rearranges the pairs into
/// ascending order. Tuples are ordered by their first component first.
#[verifier::external_body]
fn sort_pairs(list: &mut Vec<Pair>)
    ensures
        final(list)@.to_multiset() == old(list)@.to_multiset(),
        sorted_by(final(list)@, pair_le()),
{
    list.sort_unstable();
}

/// The elements numbered by their positions: the payload of each is where it
/// stands.
pub open spec fn numbered(rects: Seq<Rect>) -> Seq<BBox<usize>> {
    Seq::new(rects.len(), |i: int| BBox { rect: rects[i], inner: i as usize })
}

/// Copies the bounding boxes and gives each its position as payload.
pub fn number<T>(elems: &[BBox<T>]) -> (r: Vec<BBox<usize>>)
    ensures
        r@ == numbered(rects_of(elems@)),
{
    let mut r: Vec<BBox<usize>> = Vec::new();
    let mut k: usize = 0;
    while k < elems.len()
        invariant
            k <= elems@.len(),
            r@.len() == k,
            forall|i: int| 0 <= i < k ==> r@[i] == (BBox { rect: elems@[i].rect, inner: i as usize }),
        decreases elems@.len() - k,
    {
        r.push(BBox { rect: elems[k].rect, inner: k });
        k += 1;
    }
    assert(r@ =~= numbered(rects_of(elems@)));
    r
}

/// The pairs of numbers that the pairs of positions stand for: each position
/// is replaced by the number of the element that is stored there, and the
/// lesser number is put first.
pub open spec fn named(stored: Seq<BBox<usize>>, pairs: Seq<Pair>) -> Seq<Pair> {
    Seq::new(pairs.len(), |k: int| ordered(stored[pairs[k].0 as int].inner, stored[pairs[k].1 as int].inner))
}

/// Replaces the positions in the pairs by the numbers of the elements that
/// are stored there.
pub fn collect_ids(stored: &[BBox<usize>], pairs: &Vec<Pair>) -> (ids: Vec<Pair>)
    requires
        forall|k: int| 0 <= k < pairs@.len() ==> (#[trigger] pairs@[k]).0 < stored@.len() && pairs@[k].1 < stored@.len(),
    ensures
        ids@ == named(stored@, pairs@),
{
    let mut ids: Vec<Pair> = Vec::new();
    let mut k: usize = 0;
    while k < pairs.len()
        invariant
            k <= pairs@.len(),
            ids@.len() == k,
            forall|j: int| 0 <= j < pairs@.len() ==> (#[trigger] pairs@[j]).0 < stored@.len() && pairs@[j].1 < stored@.len(),
            forall|j: int| 0 <= j < k ==> ids@[j] == named(stored@, pairs@)[j],
        decreases pairs@.len() - k,
    {
        let (i, j) = pairs[k];
        let a: usize = stored[i].inner;
        let b: usize = stored[j].inner;
        if a < b {
            ids.push((a, b));
        } else {
            ids.push((b, a));
        }
        k += 1;
    }
    assert(ids@ =~= named(stored@, pairs@));
    ids
}

/// Some stored element has the number `a`.
pub open spec fn has_number(stored: Seq<BBox<usize>>, a: int) -> bool {
    exists|p: int| 0 <= p < stored.len() && (#[trigger] stored[p]).inner == a
}

/// Where numbered elements have been rearranged, every element is still the
/// one that its number says, and no two positions hold the same number.
proof fn lemma_numbers(rects: Seq<Rect>, stored: Seq<BBox<usize>>)
    requires
        rects.len() <= usize::MAX,
        stored.to_multiset() == numbered(rects).to_multiset(),
    ensures
        stored.len() == rects.len(),
        forall|p: int| 0 <= p < stored.len() ==> (#[trigger] stored[p]).inner < rects.len() && stored[p].rect
            == rects[stored[p].inner as int],
        forall|p: int, q: int|
            0 <= p < stored.len() && 0 <= q < stored.len() && p != q ==> (#[trigger] stored[p]).inner != (
            #[trigger] stored[q]).inner,
        forall|a: int| 0 <= a < rects.len() ==> #[trigger] has_number(stored, a),
{
    let given = numbered(rects);
    lemma_permuted_len(stored, given);
    assert forall|p: int| 0 <= p < stored.len() implies (#[trigger] stored[p]).inner < rects.len() && stored[p].rect
        == rects[stored[p].inner as int] by {
        let j = lemma_permuted_item(stored, given, p);
        assert(given[j].inner == j);
    }
    assert(given.no_duplicates()) by {
        assert forall|i: int, j: int| 0 <= i < given.len() && 0 <= j < given.len() && i != j implies given[i]
            != given[j] by {
            assert(given[i].inner == i);
            assert(given[j].inner == j);
        }
    }
    given.lemma_multiset_has_no_duplicates();
    stored.lemma_multiset_has_no_duplicates_conv();
    assert forall|p: int, q: int| 0 <= p < stored.len() && 0 <= q < stored.len() && p != q implies (
    #[trigger] stored[p]).inner != (#[trigger] stored[q]).inner by {
        if stored[p].inner == stored[q].inner {
            assert(stored[p].rect == stored[q].rect);
            assert(stored[p] == stored[q]);
        }
    }
    assert forall|a: int| 0 <= a < rects.len() implies #[trigger] has_number(stored, a) by {
        let p = lemma_permuted_item(given, stored, a);
        assert(stored[p].inner == a);
    }
}

/// The colliding pairs of rearranged numbered elements, named by the numbers,
/// are the colliding pairs of the elements in their first order.
proof fn lemma_named_exact(rects: Seq<Rect>, stored: Seq<BBox<usize>>, pairs: Seq<Pair>)
    requires
        rects.len() <= usize::MAX,
        stored.to_multiset() == numbered(rects).to_multiset(),
        exact(pairs, all_colliding(rects_of(stored))),
    ensures
        exact(named(stored, pairs), all_colliding(rects)),
{
    let ids = named(stored, pairs);
    let there = rects_of(stored);
    let n = rects.len() as int;
    lemma_numbers(rects, stored);
    assert forall|k: int| 0 <= k < pairs.len() implies all_colliding(there).contains(#[trigger] pairs[k]) by {
        assert(pairs.contains(pairs[k]));
    }
    assert forall|k1: int, k2: int| 0 <= k1 < ids.len() && 0 <= k2 < ids.len() && k1 != k2 implies ids[k1]
        != ids[k2] by {
        let p1 = pairs[k1];
        let p2 = pairs[k2];
        assert(all_colliding(there).contains(p1));
        assert(all_colliding(there).contains(p2));
        if ids[k1] == ids[k2] {
            let a1 = stored[p1.0 as int].inner;
            let b1 = stored[p1.1 as int].inner;
            let a2 = stored[p2.0 as int].inner;
            let b2 = stored[p2.1 as int].inner;
            assert(ordered(a1, b1) == ordered(a2, b2));
            if a1 == a2 {
                assert(p1.0 == p2.0);
                assert(b1 == b2);
                assert(p1.1 == p2.1);
            } else {
                assert(a1 == b2 && b1 == a2);
                assert(p1.0 == p2.1);
                assert(p1.1 == p2.0);
            }
            assert(p1 == p2);
        }
    }
    assert forall|p: Pair| ids.contains(p) <==> all_colliding(rects).contains(p) by {
        if ids.contains(p) {
            let k = choose|k: int| 0 <= k < ids.len() && ids[k] == p;
            let found = pairs[k];
            assert(all_colliding(there).contains(found));
            let a = stored[found.0 as int].inner;
            let b = stored[found.1 as int].inner;
            assert(there[found.0 as int] == rects[a as int]);
            assert(there[found.1 as int] == rects[b as int]);
            assert(a != b);
        }
        if all_colliding(rects).contains(p) {
            assert(has_number(stored, p.0 as int));
            assert(has_number(stored, p.1 as int));
            let i = choose|i: int| 0 <= i < stored.len() && (#[trigger] stored[i]).inner == p.0;
            let j = choose|j: int| 0 <= j < stored.len() && (#[trigger] stored[j]).inner == p.1;
            assert(i != j);
            assert(there[i] == rects[p.0 as int]);
            assert(there[j] == rects[p.1 as int]);
            let found: Pair = if i < j {
                (i as usize, j as usize)
            } else {
                (j as usize, i as usize)
            };
            assert(all_colliding(there).contains(found));
            assert(pairs.contains(found));
            let k = choose|k: int| 0 <= k < pairs.len() && pairs[k] == found;
            assert(ids[k] == p);
        }
    }
}

/// A rearrangement of an exact list is an exact list of the same set.
proof fn lemma_exact_permuted(a: Seq<Pair>, b: Seq<Pair>, set: Set<Pair>)
    requires
        exact(a, set),
        a.to_multiset() == b.to_multiset(),
    ensures
        exact(b, set),
{
    a.lemma_multiset_has_no_duplicates();
    b.lemma_multiset_has_no_duplicates_conv();
    assert forall|p: Pair| b.contains(p) <==> set.contains(p) by {
        to_multiset_contains(a, p);
        to_multiset_contains(b, p);
    }
}

/// The order of pairs is a total order.
proof fn lemma_pair_le_total()
    ensures
        total_ordering(pair_le()),
{
    let r = pair_le();
    assert forall|x: Pair| #[trigger] r(x, x) by {}
    assert forall|x: Pair, y: Pair| #[trigger] r(x, y) && #[trigger] r(y, x) implies x == y by {}
    assert forall|x: Pair, y: Pair, z: Pair| #[trigger] r(x, y) && #[trigger] r(y, z) implies r(x, z) by {}
    assert forall|x: Pair, y: Pair| #[trigger] r(x, y) || #[trigger] r(y, x) by {}
}

/// Two sorted exact lists of the same set are the same list.
proof fn lemma_sorted_exact_same(a: Seq<Pair>, b: Seq<Pair>, set: Set<Pair>)
    requires
        exact(a, set),
        exact(b, set),
        sorted_by(a, pair_le()),
        sorted_by(b, pair_le()),
    ensures
        a == b,
{
    lemma_same_pairs(a, b, set);
    lemma_pair_le_total();
    lemma_sorted_unique(a, b, pair_le());
}

/// Names the pairs that a search found by the numbers of the elements, and
/// sorts them.
fn finish(Ghost(rects): Ghost<Seq<Rect>>, stored: &[BBox<usize>], pairs: Vec<Pair>) -> (ids: Vec<Pair>)
    requires
        rects.len() <= usize::MAX,
        stored@.to_multiset() == numbered(rects).to_multiset(),
        exact(pairs@, all_colliding(rects_of(stored@))),
    ensures
        exact(ids@, all_colliding(rects)),
        sorted_by(ids@, pair_le()),
{
    proof {
        assert forall|k: int| 0 <= k < pairs@.len() implies (#[trigger] pairs@[k]).0 < stored@.len() && pairs@[k].1
            < stored@.len() by {
            assert(pairs@.contains(pairs@[k]));
        }
        lemma_named_exact(rects, stored@, pairs@);
    }
    let mut ids = collect_ids(stored, &pairs);
    let ghost unsorted = ids@;
    sort_pairs(&mut ids);
    proof {
        lemma_exact_permuted(unsorted, ids@, all_colliding(rects));
    }
    ids
}

/// Tells whether two lists of pairs are the same.
pub fn same_list(a: &Vec<Pair>, b: &Vec<Pair>) -> (r: bool)
    ensures
        r == (a@ == b@),
{
    if a.len() != b.len() {
        return false;
    }
    let mut k: usize = 0;
    while k < a.len()
        invariant
            k <= a@.len(),
            a@.len() == b@.len(),
            forall|i: int| 0 <= i < k ==> a@[i] == b@[i],
        decreases a@.len() - k,
    {
        let x: Pair = a[k];
        let y: Pair = b[k];
        if x.0 != y.0 || x.1 != y.1 {
            return false;
        }
        k += 1;
    }
    assert(a@ =~= b@);
    true
}

/// Elements on which the searches are held against one another.
pub struct Assert<T> {
    elems: Vec<BBox<T>>,
}

impl<T> Assert<T> {
    /// The elements, in the order in which they were given.
    pub closed spec fn view(&self) -> Seq<BBox<T>> {
        self.elems@
    }

    pub fn new(bots: Vec<BBox<T>>) -> (r: Assert<T>)
        ensures
            r@ == bots@,
    {
        Assert { elems: bots }
    }

    pub fn into_inner(self) -> (r: Vec<BBox<T>>)
        ensures
            r@ == self@,
    {
        self.elems
    }

    /// Runs the comparison of every element with every other, the search of
    /// a tree, the search of a tree with unsorted nodes, and the sweep over
    /// all elements, and holds what they find against one another.
    ///
    /// Returns the colliding pairs `(i, j)`, `i < j`, of positions in the
    /// order in which the elements were given, in ascending order. All four
    /// searches find exactly these pairs, so the result is never `None`.
    pub fn assert_query(&self) -> (r: Option<Vec<Pair>>)
        requires
            all_valid(rects_of(self@)),
        ensures
            r matches Some(found) && exact(found@, all_colliding(rects_of(self@))) && sorted_by(
                found@,
                pair_le(),
            ),
    {
        let ghost rects = rects_of(self@);
        let bots = self.elems.as_slice();
        let len: usize = bots.len();
        let ghost given = numbered(rects);
        proof {
            assert(rects.len() == len);
            assert(rects_of(given) =~= rects);
        }

        let naive = Naive::new(number(bots));
        let naive_res = finish(Ghost(rects), naive.get_elements(), naive.find_colliding_pairs());

        let tree = Tree::new(number(bots));
        let tree_res = finish(Ghost(rects), tree.get_elements(), tree.find_colliding_pairs());

        let notsort = NotSortedTree::new(number(bots));
        let notsort_res = finish(Ghost(rects), notsort.get_elements(), notsort.find_colliding_pairs());

        let sweep = SweepAndPrune::new(number(bots));
        let sweep_res = finish(Ghost(rects), sweep.get_elements(), sweep.find_colliding_pairs());

        proof {
            let set = all_colliding(rects);
            lemma_sorted_exact_same(naive_res@, tree_res@, set);
            lemma_sorted_exact_same(naive_res@, notsort_res@, set);
            lemma_sorted_exact_same(naive_res@, sweep_res@, set);
        }
        if same_list(&naive_res, &tree_res) && same_list(&naive_res, &sweep_res) && same_list(
            &naive_res,
            &notsort_res,
        ) {
            Some(naive_res)
        } else {
            None
        }
    }
}

} // verus!
