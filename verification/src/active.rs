//! The active lists of the sweeps.
//!
//! A sweep keeps the positions of the elements that may still overlap what
//! comes next in an unordered list: a `Vec` for the sweep over one slice, and
//! the two lists of one `TwoUnorderedVecs` for the sweep over two slices.
//! The lists are pruned with `retain_mut_unordered`, which may rearrange what
//! it keeps, so the contracts below speak of the lists as multisets.

use vstd::prelude::*;
use twounordered::RetainMutUnordered;
use twounordered::TwoUnorderedVecs;
use crate::geom::{rects_of, Axis, BBox, Rect};

verus! {

/// `twounordered::TwoUnorderedVecs`: two unordered lists in one allocation.
#[verifier::external_type_specification]
#[verifier::external_body]
#[verifier::reject_recursive_types(T)]
pub struct ExTwoUnorderedVecs<T>(TwoUnorderedVecs<T>);

/// What the first list of `lists` holds, in the order of its slice.
pub uninterp spec fn first_items(lists: TwoUnorderedVecs<Vec<usize>>) -> Seq<usize>;

/// What the second list of `lists` holds, in the order of its slice.
pub uninterp spec fn second_items(lists: TwoUnorderedVecs<Vec<usize>>) -> Seq<usize>;

/// `y` is the position of an element whose extent along `axis` ends at
/// `bound` or after it.
pub open spec fn reaches(rects: Seq<Rect>, axis: Axis, y: usize, bound: i64) -> bool {
    y < rects.len() && rects[y as int].on(axis).end >= bound
}

/// Tells whether the element at `y` ends at `bound` or after it along `axis`.
pub fn still_reaches<T>(elems: &[BBox<T>], axis: Axis, y: usize, bound: i64) -> (r: bool)
    ensures
        r == reaches(rects_of(elems@), axis, y, bound),
{
    y < elems.len() && elems[y].rect.get_range(axis).end >= bound
}

/// `items` lists exactly the positions of `wanted`, each once.
pub open spec fn lists_exactly(items: Seq<usize>, wanted: Set<usize>) -> bool {
    forall|y: usize| #[trigger] items.to_multiset().count(y) == (if wanted.contains(y) { 1nat } else { 0nat })
}

/// A list that holds exactly the wanted positions holds none twice, and a
/// position is in it if and only if it is wanted.
pub proof fn lemma_lists_exactly(items: Seq<usize>, wanted: Set<usize>)
    requires
        lists_exactly(items, wanted),
    ensures
        items.no_duplicates(),
        forall|y: usize| items.contains(y) <==> wanted.contains(y),
        forall|k: int| 0 <= k < items.len() ==> wanted.contains(#[trigger] items[k]),
{
    broadcast use vstd::seq_lib::to_multiset_contains;

    assert forall|y: usize| items.to_multiset().contains(y) implies items.to_multiset().count(y) == 1 by {}
    items.lemma_multiset_has_no_duplicates_conv();
    assert forall|y: usize| items.contains(y) <==> wanted.contains(y) by {
        assert(items.contains(y) <==> items.to_multiset().count(y) > 0);
    }
    assert forall|k: int| 0 <= k < items.len() implies wanted.contains(#[trigger] items[k]) by {
        assert(items.contains(items[k]));
    }
}

pub proof fn lemma_lists_nothing(items: Seq<usize>)
    requires
        items.len() == 0,
    ensures
        lists_exactly(items, Set::empty()),
{
    broadcast use vstd::seq_lib::to_multiset_len;
    broadcast use vstd::multiset::group_multiset_axioms;

    assert(items.to_multiset().len() == 0);
    assert forall|y: usize| #[trigger] items.to_multiset().count(y) == 0 by {
        if items.to_multiset().count(y) > 0 {
            assert(items.to_multiset().contains(y));
        }
    }
}

/// `RetainMutUnordered::retain_mut_unordered` on a `Vec`: keeps the positions
/// of the elements that still reach `bound`, each as often as it was listed,
/// and drops the others.
#[verifier::external_body]
pub(crate) fn retain_reaching<T>(active: &mut Vec<usize>, elems: &[BBox<T>], axis: Axis, bound: i64)
    ensures
        final(active)@.to_multiset() == old(active)@.to_multiset().filter(
            |y: usize| reaches(rects_of(elems@), axis, y, bound),
        ),
{
    active.retain_mut_unordered(|y| still_reaches(elems, axis, *y, bound));
}

/// `TwoUnorderedVecs::new`: both lists are empty.
#[verifier::external_body]
pub(crate) fn lists_new() -> (lists: TwoUnorderedVecs<Vec<usize>>)
    ensures
        first_items(lists).len() == 0,
        second_items(lists).len() == 0,
{
    TwoUnorderedVecs::new()
}

/// `TwoUnorderedVecs::clear`: both lists are empty afterwards.
#[verifier::external_body]
pub(crate) fn lists_clear(lists: &mut TwoUnorderedVecs<Vec<usize>>)
    ensures
        first_items(*final(lists)).len() == 0,
        second_items(*final(lists)).len() == 0,
{
    lists.clear();
}

/// `TwoUnorderedVecs::as_slice`: the two lists as slices.
#[verifier::external_body]
pub(crate) fn lists_slices(lists: &TwoUnorderedVecs<Vec<usize>>) -> (r: (&[usize], &[usize]))
    ensures
        r.0@ == first_items(*lists),
        r.1@ == second_items(*lists),
{
    lists.as_slice()
}

/// `FirstVec::push`: adds `x` to the first list. The second list keeps what
/// it holds, though not its order.
#[verifier::external_body]
pub(crate) fn push_first(lists: &mut TwoUnorderedVecs<Vec<usize>>, x: usize)
    ensures
        first_items(*final(lists)).to_multiset() == first_items(*old(lists)).to_multiset().insert(x),
        second_items(*final(lists)).to_multiset() == second_items(*old(lists)).to_multiset(),
{
    lists.first().push(x);
}

/// `SecondVec::push`: adds `y` to the second list and leaves the first as it
/// is.
#[verifier::external_body]
pub(crate) fn push_second(lists: &mut TwoUnorderedVecs<Vec<usize>>, y: usize)
    ensures
        first_items(*final(lists)).to_multiset() == first_items(*old(lists)).to_multiset(),
        second_items(*final(lists)).to_multiset() == second_items(*old(lists)).to_multiset().insert(y),
{
    lists.second().push(y);
}

/// `retain_mut_unordered` on the first list: keeps the positions of the
/// elements that still reach `bound`. The second list keeps what it holds,
/// though not its order.
#[verifier::external_body]
pub(crate) fn retain_first<T>(
    lists: &mut TwoUnorderedVecs<Vec<usize>>,
    elems: &[BBox<T>],
    axis: Axis,
    bound: i64,
)
    ensures
        first_items(*final(lists)).to_multiset() == first_items(*old(lists)).to_multiset().filter(
            |y: usize| reaches(rects_of(elems@), axis, y, bound),
        ),
        second_items(*final(lists)).to_multiset() == second_items(*old(lists)).to_multiset(),
{
    lists.first().retain_mut_unordered(|y| still_reaches(elems, axis, *y, bound));
}

/// `retain_mut_unordered` on the second list: keeps the positions of the
/// elements that still reach `bound`, and leaves the first list as it is.
#[verifier::external_body]
pub(crate) fn retain_second<T>(
    lists: &mut TwoUnorderedVecs<Vec<usize>>,
    elems: &[BBox<T>],
    axis: Axis,
    bound: i64,
)
    ensures
        first_items(*final(lists)).to_multiset() == first_items(*old(lists)).to_multiset(),
        second_items(*final(lists)).to_multiset() == second_items(*old(lists)).to_multiset().filter(
            |y: usize| reaches(rects_of(elems@), axis, y, bound),
        ),
{
    lists.second().retain_mut_unordered(|y| still_reaches(elems, axis, *y, bound));
}

/// What one of the two lists holds: the first if `first` is set, the second
/// otherwise.
pub open spec fn items_of(lists: TwoUnorderedVecs<Vec<usize>>, first: bool) -> Seq<usize> {
    if first {
        first_items(lists)
    } else {
        second_items(lists)
    }
}

/// Prunes one of the two lists, keeping the positions of the elements that
/// still reach `bound`.
pub fn retain_side<T>(
    lists: &mut TwoUnorderedVecs<Vec<usize>>,
    first: bool,
    elems: &[BBox<T>],
    axis: Axis,
    bound: i64,
)
    ensures
        items_of(*final(lists), first).to_multiset() == items_of(*old(lists), first).to_multiset().filter(
            |y: usize| reaches(rects_of(elems@), axis, y, bound),
        ),
        items_of(*final(lists), !first).to_multiset() == items_of(*old(lists), !first).to_multiset(),
{
    if first {
        retain_first(lists, elems, axis, bound);
    } else {
        retain_second(lists, elems, axis, bound);
    }
}

/// Adds a position to one of the two lists.
pub fn push_side(lists: &mut TwoUnorderedVecs<Vec<usize>>, first: bool, x: usize)
    ensures
        items_of(*final(lists), first).to_multiset() == items_of(*old(lists), first).to_multiset().insert(x),
        items_of(*final(lists), !first).to_multiset() == items_of(*old(lists), !first).to_multiset(),
{
    if first {
        push_first(lists, x);
    } else {
        push_second(lists, x);
    }
}

/// One of the two lists as a slice.
pub fn slice_side(lists: &TwoUnorderedVecs<Vec<usize>>, first: bool) -> (r: &[usize])
    ensures
        r@ == items_of(*lists, first),
{
    let (a, b) = lists_slices(lists);
    if first {
        a
    } else {
        b
    }
}

/// Pruning a list that holds exactly the wanted positions leaves exactly the
/// wanted positions that reach the bound.
pub proof fn lemma_retained(
    before: Seq<usize>,
    after: Seq<usize>,
    wanted: Set<usize>,
    rects: Seq<Rect>,
    axis: Axis,
    bound: i64,
)
    requires
        lists_exactly(before, wanted),
        after.to_multiset() == before.to_multiset().filter(|y: usize| reaches(rects, axis, y, bound)),
    ensures
        lists_exactly(after, wanted.filter(|y: usize| reaches(rects, axis, y, bound))),
{
    broadcast use vstd::multiset::group_multiset_axioms;

    let keep = |y: usize| reaches(rects, axis, y, bound);
    let now = wanted.filter(keep);
    assert forall|y: usize| #[trigger]
        after.to_multiset().count(y) == (if now.contains(y) { 1nat } else { 0nat }) by {
        assert(before.to_multiset().filter(keep).count(y) == if keep(y) {
            before.to_multiset().count(y)
        } else {
            0
        });
    }
}

/// Adding an unlisted position to a list that holds exactly the wanted
/// positions.
pub proof fn lemma_pushed(before: Seq<usize>, after: Seq<usize>, wanted: Set<usize>, x: usize)
    requires
        lists_exactly(before, wanted),
        !wanted.contains(x),
        after.to_multiset() == before.to_multiset().insert(x),
    ensures
        lists_exactly(after, wanted.insert(x)),
{
    broadcast use vstd::multiset::group_multiset_axioms;

    assert forall|y: usize| #[trigger]
        after.to_multiset().count(y) == (if wanted.insert(x).contains(y) { 1nat } else { 0nat }) by {
        assert(before.to_multiset().count(y) == (if wanted.contains(y) { 1nat } else { 0nat }));
    }
}

/// What a list holds exactly may be described by any equal set.
pub proof fn lemma_lists_same(items: Seq<usize>, a: Set<usize>, b: Set<usize>)
    requires
        lists_exactly(items, a),
        forall|y: usize| a.contains(y) <==> b.contains(y),
    ensures
        lists_exactly(items, b),
{
    assert forall|y: usize| #[trigger]
        items.to_multiset().count(y) == (if b.contains(y) { 1nat } else { 0nat }) by {
        assert(items.to_multiset().count(y) == (if a.contains(y) { 1nat } else { 0nat }));
    }
}

/// Two lists with the same contents hold exactly the same positions.
pub proof fn lemma_lists_moved(before: Seq<usize>, after: Seq<usize>, wanted: Set<usize>)
    requires
        lists_exactly(before, wanted),
        after.to_multiset() == before.to_multiset(),
    ensures
        lists_exactly(after, wanted),
{
    assert forall|y: usize| #[trigger]
        after.to_multiset().count(y) == (if wanted.contains(y) { 1nat } else { 0nat }) by {
        assert(before.to_multiset().count(y) == (if wanted.contains(y) { 1nat } else { 0nat }));
    }
}

/// Two lists that hold exactly two disjoint sets hold, one after the other,
/// exactly their union.
pub proof fn lemma_lists_joined(a: Seq<usize>, b: Seq<usize>, wanted_a: Set<usize>, wanted_b: Set<usize>)
    requires
        lists_exactly(a, wanted_a),
        lists_exactly(b, wanted_b),
        wanted_a.disjoint(wanted_b),
    ensures
        lists_exactly(a + b, wanted_a.union(wanted_b)),
{
    broadcast use vstd::multiset::group_multiset_axioms;

    vstd::seq_lib::lemma_multiset_commutative(a, b);
    assert forall|y: usize| #[trigger]
        (a + b).to_multiset().count(y) == (if wanted_a.union(wanted_b).contains(y) { 1nat } else { 0nat }) by {
        assert(a.to_multiset().count(y) == (if wanted_a.contains(y) { 1nat } else { 0nat }));
        assert(b.to_multiset().count(y) == (if wanted_b.contains(y) { 1nat } else { 0nat }));
    }
}

} // verus!
