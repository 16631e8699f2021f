//! Sorting, comparing, and the reusable buffer of the sweeps.

use vstd::prelude::*;
use core::cmp::Ordering;
use crate::geom::{rects_of, sorted_on, Axis, BBox, Rect};
use crate::perm::swapped;

verus! {

/// The whole sequence comes in non-decreasing order of the starts along
/// `axis`.
pub open spec fn sorted_all(rects: Seq<Rect>, axis: Axis) -> bool {
    sorted_on(rects, axis, 0, rects.len() as int)
}

/// The rectangle at `index` is where its start puts it: nothing before it
/// starts later, and nothing after it starts earlier.
pub open spec fn selected(rects: Seq<Rect>, axis: Axis, index: int) -> bool {
    &&& forall|i: int| 0 <= i < index ==> (#[trigger] rects[i]).on(axis).start <= rects[index].on(axis).start
    &&& forall|i: int|
        index < i < rects.len() ==> (#[trigger] rects[i]).on(axis).start >= rects[index].on(axis).start
}

/// [`selected`], of a position in a `Vec`.
pub open spec fn selected_at(rects: Seq<Rect>, axis: Axis, index: usize) -> bool {
    selected(rects, axis, index as int)
}

/// Compares two elements by their start along `axis`, for a sweep: tells
/// whether `a` starts after `b`. It is `Greater` if so and `Less` if not,
/// also where the two start alike; it is never `Equal`.
pub fn compare_bots<T>(axis: Axis, a: &BBox<T>, b: &BBox<T>) -> (r: Ordering)
    ensures
        a.rect.on(axis).start > b.rect.on(axis).start ==> r == Ordering::Greater,
        a.rect.on(axis).start <= b.rect.on(axis).start ==> r == Ordering::Less,
{
    let p1: i64 = a.rect.get_range(axis).start;
    let p2: i64 = b.rect.get_range(axis).start;
    if p1 > p2 {
        Ordering::Greater
    } else {
        Ordering::Less
    }
}

/// Orders two elements by their start along `axis`: `Less`, `Equal` or
/// `Greater` as `a` starts before `b`, with it, or after it. This is a total
/// order of the starts, which sorting needs.
pub fn compare_starts<T>(axis: Axis, a: &BBox<T>, b: &BBox<T>) -> (r: Ordering)
    ensures
        a.rect.on(axis).start < b.rect.on(axis).start ==> r == Ordering::Less,
        a.rect.on(axis).start == b.rect.on(axis).start ==> r == Ordering::Equal,
        a.rect.on(axis).start > b.rect.on(axis).start ==> r == Ordering::Greater,
{
    let p1: i64 = a.rect.get_range(axis).start;
    let p2: i64 = b.rect.get_range(axis).start;
    if p1 < p2 {
        Ordering::Less
    } else if p1 > p2 {
        Ordering::Greater
    } else {
        Ordering::Equal
    }
}

/// `<[T]>::sort_unstable_by` with `compare_starts`: rearranges the elements
/// into non-decreasing order of their start along `axis`. Elements that start
/// alike may come out in any order.
#[verifier::external_body]
fn sort_by_start<T>(elems: &mut Vec<BBox<T>>, axis: Axis)
    ensures
        final(elems)@.to_multiset() == old(elems)@.to_multiset(),
        sorted_all(rects_of(final(elems)@), axis),
{
    elems.sort_unstable_by(|a, b| compare_starts(axis, a, b));
}

/// `<[T]>::select_nth_unstable_by` with `compare_starts`: rearranges the
/// elements so that the one at `index` is the one that sorting by start along
/// `axis` would put there, with nothing that starts later before it and
/// nothing that starts earlier after it.
#[verifier::external_body]
pub(crate) fn select_by_start<T>(elems: &mut Vec<BBox<T>>, index: usize, axis: Axis)
    requires
        index < old(elems)@.len(),
    ensures
        final(elems)@.to_multiset() == old(elems)@.to_multiset(),
        selected_at(rects_of(final(elems)@), axis, index),
{
    elems.select_nth_unstable_by(index, |a, b| compare_starts(axis, a, b));
}

/// `<[T]>::swap`: exchanges the elements at `i` and `j`.
#[verifier::external_body]
pub(crate) fn swap_elems<T>(elems: &mut Vec<BBox<T>>, i: usize, j: usize)
    requires
        i < old(elems)@.len(),
        j < old(elems)@.len(),
    ensures
        final(elems)@ == swapped(old(elems)@, i as int, j as int),
{
    elems.swap(i, j);
}

/// Sorts the elements by their start along `axis`.
pub fn sweeper_update<T>(axis: Axis, elems: &mut Vec<BBox<T>>)
    ensures
        final(elems)@.to_multiset() == old(elems)@.to_multiset(),
        sorted_all(rects_of(final(elems)@), axis),
{
    sort_by_start(elems, axis);
}

/// Tells whether the elements come in non-decreasing order of their start
/// along `axis`.
pub fn is_sorted_by<T>(arr: &[BBox<T>], axis: Axis) -> (r: bool)
    ensures
        r == sorted_all(rects_of(arr@), axis),
{
    let ghost rects = rects_of(arr@);
    if arr.len() < 2 {
        return true;
    }
    let mut k: usize = 1;
    while k < arr.len()
        invariant
            1 <= k <= arr@.len(),
            rects == rects_of(arr@),
            sorted_on(rects, axis, 0, k as int),
        decreases arr@.len() - k,
    {
        if arr[k].rect.get_range(axis).start < arr[k - 1].rect.get_range(axis).start {
            assert(!sorted_all(rects, axis)) by {
                assert(rects[k - 1].on(axis).start > rects[k as int].on(axis).start);
            }
            return false;
        }
        assert forall|i: int, j: int| 0 <= i <= j < k + 1 implies (#[trigger] rects[i]).on(axis).start <= (
        #[trigger] rects[j]).on(axis).start by {
            if j == k && i < k {
                assert(rects[i].on(axis).start <= rects[k - 1].on(axis).start);
            }
        }
        k += 1;
    }
    true
}

/// `revec::convert_empty_vec`: turns an empty `Vec` into an empty `Vec` of
/// another element type of the same layout and keeps its allocation. Here
/// both hold positions.
#[verifier::external_body]
fn convert_empty(vec: Vec<usize>) -> (r: Vec<usize>)
    requires
        vec@.len() == 0,
    ensures
        r@.len() == 0,
{
    revec::convert_empty_vec(vec)
}

/// A buffer that keeps the allocation of an active list from one sweep to the
/// next. It holds nothing: it is handed out empty and takes back only what
/// is empty.
pub struct PreVec {
    vec: Vec<usize>,
}

impl PreVec {
    /// What the buffer holds: nothing, between two sweeps.
    pub closed spec fn view(&self) -> Seq<usize> {
        self.vec@
    }

    #[verifier::type_invariant]
    spec fn holds_nothing(&self) -> bool {
        self.vec@.len() == 0
    }

    pub fn new() -> (r: PreVec)
        ensures
            r@.len() == 0,
    {
        PreVec { vec: Vec::new() }
    }

    pub fn with_capacity(num: usize) -> (r: PreVec)
        ensures
            r@.len() == 0,
    {
        PreVec { vec: Vec::with_capacity(num) }
    }

    /// Takes the buffer out, empty, with the capacity it has.
    pub fn extract_vec(&mut self) -> (r: Vec<usize>)
        ensures
            r@.len() == 0,
            final(self)@.len() == 0,
    {
        proof {
            use_type_invariant(&*self);
        }
        let mut v: Vec<usize> = Vec::new();
        core::mem::swap(&mut v, &mut self.vec);
        convert_empty(v)
    }

    /// Hands an empty list back to be used as the buffer, with the capacity
    /// it has.
    pub fn insert_vec(&mut self, vec: Vec<usize>)
        requires
            vec@.len() == 0,
        ensures
            final(self)@.len() == 0,
    {
        let mut v = convert_empty(vec);
        core::mem::swap(&mut self.vec, &mut v);
    }
}

} // verus!
