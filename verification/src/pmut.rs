//! References to elements that protect their bounding boxes.
//!
//! A tree relies on where its elements are, so while it lives nobody may move
//! an element or change its bounding box. A [`PMut`] gives what is left: the
//! bounding box to read, and the payload to read and to write. Two payloads
//! may be exchanged; two elements may not. A [`PMutSlice`] is the same for a
//! run of elements: it hands out a [`PMut`] to each and can be cut shorter,
//! and never hands out the run itself.

use vstd::prelude::*;
use crate::geom::{rects_of, BBox, Rect};

verus! {

/// A protected mutable reference to an element.
pub struct PMut<'a, T> {
    /// The bounding box of the element.
    pub rect: &'a Rect,
    /// The payload of the element.
    pub inner: &'a mut T,
}

impl<'a, T> PMut<'a, T> {
    /// Protects an element. Whatever is done through the result, the element
    /// keeps its bounding box.
    pub fn new(elem: &'a mut BBox<T>) -> (r: PMut<'a, T>)
        ensures
            *r.rect == old(elem).rect,
            *r.inner == old(elem).inner,
            final(elem).rect == old(elem).rect,
            final(elem).inner == *final(r.inner),
    {
        PMut { rect: &elem.rect, inner: &mut elem.inner }
    }

    /// Borrows the reference for a while.
    pub fn as_mut(&mut self) -> (r: PMut<'_, T>)
        ensures
            *r.rect == *old(self).rect,
            *r.inner == *old(self).inner,
            *final(self).rect == *old(self).rect,
            *final(self).inner == *final(r.inner),
            *final(final(self).inner) == *final(old(self).inner),
    {
        PMut { rect: self.rect, inner: &mut *self.inner }
    }

    /// The bounding box and the payload, to read.
    pub fn as_ref(&self) -> (r: (&Rect, &T))
        ensures
            *r.0 == *self.rect,
            *r.1 == *old(self.inner),
    {
        (self.rect, &*self.inner)
    }

    /// The bounding box to read and the payload to write.
    pub fn unpack(self) -> (r: (&'a Rect, &'a mut T))
        ensures
            *r.0 == *self.rect,
            *r.1 == *old(self.inner),
            *final(self.inner) == *final(r.1),
    {
        (self.rect, self.inner)
    }

    /// The payload to write.
    pub fn unpack_inner(self) -> (r: &'a mut T)
        ensures
            *r == *old(self.inner),
            *final(self.inner) == *final(r),
    {
        self.inner
    }

    /// The bounding box.
    pub fn get(&self) -> (r: &Rect)
        ensures
            *r == *self.rect,
    {
        self.rect
    }

    /// The bounding box.
    pub fn rect(&self) -> (r: &Rect)
        ensures
            *r == *self.rect,
    {
        self.rect
    }

    /// The payload to read.
    pub fn inner(&self) -> (r: &T)
        ensures
            *r == *old(self.inner),
    {
        &*self.inner
    }

    /// The payload to write, for a while.
    pub fn inner_mut(&mut self) -> (r: &mut T)
        ensures
            *r == *old(self).inner,
            *final(self).rect == *old(self).rect,
            *final(self).inner == *final(r),
            *final(final(self).inner) == *final(old(self).inner),
    {
        &mut *self.inner
    }

    /// The payload to write.
    pub fn into_inner(self) -> (r: &'a mut T)
        ensures
            *r == *old(self.inner),
            *final(self.inner) == *final(r),
    {
        self.inner
    }
}

/// A protected mutable reference to a run of elements.
pub struct PMutSlice<'a, T> {
    inner: &'a mut [BBox<T>],
}

impl<'a, T> PMutSlice<'a, T> {
    /// The elements of the run, as they are now.
    pub closed spec fn view(&self) -> Seq<BBox<T>> {
        self.inner@
    }

    /// Protects a run of elements.
    pub fn new(inner: &'a mut [BBox<T>]) -> (r: PMutSlice<'a, T>)
        ensures
            r@ == old(inner)@,
    {
        PMutSlice { inner }
    }

    /// The elements, to read.
    pub fn as_slice(&self) -> (r: &[BBox<T>])
        ensures
            r@ == self@,
    {
        &*self.inner
    }

    /// The elements, to read and to go through, for as long as the run
    /// was borrowed.
    pub fn iter(self) -> (r: &'a [BBox<T>])
        ensures
            r@ == self@,
    {
        self.inner
    }

    pub fn len(&self) -> (r: usize)
        ensures
            r == self@.len(),
    {
        self.inner.len()
    }

    pub fn is_empty(&self) -> (r: bool)
        ensures
            r == (self@.len() == 0),
    {
        self.inner.len() == 0
    }

    /// A protected reference to the element at `ind`, for a while. The run
    /// keeps its bounding boxes, and has the payload that the reference
    /// leaves.
    pub fn get_index_mut(&mut self, ind: usize) -> (r: PMut<'_, T>)
        requires
            ind < old(self)@.len(),
        ensures
            *r.rect == old(self)@[ind as int].rect,
            *r.inner == old(self)@[ind as int].inner,
            final(self)@ == old(self)@.update(
                ind as int,
                BBox { rect: old(self)@[ind as int].rect, inner: *final(r.inner) },
            ),
            rects_of(final(self)@) == rects_of(old(self)@),
    {
        PMut::new(&mut self.inner[ind])
    }

    /// The first element and the rest of the run, or `None` if the run is
    /// empty.
    pub fn split_first_mut(self) -> (r: Option<(PMut<'a, T>, PMutSlice<'a, T>)>)
        ensures
            r is None <==> self@.len() == 0,
            r matches Some(parts) ==> {
                &&& *parts.0.rect == self@[0].rect
                &&& *parts.0.inner == self@[0].inner
                &&& parts.1@ == self@.subrange(1, self@.len() as int)
            },
    {
        if self.inner.len() == 0 {
            return None;
        }
        let (head, tail) = self.inner.split_at_mut(1);
        match head.first_mut() {
            Some(first) => Some((PMut::new(first), PMutSlice { inner: tail })),
            None => None,
        }
    }

    /// A protected reference to each element of the run, in the order of
    /// the run.
    pub fn iter_mut(self) -> (r: Vec<PMut<'a, T>>)
        ensures
            r@.len() == self@.len(),
            forall|k: int|
                0 <= k < r@.len() ==> *(#[trigger] r@[k]).rect == self@[k].rect && *r@[k].inner
                    == self@[k].inner,
    {
        let ghost given = self@;
        let mut rest = self;
        let mut all: Vec<PMut<'a, T>> = Vec::new();
        loop
            invariant_except_break
                all@.len() <= given.len(),
                rest@ == given.subrange(all@.len() as int, given.len() as int),
            invariant
                forall|k: int|
                    0 <= k < all@.len() ==> *(#[trigger] all@[k]).rect == given[k].rect && *all@[k].inner
                        == given[k].inner,
            ensures
                all@.len() == given.len(),
            decreases given.len() - all@.len(),
        {
            let ghost done = all@.len() as int;
            match rest.split_first_mut() {
                None => {
                    break ;
                },
                Some((first, tail)) => {
                    proof {
                        assert(given.subrange(done, given.len() as int)[0] == given[done]);
                        assert(given.subrange(done, given.len() as int).subrange(
                            1,
                            given.len() - done,
                        ) =~= given.subrange(done + 1, given.len() as int));
                    }
                    all.push(first);
                    rest = tail;
                },
            }
        }
        all
    }

    /// The run up to the position `end`.
    pub fn truncate_to(self, end: usize) -> (r: PMutSlice<'a, T>)
        requires
            end <= self@.len(),
        ensures
            r@ == self@.subrange(0, end as int),
    {
        let (head, _) = self.inner.split_at_mut(end);
        PMutSlice { inner: head }
    }

    /// The run from the position `start` on.
    pub fn truncate_from(self, start: usize) -> (r: PMutSlice<'a, T>)
        requires
            start <= self@.len(),
        ensures
            r@ == self@.subrange(start as int, self@.len() as int),
    {
        let (_, tail) = self.inner.split_at_mut(start);
        PMutSlice { inner: tail }
    }

    /// The run from the position `start` up to the position `end`.
    pub fn truncate(self, start: usize, end: usize) -> (r: PMutSlice<'a, T>)
        requires
            start <= end <= self@.len(),
        ensures
            r@ == self@.subrange(start as int, end as int),
    {
        let (head, _) = self.inner.split_at_mut(end);
        let (_, tail) = head.split_at_mut(start);
        PMutSlice { inner: tail }
    }
}

} // verus!
