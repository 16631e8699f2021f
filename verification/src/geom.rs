//! Axes, ranges, rectangles and the bounding-box element.
//!
//! Coordinates are `i64`. A range is closed: it holds every point between its
//! `start` and its `end`, both included, so that two ranges that share a
//! single point overlap.

use vstd::prelude::*;

verus! {

/// One of the two coordinate axes of the plane.
#[derive(Clone, Copy, Debug, PartialEq, Eq, Structural)]
pub enum Axis {
    X,
    Y,
}

impl Axis {
    /// The perpendicular axis.
    pub open spec fn perp(self) -> Axis {
        match self {
            Axis::X => Axis::Y,
            Axis::Y => Axis::X,
        }
    }

    /// Returns the perpendicular axis.
    pub fn next(self) -> (r: Axis)
        ensures
            r == self.perp(),
    {
        match self {
            Axis::X => Axis::Y,
            Axis::Y => Axis::X,
        }
    }

    pub fn is_xaxis(self) -> (r: bool)
        ensures
            r == (self == Axis::X),
    {
        match self {
            Axis::X => true,
            Axis::Y => false,
        }
    }

    pub fn is_equal_to(self, other: Axis) -> (r: bool)
        ensures
            r == (self == other),
    {
        self.is_xaxis() == other.is_xaxis()
    }
}

/// The axis along which the root of a tree divides space.
pub fn default_axis() -> (r: Axis)
    ensures
        r == Axis::X,
{
    Axis::X
}

/// Where a point lies relative to a range.
#[derive(Clone, Copy, Debug, PartialEq, Eq, Structural)]
pub enum Side {
    /// The point is strictly below the start of the range.
    Below,
    /// The point is inside the range, its ends included.
    Inside,
    /// The point is strictly above the end of the range.
    Above,
}

/// A closed one-dimensional interval.
#[derive(Clone, Copy, Debug, PartialEq, Eq, Structural)]
pub struct Range {
    pub start: i64,
    pub end: i64,
}

impl Range {
    /// A range is valid when it is not inverted.
    pub open spec fn valid(self) -> bool {
        self.start <= self.end
    }

    /// Two ranges overlap when they share at least one point.
    pub open spec fn overlaps(self, other: Range) -> bool {
        self.end >= other.start && other.end >= self.start
    }

    pub open spec fn holds(self, pos: i64) -> bool {
        self.start <= pos <= self.end
    }

    pub open spec fn side_of(self, pos: i64) -> Side {
        if pos < self.start {
            Side::Below
        } else if pos > self.end {
            Side::Above
        } else {
            Side::Inside
        }
    }

    pub open spec fn covers(self, other: Range) -> bool {
        self.start <= other.start && other.end <= self.end
    }

    pub fn new(start: i64, end: i64) -> (r: Range)
        ensures
            r == (Range { start, end }),
    {
        Range { start, end }
    }

    pub fn is_valid(&self) -> (r: bool)
        ensures
            r == self.valid(),
    {
        self.start <= self.end
    }

    /// Tells on which side of the range `pos` lies.
    pub fn contains_ext(&self, pos: i64) -> (r: Side)
        ensures
            r == self.side_of(pos),
    {
        if pos < self.start {
            Side::Below
        } else if pos > self.end {
            Side::Above
        } else {
            Side::Inside
        }
    }

    pub fn contains(&self, pos: i64) -> (r: bool)
        ensures
            r == self.holds(pos),
    {
        self.start <= pos && pos <= self.end
    }

    pub fn contains_range(&self, other: &Range) -> (r: bool)
        ensures
            r == self.covers(*other),
    {
        self.start <= other.start && other.end <= self.end
    }

    pub fn intersects(&self, other: &Range) -> (r: bool)
        ensures
            r == self.overlaps(*other),
    {
        !(self.end < other.start || other.end < self.start)
    }
}

/// An axis-aligned rectangle: one range for each axis.
#[derive(Clone, Copy, Debug, PartialEq, Eq, Structural)]
pub struct Rect {
    pub x: Range,
    pub y: Range,
}

impl Rect {
    /// The extent of the rectangle along `axis`.
    pub open spec fn on(self, axis: Axis) -> Range {
        match axis {
            Axis::X => self.x,
            Axis::Y => self.y,
        }
    }

    pub open spec fn valid(self) -> bool {
        self.x.valid() && self.y.valid()
    }

    /// Two rectangles collide when their extents overlap along both axes.
    pub open spec fn collides(self, other: Rect) -> bool {
        self.x.overlaps(other.x) && self.y.overlaps(other.y)
    }

    pub fn new(xstart: i64, xend: i64, ystart: i64, yend: i64) -> (r: Rect)
        ensures
            r == (Rect { x: Range { start: xstart, end: xend }, y: Range { start: ystart, end: yend } }),
    {
        Rect { x: Range { start: xstart, end: xend }, y: Range { start: ystart, end: yend } }
    }

    pub fn get_range(&self, axis: Axis) -> (r: &Range)
        ensures
            *r == self.on(axis),
    {
        match axis {
            Axis::X => &self.x,
            Axis::Y => &self.y,
        }
    }

    /// The extent of the rectangle along `axis`, by value.
    pub fn on_axis(&self, axis: Axis) -> (r: Range)
        ensures
            r == self.on(axis),
    {
        match axis {
            Axis::X => self.x,
            Axis::Y => self.y,
        }
    }

    pub fn is_valid(&self) -> (r: bool)
        ensures
            r == self.valid(),
    {
        self.x.is_valid() && self.y.is_valid()
    }

    pub fn intersects_rect(&self, other: &Rect) -> (r: bool)
        ensures
            r == self.collides(*other),
    {
        self.x.intersects(&other.x) && self.y.intersects(&other.y)
    }
}

/// Shorthand constructor of a [`Rect`].
pub fn rect(xstart: i64, xend: i64, ystart: i64, yend: i64) -> (r: Rect)
    ensures
        r == (Rect { x: Range { start: xstart, end: xend }, y: Range { start: ystart, end: yend } }),
{
    Rect::new(xstart, xend, ystart, yend)
}

/// An element: a bounding box together with a payload that the tree never
/// looks at.
#[derive(Clone, Copy, Debug)]
pub struct BBox<T> {
    pub rect: Rect,
    pub inner: T,
}

impl<T> BBox<T> {
    pub fn new(rect: Rect, inner: T) -> (r: BBox<T>)
        ensures
            r == (BBox { rect, inner }),
    {
        BBox { rect, inner }
    }

    pub fn get(&self) -> (r: &Rect)
        ensures
            *r == self.rect,
    {
        &self.rect
    }
}

/// Shorthand constructor of a [`BBox`].
pub fn bbox<T>(rect: Rect, inner: T) -> (r: BBox<T>)
    ensures
        r == (BBox { rect, inner }),
{
    BBox::new(rect, inner)
}

/// Shorthand constructor of a [`BBox`] whose payload is borrowed.
pub fn bbox_mut<'a, T>(rect: Rect, inner: &'a mut T) -> (r: BBox<&'a mut T>)
    ensures
        r.rect == rect,
        *r.inner == *old(inner),
        *final(r.inner) == *final(inner),
{
    BBox { rect, inner }
}

/// The bounding boxes of a sequence of elements, in the same order.
pub open spec fn rects_of<T>(elems: Seq<BBox<T>>) -> Seq<Rect> {
    Seq::new(elems.len(), |i: int| elems[i].rect)
}

/// Every rectangle of the sequence is valid.
pub open spec fn all_valid(rects: Seq<Rect>) -> bool {
    forall|i: int| 0 <= i < rects.len() ==> (#[trigger] rects[i]).valid()
}

/// The elements at `lo..hi` come in non-decreasing order of their start
/// along `axis`.
pub open spec fn sorted_on(rects: Seq<Rect>, axis: Axis, lo: int, hi: int) -> bool {
    forall|i: int, j: int|
        lo <= i <= j < hi ==> (#[trigger] rects[i]).on(axis).start <= (#[trigger] rects[j]).on(axis).start
}

} // verus!
