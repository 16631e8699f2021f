use broccoli::geom::{bbox, default_axis, rect, Axis, BBox, Range, Rect, Side};
use broccoli::pmut::{PMut, PMutSlice};
use broccoli::util::{compare_bots, compare_starts, is_sorted_by, sweeper_update, PreVec};
use std::cmp::Ordering;

#[test]
fn axis_next_alternates() {
    assert_eq!(Axis::X.next(), Axis::Y);
    assert_eq!(Axis::Y.next(), Axis::X);
    assert_eq!(Axis::X.next().next(), Axis::X);
    assert!(Axis::X.is_xaxis());
    assert!(!Axis::Y.is_xaxis());
    assert!(Axis::Y.is_equal_to(Axis::Y));
    assert!(!Axis::Y.is_equal_to(Axis::X));
    assert_eq!(default_axis(), Axis::X);
}

#[test]
fn ranges_that_share_a_point_intersect() {
    let a = Range::new(0, 5);
    let b = Range::new(5, 6);
    assert!(a.intersects(&b));
    assert!(b.intersects(&a));
    assert!(a.contains(0));
    assert!(a.contains(5));
    assert!(b.contains(5));
    assert!(b.contains(6));
    assert!(!a.contains(6));
    assert!(!a.contains(-1));
}

#[test]
fn ranges_apart_do_not_intersect() {
    let a = Range::new(0, 4);
    let b = Range::new(5, 6);
    assert!(!a.intersects(&b));
    assert!(!b.intersects(&a));
    let c = Range::new(-10, -1);
    assert!(!a.intersects(&c));
}

#[test]
fn range_contains_range() {
    let a = Range::new(0, 5);
    assert!(a.contains_range(&Range::new(0, 5)));
    assert!(a.contains_range(&Range::new(1, 4)));
    assert!(!a.contains_range(&Range::new(-1, 4)));
    assert!(!a.contains_range(&Range::new(1, 6)));
}

#[test]
fn contains_ext_tells_the_side() {
    let a = Range::new(3, 7);
    assert_eq!(a.contains_ext(2), Side::Below);
    assert_eq!(a.contains_ext(3), Side::Inside);
    assert_eq!(a.contains_ext(5), Side::Inside);
    assert_eq!(a.contains_ext(7), Side::Inside);
    assert_eq!(a.contains_ext(8), Side::Above);
}

#[test]
fn range_validity() {
    assert!(Range::new(1, 1).is_valid());
    assert!(Range::new(1, 2).is_valid());
    assert!(!Range::new(2, 1).is_valid());
    assert!(rect(0, 1, 0, 1).is_valid());
    assert!(!rect(0, 1, 3, 1).is_valid());
    assert!(!rect(2, 1, 0, 1).is_valid());
}

#[test]
fn rect_constructor_and_ranges() {
    let r = rect(1, 2, 3, 4);
    assert_eq!(r, Rect { x: Range { start: 1, end: 2 }, y: Range { start: 3, end: 4 } });
    assert_eq!(r, Rect::new(1, 2, 3, 4));
    assert_eq!(*r.get_range(Axis::X), Range { start: 1, end: 2 });
    assert_eq!(*r.get_range(Axis::Y), Range { start: 3, end: 4 });
    assert_eq!(r.on_axis(Axis::X), Range { start: 1, end: 2 });
    assert_eq!(r.on_axis(Axis::Y), Range { start: 3, end: 4 });
}

#[test]
fn rects_collide_only_if_both_axes_overlap() {
    let a = rect(0, 10, 0, 10);
    assert!(a.intersects_rect(&rect(5, 15, 5, 15)));
    assert!(a.intersects_rect(&rect(10, 15, 10, 15)));
    assert!(!a.intersects_rect(&rect(11, 15, 5, 15)));
    assert!(!a.intersects_rect(&rect(5, 15, 11, 15)));
    assert!(!a.intersects_rect(&rect(11, 15, 11, 15)));
    assert!(a.intersects_rect(&rect(-5, 0, -5, 0)));
    assert!(a.intersects_rect(&rect(3, 4, 3, 4)));
    assert!(rect(3, 4, 3, 4).intersects_rect(&a));
}

#[test]
fn bbox_constructor() {
    let b = bbox(rect(0, 1, 2, 3), 7u8);
    assert_eq!(b.rect, rect(0, 1, 2, 3));
    assert_eq!(b.inner, 7);
    assert_eq!(*b.get(), rect(0, 1, 2, 3));
    let c = BBox::new(rect(0, 1, 2, 3), "x");
    assert_eq!(c.inner, "x");
}

#[test]
fn compare_bots_tells_whether_the_first_starts_later() {
    let a = bbox(rect(0, 10, 5, 6), ());
    let b = bbox(rect(1, 2, 0, 1), ());
    assert_eq!(compare_bots(Axis::X, &a, &b), Ordering::Less);
    assert_eq!(compare_bots(Axis::X, &b, &a), Ordering::Greater);
    assert_eq!(compare_bots(Axis::Y, &a, &b), Ordering::Greater);
    assert_eq!(compare_bots(Axis::Y, &b, &a), Ordering::Less);
    assert_eq!(compare_bots(Axis::X, &a, &a), Ordering::Less);
    let c = bbox(rect(0, 3, 9, 9), ());
    assert_eq!(compare_bots(Axis::X, &a, &c), Ordering::Less);
    assert_eq!(compare_bots(Axis::X, &c, &a), Ordering::Less);
    let d = bbox(rect(0, 5, 3, 4), ());
    assert_eq!(compare_bots(Axis::X, &bbox(rect(0, 10, 0, 10), ()), &d), Ordering::Less);
}

#[test]
fn compare_starts_is_a_three_way_order() {
    let a = bbox(rect(0, 10, 5, 6), ());
    let b = bbox(rect(1, 2, 0, 1), ());
    assert_eq!(compare_starts(Axis::X, &a, &b), Ordering::Less);
    assert_eq!(compare_starts(Axis::X, &b, &a), Ordering::Greater);
    assert_eq!(compare_starts(Axis::Y, &a, &b), Ordering::Greater);
    assert_eq!(compare_starts(Axis::Y, &b, &a), Ordering::Less);
    assert_eq!(compare_starts(Axis::X, &a, &a), Ordering::Equal);
    let c = bbox(rect(0, 3, 9, 9), ());
    assert_eq!(compare_starts(Axis::X, &a, &c), Ordering::Equal);
    assert_eq!(compare_starts(Axis::X, &c, &a), Ordering::Equal);
}

#[test]
fn sweeper_update_sorts_by_start() {
    let mut bots = vec![
        bbox(rect(5, 6, 0, 1), 0),
        bbox(rect(-3, 9, 7, 8), 1),
        bbox(rect(2, 2, 3, 4), 2),
        bbox(rect(0, 1, -1, 1), 3),
    ];
    sweeper_update(Axis::X, &mut bots);
    let ids: Vec<i32> = bots.iter().map(|b| b.inner).collect();
    assert_eq!(ids, vec![1, 3, 2, 0]);
    assert!(is_sorted_by(&bots, Axis::X));
    assert!(!is_sorted_by(&bots, Axis::Y));
    sweeper_update(Axis::Y, &mut bots);
    let ids: Vec<i32> = bots.iter().map(|b| b.inner).collect();
    assert_eq!(ids, vec![3, 0, 2, 1]);
    assert!(is_sorted_by(&bots, Axis::Y));
}

#[test]
fn is_sorted_by_on_short_and_equal_runs() {
    let none: Vec<BBox<()>> = vec![];
    assert!(is_sorted_by(&none, Axis::X));
    let one = vec![bbox(rect(5, 6, 0, 1), ())];
    assert!(is_sorted_by(&one, Axis::X));
    let same = vec![bbox(rect(5, 6, 0, 1), ()), bbox(rect(5, 9, 2, 3), ()), bbox(rect(5, 5, 1, 1), ())];
    assert!(is_sorted_by(&same, Axis::X));
    let last_low = vec![bbox(rect(1, 6, 0, 1), ()), bbox(rect(2, 9, 2, 3), ()), bbox(rect(0, 5, 1, 1), ())];
    assert!(!is_sorted_by(&last_low, Axis::X));
}

#[test]
fn prevec_hands_out_an_empty_buffer() {
    let mut p = PreVec::new();
    let v = p.extract_vec();
    assert!(v.is_empty());
    let mut used = vec![1, 2, 3];
    used.clear();
    p.insert_vec(used);
    let v = p.extract_vec();
    assert!(v.is_empty());
    assert!(v.capacity() >= 3);
    let mut q = PreVec::with_capacity(64);
    let v = q.extract_vec();
    assert!(v.is_empty());
    assert!(v.capacity() >= 64);
}

#[test]
fn pmut_reads_the_rect_and_writes_the_payload() {
    let mut b = bbox(rect(0, 1, 2, 3), 10);
    {
        let mut p = PMut::new(&mut b);
        assert_eq!(*p.rect(), rect(0, 1, 2, 3));
        assert_eq!(*p.get(), rect(0, 1, 2, 3));
        assert_eq!(*p.inner(), 10);
        *p.inner_mut() += 1;
        assert_eq!(*p.inner(), 11);
        let (r, i) = p.as_ref();
        assert_eq!(*r, rect(0, 1, 2, 3));
        assert_eq!(*i, 11);
        {
            let mut q = p.as_mut();
            *q.inner_mut() += 1;
        }
        assert_eq!(*p.inner(), 12);
        let (r, i) = p.unpack();
        assert_eq!(*r, rect(0, 1, 2, 3));
        *i += 1;
    }
    assert_eq!(b.inner, 13);
    assert_eq!(b.rect, rect(0, 1, 2, 3));
    *PMut::new(&mut b).unpack_inner() = 20;
    assert_eq!(b.inner, 20);
    *PMut::new(&mut b).into_inner() = 21;
    assert_eq!(b.inner, 21);
}

#[test]
fn pmut_payloads_can_be_exchanged() {
    let mut a = bbox(rect(0, 1, 0, 1), 1);
    let mut b = bbox(rect(5, 6, 5, 6), 2);
    std::mem::swap(PMut::new(&mut a).unpack_inner(), PMut::new(&mut b).unpack_inner());
    assert_eq!(a.inner, 2);
    assert_eq!(b.inner, 1);
    assert_eq!(a.rect, rect(0, 1, 0, 1));
    assert_eq!(b.rect, rect(5, 6, 5, 6));
}

#[test]
fn bbox_mut_borrows_the_payload() {
    let mut counter = 3;
    {
        let b = broccoli::geom::bbox_mut(rect(0, 1, 2, 3), &mut counter);
        assert_eq!(b.rect, rect(0, 1, 2, 3));
        *b.inner += 1;
    }
    assert_eq!(counter, 4);
}

#[test]
fn a_protected_run_of_elements() {
    let mut bots = vec![
        bbox(rect(0, 1, 0, 1), 10),
        bbox(rect(2, 3, 2, 3), 20),
        bbox(rect(4, 5, 4, 5), 30),
        bbox(rect(6, 7, 6, 7), 40),
    ];
    {
        let mut run = PMutSlice::new(&mut bots);
        assert_eq!(run.len(), 4);
        assert!(!run.is_empty());
        assert_eq!(run.as_slice()[2].inner, 30);
        {
            let mut p = run.get_index_mut(1);
            assert_eq!(*p.rect(), rect(2, 3, 2, 3));
            *p.inner_mut() += 1;
        }
        let (mut first, rest) = run.split_first_mut().unwrap();
        assert_eq!(*first.rect(), rect(0, 1, 0, 1));
        *first.inner_mut() += 1;
        assert_eq!(rest.len(), 3);
        let mut middle = rest.truncate(1, 3);
        assert_eq!(middle.len(), 2);
        *middle.get_index_mut(0).inner_mut() += 1;
        let mut last = middle.truncate_from(1);
        assert_eq!(last.len(), 1);
        *last.get_index_mut(0).inner_mut() += 1;
        let none = last.truncate_to(0);
        assert!(none.is_empty());
        assert!(none.split_first_mut().is_none());
    }
    let payloads: Vec<i32> = bots.iter().map(|b| b.inner).collect();
    assert_eq!(payloads, vec![11, 21, 31, 41]);
    {
        let head = PMutSlice::new(&mut bots).truncate_to(2);
        let seen: Vec<i32> = head.iter().iter().map(|b| b.inner).collect();
        assert_eq!(seen, vec![11, 21]);
    }
    for mut p in PMutSlice::new(&mut bots).iter_mut() {
        *p.inner_mut() *= 2;
    }
    let payloads: Vec<i32> = bots.iter().map(|b| b.inner).collect();
    assert_eq!(payloads, vec![22, 42, 62, 82]);
    assert_eq!(bots[3].rect, rect(6, 7, 6, 7));
}
