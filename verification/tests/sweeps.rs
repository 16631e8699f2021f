use broccoli::active::{push_side, retain_side, slice_side, still_reaches};
use broccoli::geom::{bbox, rect, Axis, BBox};
use broccoli::oned::{
    find_2d, find_iter, find_iter_leave, find_iter_no_add, find_other_parallel3, find_par, find_perp_2d1_once,
    PAR_SWEEP_CUTOFF, PRUNE_PERIOD,
};
use broccoli::util::{sweeper_update, PreVec};
use twounordered::TwoUnorderedVecs;

fn sorted(mut v: Vec<(usize, usize)>) -> Vec<(usize, usize)> {
    v.sort();
    v
}

// The pairs as a sweep over one slice names them: the later position first.
fn later_first(v: Vec<(usize, usize)>) -> Vec<(usize, usize)> {
    let mut t: Vec<(usize, usize)> = v.into_iter().map(|(i, j)| (j, i)).collect();
    t.sort();
    t
}

fn brute_within(bots: &[BBox<usize>], axis: Axis, both: bool, lo: usize, hi: usize) -> Vec<(usize, usize)> {
    let mut out = Vec::new();
    for i in lo..hi {
        for j in (i + 1)..hi {
            let a = &bots[i].rect;
            let b = &bots[j].rect;
            let hit = a.get_range(axis).intersects(b.get_range(axis))
                && (!both || a.get_range(axis.next()).intersects(b.get_range(axis.next())));
            if hit {
                out.push((i, j));
            }
        }
    }
    out
}

fn brute_between(
    bots: &[BBox<usize>],
    axis: Axis,
    both: bool,
    first: (usize, usize),
    second: (usize, usize),
) -> Vec<(usize, usize)> {
    let mut out = Vec::new();
    for i in first.0..first.1 {
        for j in second.0..second.1 {
            let a = &bots[i].rect;
            let b = &bots[j].rect;
            let hit = a.get_range(axis).intersects(b.get_range(axis))
                && (!both || a.get_range(axis.next()).intersects(b.get_range(axis.next())));
            if hit {
                out.push((i, j));
            }
        }
    }
    out
}

struct Lcg(u64);

impl Lcg {
    fn next(&mut self, bound: i64) -> i64 {
        self.0 = self.0.wrapping_mul(6364136223846793005).wrapping_add(1442695040888963407);
        ((self.0 >> 33) % (bound as u64)) as i64
    }
}

fn random_bots(seed: u64, n: usize, span: i64, size: i64) -> Vec<BBox<usize>> {
    let mut g = Lcg(seed);
    let mut v = Vec::new();
    for i in 0..n {
        let x = g.next(span) - span / 2;
        let y = g.next(span) - span / 2;
        let w = g.next(size);
        let h = g.next(size);
        v.push(bbox(rect(x, x + w, y, y + h), i));
    }
    v
}

#[test]
fn find_iter_reports_overlaps_along_the_axis() {
    let mut bots = vec![
        bbox(rect(0, 10, 0, 1), 0usize),
        bbox(rect(5, 20, 50, 51), 1),
        bbox(rect(10, 40, 100, 101), 2),
        bbox(rect(41, 42, 0, 1), 3),
    ];
    sweeper_update(Axis::X, &mut bots);
    let mut active = vec![7, 7, 7];
    let mut out = vec![(9, 9)];
    find_iter(&mut active, Axis::X, &bots, 0, 4, false, &mut out);
    assert_eq!(out[0], (9, 9));
    assert_eq!(out[1..].to_vec(), vec![(1, 0), (2, 0), (2, 1)]);
    assert!(active.is_empty());
}

#[test]
fn find_iter_with_both_axes_reports_collisions_only() {
    let mut bots = vec![
        bbox(rect(0, 10, 0, 10), 0usize),
        bbox(rect(5, 20, 50, 51), 1),
        bbox(rect(10, 40, 10, 101), 2),
        bbox(rect(41, 42, 0, 1), 3),
    ];
    sweeper_update(Axis::X, &mut bots);
    let mut active = Vec::new();
    let mut out = Vec::new();
    find_iter(&mut active, Axis::X, &bots, 0, 4, true, &mut out);
    assert_eq!(sorted(out), vec![(2, 0), (2, 1)]);
    assert!(active.is_empty());
}

#[test]
fn find_iter_leave_keeps_the_elements_that_reach_the_last_start() {
    let mut bots = vec![
        bbox(rect(0, 100, 0, 1), 0usize),
        bbox(rect(1, 2, 0, 1), 1),
        bbox(rect(3, 50, 0, 1), 2),
        bbox(rect(50, 60, 0, 1), 3),
    ];
    sweeper_update(Axis::X, &mut bots);
    let mut active = Vec::new();
    let mut out = Vec::new();
    find_iter_leave(&mut active, Axis::X, &bots, 0, 4, false, &mut out);
    active.sort();
    assert_eq!(active, vec![0, 2, 3]);
    assert_eq!(sorted(out), vec![(1, 0), (2, 0), (3, 0), (3, 2)]);
}

#[test]
fn find_iter_on_a_part_of_the_slice() {
    let mut bots = random_bots(3, 40, 100, 30);
    bots[10..30].sort_by_key(|b| b.rect.y.start);
    let mut active = Vec::new();
    let mut out = Vec::new();
    find_iter(&mut active, Axis::Y, &bots, 10, 30, true, &mut out);
    assert_eq!(sorted(out), later_first(brute_within(&bots, Axis::Y, true, 10, 30)));
}

#[test]
fn find_iter_on_nothing() {
    let bots: Vec<BBox<usize>> = vec![];
    let mut active = vec![1];
    let mut out = Vec::new();
    find_iter(&mut active, Axis::X, &bots, 0, 0, true, &mut out);
    assert!(out.is_empty());
    assert!(active.is_empty());
}

#[test]
fn find_2d_matches_brute_force() {
    for seed in 0..20u64 {
        let mut bots = random_bots(seed, 60, 200, 40);
        sweeper_update(Axis::X, &mut bots);
        let mut prevec = PreVec::new();
        for both in [false, true] {
            let mut out = Vec::new();
            find_2d(&mut prevec, Axis::X, &bots, 0, bots.len(), both, &mut out);
            assert_eq!(sorted(out), later_first(brute_within(&bots, Axis::X, both, 0, bots.len())));
        }
    }
}

#[test]
fn find_2d_reports_no_pair_twice() {
    let mut bots = random_bots(77, 200, 100, 60);
    sweeper_update(Axis::Y, &mut bots);
    let mut prevec = PreVec::with_capacity(16);
    let mut out = Vec::new();
    find_2d(&mut prevec, Axis::Y, &bots, 0, bots.len(), true, &mut out);
    let n = out.len();
    let mut s = sorted(out);
    s.dedup();
    assert_eq!(s.len(), n);
    assert!(s.iter().all(|p| p.0 > p.1));
}

#[test]
fn find_perp_once_stops_at_the_first_later_start() {
    let mut bots = vec![
        bbox(rect(0, 1, 0, 1), 0usize),
        bbox(rect(2, 5, 0, 1), 1),
        bbox(rect(4, 9, 0, 1), 2),
        bbox(rect(10, 12, 0, 1), 3),
        bbox(rect(11, 30, 0, 1), 4),
        bbox(rect(3, 10, 7, 8), 5),
    ];
    bots[0..5].sort_by_key(|b| b.rect.x.start);
    let mut out = Vec::new();
    find_perp_2d1_once(Axis::X, 5, &bots, 0, 5, false, &mut out);
    assert_eq!(out, vec![(5, 1), (5, 2), (5, 3)]);
    let mut out = Vec::new();
    find_perp_2d1_once(Axis::X, 5, &bots, 0, 5, true, &mut out);
    assert!(out.is_empty());
}

#[test]
fn find_perp_once_matches_brute_force() {
    for seed in 0..10u64 {
        let mut bots = random_bots(seed + 100, 50, 100, 30);
        bots[1..50].sort_by_key(|b| b.rect.y.start);
        for both in [false, true] {
            let mut out = Vec::new();
            find_perp_2d1_once(Axis::Y, 0, &bots, 1, 50, both, &mut out);
            assert_eq!(sorted(out), brute_between(&bots, Axis::Y, both, (0, 1), (1, 50)));
        }
    }
}

#[test]
fn sweep_over_two_slices_finds_the_pairs_between_them() {
    let mut bots = vec![
        bbox(rect(0, 10, 0, 10), 0usize),
        bbox(rect(5, 20, 0, 10), 1),
        bbox(rect(10, 40, 0, 10), 2),
        bbox(rect(1, 2, 0, 10), 3),
        bbox(rect(-5, -4, 0, 10), 4),
        bbox(rect(2, 3, 0, 10), 5),
        bbox(rect(-5, -4, 0, 10), 6),
        bbox(rect(3, 4, 0, 10), 7),
        bbox(rect(-5, -4, 0, 10), 8),
        bbox(rect(4, 5, 0, 10), 9),
        bbox(rect(-5, -4, 0, 10), 10),
        bbox(rect(5, 6, 0, 10), 11),
        bbox(rect(-5, -4, 0, 10), 12),
        bbox(rect(6, 7, 0, 10), 13),
    ];
    bots[0..3].sort_by_key(|b| b.rect.x.start);
    bots[3..14].sort_by_key(|b| b.rect.x.start);
    let mut lists = TwoUnorderedVecs::new();
    let mut out = Vec::new();
    find_other_parallel3(&mut lists, Axis::X, &bots, (0, 3), (3, 14), true, &mut out);
    let expected = brute_between(&bots, Axis::X, true, (0, 3), (3, 14));
    assert_eq!(expected.len(), 9);
    assert_eq!(sorted(out), expected);

    let mut out = Vec::new();
    find_other_parallel3(&mut lists, Axis::X, &bots, (3, 14), (0, 3), true, &mut out);
    let mut there = brute_between(&bots, Axis::X, true, (3, 14), (0, 3));
    there.sort();
    assert_eq!(sorted(out), there);
}

#[test]
fn sweep_over_two_slices_matches_brute_force() {
    for seed in 0..30u64 {
        let mut bots = random_bots(seed + 500, 90, 150, 40);
        let cut = 20 + (seed as usize % 50);
        bots[0..cut].sort_by_key(|b| b.rect.x.start);
        bots[cut..90].sort_by_key(|b| b.rect.x.start);
        let mut lists = TwoUnorderedVecs::new();
        for both in [false, true] {
            let mut out = Vec::new();
            find_other_parallel3(&mut lists, Axis::X, &bots, (0, cut), (cut, 90), both, &mut out);
            let n = out.len();
            let got = sorted(out);
            assert_eq!(got, brute_between(&bots, Axis::X, both, (0, cut), (cut, 90)));
            let mut unique = got.clone();
            unique.dedup();
            assert_eq!(unique.len(), n);
        }
    }
}

#[test]
fn sweep_over_two_slices_with_long_runs_from_one_side() {
    // Many more than PRUNE_PERIOD elements in a row from the first slice,
    // most of them short, then elements of the second slice.
    let run = 3 * PRUNE_PERIOD as i64;
    let mut bots = Vec::new();
    for i in 0..run {
        let len = if i % 50 == 0 { 10 * run } else { 1 };
        bots.push(bbox(rect(2 * i, 2 * i + len, 0, 10), i as usize));
    }
    let first = bots.len();
    for i in 0..run {
        bots.push(bbox(rect(2 * run + 5 * i, 2 * run + 5 * i + 3, 5, 6), first + i as usize));
    }
    let n = bots.len();
    let mut lists = TwoUnorderedVecs::new();
    let mut out = Vec::new();
    find_other_parallel3(&mut lists, Axis::X, &bots, (0, first), (first, n), true, &mut out);
    assert_eq!(sorted(out), brute_between(&bots, Axis::X, true, (0, first), (first, n)));
    let mut out = Vec::new();
    find_other_parallel3(&mut lists, Axis::X, &bots, (first, n), (0, first), true, &mut out);
    assert_eq!(sorted(out), sorted(brute_between(&bots, Axis::X, true, (first, n), (0, first))));
}

#[test]
fn sweep_over_two_slices_when_one_is_empty() {
    let mut bots = random_bots(1, 10, 50, 20);
    sweeper_update(Axis::X, &mut bots);
    let mut lists = TwoUnorderedVecs::new();
    let mut out = Vec::new();
    find_other_parallel3(&mut lists, Axis::X, &bots, (0, 10), (10, 10), true, &mut out);
    assert!(out.is_empty());
    find_other_parallel3(&mut lists, Axis::X, &bots, (0, 0), (0, 10), true, &mut out);
    assert!(out.is_empty());
}

#[test]
fn find_iter_no_add_continues_a_sweep() {
    let mut bots = random_bots(9, 80, 150, 50);
    sweeper_update(Axis::X, &mut bots);
    let mut active = Vec::new();
    let mut out = Vec::new();
    find_iter_leave(&mut active, Axis::X, &bots, 0, 30, true, &mut out);
    assert_eq!(sorted(out), later_first(brute_within(&bots, Axis::X, true, 0, 30)));
    let mut out = Vec::new();
    find_iter_no_add(&mut active, Axis::X, &bots, 0, 30, 80, true, &mut out);
    assert_eq!(sorted(out), later_first(brute_between(&bots, Axis::X, true, (0, 30), (30, 80))));
    let last = bots[79].rect.x.start;
    let mut expected: Vec<usize> = (0..30).filter(|&i| bots[i].rect.x.end >= last).collect();
    expected.sort();
    active.sort();
    assert_eq!(active, expected);
}

#[test]
fn find_par_below_the_cutoff_is_one_sweep() {
    let mut bots = random_bots(5, 300, 400, 50);
    sweeper_update(Axis::X, &mut bots);
    let (active, out) = find_par(Axis::X, &bots, 0, bots.len(), true);
    assert_eq!(sorted(out), later_first(brute_within(&bots, Axis::X, true, 0, bots.len())));
    let last = bots[299].rect.x.start;
    let expected: Vec<usize> = (0..300).filter(|&i| bots[i].rect.x.end >= last).collect();
    let mut active = active;
    active.sort();
    assert_eq!(active, expected);
}

#[test]
fn find_par_above_the_cutoff_halves_the_slice() {
    let n = 2 * PAR_SWEEP_CUTOFF + 123;
    let mut bots = random_bots(6, n, 20_000, 60);
    sweeper_update(Axis::X, &mut bots);
    let (active, out) = find_par(Axis::X, &bots, 0, n, true);
    let mut prevec = PreVec::new();
    let mut expected = Vec::new();
    find_2d(&mut prevec, Axis::X, &bots, 0, n, true, &mut expected);
    assert_eq!(sorted(out), sorted(expected));
    let last = bots[n - 1].rect.x.start;
    let still: Vec<usize> = (0..n).filter(|&i| bots[i].rect.x.end >= last).collect();
    let mut active = active;
    active.sort();
    assert_eq!(active, still);
}

#[test]
fn the_builder_of_a_sweep_over_two_slices() {
    let mut bots = random_bots(44, 60, 100, 30);
    bots[0..25].sort_by_key(|b| b.rect.y.start);
    bots[25..60].sort_by_key(|b| b.rect.y.start);
    let mut lists = TwoUnorderedVecs::new();
    let mut out = Vec::new();
    let b = broccoli::oned::FindParallel2DBuilder::new(&mut lists, Axis::Y, &bots, (0, 25), (25, 60));
    assert_eq!((b.axis, b.bots1, b.bots2), (Axis::Y, (0, 25), (25, 60)));
    b.build(&mut out);
    assert_eq!(sorted(out), brute_between(&bots, Axis::Y, false, (0, 25), (25, 60)));
}

#[test]
fn the_two_active_lists() {
    let bots = vec![
        bbox(rect(0, 10, 0, 1), 0usize),
        bbox(rect(0, 20, 0, 5), 1),
        bbox(rect(0, 30, 0, 9), 2),
        bbox(rect(0, 5, 0, 30), 3),
    ];
    assert!(still_reaches(&bots, Axis::X, 0, 10));
    assert!(!still_reaches(&bots, Axis::X, 0, 11));
    assert!(still_reaches(&bots, Axis::Y, 3, 30));
    assert!(!still_reaches(&bots, Axis::Y, 2, 10));
    assert!(!still_reaches(&bots, Axis::X, 4, 0));

    let mut lists = TwoUnorderedVecs::new();
    assert!(slice_side(&lists, true).is_empty());
    assert!(slice_side(&lists, false).is_empty());
    for k in 0..4 {
        push_side(&mut lists, true, k);
    }
    for k in [1, 3] {
        push_side(&mut lists, false, k);
    }
    let mut first = slice_side(&lists, true).to_vec();
    first.sort();
    assert_eq!(first, vec![0, 1, 2, 3]);
    let mut second = slice_side(&lists, false).to_vec();
    second.sort();
    assert_eq!(second, vec![1, 3]);

    retain_side(&mut lists, true, &bots, Axis::X, 15);
    let mut first = slice_side(&lists, true).to_vec();
    first.sort();
    assert_eq!(first, vec![1, 2]);
    let mut second = slice_side(&lists, false).to_vec();
    second.sort();
    assert_eq!(second, vec![1, 3]);

    retain_side(&mut lists, false, &bots, Axis::Y, 6);
    let mut first = slice_side(&lists, true).to_vec();
    first.sort();
    assert_eq!(first, vec![1, 2]);
    assert_eq!(slice_side(&lists, false).to_vec(), vec![3]);

    push_side(&mut lists, true, 0);
    let mut first = slice_side(&lists, true).to_vec();
    first.sort();
    assert_eq!(first, vec![0, 1, 2]);
    assert_eq!(slice_side(&lists, false).to_vec(), vec![3]);
    retain_side(&mut lists, true, &bots, Axis::X, 100);
    assert!(slice_side(&lists, true).is_empty());
    assert_eq!(slice_side(&lists, false).to_vec(), vec![3]);
}

#[test]
fn find_2d_names_the_later_element_first() {
    let bots = vec![bbox(rect(0, 10, 0, 1), 0usize), bbox(rect(5, 15, 5, 6), 1)];
    let mut prevec = PreVec::new();
    let mut out = Vec::new();
    find_2d(&mut prevec, Axis::X, &bots, 0, 2, false, &mut out);
    assert_eq!(out, vec![(1, 0)]);
    let mut out = Vec::new();
    find_2d(&mut prevec, Axis::X, &bots, 0, 2, true, &mut out);
    assert!(out.is_empty());
}

#[test]
fn find_perp_once_reports_in_the_order_of_the_slice() {
    let bots = vec![
        bbox(rect(5, 10, 0, 10), 0usize),
        bbox(rect(0, 6, 0, 10), 1),
        bbox(rect(7, 8, 0, 10), 2),
        bbox(rect(11, 12, 0, 10), 3),
        bbox(rect(12, 13, 0, 10), 4),
    ];
    let mut out = Vec::new();
    find_perp_2d1_once(Axis::X, 0, &bots, 1, 5, true, &mut out);
    assert_eq!(out, vec![(0, 1), (0, 2)]);
}

#[test]
fn find_perp_once_passes_over_what_ends_before_the_anchor() {
    let bots = vec![
        bbox(rect(5, 10, 0, 10), 0usize),
        bbox(rect(0, 4, 0, 10), 1),
        bbox(rect(1, 6, 0, 10), 2),
        bbox(rect(2, 3, 0, 10), 3),
        bbox(rect(10, 11, 0, 10), 4),
    ];
    let mut out = Vec::new();
    find_perp_2d1_once(Axis::X, 0, &bots, 1, 5, false, &mut out);
    assert_eq!(out, vec![(0, 2), (0, 4)]);
}

#[test]
fn turning_pairs() {
    let mut out = vec![(0, 1), (2, 3), (4, 5), (6, 1)];
    broccoli::pairs::turn_from(&mut out, 2);
    assert_eq!(out, vec![(0, 1), (2, 3), (5, 4), (1, 6)]);
    broccoli::pairs::turn_from(&mut out, 4);
    assert_eq!(out, vec![(0, 1), (2, 3), (5, 4), (1, 6)]);
    broccoli::pairs::turn_from(&mut out, 0);
    assert_eq!(out, vec![(1, 0), (3, 2), (4, 5), (6, 1)]);
}
