use broccoli::geom::{bbox, rect, BBox};
use broccoli::laws::{keeper, node_axis};
use broccoli::tree::{Naive, NotSortedTree, SweepAndPrune, Tree};

fn names(elems: &[BBox<char>], pairs: &[(usize, usize)]) -> Vec<(char, char)> {
    let mut v: Vec<(char, char)> = pairs
        .iter()
        .map(|&(i, j)| {
            let (a, b) = (elems[i].inner, elems[j].inner);
            if a < b {
                (a, b)
            } else {
                (b, a)
            }
        })
        .collect();
    v.sort();
    v
}

fn three_boxes() -> Vec<BBox<char>> {
    vec![bbox(rect(0, 10, 0, 10), 'A'), bbox(rect(5, 15, 5, 15), 'B'), bbox(rect(15, 20, 15, 20), 'C')]
}

// B ends at 15 along both axes and C starts there: the two share the corner
// (15, 15). Ranges hold their ends, so B and C collide as A and B do.
#[test]
fn three_overlapping_boxes() {
    let tree = Tree::new(three_boxes());
    let pairs = tree.find_colliding_pairs();
    assert_eq!(names(tree.get_elements(), &pairs), vec![('A', 'B'), ('B', 'C')]);
    let naive = Naive::new(three_boxes());
    let pairs = naive.find_colliding_pairs();
    assert_eq!(names(naive.get_elements(), &pairs), vec![('A', 'B'), ('B', 'C')]);
}

#[test]
fn three_boxes_with_the_third_apart() {
    let bots = vec![bbox(rect(0, 10, 0, 10), 'A'), bbox(rect(5, 15, 5, 15), 'B'), bbox(rect(16, 20, 16, 20), 'C')];
    let tree = Tree::new(bots.clone());
    let pairs = tree.find_colliding_pairs();
    assert_eq!(names(tree.get_elements(), &pairs), vec![('A', 'B')]);
    let tree = NotSortedTree::new(bots.clone());
    let pairs = tree.find_colliding_pairs();
    assert_eq!(names(tree.get_elements(), &pairs), vec![('A', 'B')]);
    let sweep = SweepAndPrune::new(bots);
    let pairs = sweep.find_colliding_pairs();
    assert_eq!(names(sweep.get_elements(), &pairs), vec![('A', 'B')]);
}

// The counters of two partners go up by one for each pair. C touches B at the
// corner (15, 15) and overlaps A, so it is counted twice.
#[test]
fn mutation_through_the_protected_reference() {
    let bots = vec![
        bbox(rect(0, 10, 0, 10), (0usize, 0u32)),
        bbox(rect(15, 20, 15, 20), (1, 0)),
        bbox(rect(5, 15, 5, 15), (2, 0)),
    ];
    let mut tree = Tree::new(bots);
    for (i, j) in tree.find_colliding_pairs() {
        tree.get_mut(i).inner_mut().1 += 1;
        tree.get_mut(j).inner_mut().1 += 1;
    }
    let mut back = tree.into_inner();
    back.sort_by_key(|b| b.inner.0);
    let counters: Vec<u32> = back.iter().map(|b| b.inner.1).collect();
    assert_eq!(counters, vec![1, 1, 2]);
}

#[test]
fn mutation_with_the_second_box_apart() {
    let bots = vec![
        bbox(rect(0, 10, 0, 10), (0usize, 0u32)),
        bbox(rect(16, 20, 16, 20), (1, 0)),
        bbox(rect(5, 15, 5, 15), (2, 0)),
    ];
    let mut tree = Tree::new(bots);
    for (i, j) in tree.find_colliding_pairs() {
        tree.get_mut(i).inner_mut().1 += 1;
        tree.get_mut(j).inner_mut().1 += 1;
    }
    let mut back = tree.into_inner();
    back.sort_by_key(|b| b.inner.0);
    let counters: Vec<u32> = back.iter().map(|b| b.inner.1).collect();
    assert_eq!(counters, vec![1, 0, 1]);
}

#[test]
fn empty_tree() {
    let tree = Tree::new(Vec::<BBox<()>>::new());
    assert_eq!(tree.get_height(), 1);
    assert_eq!(tree.num_nodes(), 1);
    assert!(tree.find_colliding_pairs().is_empty());
    assert!(tree.par_find_colliding_pairs().is_empty());
    let tree = NotSortedTree::new(Vec::<BBox<()>>::new());
    assert!(tree.find_colliding_pairs().is_empty());
    assert!(Naive::new(Vec::<BBox<()>>::new()).find_colliding_pairs().is_empty());
    let sweep = SweepAndPrune::new(Vec::<BBox<()>>::new());
    assert!(sweep.find_colliding_pairs().is_empty());
    assert!(sweep.par_find_colliding_pairs().is_empty());
    let tree = Tree::with_height(Vec::<BBox<()>>::new(), 6);
    assert_eq!(tree.num_nodes(), 63);
    assert!(tree.find_colliding_pairs().is_empty());
}

fn spiral(n: usize) -> Vec<BBox<usize>> {
    let mut v = Vec::new();
    let mut theta: f64 = 0.0;
    for i in 0..n {
        let r = 17.0 + 0.2 * theta;
        let x = (r * theta.cos()).round() as i64;
        let y = (r * theta.sin()).round() as i64;
        v.push(bbox(rect(x - 5, x + 5, y - 5, y + 5), i));
        theta += 1.0 / r;
    }
    v
}

fn ids(elems: &[BBox<usize>], pairs: &[(usize, usize)]) -> Vec<(usize, usize)> {
    let mut v: Vec<(usize, usize)> = pairs
        .iter()
        .map(|&(i, j)| {
            let (a, b) = (elems[i].inner, elems[j].inner);
            if a < b {
                (a, b)
            } else {
                (b, a)
            }
        })
        .collect();
    v.sort();
    v
}

#[test]
fn density_stress_on_a_spiral() {
    let bots = spiral(10_000);
    let naive = Naive::new(bots.clone());
    let expected = ids(naive.get_elements(), &naive.find_colliding_pairs());
    assert!(expected.len() > 10_000);

    let tree = Tree::new(bots.clone());
    assert_eq!(ids(tree.get_elements(), &tree.find_colliding_pairs()), expected);

    let tree = Tree::par_new(bots.clone());
    assert_eq!(ids(tree.get_elements(), &tree.par_find_colliding_pairs()), expected);

    let sweep = SweepAndPrune::new(bots);
    assert_eq!(ids(sweep.get_elements(), &sweep.find_colliding_pairs()), expected);
    assert_eq!(ids(sweep.get_elements(), &sweep.par_find_colliding_pairs()), expected);
}

#[test]
fn every_element_is_kept_by_exactly_one_node() {
    let tree = Tree::new(spiral(3000));
    let nodes = tree.get_nodes();
    for e in 0..3000usize {
        let holders = nodes.iter().filter(|n| n.start <= e && e < n.end).count();
        assert_eq!(holders, 1);
    }
    let total: usize = nodes.iter().map(|n| n.end - n.start).sum();
    assert_eq!(total, 3000);
    let _ = (keeper, node_axis);
}

fn axis_of(height: usize, k: usize) -> broccoli::geom::Axis {
    // the depth of the node at index k in preorder
    let mut size = (1usize << height) - 1;
    let mut k = k;
    let mut axis = broccoli::geom::Axis::X;
    while k > 0 {
        size = (size - 1) / 2;
        k -= 1;
        if k >= size {
            k -= size;
        }
        axis = axis.next();
    }
    axis
}

#[test]
fn dividers_are_held_ranges_are_sorted_and_hulls_are_exact() {
    let tree = Tree::new(spiral(5000));
    let height = tree.get_height();
    let elems = tree.get_elements();
    let mut with_divider = 0;
    for (k, n) in tree.get_nodes().iter().enumerate() {
        let axis = axis_of(height, k);
        let kept = &elems[n.start..n.end];
        if let Some(d) = n.div {
            with_divider += 1;
            assert!(!kept.is_empty());
            assert!(kept.iter().all(|b| b.rect.get_range(axis).start <= d && d <= b.rect.get_range(axis).end));
            assert!(kept.iter().any(|b| b.rect.get_range(axis).start == d));
        }
        let perp = axis.next();
        assert!(kept.windows(2).all(|w| w[0].rect.get_range(perp).start <= w[1].rect.get_range(perp).start));
        if kept.is_empty() {
            assert_eq!((n.cont.start, n.cont.end), (0, 0));
        } else {
            let min = kept.iter().map(|b| b.rect.get_range(axis).start).min().unwrap();
            let max = kept.iter().map(|b| b.rect.get_range(axis).end).max().unwrap();
            assert_eq!((n.cont.start, n.cont.end), (min, max));
        }
    }
    assert!(with_divider > 0);
}

#[test]
fn subtrees_lie_on_their_side_of_the_divider() {
    let tree = Tree::new(spiral(5000));
    let elems = tree.get_elements();
    let (root, rest) = tree.vistr().next();
    let (left, right) = rest.unwrap();
    let d = root.div.unwrap();
    assert!(elems[left.lo..left.hi].iter().all(|b| b.rect.x.end < d));
    assert!(elems[right.lo..right.hi].iter().all(|b| b.rect.x.start > d));
    assert_eq!(root.num_elem, (left.hi - left.lo) + (right.hi - right.lo));
}

#[test]
fn building_again_gives_the_same_nodes() {
    let first = Tree::new(spiral(4000));
    let nodes = first.get_nodes().to_vec();
    let height = first.get_height();
    let second = Tree::new(first.into_inner());
    assert_eq!(second.get_height(), height);
    assert_eq!(second.get_nodes(), &nodes[..]);
    let third = Tree::par_new(second.into_inner());
    assert_eq!(third.get_nodes(), &nodes[..]);
    let mut shuffled = third.into_inner();
    shuffled.reverse();
    let fourth = Tree::new(shuffled);
    assert_eq!(fourth.get_nodes(), &nodes[..]);
}

#[test]
fn the_order_of_the_elements_does_not_change_what_is_found() {
    let bots = spiral(2000);
    let mut turned = bots.clone();
    turned.reverse();
    let a = Tree::new(bots);
    let b = Tree::new(turned);
    assert_eq!(
        ids(a.get_elements(), &a.find_colliding_pairs()),
        ids(b.get_elements(), &b.par_find_colliding_pairs())
    );
}
