use broccoli::builder::{
    bin_middle_left_right, build_subtree, build_subtree_par, construct_non_leaf, create_cont, finish_node,
    split_node, DefaultSorter, NoSorter, Sorter,
};
use broccoli::checks::{
    check_divided, check_hull, check_median, check_sorted, check_subtree, check_valid, size_within,
    tree_invariants_hold,
};
use broccoli::geom::{bbox, rect, Axis, BBox, Range};
use broccoli::node::Node;
use broccoli::num_level;
use broccoli::tree::{assert_tree_invariants, build_tree, build_tree_par, NotSortedTree, Tree};

struct Gen(u64);

impl Gen {
    fn below(&mut self, bound: i64) -> i64 {
        self.0 = self.0.wrapping_mul(6364136223846793005).wrapping_add(1442695040888963407);
        ((self.0 >> 33) % (bound as u64)) as i64
    }
}

fn scatter(seed: u64, n: usize, span: i64, size: i64) -> Vec<BBox<usize>> {
    let mut g = Gen(seed);
    let mut v = Vec::new();
    for i in 0..n {
        let x = g.below(span) - span / 2;
        let y = g.below(span) - span / 2;
        let w = g.below(size);
        let h = g.below(size);
        v.push(bbox(rect(x, x + w, y, y + h), i));
    }
    v
}

fn ids(bots: &[BBox<usize>]) -> Vec<usize> {
    let mut v: Vec<usize> = bots.iter().map(|b| b.inner).collect();
    v.sort();
    v
}

#[test]
fn height_is_one_up_to_a_leaf_full() {
    assert_eq!(num_level::default(0), 1);
    assert_eq!(num_level::default(1), 1);
    assert_eq!(num_level::default(32), 1);
    assert_eq!(num_level::DEFAULT_NUMBER_ELEM_PER_NODE, 32);
}

#[test]
fn height_follows_the_formula() {
    // 33 / 32 = 1, log 0, height 1
    assert_eq!(num_level::default(33), 1);
    // 64 / 32 = 2, log 1, halved and doubled 0, height 1
    assert_eq!(num_level::default(64), 1);
    // 128 / 32 = 4, log 2, height 3
    assert_eq!(num_level::default(128), 3);
    assert_eq!(num_level::default(511), 3);
    // 512 / 32 = 16, log 4, height 5
    assert_eq!(num_level::default(512), 5);
    // 10000 / 32 = 312, log 8, height 9
    assert_eq!(num_level::default(10_000), 9);
    assert_eq!(num_level::with_num_elem_in_leaf(10_000, 32), 9);
    // 10000 / 1 = 10000, log 13, height 13
    assert_eq!(num_level::with_num_elem_in_leaf(10_000, 1), 13);
    assert_eq!(num_level::with_num_elem_in_leaf(5, 10), 1);
    assert_eq!(num_level::compute_tree_height_heuristic(1000, 10), 7);
}

#[test]
fn height_is_always_odd() {
    for n in 0..5000usize {
        assert_eq!(num_level::default(n) % 2, 1);
        assert_eq!(num_level::with_num_elem_in_leaf(n, 3) % 2, 1);
    }
}

#[test]
fn log_2_rounds_down() {
    assert_eq!(num_level::log_2(1), 0);
    assert_eq!(num_level::log_2(2), 1);
    assert_eq!(num_level::log_2(3), 1);
    assert_eq!(num_level::log_2(4), 2);
    assert_eq!(num_level::log_2(1023), 9);
    assert_eq!(num_level::log_2(1024), 10);
    assert_eq!(num_level::log_2(u64::MAX), 63);
}

#[test]
fn num_nodes_is_two_to_the_height_less_one() {
    assert_eq!(num_level::num_nodes(0), 0);
    assert_eq!(num_level::num_nodes(1), 1);
    assert_eq!(num_level::num_nodes(2), 3);
    assert_eq!(num_level::num_nodes(3), 7);
    assert_eq!(num_level::num_nodes(10), 1023);
}

#[test]
fn size_within_limits() {
    assert_eq!(size_within(3, 7), Some(7));
    assert_eq!(size_within(3, 100), Some(7));
    assert_eq!(size_within(3, 6), None);
    assert_eq!(size_within(0, 0), Some(0));
    assert_eq!(size_within(1, 0), None);
    assert_eq!(size_within(200, usize::MAX), None);
}

#[test]
fn create_cont_is_the_hull() {
    let bots = vec![bbox(rect(3, 9, 100, 101), ()), bbox(rect(-2, 4, 50, 200), ()), bbox(rect(0, 8, 0, 1), ())];
    assert_eq!(create_cont(Axis::X, &bots), Range { start: -2, end: 9 });
    assert_eq!(create_cont(Axis::Y, &bots), Range { start: 0, end: 200 });
    let none: Vec<BBox<()>> = vec![];
    assert_eq!(create_cont(Axis::X, &none), Range { start: 0, end: 0 });
    let one = vec![bbox(rect(3, 9, 100, 101), ())];
    assert_eq!(create_cont(Axis::X, &one), Range { start: 3, end: 9 });
}

#[test]
fn binning_puts_touching_elements_in_the_middle() {
    let mut bots = vec![
        bbox(rect(0, 4, 0, 1), 0usize),
        bbox(rect(6, 9, 0, 1), 1),
        bbox(rect(5, 9, 0, 1), 2),
        bbox(rect(0, 5, 0, 1), 3),
        bbox(rect(2, 8, 0, 1), 4),
        bbox(rect(5, 5, 0, 1), 5),
        bbox(rect(-9, -1, 0, 1), 6),
    ];
    let (m, l) = bin_middle_left_right(Axis::X, 5, &mut bots);
    assert_eq!((m, l), (4, 2));
    assert_eq!(ids(&bots[0..4]), vec![2, 3, 4, 5]);
    assert_eq!(ids(&bots[4..6]), vec![0, 6]);
    assert_eq!(ids(&bots[6..7]), vec![1]);
    assert!(check_divided(&bots, Axis::X, 0, 4, 6, 7, 5));
    assert!(!check_divided(&bots, Axis::X, 0, 5, 6, 7, 5));
    assert!(!check_divided(&bots, Axis::X, 0, 4, 7, 7, 5));
    assert!(!check_divided(&bots, Axis::X, 0, 4, 6, 7, 6));
}

#[test]
fn construct_non_leaf_on_nothing() {
    let r = construct_non_leaf(Axis::X, Vec::<BBox<()>>::new());
    assert!(r.div.is_none());
    assert!(r.mid.is_empty());
    assert!(r.left.is_empty());
    assert!(r.right.is_empty());
}

#[test]
fn construct_non_leaf_divides_at_the_median_start() {
    let bots = vec![
        bbox(rect(10, 11, 0, 1), 0usize),
        bbox(rect(30, 31, 0, 1), 1),
        bbox(rect(20, 21, 0, 1), 2),
        bbox(rect(50, 51, 0, 1), 3),
        bbox(rect(40, 41, 0, 1), 4),
        bbox(rect(25, 35, 0, 1), 5),
    ];
    // the starts in order: 10 20 25 30 40 50; at index 6 / 2: 30
    let r = construct_non_leaf(Axis::X, bots);
    assert_eq!(r.div, Some(30));
    assert_eq!(ids(&r.mid), vec![1, 5]);
    assert_eq!(ids(&r.left), vec![0, 2]);
    assert_eq!(ids(&r.right), vec![3, 4]);
}

#[test]
fn construct_non_leaf_with_equal_starts() {
    let bots = vec![
        bbox(rect(7, 8, 0, 1), 0usize),
        bbox(rect(7, 9, 5, 6), 1),
        bbox(rect(7, 7, 2, 3), 2),
        bbox(rect(7, 20, 1, 1), 3),
    ];
    let r = construct_non_leaf(Axis::X, bots);
    assert_eq!(r.div, Some(7));
    assert_eq!(ids(&r.mid), vec![0, 1, 2, 3]);
    assert!(r.left.is_empty());
    assert!(r.right.is_empty());
}

#[test]
fn construct_non_leaf_along_y() {
    let bots = vec![bbox(rect(0, 1, 5, 6), 0usize), bbox(rect(0, 1, 1, 2), 1), bbox(rect(0, 1, 9, 12), 2)];
    let r = construct_non_leaf(Axis::Y, bots);
    assert_eq!(r.div, Some(5));
    assert_eq!(ids(&r.mid), vec![0]);
    assert_eq!(ids(&r.left), vec![1]);
    assert_eq!(ids(&r.right), vec![2]);
}

#[test]
fn sorters_sort_or_leave() {
    let given = vec![bbox(rect(9, 9, 0, 1), 0usize), bbox(rect(1, 2, 0, 1), 1), bbox(rect(5, 6, 0, 1), 2)];
    let mut a = given.clone();
    DefaultSorter.sort(Axis::X, &mut a);
    let order: Vec<usize> = a.iter().map(|b| b.inner).collect();
    assert_eq!(order, vec![1, 2, 0]);
    let mut b = given.clone();
    NoSorter.sort(Axis::X, &mut b);
    let order: Vec<usize> = b.iter().map(|b| b.inner).collect();
    assert_eq!(order, vec![0, 1, 2]);
}

#[test]
fn finish_node_sorts_along_the_other_axis() {
    let mut mid = vec![bbox(rect(0, 10, 9, 9), 0usize), bbox(rect(-3, 2, 1, 2), 1), bbox(rect(1, 12, 5, 6), 2)];
    let node = finish_node(Axis::X, &mut mid, DefaultSorter, 100, Some(1), 17);
    assert_eq!(
        node,
        Node { start: 100, end: 103, cont: Range { start: -3, end: 12 }, div: Some(1), num_elem: 17 }
    );
    let order: Vec<usize> = mid.iter().map(|b| b.inner).collect();
    assert_eq!(order, vec![1, 2, 0]);
}

#[test]
fn split_node_makes_the_node_and_the_three_bins() {
    let bots = vec![
        bbox(rect(10, 11, 5, 6), 0usize),
        bbox(rect(30, 31, 4, 5), 1),
        bbox(rect(20, 21, 3, 4), 2),
        bbox(rect(50, 51, 2, 3), 3),
        bbox(rect(40, 41, 1, 2), 4),
        bbox(rect(25, 35, 0, 1), 5),
    ];
    let (node, mid, left, right) = split_node(bots, Axis::X, 7, DefaultSorter);
    assert_eq!(node, Node { start: 7, end: 9, cont: Range { start: 25, end: 35 }, div: Some(30), num_elem: 4 });
    let order: Vec<usize> = mid.iter().map(|b| b.inner).collect();
    assert_eq!(order, vec![5, 1]);
    assert_eq!(ids(&left), vec![0, 2]);
    assert_eq!(ids(&right), vec![3, 4]);
}

#[test]
fn a_tree_of_height_one_is_one_sorted_leaf() {
    let bots = vec![bbox(rect(0, 10, 9, 9), 0usize), bbox(rect(-3, 2, 1, 2), 1), bbox(rect(1, 12, 5, 6), 2)];
    let (elems, nodes) = build_tree(bots, 1, DefaultSorter);
    assert_eq!(nodes, vec![Node { start: 0, end: 3, cont: Range { start: -3, end: 12 }, div: None, num_elem: 0 }]);
    let order: Vec<usize> = elems.iter().map(|b| b.inner).collect();
    assert_eq!(order, vec![1, 2, 0]);
}

#[test]
fn a_tree_of_height_two() {
    let bots = vec![
        bbox(rect(10, 11, 5, 6), 0usize),
        bbox(rect(30, 31, 4, 5), 1),
        bbox(rect(20, 21, 3, 4), 2),
        bbox(rect(50, 51, 2, 3), 3),
        bbox(rect(40, 41, 1, 2), 4),
        bbox(rect(25, 35, 0, 1), 5),
    ];
    let (elems, nodes) = build_tree(bots, 2, DefaultSorter);
    assert_eq!(
        nodes,
        vec![
            Node { start: 0, end: 2, cont: Range { start: 25, end: 35 }, div: Some(30), num_elem: 4 },
            Node { start: 2, end: 4, cont: Range { start: 3, end: 6 }, div: None, num_elem: 0 },
            Node { start: 4, end: 6, cont: Range { start: 1, end: 3 }, div: None, num_elem: 0 },
        ]
    );
    let order: Vec<usize> = elems.iter().map(|b| b.inner).collect();
    // the root sorts by y, the leaves are on the y axis and sort by x
    assert_eq!(order, vec![5, 1, 0, 2, 4, 3]);
}

#[test]
fn a_tree_over_nothing_has_empty_nodes() {
    let (elems, nodes) = build_tree(Vec::<BBox<()>>::new(), 3, DefaultSorter);
    assert!(elems.is_empty());
    assert_eq!(nodes.len(), 7);
    for n in nodes {
        assert_eq!(n, Node { start: 0, end: 0, cont: Range { start: 0, end: 0 }, div: None, num_elem: 0 });
    }
}

#[test]
fn build_keeps_every_element() {
    for seed in 0..10u64 {
        let bots = scatter(seed, 700, 1000, 50);
        let (elems, nodes) = build_subtree(bots, 5, Axis::X, 0, DefaultSorter);
        assert_eq!(nodes.len(), 31);
        assert_eq!(ids(&elems), (0..700).collect::<Vec<usize>>());
        assert!(tree_invariants_hold(&elems, &nodes, 5, true));
    }
}

#[test]
fn build_without_sorting() {
    let bots = scatter(4, 700, 1000, 50);
    let (elems, nodes) = build_subtree(bots, 5, Axis::X, 0, NoSorter);
    assert_eq!(ids(&elems), (0..700).collect::<Vec<usize>>());
    assert!(tree_invariants_hold(&elems, &nodes, 5, false));
    assert!(!tree_invariants_hold(&elems, &nodes, 5, true));
}

#[test]
fn build_from_a_base_counts_positions_from_it() {
    let bots = scatter(8, 100, 300, 30);
    let (_, at_zero) = build_subtree(bots.clone(), 3, Axis::Y, 0, DefaultSorter);
    let (_, at_base) = build_subtree(bots, 3, Axis::Y, 1000, DefaultSorter);
    for (a, b) in at_zero.iter().zip(at_base.iter()) {
        assert_eq!(a.start + 1000, b.start);
        assert_eq!(a.end + 1000, b.end);
        assert_eq!(a.cont, b.cont);
        assert_eq!(a.div, b.div);
        assert_eq!(a.num_elem, b.num_elem);
    }
}

#[test]
fn build_on_several_threads_makes_the_same_nodes() {
    let bots = scatter(21, 20_000, 100_000, 300);
    let (seq_elems, seq_nodes) = build_tree(bots.clone(), 9, DefaultSorter);
    let (par_elems, par_nodes) = build_tree_par(bots.clone(), 9, DefaultSorter);
    assert_eq!(seq_nodes, par_nodes);
    assert_eq!(ids(&par_elems), ids(&seq_elems));
    assert!(tree_invariants_hold(&par_elems, &par_nodes, 9, true));
    let (low_elems, low_nodes) = build_subtree_par(bots, 9, Axis::X, 0, DefaultSorter, 10);
    assert_eq!(seq_nodes, low_nodes);
    assert!(tree_invariants_hold(&low_elems, &low_nodes, 9, true));
}

#[test]
fn tree_new_picks_the_height() {
    let tree = Tree::new(scatter(1, 10, 100, 10));
    assert_eq!(tree.get_height(), 1);
    assert_eq!(tree.num_nodes(), 1);
    let tree = Tree::new(scatter(1, 10_000, 100_000, 100));
    assert_eq!(tree.get_height(), 9);
    assert_eq!(tree.num_nodes(), 511);
    assert_eq!(tree.get_nodes().len(), 511);
    assert_eq!(tree.get_elements().len(), 10_000);
    assert!(assert_tree_invariants(&tree));
    let tree = Tree::with_height(scatter(1, 10, 100, 10), 4);
    assert_eq!(tree.get_height(), 4);
    assert_eq!(tree.num_nodes(), 15);
    assert!(assert_tree_invariants(&tree));
    let tree = NotSortedTree::new(scatter(1, 1000, 10_000, 100));
    assert_eq!(tree.get_height(), 5);
    let (elems, nodes) = (tree.get_elements(), tree.get_nodes());
    assert!(tree_invariants_hold(elems, nodes, 5, false));
}

#[test]
fn tree_par_new_is_well_formed() {
    let tree = Tree::par_new(scatter(2, 30_000, 100_000, 100));
    assert_eq!(tree.get_height(), 9);
    assert!(assert_tree_invariants(&tree));
    let back = tree.into_inner();
    assert_eq!(ids(&back), (0..30_000).collect::<Vec<usize>>());
}

#[test]
fn checks_tell_valid_from_invalid() {
    let good = vec![bbox(rect(0, 1, 0, 1), ()), bbox(rect(5, 5, 5, 5), ())];
    assert!(check_valid(&good));
    let bad = vec![bbox(rect(0, 1, 0, 1), ()), bbox(rect(5, 4, 5, 5), ())];
    assert!(!check_valid(&bad));
    assert!(check_valid(&Vec::<BBox<()>>::new()));
}

#[test]
fn checks_of_single_properties() {
    let bots = vec![
        bbox(rect(0, 4, 3, 4), ()),
        bbox(rect(2, 9, 1, 2), ()),
        bbox(rect(2, 3, 2, 8), ()),
        bbox(rect(7, 8, 0, 1), ()),
    ];
    assert!(check_sorted(&bots, Axis::X, 0, 4));
    assert!(!check_sorted(&bots, Axis::Y, 0, 4));
    assert!(check_sorted(&bots, Axis::Y, 1, 3));
    assert!(check_sorted(&bots, Axis::Y, 2, 2));
    assert!(check_hull(&bots, Axis::X, 0, 4, Range { start: 0, end: 9 }));
    assert!(!check_hull(&bots, Axis::X, 0, 4, Range { start: 0, end: 10 }));
    assert!(!check_hull(&bots, Axis::X, 0, 4, Range { start: -1, end: 9 }));
    assert!(check_hull(&bots, Axis::Y, 1, 3, Range { start: 1, end: 8 }));
    assert!(check_hull(&bots, Axis::Y, 1, 1, Range { start: 0, end: 0 }));
    assert!(!check_hull(&bots, Axis::Y, 1, 1, Range { start: 1, end: 1 }));
    // starts along x: 0 2 2 7; at index 2: 2
    assert!(check_median(&bots, Axis::X, 0, 4, 2));
    assert!(!check_median(&bots, Axis::X, 0, 4, 0));
    assert!(!check_median(&bots, Axis::X, 0, 4, 7));
    assert!(!check_median(&bots, Axis::X, 0, 4, 3));
    // starts along y of the last three: 1 2 0; in order 0 1 2; at index 1: 1
    assert!(check_median(&bots, Axis::Y, 1, 4, 1));
    assert!(!check_median(&bots, Axis::Y, 1, 4, 2));
    assert!(!check_median(&bots, Axis::Y, 1, 1, 0));
}

#[test]
fn the_invariant_check_finds_what_is_broken() {
    let (elems, nodes) = build_tree(scatter(5, 300, 1000, 60), 3, DefaultSorter);
    assert!(tree_invariants_hold(&elems, &nodes, 3, true));
    assert!(check_subtree(&elems, &nodes, 0, 7, 3, Axis::X, 0, 300, true));
    assert!(!tree_invariants_hold(&elems, &nodes, 2, true));
    assert!(!tree_invariants_hold(&elems, &nodes, 0, true));
    assert!(!tree_invariants_hold(&elems, &nodes[0..6], 3, true));

    let mut wrong = nodes.clone();
    wrong[0].cont.end += 1;
    assert!(!tree_invariants_hold(&elems, &wrong, 3, true));
    let mut wrong = nodes.clone();
    wrong[0].div = wrong[0].div.map(|d| d + 1000);
    assert!(!tree_invariants_hold(&elems, &wrong, 3, true));
    let mut wrong = nodes.clone();
    wrong[3].div = Some(0);
    assert!(!tree_invariants_hold(&elems, &wrong, 3, true));
    let mut wrong = nodes.clone();
    wrong[1].num_elem += 1;
    assert!(!tree_invariants_hold(&elems, &wrong, 3, true));
    let mut wrong = nodes.clone();
    wrong[4].start += 1;
    assert!(!tree_invariants_hold(&elems, &wrong, 3, true));

    let mut moved = elems.clone();
    let (a, b) = (nodes[0].start, nodes[0].start + 1);
    if moved[a].rect.y.start != moved[b].rect.y.start {
        moved.swap(a, b);
        assert!(!tree_invariants_hold(&moved, &nodes, 3, true));
        assert!(tree_invariants_hold(&moved, &nodes, 3, false));
    }
    let mut invalid = elems.clone();
    invalid[7].rect.y.end = invalid[7].rect.y.start - 1;
    assert!(!tree_invariants_hold(&invalid, &nodes, 3, true));
}

#[test]
fn from_raw_parts_takes_well_formed_trees_only() {
    let (elems, nodes) = build_tree(scatter(5, 300, 1000, 60), 3, DefaultSorter);
    let tree = Tree::from_raw_parts(elems.clone(), nodes.clone(), 3);
    assert!(tree.is_ok());
    let tree = tree.ok().unwrap();
    assert_eq!(tree.get_nodes(), &nodes[..]);
    assert_eq!(tree.get_height(), 3);
    let mut wrong = nodes.clone();
    wrong[2].end += 1;
    match Tree::from_raw_parts(elems.clone(), wrong.clone(), 3) {
        Ok(_) => panic!("a broken tree was taken"),
        Err((e, n)) => {
            assert_eq!(e.len(), 300);
            assert_eq!(n, wrong);
        }
    }
    assert!(Tree::from_raw_parts(elems, nodes, 5).is_err());
}
